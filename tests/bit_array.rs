use packed_bits::{BitArray, BitArrayError};

#[test]
fn get_set() {
    for i in 1..128 {
        for w in 1..8 {
            println!("Creating array with w = {} and cap = {}", w, i);
            let num_max = 1 << w;
            let mut v = BitArray::new(w, i).unwrap();
            for n in 0..i {
                v.set(n, (n as u8) % num_max).unwrap();
            }
            for n in 0..i {
                assert_eq!(n as u8 % num_max, v.get(n).unwrap(), "Indexing: {}", n);
            }
        }
    }
}

#[test]
fn iter() {
    for i in 1..128 {
        for w in 1..8 {
            println!("Creating array with w = {} and cap = {}", w, i);
            let num_max = 1 << w;
            let mut v = BitArray::new(w, i).unwrap();
            for n in 0..i {
                v.set(n, (n as u8) % num_max).unwrap();
            }
            let vv = v.iter().collect();
            assert!(
                vv.iter().copied().eq((0..(i as u8)).map(|i| i % num_max)),
                "Expected '{:?}' got '{:?}",
                (0..(i as u8)).map(|i| i % num_max).collect::<Vec<_>>(),
                vv
            )
        }
    }
}

#[test]
fn len() {
    for i in 1..16 {
        for w in 1..8 {
            println!("Creating array with r_size = {} and cap = {}", w, i);
            let v = BitArray::new(w, i).unwrap();
            assert_eq!(v.len(), i);
            v.get(i - 1).unwrap();
        }
    }
}

#[test]
fn every_value_round_trips_at_every_index() {
    for w in 1..8u8 {
        for cap in [1usize, 2, 7, 8, 9, 64, 130] {
            for index in 0..cap {
                for value in 0..(1u16 << w) {
                    let mut a = BitArray::new(w, cap).unwrap();
                    a.set(index, value as u8).unwrap();
                    assert_eq!(a.get(index).unwrap(), value as u8);
                }
            }
        }
    }
}

#[test]
fn writing_one_element_keeps_the_others() {
    for w in 1..8u8 {
        let cap = 20usize;
        let max = ((1u16 << w) - 1) as u8;
        let mut a = BitArray::new(w, cap).unwrap();
        for n in 0..cap {
            a.set(n, (n as u8 * 3) & max).unwrap();
        }
        for i in 0..cap {
            let mut b = BitArray::new(w, cap).unwrap();
            for n in 0..cap {
                b.set(n, (n as u8 * 3) & max).unwrap();
            }
            b.set(i, max).unwrap();
            b.set(i, 0).unwrap();
            for j in 0..cap {
                if j != i {
                    assert_eq!(b.get(j).unwrap(), a.get(j).unwrap());
                }
            }
            assert_eq!(b.get(i).unwrap(), 0);
        }
    }
}

#[test]
fn all_walks_agree_with_get() {
    for w in 1..8u8 {
        for cap in 1..40usize {
            let max = ((1u16 << w) - 1) as u8;
            let mut a = BitArray::new(w, cap).unwrap();
            for n in 0..cap {
                a.set(n, (n as u8).wrapping_mul(37) & max).unwrap();
            }
            let by_get: Vec<u8> = (0..cap).map(|n| a.get(n).unwrap()).collect();
            assert_eq!(a.iter().collect(), by_get);
            assert_eq!(a.iter2().collect(), by_get);
            assert_eq!(a.iter3(), by_get);
            // A fresh walk starts over.
            assert_eq!(a.iter().collect(), by_get);
        }
    }
}

#[test]
fn walk_yields_len_items_then_none() {
    let mut a = BitArray::new(3, 5).unwrap();
    for n in 0..5 {
        a.set(n, n as u8 + 1).unwrap();
    }
    let mut it = a.iter();
    for n in 0..5u8 {
        assert_eq!(it.next(), Some(n + 1));
    }
    assert_eq!(it.next(), None);
    assert_eq!(it.next(), None);
    let mut it2 = a.iter2();
    for n in 0..5u8 {
        assert_eq!(it2.next(), Some(n + 1));
    }
    assert_eq!(it2.next(), None);
}

#[test]
fn length_is_unaffected_by_reads_and_writes() {
    let mut a = BitArray::new(4, 11).unwrap();
    assert_eq!(a.len(), 11);
    a.set(3, 9).unwrap();
    let _ = a.get(3).unwrap();
    assert_eq!(a.set(11, 1), Err(BitArrayError::OutOfRange));
    assert_eq!(a.get(11), Err(BitArrayError::OutOfRange));
    assert_eq!(a.len(), 11);
}

#[test]
fn storage_holds_the_fewest_bytes() {
    assert_eq!(BitArray::new(7, 1).unwrap().as_bytes().len(), 1);
    assert_eq!(BitArray::new(1, 8).unwrap().as_bytes().len(), 1);
    assert_eq!(BitArray::new(7, 2).unwrap().as_bytes().len(), 2);
    assert_eq!(BitArray::new(1, 9).unwrap().as_bytes().len(), 2);
    assert_eq!(BitArray::new(3, 0).unwrap().as_bytes().len(), 0);
    assert_eq!(BitArray::new(5, 3).unwrap().as_bytes(), &[0u8, 0u8][..]);
}

#[test]
fn five_bit_scenario() {
    let mut a = BitArray::new(5, 3).unwrap();
    a.set(0, 31).unwrap();
    a.set(1, 0).unwrap();
    a.set(2, 17).unwrap();
    assert_eq!(a.get(0).unwrap(), 31);
    assert_eq!(a.get(1).unwrap(), 0);
    assert_eq!(a.get(2).unwrap(), 17);
    // 11111 00000 10001 and one padding bit.
    assert_eq!(a.as_bytes(), &[0b1111_1000u8, 0b0010_0010u8][..]);
}

#[test]
fn register_size_must_be_one_to_seven() {
    assert_eq!(BitArray::new(8, 4).err(), Some(BitArrayError::ConfigurationError));
    assert_eq!(BitArray::new(200, 4).err(), Some(BitArrayError::ConfigurationError));
    assert_eq!(BitArray::new(0, 4).err(), Some(BitArrayError::ConfigurationError));
    assert!(BitArray::new(7, 4).is_ok());
    assert!(BitArray::new(1, 4).is_ok());
}

#[test]
fn rewriting_an_index_overwrites_it() {
    let mut a = BitArray::new(6, 4).unwrap();
    a.set(1, 63).unwrap();
    a.set(1, 5).unwrap();
    assert_eq!(a.get(1).unwrap(), 5);
    assert_eq!(a.iter3(), vec![0, 5, 0, 0]);
}

#[test]
fn only_the_low_bits_of_a_value_are_written() {
    let mut a = BitArray::new(3, 4).unwrap();
    a.set(1, 0b1111_1101).unwrap();
    assert_eq!(a.iter().collect(), vec![0, 0b101, 0, 0]);
    assert_eq!(a.as_bytes(), &[0b0001_0100u8, 0u8][..]);
}

#[test]
fn straddling_elements_read_across_bytes() {
    let mut a = BitArray::new(7, 3).unwrap();
    a.set(0, 0b101_0101).unwrap();
    a.set(1, 0b111_0001).unwrap();
    a.set(2, 0b000_1111).unwrap();
    // 1010101 1110001 0001111 and three padding bits.
    assert_eq!(a.as_bytes(), &[0b1010_1011u8, 0b1100_0100u8, 0b0111_1000u8][..]);
    assert_eq!(a.iter().collect(), vec![0b101_0101, 0b111_0001, 0b000_1111]);
}
