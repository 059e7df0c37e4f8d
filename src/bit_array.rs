use vstd::prelude::*;
use vstd::arithmetic::power2::pow2;
use crate::layout::{
    bit_at, bits_value, packed_element, storage_len, lemma_bits_value_spells,
    lemma_read_within_byte, lemma_read_across_bytes, lemma_write_within_byte,
    lemma_write_across_first, lemma_write_across_second, lemma_bits_value_frame,
    lemma_bits_value_bound,
};

verus! {

/// The width of one storage word, in bits.
const WORD_SIZE: usize = 8;

/// Why an operation on a [`BitArray`] was refused.
#[derive(Debug, Clone, Copy, PartialEq, Eq, Structural)]
pub enum BitArrayError {
    /// The register size is not between 1 and 7 bits.
    ConfigurationError,
    /// The index is not below the array's length.
    OutOfRange,
}

/// An array of `capacity` unsigned integers of `register_size` bits each,
/// packed back to back, most significant bit first, into the fewest bytes
/// that hold them.
///
/// `set` overwrites: it clears the element's bits before it writes the new
/// value, so an index can be written any number of times.
pub struct BitArray {
    register_size: u8,
    elems: Vec<u8>,
    capacity: usize,
}

impl BitArray {
    /// The number of bits of each element.
    pub closed spec fn spec_register_size(&self) -> nat {
        self.register_size as nat
    }

    /// The number of elements.
    pub closed spec fn spec_capacity(&self) -> nat {
        self.capacity as nat
    }

    /// The packed bytes.
    pub closed spec fn spec_storage(&self) -> Seq<u8> {
        self.elems@
    }

    /// The register size is between 1 and 7, the storage has exactly the
    /// bytes that the elements need, and the padding bits after the last
    /// element are zero.
    pub closed spec fn wf(&self) -> bool {
        &&& 1 <= self.register_size <= 7
        &&& self.capacity * 8 + 7 <= usize::MAX
        &&& self.elems@.len() == storage_len(self.register_size as nat, self.capacity as nat)
        &&& forall|p: nat|
            self.register_size * self.capacity <= p < 8 * self.elems@.len() ==> #[trigger] bit_at(
                self.elems@,
                p,
            ) == 0
    }

    /// Creates an array of `capacity` elements of `register_size` bits, all
    /// zero, in `ceil(register_size * capacity / 8)` zeroed bytes. Fails with
    /// `ConfigurationError` unless `register_size` is between 1 and 7. The
    /// bit count of the largest capacity must fit in a `usize`.
    pub fn new(register_size: u8, capacity: usize) -> (r: Result<BitArray, BitArrayError>)
        requires
            capacity * 8 + 7 <= usize::MAX,
        ensures
            r is Ok <==> 1 <= register_size <= 7,
            r is Err ==> r->Err_0 == BitArrayError::ConfigurationError,
            r is Ok ==> {
                let a = r->Ok_0;
                &&& a.wf()
                &&& a.spec_register_size() == register_size
                &&& a@ == Seq::new(capacity as nat, |i: int| 0nat)
                &&& a.spec_storage() == Seq::new(
                    storage_len(register_size as nat, capacity as nat),
                    |i: int| 0u8,
                )
            },
    {
        if register_size == 0 || register_size as usize >= WORD_SIZE {
            return Err(BitArrayError::ConfigurationError);
        }
        let register_size_ = register_size as usize;
        assert(register_size_ * capacity <= 8 * capacity) by (nonlinear_arith)
            requires
                register_size_ < 8,
        ;
        let slice_len = ((register_size_ * capacity) + (WORD_SIZE - 1)) / WORD_SIZE;
        let elems: Vec<u8> = vec![0u8; slice_len];
        let a = BitArray { register_size, elems, capacity };
        proof {
            let r = register_size as nat;
            assert(forall|k: u8| #[trigger] ((0u8 >> k) & 1u8) == 0u8) by (bit_vector);
            assert(forall|k: u8| #[trigger] (0u8 >> k) == 0u8) by (bit_vector);
            assert forall|p: nat| p < 8 * elems@.len() implies #[trigger] bit_at(elems@, p) == 0 by {
                assert(elems@[(p / 8) as int] == 0u8);
            }
            assert forall|i: int| 0 <= i < capacity implies #[trigger] a@[i] == 0nat by {
                assert(i * r + r <= r * capacity) by (nonlinear_arith)
                    requires
                        i + 1 <= capacity,
                ;
                lemma_bits_value_spells(elems@, (i * r) as nat, r, 0u8, r);
            }
            assert(a@ =~= Seq::new(capacity as nat, |i: int| 0nat));
            assert(elems@ =~= Seq::new(storage_len(r, capacity as nat), |i: int| 0u8));
        }
        Ok(a)
    }

    /// The number of elements.
    pub fn len(&self) -> (r: usize)
        ensures
            r == self@.len(),
    {
        self.capacity
    }

    /// The element at `index`, or `OutOfRange` when `index` is not below the
    /// length.
    pub fn get(&self, index: usize) -> (r: Result<u8, BitArrayError>)
        requires
            self.wf(),
        ensures
            r is Ok <==> index < self@.len(),
            r is Ok ==> r->Ok_0 as nat == self@[index as int],
            r is Ok ==> (r->Ok_0 as nat) < pow2(self.spec_register_size()),
            r is Err ==> r->Err_0 == BitArrayError::OutOfRange,
    {
        if index >= self.capacity {
            return Err(BitArrayError::OutOfRange);
        }
        proof {
            self.lemma_element_in_storage(index as nat);
        }
        let offset = index * self.register_size as usize;
        let slice_index = offset / WORD_SIZE;
        let start_bit = (offset % WORD_SIZE) as u8;
        let value = read_bits(self.elems.as_slice(), slice_index, start_bit, self.register_size);
        proof {
            lemma_bits_value_bound(self.elems@, offset as nat, self.register_size as nat);
        }
        Ok(value)
    }

    /// Overwrites the element at `index` with the low `register_size` bits of
    /// `value`; every other element keeps its value. Fails with `OutOfRange`,
    /// and changes nothing, when `index` is not below the length.
    pub fn set(&mut self, index: usize, value: u8) -> (r: Result<(), BitArrayError>)
        requires
            old(self).wf(),
        ensures
            final(self).wf(),
            final(self).spec_register_size() == old(self).spec_register_size(),
            final(self)@.len() == old(self)@.len(),
            r is Ok <==> index < old(self)@.len(),
            r is Ok ==> final(self)@ == old(self)@.update(
                index as int,
                value as nat % pow2(old(self).spec_register_size()),
            ),
            r is Err ==> r->Err_0 == BitArrayError::OutOfRange && *final(self) == *old(self),
    {
        if index >= self.capacity {
            return Err(BitArrayError::OutOfRange);
        }
        let r = self.register_size;
        proof {
            self.lemma_element_in_storage(index as nat);
        }
        let offset = index * r as usize;
        let slice_index = offset / WORD_SIZE;
        let start_bit = (offset % WORD_SIZE) as u8;
        let rm = init_right_mask(r);
        let v = value & rm;
        proof {
            vstd::bits::lemma_u8_low_bits_mask_is_mod(value, r as nat);
            assert(forall|y: u8, z: u8| z <= 7 ==> #[trigger] ((y & (((1u8 << z) - 1u8) as u8)) >> z)
                == 0) by (bit_vector);
            assert(v >> 0u8 == v) by (bit_vector);
        }
        let ghost before = self@;
        let ghost old_bytes = self.elems@;
        write_bits(&mut self.elems, slice_index, start_bit, r, v);
        proof {
            let rr = r as nat;
            let start = offset as nat;
            lemma_bits_value_spells(self.elems@, start, rr, v, rr);
            assert forall|j: int| 0 <= j < self.capacity implies #[trigger] self@[j] == before.update(
                index as int,
                value as nat % pow2(rr),
            )[j] by {
                if j == index {
                    assert(self@[j] == v as nat);
                } else {
                    self.lemma_element_in_storage(j as nat);
                    assert(j * rr + rr <= start || start + rr <= j * rr) by (nonlinear_arith)
                        requires
                            j != index,
                            start == index * rr,
                    ;
                    lemma_bits_value_frame(self.elems@, old_bytes, (j * rr) as nat, rr);
                    assert(self@[j] == before[j]);
                }
            }
            assert(self@ =~= before.update(index as int, value as nat % pow2(rr)));
            assert(start + rr <= rr * self.capacity) by (nonlinear_arith)
                requires
                    index < self.capacity,
                    start == index * rr,
            ;
        }
        Ok(())
    }

    /// The packed bytes.
    pub fn as_bytes(&self) -> (r: &[u8])
        ensures
            r@ == self.spec_storage(),
    {
        self.elems.as_slice()
    }

    /// Walks the elements in order with a cursor into the bytes.
    pub fn iter(&self) -> (r: Iter<'_>)
        requires
            self.wf(),
        ensures
            r.wf(),
            r.remaining() == self@,
    {
        let it = Iter {
            slice: self.elems.as_slice(),
            register_size: self.register_size,
            cursor: 0,
            start_bit: 0,
            count: self.capacity,
        };
        proof {
            assert(self.register_size * self.capacity <= 7 * self.capacity) by (nonlinear_arith)
                requires
                    self.register_size <= 7,
            ;
            assert(it.remaining() =~= self@);
        }
        it
    }

    /// Walks the elements in order by index, reading each with `get`.
    pub fn iter2(&self) -> (r: Iter2<'_>)
        requires
            self.wf(),
        ensures
            r.wf(),
            r.remaining() == self@,
    {
        let it = Iter2 { slice: self, index: 0, cap: self.capacity };
        proof {
            assert(it.remaining() =~= self@);
        }
        it
    }

    /// The elements in order, each read with `get`.
    pub fn iter3(&self) -> (r: Vec<u8>)
        requires
            self.wf(),
        ensures
            r@.map_values(|x: u8| x as nat) == self@,
    {
        let mut out: Vec<u8> = Vec::new();
        let mut i: usize = 0;
        while i < self.capacity
            invariant
                self.wf(),
                i <= self.capacity,
                out@.len() == i,
                forall|k: int| 0 <= k < i ==> out@[k] as nat == self@[k],
            decreases self.capacity - i,
        {
            match self.get(i) {
                Ok(x) => out.push(x),
                Err(_) => {},
            }
            i = i + 1;
        }
        assert(out@.map_values(|x: u8| x as nat) =~= self@);
        out
    }

    /// Element `index` lies inside the storage.
    proof fn lemma_element_in_storage(&self, index: nat)
        requires
            self.wf(),
            index < self.capacity,
        ensures
            index * self.register_size + self.register_size <= self.register_size * self.capacity,
            self.register_size * self.capacity <= 8 * self.elems@.len(),
            self.register_size * self.capacity <= 7 * self.capacity,
    {
        let r = self.register_size as nat;
        assert(index * r + r <= r * self.capacity) by (nonlinear_arith)
            requires
                index < self.capacity,
        ;
        assert(r * self.capacity <= 7 * self.capacity) by (nonlinear_arith)
            requires
                r <= 7,
        ;
    }
}

impl View for BitArray {
    type V = Seq<nat>;

    /// The elements, in order.
    open spec fn view(&self) -> Seq<nat> {
        Seq::new(
            self.spec_capacity(),
            |i: int| packed_element(self.spec_storage(), self.spec_register_size(), i as nat),
        )
    }
}

/// Writing a value below `2^register_size` at an index, and reading that
/// index back, gives the value.
pub proof fn lemma_set_then_get(before: BitArray, after: BitArray, index: int, value: u8)
    requires
        before.wf(),
        0 <= index < before@.len(),
        (value as nat) < pow2(before.spec_register_size()),
        after@ == before@.update(index, value as nat % pow2(before.spec_register_size())),
    ensures
        after@[index] == value as nat,
{
    vstd::arithmetic::div_mod::lemma_small_mod(value as nat, pow2(before.spec_register_size()));
}

/// Writing an element leaves every other element as it was.
pub proof fn lemma_set_keeps_others(before: BitArray, after: BitArray, index: int, value: u8)
    requires
        before.wf(),
        0 <= index < before@.len(),
        after@ == before@.update(index, value as nat % pow2(before.spec_register_size())),
    ensures
        forall|j: int| 0 <= j < before@.len() && j != index ==> after@[j] == before@[j],
{
    vstd::arithmetic::power2::lemma_pow2_pos(before.spec_register_size());
    let v = value as nat % pow2(before.spec_register_size());
    assert forall|j: int| 0 <= j < before@.len() && j != index implies after@[j] == before@[j] by {
        assert(after@[j] == before@.update(index, v)[j]);
    }
}

/// Writing an element, at any index, keeps the length.
pub proof fn lemma_set_keeps_len(before: BitArray, after: BitArray, index: nat, value: u8)
    requires
        before.wf(),
        index < before@.len() ==> after@ == before@.update(
            index as int,
            value as nat % pow2(before.spec_register_size()),
        ),
        index >= before@.len() ==> after == before,
    ensures
        after@.len() == before@.len(),
{
    vstd::arithmetic::power2::lemma_pow2_pos(before.spec_register_size());
}

/// A mask of the low `r_size` bits of a byte.
fn init_right_mask(r_size: u8) -> (m: u8)
    requires
        r_size <= 7,
    ensures
        m as nat == pow2(r_size as nat) - 1,
        m == ((1u8 << r_size) - 1u8) as u8,
        pow2(r_size as nat) <= 128,
{
    proof {
        vstd::arithmetic::power2::lemma2_to64();
        assert(pow2(r_size as nat) <= 128);
        vstd::bits::lemma_u8_shl_is_mul(1u8, r_size);
    }
    (1u8 << r_size) - 1
}

/// A mask of `r_size` bits at the top of a byte.
fn init_left_mask(r_size: u8) -> (m: u8)
    requires
        1 <= r_size <= 7,
    ensures
        m == ((((1u8 << r_size) - 1u8) as u8) << ((8 - r_size) as u8)) as u8,
{
    init_right_mask(r_size) << (WORD_SIZE as u8 - r_size)
}

/// Reads the `r` bits of `bytes` that start at bit `offset` of byte `byte`.
fn read_bits(bytes: &[u8], byte: usize, offset: u8, r: u8) -> (x: u8)
    requires
        1 <= r <= 7,
        offset < 8,
        8 * byte + offset + r <= 8 * bytes@.len(),
    ensures
        x as nat == bits_value(bytes@, (8 * byte + offset) as nat, r as nat),
{
    let end = offset + r;
    let rm = init_right_mask(r);
    let x: u8;
    if end as usize > WORD_SIZE {
        let window: u16 = ((bytes[byte] as u16) << 8u16) | (bytes[byte + 1] as u16);
        x = (#[verifier::truncate] ((window >> (16 - end as u16)) as u8)) & rm;
    } else {
        x = (bytes[byte] >> (WORD_SIZE as u8 - end)) & rm;
    }
    proof {
        let start = (8 * byte + offset) as nat;
        assert forall|p: nat| start <= p < start + r implies bit_at(bytes@, p) == ((x >> ((start
            + r - 1 - p) as u8)) & 1u8) as nat by {
            let m = (p - start) as u8;
            if end > 8 {
                lemma_read_across_bytes(bytes@[byte as int], bytes@[byte + 1], offset, r, m);
            } else {
                lemma_read_within_byte(bytes@[byte as int], offset, r, m);
            }
        }
        assert(x >> r == 0) by {
            assert(forall|y: u8, z: u8| z <= 7 ==> #[trigger] ((y & (((1u8 << z) - 1u8) as u8)) >> z)
                == 0) by (bit_vector);
        }
        lemma_bits_value_spells(bytes@, start, r as nat, x, r as nat);
        assert(x >> 0u8 == x) by (bit_vector);
    }
    x
}

/// Overwrites the `r` bits of `bytes` that start at bit `offset` of byte
/// `byte` with the `r`-bit value `v`, and leaves every other bit as it was.
fn write_bits(bytes: &mut Vec<u8>, byte: usize, offset: u8, r: u8, v: u8)
    requires
        1 <= r <= 7,
        offset < 8,
        8 * byte + offset + r <= 8 * old(bytes)@.len(),
        old(bytes)@.len() <= usize::MAX,
        v >> r == 0,
    ensures
        final(bytes)@.len() == old(bytes)@.len(),
        forall|p: nat|
            p < 8 * old(bytes)@.len() ==> #[trigger] bit_at(final(bytes)@, p) == if 8 * byte + offset
                <= p < 8 * byte + offset + r {
                ((v >> ((8 * byte + offset + r - 1 - p) as u8)) & 1u8) as nat
            } else {
                bit_at(old(bytes)@, p)
            },
{
    let end = offset + r;
    let lm = init_left_mask(r);
    let b0 = bytes[byte];
    if end as usize > WORD_SIZE {
        let over = end - WORD_SIZE as u8;
        let b1 = bytes[byte + 1];
        bytes.set(byte, (b0 & !(lm >> offset)) | (v >> over));
        bytes.set(byte + 1, (b1 & !(lm << (WORD_SIZE as u8 - offset))) | (v << (16 - end)));
    } else {
        bytes.set(byte, (b0 & !(lm >> offset)) | (v << (WORD_SIZE as u8 - end)));
    }
    proof {
        let start = 8 * byte + offset;
        assert forall|p: nat| p < 8 * old(bytes)@.len() implies #[trigger] bit_at(bytes@, p) == if start
            <= p < start + r {
            ((v >> ((start + r - 1 - p) as u8)) & 1u8) as nat
        } else {
            bit_at(old(bytes)@, p)
        } by {
            let q = p / 8;
            let k = (p % 8) as u8;
            if q == byte {
                if end > 8 {
                    lemma_write_across_first(b0, v, offset, r, lm, k);
                } else {
                    lemma_write_within_byte(b0, v, offset, r, lm, k);
                }
            } else if q == byte + 1 && end > 8 {
                lemma_write_across_second(old(bytes)@[byte + 1], v, offset, r, lm, k);
            } else {
                assert(bytes@[q as int] == old(bytes)@[q as int]);
            }
        }
    }
}

/// A walk over the elements of a [`BitArray`] that keeps a cursor into the
/// bytes: the byte that holds the next element's first bit, and how many
/// bits of that byte earlier elements took.
pub struct Iter<'a> {
    slice: &'a [u8],
    register_size: u8,
    cursor: usize,
    start_bit: u8,
    count: usize,
}

impl<'a> Iter<'a> {
    /// The elements that the walk has still to yield, in order.
    pub closed spec fn remaining(&self) -> Seq<nat> {
        Seq::new(
            self.count as nat,
            |k: int|
                bits_value(
                    self.slice@,
                    (8 * self.cursor + self.start_bit + k * self.register_size) as nat,
                    self.register_size as nat,
                ),
        )
    }

    /// The cursor and the elements still to come lie inside the bytes.
    pub closed spec fn wf(&self) -> bool {
        &&& 1 <= self.register_size <= 7
        &&& self.start_bit < 8
        &&& self.slice@.len() <= usize::MAX
        &&& 8 * self.cursor + self.start_bit + self.count * self.register_size <= 8
            * self.slice@.len()
    }

    /// The next element, or `None` once every element has been yielded.
    pub fn next(&mut self) -> (r: Option<u8>)
        requires
            old(self).wf(),
        ensures
            final(self).wf(),
            old(self).remaining().len() == 0 ==> r is None && final(self).remaining() == old(
                self,
            ).remaining(),
            old(self).remaining().len() > 0 ==> r is Some && r->Some_0 as nat == old(
                self,
            ).remaining()[0] && final(self).remaining() == old(self).remaining().drop_first(),
    {
        if self.count == 0 {
            return None;
        }
        let r = self.register_size;
        let ghost before = self.remaining();
        proof {
            assert(self.count * r >= r) by (nonlinear_arith)
                requires
                    self.count >= 1,
            ;
        }
        let value = read_bits(self.slice, self.cursor, self.start_bit, r);
        let end = self.start_bit + r;
        if end as usize >= WORD_SIZE {
            self.cursor = self.cursor + 1;
            self.start_bit = end - WORD_SIZE as u8;
        } else {
            self.start_bit = end;
        }
        self.count = self.count - 1;
        proof {
            let base = 8 * old(self).cursor + old(self).start_bit;
            assert(8 * self.cursor + self.start_bit == base + r);
            assert forall|k: int| 0 <= k < self.count implies #[trigger] self.remaining()[k]
                == before[k + 1] by {
                assert(base + r + k * r == base + (k + 1) * r) by (nonlinear_arith);
            }
            let c = self.count as int;
            assert(c * r + r == (c + 1) * r) by (nonlinear_arith);
            assert(self.remaining() =~= before.drop_first());
        }
        Some(value)
    }

    /// Yields every remaining element, in order.
    pub fn collect(self) -> (r: Vec<u8>)
        requires
            self.wf(),
        ensures
            r@.map_values(|x: u8| x as nat) == self.remaining(),
    {
        let ghost all = self.remaining();
        let mut it = self;
        let mut out: Vec<u8> = Vec::new();
        while it.count > 0
            invariant
                it.wf(),
                out@.len() + it.remaining().len() == all.len(),
                forall|k: int| 0 <= k < out@.len() ==> out@[k] as nat == all[k],
                it.remaining() == all.subrange(out@.len() as int, all.len() as int),
            decreases it.count,
        {
            match it.next() {
                Some(x) => out.push(x),
                None => {},
            }
        }
        assert(out@.map_values(|x: u8| x as nat) =~= all);
        out
    }
}

/// A walk over the elements of a [`BitArray`] by index.
pub struct Iter2<'a> {
    slice: &'a BitArray,
    index: usize,
    cap: usize,
}

impl<'a> Iter2<'a> {
    /// The elements that the walk has still to yield, in order.
    pub closed spec fn remaining(&self) -> Seq<nat> {
        self.slice@.subrange(self.index as int, self.cap as int)
    }

    /// The index has not passed the end of the array.
    pub closed spec fn wf(&self) -> bool {
        &&& self.slice.wf()
        &&& self.cap == self.slice@.len()
        &&& self.index <= self.cap
    }

    /// The next element, or `None` once every element has been yielded.
    pub fn next(&mut self) -> (r: Option<u8>)
        requires
            old(self).wf(),
        ensures
            final(self).wf(),
            old(self).remaining().len() == 0 ==> r is None && final(self).remaining() == old(
                self,
            ).remaining(),
            old(self).remaining().len() > 0 ==> r is Some && r->Some_0 as nat == old(
                self,
            ).remaining()[0] && final(self).remaining() == old(self).remaining().drop_first(),
    {
        if self.index == self.cap {
            None
        } else {
            let e = self.slice.get(self.index);
            self.index += 1;
            proof {
                assert(self.remaining() =~= old(self).remaining().drop_first());
            }
            match e {
                Ok(x) => Some(x),
                Err(_) => None,
            }
        }
    }

    /// Yields every remaining element, in order.
    pub fn collect(self) -> (r: Vec<u8>)
        requires
            self.wf(),
        ensures
            r@.map_values(|x: u8| x as nat) == self.remaining(),
    {
        let ghost all = self.remaining();
        let mut it = self;
        let mut out: Vec<u8> = Vec::new();
        while it.index < it.cap
            invariant
                it.wf(),
                out@.len() + it.remaining().len() == all.len(),
                forall|k: int| 0 <= k < out@.len() ==> out@[k] as nat == all[k],
                it.remaining() == all.subrange(out@.len() as int, all.len() as int),
            decreases it.cap - it.index,
        {
            match it.next() {
                Some(x) => out.push(x),
                None => {},
            }
        }
        assert(out@.map_values(|x: u8| x as nat) =~= all);
        out
    }
}

} // verus!
