//! The mathematical model of the packed layout, and the facts about it that
//! the executable code relies on.
use vstd::prelude::*;
use vstd::arithmetic::power2::{pow2, lemma2_to64, lemma_pow2_unfold};

verus! {

/// Bit `pos` of the bit stream formed by `bytes`, counting from the most
/// significant bit of byte 0.
pub open spec fn bit_at(bytes: Seq<u8>, pos: nat) -> nat {
    ((bytes[(pos / 8) as int] >> ((7 - pos % 8) as u8)) & 1u8) as nat
}

/// The unsigned integer formed by the `n` bits of the stream that start at
/// bit `start`, most significant first.
pub open spec fn bits_value(bytes: Seq<u8>, start: nat, n: nat) -> nat
    decreases n,
{
    if n == 0 {
        0
    } else {
        2 * bits_value(bytes, start, (n - 1) as nat) + bit_at(bytes, (start + n - 1) as nat)
    }
}

/// Element `index` of a packed array of `register_size`-bit elements: the
/// bits `[index * register_size, (index + 1) * register_size)` of the stream.
pub open spec fn packed_element(bytes: Seq<u8>, register_size: nat, index: nat) -> nat {
    bits_value(bytes, index * register_size, register_size)
}

/// The fewest whole bytes that hold `capacity` elements of `register_size` bits.
pub open spec fn storage_len(register_size: nat, capacity: nat) -> nat {
    (register_size * capacity + 7) / 8
}

} // verus!

verus! {

/// Two streams that agree on bits `[start, start + n)` give the same value there.
pub proof fn lemma_bits_value_frame(a: Seq<u8>, b: Seq<u8>, start: nat, n: nat)
    requires
        forall|p: nat| start <= p < start + n ==> bit_at(a, p) == bit_at(b, p),
    ensures
        bits_value(a, start, n) == bits_value(b, start, n),
    decreases n,
{
    if n > 0 {
        lemma_bits_value_frame(a, b, start, (n - 1) as nat);
        assert(bit_at(a, (start + n - 1) as nat) == bit_at(b, (start + n - 1) as nat));
    }
}

/// A value read from `n` bits is below `2^n`.
pub proof fn lemma_bits_value_bound(bytes: Seq<u8>, start: nat, n: nat)
    ensures
        bits_value(bytes, start, n) < pow2(n),
    decreases n,
{
    if n == 0 {
        lemma2_to64();
    } else {
        lemma_bits_value_bound(bytes, start, (n - 1) as nat);
        lemma_pow2_unfold(n);
        assert(forall|b: u8, k: u8| #[trigger] ((b >> k) & 1u8) <= 1u8) by (bit_vector);
    }
}

proof fn lemma_shr_step(v: u8, k: u8)
    by (bit_vector)
    requires
        k < 8,
    ensures
        v >> k == (((v >> ((k + 1) as u8)) * 2 + ((v >> k) & 1u8)) as u8),
        v >> ((k + 1) as u8) <= 127,
        (v >> k) & 1u8 <= 1,
        v >> 0u8 == v,
{
}

/// Where the bits `[start, start + r)` of the stream spell out the `r`-bit
/// value `v`, most significant first, the first `n` of them read as `v`
/// without its low `r - n` bits.
pub proof fn lemma_bits_value_spells(bytes: Seq<u8>, start: nat, r: nat, v: u8, n: nat)
    requires
        r <= 7,
        n <= r,
        v >> (r as u8) == 0,
        forall|p: nat|
            start <= p < start + r ==> bit_at(bytes, p) == ((v >> ((start + r - 1 - p) as u8))
                & 1u8) as nat,
    ensures
        bits_value(bytes, start, n) == (v >> ((r - n) as u8)) as nat,
    decreases n,
{
    if n > 0 {
        lemma_bits_value_spells(bytes, start, r, v, (n - 1) as nat);
        let k = (r - n) as u8;
        lemma_shr_step(v, k);
        assert(((k + 1) as u8) == ((r - (n - 1)) as u8));
        let p = (start + n - 1) as nat;
        assert(bit_at(bytes, p) == ((v >> k) & 1u8) as nat);
    }
}

/// Reading an element that lies inside one byte.
pub proof fn lemma_read_within_byte(b: u8, s: u8, r: u8, m: u8)
    by (bit_vector)
    requires
        1 <= r,
        s + r <= 8,
        m < r,
    ensures
        (((b >> ((8 - s - r) as u8)) & (((1u8 << r) - 1u8) as u8)) >> ((r - 1 - m) as u8)) & 1u8
            == (b >> ((7 - s - m) as u8)) & 1u8,
{
}

/// Reading an element that straddles two bytes through a 16-bit window.
pub proof fn lemma_read_across_bytes(b0: u8, b1: u8, s: u8, r: u8, m: u8)
    by (bit_vector)
    requires
        r <= 7,
        s < 8,
        s + r > 8,
        m < r,
    ensures
        ((((((b0 as u16) << 8u16) | (b1 as u16)) >> ((16 - s - r) as u16)) as u8 & (((1u8 << r)
            - 1u8) as u8)) >> ((r - 1 - m) as u8)) & 1u8 == if s + m < 8 {
            (b0 >> ((7 - s - m) as u8)) & 1u8
        } else {
            (b1 >> ((15 - s - m) as u8)) & 1u8
        },
{
}

/// Overwriting an element that lies inside one byte: the element's bits
/// take the value's bits and every other bit of the byte stays. `lm` is the
/// element's mask moved to the top of the byte.
pub proof fn lemma_write_within_byte(b: u8, v: u8, s: u8, r: u8, lm: u8, p: u8)
    by (bit_vector)
    requires
        1 <= r <= 7,
        s + r <= 8,
        p < 8,
        v >> r == 0,
        lm == ((((1u8 << r) - 1u8) as u8) << ((8 - r) as u8)) as u8,
    ensures
        (((b & !(lm >> s)) | ((v << ((8 - s - r) as u8)) as u8)) >> ((7 - p) as u8)) & 1u8 == if s
            <= p && p < s + r {
            (v >> ((s + r - 1 - p) as u8)) & 1u8
        } else {
            (b >> ((7 - p) as u8)) & 1u8
        },
{
}

/// Overwriting an element that straddles two bytes: the first byte.
pub proof fn lemma_write_across_first(b: u8, v: u8, s: u8, r: u8, lm: u8, p: u8)
    by (bit_vector)
    requires
        1 <= r <= 7,
        s < 8,
        s + r > 8,
        p < 8,
        v >> r == 0,
        lm == ((((1u8 << r) - 1u8) as u8) << ((8 - r) as u8)) as u8,
    ensures
        (((b & !(lm >> s)) | (v >> ((s + r - 8) as u8))) >> ((7 - p) as u8)) & 1u8 == if s <= p {
            (v >> ((s + r - 1 - p) as u8)) & 1u8
        } else {
            (b >> ((7 - p) as u8)) & 1u8
        },
{
}

/// Overwriting an element that straddles two bytes: the second byte.
pub proof fn lemma_write_across_second(b: u8, v: u8, s: u8, r: u8, lm: u8, p: u8)
    by (bit_vector)
    requires
        1 <= r <= 7,
        s < 8,
        s + r > 8,
        p < 8,
        v >> r == 0,
        lm == ((((1u8 << r) - 1u8) as u8) << ((8 - r) as u8)) as u8,
    ensures
        (((b & !((lm << ((8 - s) as u8)) as u8)) | ((v << ((16 - s - r) as u8)) as u8)) >> ((7
            - p) as u8)) & 1u8 == if p + 8 < s + r {
            (v >> ((s + r - 9 - p) as u8)) & 1u8
        } else {
            (b >> ((7 - p) as u8)) & 1u8
        },
{
}

} // verus!
