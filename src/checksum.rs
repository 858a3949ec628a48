//! Frame checksums: the 8-bit complemented sum of Protocol 1 and the
//! CRC-16/UMTS of Protocol 2.

use vstd::prelude::*;

verus! {

/// The 8-bit wrapping sum of `s`.
pub open spec fn sum8(s: Seq<u8>) -> u8
    decreases s.len(),
{
    if s.len() == 0 {
        0
    } else {
        ((sum8(s.drop_last()) as int + s.last() as int) % 256) as u8
    }
}

/// Protocol 1 checksum: the bitwise complement of the 8-bit sum.
pub open spec fn checksum8(s: Seq<u8>) -> u8 {
    (0xFF - sum8(s)) as u8
}

/// The CRC-16/UMTS of `bytes` (polynomial 0x8005, seed 0, no reflection,
/// no final XOR).
pub uninterp spec fn crc16_umts(bytes: Seq<u8>) -> u16;

/// Low byte of a little-endian `u16`.
pub open spec fn lo8(x: u16) -> u8 {
    (x % 256) as u8
}

/// High byte of a little-endian `u16`.
pub open spec fn hi8(x: u16) -> u8 {
    (x / 256) as u8
}

/// The `u16` that two little-endian bytes encode.
pub open spec fn u16_le(lo: u8, hi: u8) -> u16 {
    (lo as int + hi as int * 256) as u16
}

pub proof fn lemma_u16_le_split(x: u16)
    ensures
        u16_le(lo8(x), hi8(x)) == x,
{
}

pub proof fn lemma_sum8_push(s: Seq<u8>, b: u8)
    ensures
        sum8(s.push(b)) == ((sum8(s) as int + b as int) % 256) as u8,
{
    assert(s.push(b).drop_last() =~= s);
}

/// The sum of a subrange grows by one element at a time.
pub proof fn lemma_sum8_extend(s: Seq<u8>, a: int, i: int)
    requires
        0 <= a <= i < s.len(),
    ensures
        sum8(s.subrange(a, i + 1)) == ((sum8(s.subrange(a, i)) as int + s[i] as int) % 256) as u8,
{
    assert(s.subrange(a, i + 1).drop_last() =~= s.subrange(a, i));
}

/// The 8-bit sum of `s` (the wrapping sum over `bytes[start..end]`).
pub fn sum8_range(bytes: &[u8], start: usize, end: usize) -> (r: u8)
    requires
        start <= end <= bytes@.len(),
    ensures
        r == sum8(bytes@.subrange(start as int, end as int)),
{
    let mut acc: u8 = 0;
    let mut i: usize = start;
    assert(bytes@.subrange(start as int, start as int) =~= Seq::<u8>::empty());
    while i < end
        invariant
            start <= i <= end <= bytes@.len(),
            acc == sum8(bytes@.subrange(start as int, i as int)),
        decreases end - i,
    {
        proof {
            lemma_sum8_extend(bytes@, start as int, i as int);
        }
        acc = ((acc as u16 + bytes[i] as u16) % 256) as u8;
        i = i + 1;
    }
    acc
}

/// Relies on `crc::Crc::<u16>::checksum` with the catalogue's
/// `CRC_16_UMTS` parameters: the result depends on the bytes alone.
#[verifier::external_body]
pub(crate) fn crc16_umts_of(bytes: &[u8]) -> (r: u16)
    ensures
        r == crc16_umts(bytes@),
{
    crc::Crc::<u16>::new(&crc::CRC_16_UMTS).checksum(bytes)
}

/// The plain integer sum of `s`.
pub open spec fn sum_int(s: Seq<u8>) -> int
    decreases s.len(),
{
    if s.len() == 0 {
        0
    } else {
        sum_int(s.drop_last()) + s.last()
    }
}

pub proof fn lemma_sum8_is_sum_mod(s: Seq<u8>)
    ensures
        sum8(s) as int == sum_int(s) % 256,
    decreases s.len(),
{
    if s.len() > 0 {
        lemma_sum8_is_sum_mod(s.drop_last());
        let a = sum_int(s.drop_last());
        let b = s.last() as int;
        assert((a % 256 + b) % 256 == (a + b) % 256) by (nonlinear_arith);
    }
}

pub proof fn lemma_sum_int_update(s: Seq<u8>, j: int, x: u8)
    requires
        0 <= j < s.len(),
    ensures
        sum_int(s.update(j, x)) == sum_int(s) - s[j] + x,
    decreases s.len(),
{
    if j == s.len() - 1 {
        assert(s.update(j, x).drop_last() =~= s.drop_last());
    } else {
        assert(s.update(j, x).drop_last() =~= s.drop_last().update(j, x));
        lemma_sum_int_update(s.drop_last(), j, x);
    }
}

/// Changing one byte changes the 8-bit sum.
pub proof fn lemma_sum8_update_differs(s: Seq<u8>, j: int, x: u8)
    requires
        0 <= j < s.len(),
        x != s[j],
    ensures
        sum8(s.update(j, x)) != sum8(s),
{
    lemma_sum8_is_sum_mod(s);
    lemma_sum8_is_sum_mod(s.update(j, x));
    lemma_sum_int_update(s, j, x);
    let a = sum_int(s);
    let d = x as int - s[j] as int;
    assert((a + d) % 256 != a % 256) by (nonlinear_arith)
        requires
            -256 < d < 256,
            d != 0,
    ;
}

} // verus!
