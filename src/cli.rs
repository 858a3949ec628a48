//! The command-line grammar: id lists (`1,2,5-7`), multi-read specs
//! (`id:addr:size`), multi-write specs (`id:addr:hexbytes`) and numbers in
//! decimal, `0x` hexadecimal or `0b` binary.

use vstd::prelude::*;
use vstd::string::StringSliceAdditionalSpecFns;

verus! {

/// A malformed argument; holds the offending text.
#[derive(Clone, Debug, PartialEq, Eq)]
pub enum RangeError {
    BadRange(String),
}

/// The value of digit byte `c` in `radix`, if it is one.
pub open spec fn digit_value(c: u8, radix: nat) -> Option<nat> {
    let v: int = if 0x30 <= c <= 0x39 {
        c - 0x30
    } else if 0x61 <= c <= 0x7A {
        c - 0x61 + 10
    } else if 0x41 <= c <= 0x5A {
        c - 0x41 + 10
    } else {
        36
    };
    if v < radix {
        Some(v as nat)
    } else {
        None
    }
}

/// `b` is a non-empty run of digits of `radix`.
pub open spec fn all_digits(b: Seq<u8>, radix: nat) -> bool {
    b.len() > 0 && forall|i: int| 0 <= i < b.len() ==> (#[trigger] digit_value(b[i], radix)) is Some
}

/// The value of the digits `b` in `radix`.
pub open spec fn digits_value(b: Seq<u8>, radix: nat) -> nat
    decreases b.len(),
{
    if b.len() == 0 {
        0
    } else {
        digits_value(b.drop_last(), radix) * radix + digit_value(b.last(), radix).unwrap_or(0)
    }
}

/// The number that `b` writes in `radix`, if it is one no larger than `max`.
pub open spec fn number(b: Seq<u8>, radix: nat, max: nat) -> Option<nat> {
    if all_digits(b, radix) && digits_value(b, radix) <= max {
        Some(digits_value(b, radix))
    } else {
        None
    }
}

/// The number that `b[start..end]` writes in `radix` (2, 10 or 16), if it is
/// one no larger than `max`.
pub fn parse_digits(b: &[u8], start: usize, end: usize, radix: u32, max: u32) -> (r: Option<u32>)
    requires
        start <= end <= b@.len(),
        radix == 2 || radix == 10 || radix == 16,
    ensures
        match number(b@.subrange(start as int, end as int), radix as nat, max as nat) {
            Some(v) => r == Some(v as u32),
            None => r is None,
        },
{
    let ghost s = b@.subrange(start as int, end as int);
    if start == end {
        return None;
    }
    let mut acc: u64 = 0;
    let mut i: usize = start;
    assert(b@.subrange(start as int, start as int) =~= Seq::<u8>::empty());
    while i < end
        invariant
            start < end <= b@.len(),
            start <= i <= end,
            radix == 2 || radix == 10 || radix == 16,
            s == b@.subrange(start as int, end as int),
            forall|k: int| start <= k < i ==> (#[trigger] digit_value(b@[k], radix as nat)) is Some,
            digits_value(b@.subrange(start as int, i as int), radix as nat) <= max ==> acc
                == digits_value(b@.subrange(start as int, i as int), radix as nat),
            digits_value(b@.subrange(start as int, i as int), radix as nat) > max ==> acc == max
                + 1,
        decreases end - i,
    {
        let c = b[i];
        let d: u32 = if 0x30 <= c && c <= 0x39 {
            (c - 0x30) as u32
        } else if 0x61 <= c && c <= 0x7A {
            (c - 0x61 + 10) as u32
        } else if 0x41 <= c && c <= 0x5A {
            (c - 0x41 + 10) as u32
        } else {
            36
        };
        if d >= radix {
            proof {
                assert(s[i - start] == c);
                assert(digit_value(s[i - start], radix as nat) is None);
                assert(!all_digits(s, radix as nat));
            }
            return None;
        }
        let ghost p = b@.subrange(start as int, i as int);
        assert(b@.subrange(start as int, i + 1).drop_last() =~= p);
        let ghost pv = digits_value(p, radix as nat);
        assert(digits_value(b@.subrange(start as int, i + 1), radix as nat) == pv * radix + d);
        if acc > max as u64 {
            assert(pv * radix + d > max) by (nonlinear_arith)
                requires
                    pv > max,
                    radix >= 2,
            ;
        } else {
            assert(acc * radix <= 0xFFFF_FFFFu64 * 16) by (nonlinear_arith)
                requires
                    acc <= 0xFFFF_FFFFu64,
                    radix <= 16,
            ;
            acc = acc * radix as u64 + d as u64;
            if acc > max as u64 {
                acc = max as u64 + 1;
            }
        }
        i = i + 1;
    }
    assert(b@.subrange(start as int, end as int) =~= s);
    if acc > max as u64 {
        None
    } else {
        Some(acc as u32)
    }
}

/// The index of the first `c` in `b`, or `b.len()`.
pub open spec fn find_byte(b: Seq<u8>, c: u8) -> nat
    decreases b.len(),
{
    if b.len() == 0 || b[0] == c {
        0
    } else {
        1 + find_byte(b.drop_first(), c)
    }
}

pub proof fn lemma_find_byte(b: Seq<u8>, c: u8, j: int)
    requires
        0 <= j <= b.len(),
        forall|k: int| 0 <= k < j ==> b[k] != c,
        j == b.len() || b[j] == c,
    ensures
        find_byte(b, c) == j,
    decreases j,
{
    if j > 0 {
        lemma_find_byte(b.drop_first(), c, j - 1);
    }
}

/// The index of the first `c` in `b[start..end]`, or `end`.
fn find_from(b: &[u8], start: usize, end: usize, c: u8) -> (r: usize)
    requires
        start <= end <= b@.len(),
    ensures
        start <= r <= end,
        r < end ==> b@[r as int] == c,
        find_byte(b@.subrange(start as int, end as int), c) == r - start,
{
    let mut i: usize = start;
    while i < end && b[i] != c
        invariant
            start <= i <= end <= b@.len(),
            forall|k: int| start <= k < i ==> b@[k] != c,
        decreases end - i,
    {
        i = i + 1;
    }
    proof {
        lemma_find_byte(b@.subrange(start as int, end as int), c, i - start);
    }
    i
}

/// The ids `lo..=hi`, in increasing order.
pub open spec fn span(lo: u8, hi: u8) -> Seq<u8> {
    Seq::new((hi - lo + 1) as nat, |i: int| (lo + i) as u8)
}

/// The bounds of an id-list part: `n` or `a-b` (in either order), each a
/// decimal number up to 255.
pub open spec fn part_bounds(p: Seq<u8>) -> Option<(u8, u8)> {
    let d = find_byte(p, 0x2D) as int;
    if d >= p.len() {
        match number(p, 10, 255) {
            Some(v) => Some((v as u8, v as u8)),
            None => None,
        }
    } else {
        match (number(p.subrange(0, d), 10, 255), number(p.subrange(d + 1, p.len() as int), 10, 255)) {
            (Some(a), Some(b)) => if a <= b {
                Some((a as u8, b as u8))
            } else {
                Some((b as u8, a as u8))
            },
            _ => None,
        }
    }
}

/// The ids that a comma-separated list names, in the order written, or the
/// first part that is not an id or a range.
pub open spec fn id_list(b: Seq<u8>) -> Result<Seq<u8>, Seq<u8>>
    decreases b.len(),
{
    let c = find_byte(b, 0x2C) as int;
    let p = b.subrange(0, if c <= b.len() { c } else { b.len() as int });
    match part_bounds(p) {
        None => Err(p),
        Some((lo, hi)) => if c >= b.len() {
            Ok(span(lo, hi))
        } else {
            match id_list(b.subrange(c + 1, b.len() as int)) {
                Ok(y) => Ok(span(lo, hi) + y),
                Err(e) => Err(e),
            }
        },
    }
}

pub open spec fn sorted(s: Seq<u8>) -> bool {
    forall|i: int, j: int| 0 <= i < j < s.len() ==> s[i] <= s[j]
}

fn parse_part(b: &[u8], start: usize, end: usize) -> (r: Option<(u8, u8)>)
    requires
        start <= end <= b@.len(),
    ensures
        r == part_bounds(b@.subrange(start as int, end as int)),
{
    let ghost p = b@.subrange(start as int, end as int);
    let d = find_from(b, start, end, 0x2D);
    if d == end {
        match parse_digits(b, start, end, 10, 255) {
            Some(v) => Some((v as u8, v as u8)),
            None => None,
        }
    } else {
        assert(b@.subrange(start as int, d as int) =~= p.subrange(0, d - start));
        assert(b@.subrange(d + 1, end as int) =~= p.subrange(d - start + 1, p.len() as int));
        let a = parse_digits(b, start, d, 10, 255);
        let c = parse_digits(b, d + 1, end, 10, 255);
        match (a, c) {
            (Some(x), Some(y)) => if x <= y {
                Some((x as u8, y as u8))
            } else {
                Some((y as u8, x as u8))
            },
            _ => None,
        }
    }
}

/// Inserts `x` into a sorted vector, keeping it sorted.
fn insert_sorted(v: &mut Vec<u8>, x: u8)
    requires
        sorted(old(v)@),
    ensures
        sorted(final(v)@),
        final(v)@.to_multiset() == old(v)@.to_multiset().insert(x),
{
    let mut i: usize = 0;
    while i < v.len() && v[i] <= x
        invariant
            0 <= i <= v@.len(),
            forall|k: int| 0 <= k < i ==> v@[k] <= x,
        decreases v@.len() - i,
    {
        i = i + 1;
    }
    let ghost before = v@;
    v.insert(i, x);
    proof {
        vstd::seq_lib::to_multiset_insert(before, i as int, x);
        assert(v@ =~= before.insert(i as int, x));
    }
}

/// A list of ids, sorted.
#[derive(Clone, Debug, PartialEq, Eq)]
pub struct IdRange(pub Vec<u8>);

impl IdRange {
    /// Parses a comma-separated list of ids and inclusive ranges `a-b`; the
    /// ids come out sorted, each as often as the list names it.
    pub fn parse(input: &str) -> (r: Result<IdRange, RangeError>)
        ensures
            match id_list(input.spec_bytes()) {
                Ok(ids) => r is Ok && sorted(r->Ok_0.0@) && r->Ok_0.0@.to_multiset()
                    == ids.to_multiset(),
                Err(part) => match r {
                    Err(RangeError::BadRange(t)) => vstd::utf8::encode_utf8(t@) == part,
                    Ok(_) => false,
                },
            },
    {
        let b = input.as_bytes();
        let n = b.len();
        let mut out: Vec<u8> = Vec::new();
        let ghost mut listed = Seq::<u8>::empty();
        let mut start: usize = 0;
        let mut rest: &str = input;
        proof {
            assert(b@.subrange(0, n as int) =~= b@);
            if id_list(b@) is Ok {
                assert(listed + id_list(b@)->Ok_0 =~= id_list(b@)->Ok_0);
            }
        }
        loop
            invariant
                b@ == input.spec_bytes(),
                n == b@.len(),
                start <= n,
                rest.spec_bytes() == b@.subrange(start as int, n as int),
                sorted(out@),
                out@.to_multiset() == listed.to_multiset(),
                id_list(b@) == (match id_list(b@.subrange(start as int, n as int)) {
                    Ok(y) => Ok(listed + y),
                    Err(e) => Err::<Seq<u8>, Seq<u8>>(e),
                }),
            decreases n - start,
        {
            let c = find_from(b, start, n, 0x2C);
            assert(rest.spec_bytes().subrange(0, c - start) =~= b@.subrange(start as int, c as int));
            let bounds = parse_part(b, start, c);
            let (lo, hi) = match bounds {
                Some(x) => x,
                None => {
                    if c == n {
                        return Err(RangeError::BadRange(rest.to_owned()));
                    }
                    proof {
                        vstd::utf8::encode_utf8_valid_utf8(rest@);
                        assert(rest.spec_bytes()[c - start] == 0x2C);
                        assert(vstd::utf8::is_leading_byte_width_1(rest.spec_bytes()[c - start]));
                        vstd::utf8::is_char_boundary_iff_is_leading_byte(
                            rest.spec_bytes(),
                            c - start,
                        );
                    }
                    let (part, _) = rest.split_at(c - start);
                    return Err(RangeError::BadRange(part.to_owned()));
                },
            };
            let mut v: u16 = lo as u16;
            let ghost base = listed;
            while v <= hi as u16
                invariant
                    lo <= hi,
                    lo <= v <= hi as u16 + 1,
                    sorted(out@),
                    listed == base + span(lo, hi).subrange(0, v - lo),
                    out@.to_multiset() == listed.to_multiset(),
                decreases hi as u16 + 1 - v,
            {
                insert_sorted(&mut out, v as u8);
                proof {
                    let old_listed = listed;
                    listed = listed.push(v as u8);
                    vstd::seq_lib::to_multiset_build(old_listed, v as u8);
                    assert(span(lo, hi).subrange(0, v + 1 - lo) =~= span(lo, hi).subrange(0, v - lo).push(v as u8));
                }
                v = v + 1;
            }
            assert(span(lo, hi).subrange(0, hi + 1 - lo) =~= span(lo, hi));
            if c == n {
                return Ok(IdRange(out));
            }
            assert(rest.spec_bytes().subrange(c - start + 1, rest.spec_bytes().len() as int) =~= b@.subrange(c + 1, n as int));
            assert(listed == base + span(lo, hi));
            assert((base + span(lo, hi)) + id_list(b@.subrange(c + 1, n as int))->Ok_0 =~= base + (span(lo, hi) + id_list(b@.subrange(c + 1, n as int))->Ok_0));
            proof {
                vstd::utf8::encode_utf8_valid_utf8(rest@);
                assert(rest.spec_bytes()[c - start] == 0x2C);
                assert(vstd::utf8::is_leading_byte_width_1(rest.spec_bytes()[c - start]));
                vstd::utf8::is_char_boundary_iff_is_leading_byte(rest.spec_bytes(), c - start);
            }
            let (_, tail) = rest.split_at(c - start);
            proof {
                vstd::utf8::encode_utf8_valid_utf8(tail@);
                assert(tail.spec_bytes()[0] == 0x2C);
                reveal_with_fuel(vstd::utf8::is_char_boundary, 2);
            }
            let (_, after) = tail.split_at(1);
            rest = after;
            start = c + 1;
        }
    }
}

/// `b` cut at its first two colons.
pub open spec fn three_fields(b: Seq<u8>) -> Option<(Seq<u8>, Seq<u8>, Seq<u8>)> {
    let c1 = find_byte(b, 0x3A) as int;
    if c1 >= b.len() {
        None
    } else {
        let r = b.subrange(c1 + 1, b.len() as int);
        let c2 = find_byte(r, 0x3A) as int;
        if c2 >= r.len() {
            None
        } else {
            Some((b.subrange(0, c1), r.subrange(0, c2), r.subrange(c2 + 1, r.len() as int)))
        }
    }
}

/// The colon positions of `b`, as `three_fields` cuts it.
fn colons(b: &[u8]) -> (r: Option<(usize, usize)>)
    ensures
        r is Some ==> r->Some_0.0 < r->Some_0.1 < b@.len(),
        match three_fields(b@) {
            Some((x, y, z)) => r matches Some((c1, c2)) && c1 < c2 < b@.len() && x == b@.subrange(
                0,
                c1 as int,
            ) && y == b@.subrange(c1 + 1, c2 as int) && z == b@.subrange(c2 + 1, b@.len() as int),
            None => r is None,
        },
{
    let n = b.len();
    let c1 = find_from(b, 0, n, 0x3A);
    assert(b@.subrange(0, n as int) =~= b@);
    if c1 == n {
        return None;
    }
    let c2 = find_from(b, c1 + 1, n, 0x3A);
    if c2 == n {
        return None;
    }
    proof {
        let r = b@.subrange(c1 + 1, n as int);
        assert(r.subrange(0, c2 - c1 - 1) =~= b@.subrange(c1 + 1, c2 as int));
        assert(r.subrange(c2 - c1, r.len() as int) =~= b@.subrange(c2 + 1, n as int));
    }
    Some((c1, c2))
}

/// A multi-read argument `id:address:size`.
#[derive(Clone, Copy, Debug, PartialEq, Eq, Structural)]
pub struct MultiReadSpec {
    pub id: u8,
    pub address: u16,
    pub size: u16,
}

/// The fields of a multi-read argument, each a decimal number in range.
pub open spec fn multi_read(b: Seq<u8>) -> Option<(nat, nat, nat)> {
    match three_fields(b) {
        Some((x, y, z)) => match (number(x, 10, 255), number(y, 10, 65535), number(z, 10, 65535)) {
            (Some(i), Some(a), Some(s)) => Some((i, a, s)),
            _ => None,
        },
        None => None,
    }
}

impl MultiReadSpec {
    pub fn parse(s: &str) -> (r: Result<MultiReadSpec, RangeError>)
        ensures
            match multi_read(s.spec_bytes()) {
                Some((i, a, z)) => r == Ok::<MultiReadSpec, RangeError>(
                    MultiReadSpec { id: i as u8, address: a as u16, size: z as u16 },
                ),
                None => match r {
                    Err(RangeError::BadRange(t)) => t@ == s@,
                    Ok(_) => false,
                },
            },
    {
        let b = s.as_bytes();
        let n = b.len();
        let (c1, c2) = match colons(b) {
            Some(c) => c,
            None => return Err(RangeError::BadRange(s.to_owned())),
        };
        let i = parse_digits(b, 0, c1, 10, 255);
        let a = parse_digits(b, c1 + 1, c2, 10, 65535);
        let z = parse_digits(b, c2 + 1, n, 10, 65535);
        match (i, a, z) {
            (Some(i), Some(a), Some(z)) => Ok(
                MultiReadSpec { id: i as u8, address: a as u16, size: z as u16 },
            ),
            _ => Err(RangeError::BadRange(s.to_owned())),
        }
    }
}

/// The bytes that a run of hexadecimal digit pairs writes.
pub open spec fn hex_bytes(z: Seq<u8>) -> Option<Seq<u8>> {
    if z.len() > 0 && z.len() % 2 == 0 && forall|i: int|
        0 <= i < z.len() ==> (#[trigger] digit_value(z[i], 16)) is Some {
        Some(
            Seq::new(
                z.len() / 2,
                |k: int|
                    (digit_value(z[2 * k], 16).unwrap() * 16 + digit_value(z[2 * k + 1], 16).unwrap()) as u8,
            ),
        )
    } else {
        None
    }
}

/// The value of hexadecimal digit `c`, if it is one.
fn hex_digit(c: u8) -> (r: Option<u8>)
    ensures
        match digit_value(c, 16) {
            Some(v) => r == Some(v as u8),
            None => r is None,
        },
{
    if 0x30 <= c && c <= 0x39 {
        Some(c - 0x30)
    } else if 0x61 <= c && c <= 0x66 {
        Some(c - 0x61 + 10)
    } else if 0x41 <= c && c <= 0x46 {
        Some(c - 0x41 + 10)
    } else {
        None
    }
}

/// Decodes the hexadecimal digit pairs `b[start..end]`.
fn decode_hex(b: &[u8], start: usize, end: usize) -> (r: Option<Vec<u8>>)
    requires
        start <= end <= b@.len(),
    ensures
        match hex_bytes(b@.subrange(start as int, end as int)) {
            Some(d) => r is Some && r->Some_0@ == d,
            None => r is None,
        },
{
    let ghost z = b@.subrange(start as int, end as int);
    if start == end || (end - start) % 2 != 0 {
        return None;
    }
    let mut out: Vec<u8> = Vec::new();
    let mut i: usize = start;
    while i < end
        invariant
            start < end <= b@.len(),
            (end - start) % 2 == 0,
            start <= i <= end,
            (i - start) % 2 == 0,
            z == b@.subrange(start as int, end as int),
            forall|k: int| start <= k < i ==> (#[trigger] digit_value(b@[k], 16)) is Some,
            out@.len() == (i - start) / 2,
            forall|k: int|
                0 <= k < out@.len() ==> out@[k] == (digit_value(z[2 * k], 16).unwrap() * 16
                    + digit_value(z[2 * k + 1], 16).unwrap()) as u8,
        decreases end - i,
    {
        let hi = hex_digit(b[i]);
        let lo = hex_digit(b[i + 1]);
        match (hi, lo) {
            (Some(h), Some(l)) => {
                let k = (i - start) / 2;
                assert(z[2 * k] == b@[i as int]);
                assert(z[2 * k + 1] == b@[i + 1]);
                out.push(h * 16 + l);
            },
            _ => {
                proof {
                    if hi is None {
                        assert(digit_value(z[i - start], 16) is None);
                    } else {
                        assert(digit_value(z[i - start + 1], 16) is None);
                    }
                }
                return None;
            },
        }
        i = i + 2;
    }
    assert(out@ =~= hex_bytes(z)->Some_0);
    Some(out)
}

/// A multi-write argument `id:address:hexbytes`.
#[derive(Clone, Debug, PartialEq, Eq)]
pub struct MultiWriteSpec {
    pub id: u8,
    pub address: u16,
    pub data: Vec<u8>,
}

/// The fields of a multi-write argument.
pub open spec fn multi_write(b: Seq<u8>) -> Option<(nat, nat, Seq<u8>)> {
    match three_fields(b) {
        Some((x, y, z)) => match (number(x, 10, 255), number(y, 10, 65535), hex_bytes(z)) {
            (Some(i), Some(a), Some(d)) => Some((i, a, d)),
            _ => None,
        },
        None => None,
    }
}

impl MultiWriteSpec {
    pub fn parse(s: &str) -> (r: Result<MultiWriteSpec, RangeError>)
        ensures
            match multi_write(s.spec_bytes()) {
                Some((i, a, d)) => r is Ok && r->Ok_0.id == i && r->Ok_0.address == a
                    && r->Ok_0.data@ == d,
                None => match r {
                    Err(RangeError::BadRange(t)) => t@ == s@,
                    Ok(_) => false,
                },
            },
    {
        let b = s.as_bytes();
        let n = b.len();
        let (c1, c2) = match colons(b) {
            Some(c) => c,
            None => return Err(RangeError::BadRange(s.to_owned())),
        };
        let i = parse_digits(b, 0, c1, 10, 255);
        let a = parse_digits(b, c1 + 1, c2, 10, 65535);
        let d = decode_hex(b, c2 + 1, n);
        match (i, a, d) {
            (Some(i), Some(a), Some(d)) => Ok(
                MultiWriteSpec { id: i as u8, address: a as u16, data: d },
            ),
            _ => Err(RangeError::BadRange(s.to_owned())),
        }
    }
}

/// `b` with every leading repetition of the two-byte prefix `p0 p1` removed.
pub open spec fn strip_repeated(b: Seq<u8>, p0: u8, p1: u8) -> Seq<u8>
    decreases b.len(),
{
    if b.len() >= 2 && b[0] == p0 && b[1] == p1 {
        strip_repeated(b.subrange(2, b.len() as int), p0, p1)
    } else {
        b
    }
}

/// The digits and radix of a number argument: `0x` hexadecimal, `0b`
/// binary, otherwise decimal.
pub open spec fn radix_digits(b: Seq<u8>) -> (Seq<u8>, nat) {
    if b.len() >= 2 && b[0] == 0x30 && b[1] == 0x78 {
        (strip_repeated(b, 0x30, 0x78), 16)
    } else if b.len() >= 2 && b[0] == 0x30 && b[1] == 0x62 {
        (strip_repeated(b, 0x30, 0x62), 2)
    } else {
        (b, 10)
    }
}

/// The value of a number argument no larger than `max`: an optional `+`,
/// then digits of its radix.
pub open spec fn radix_number(b: Seq<u8>, max: nat) -> Option<nat> {
    let (d, radix) = radix_digits(b);
    if d.len() > 0 && d[0] == 0x2B {
        number(d.drop_first(), radix, max)
    } else {
        number(d, radix, max)
    }
}

/// Where the digits start once every leading `0 p1` pair is removed.
fn skip_prefix_pairs(b: &[u8], p1: u8) -> (r: usize)
    ensures
        r <= b@.len(),
        strip_repeated(b@, 0x30, p1) == b@.subrange(r as int, b@.len() as int),
{
    let n = b.len();
    let mut start: usize = 0;
    assert(b@.subrange(0, n as int) =~= b@);
    while n - start >= 2 && b[start] == 0x30 && b[start + 1] == p1
        invariant
            start <= n == b@.len(),
            strip_repeated(b@, 0x30, p1) == strip_repeated(b@.subrange(start as int, n as int), 0x30, p1),
        decreases n - start,
    {
        assert(b@.subrange(start as int, n as int).subrange(2, n - start) =~= b@.subrange(start + 2, n as int));
        start = start + 2;
    }
    start
}

/// Parses a number argument in decimal, `0x` hexadecimal or `0b` binary;
/// `None` unless it is no larger than `max`.
pub fn parse_with_radix(input: &str, max: u32) -> (r: Option<u32>)
    ensures
        match radix_number(input.spec_bytes(), max as nat) {
            Some(v) => r == Some(v as u32),
            None => r is None,
        },
{
    let b = input.as_bytes();
    let n = b.len();
    let (start, radix): (usize, u32) = if n >= 2 && b[0] == 0x30 && b[1] == 0x78 {
        (skip_prefix_pairs(b, 0x78), 16)
    } else if n >= 2 && b[0] == 0x30 && b[1] == 0x62 {
        (skip_prefix_pairs(b, 0x62), 2)
    } else {
        assert(b@.subrange(0, n as int) =~= b@);
        (0, 10)
    };
    assert(radix_digits(b@) == (b@.subrange(start as int, n as int), radix as nat));
    if start < n && b[start] == 0x2B {
        assert(b@.subrange(start as int, n as int).drop_first() =~= b@.subrange(start + 1, n as int));
        parse_digits(b, start + 1, n, radix, max)
    } else {
        parse_digits(b, start, n, radix, max)
    }
}

/// Why the values of a write command do not match its ids.
#[derive(Clone, Copy, Debug, PartialEq, Eq, Structural)]
pub enum ValuesError {
    /// Several values, but no sync-write to carry them.
    MultipleWithoutSync,
    /// A sync-write needs one value, or one per id.
    CountMismatch,
}

/// The value for each id of a write command: without sync, exactly one
/// value, the same for every id; with sync, one value for all ids or one per
/// id.
pub open spec fn values_for_ids_spec(sync: bool, n_ids: nat, values: Seq<Vec<u8>>) -> Result<
    Seq<Vec<u8>>,
    ValuesError,
> {
    if !sync && values.len() != 1 {
        Err(ValuesError::MultipleWithoutSync)
    } else if sync && values.len() != n_ids && values.len() != 1 {
        Err(ValuesError::CountMismatch)
    } else if values.len() == 1 {
        Ok(Seq::new(n_ids, |i: int| values[0]))
    } else {
        Ok(values)
    }
}

pub fn values_for_ids(sync: bool, n_ids: usize, values: &[Vec<u8>]) -> (r: Result<
    Vec<Vec<u8>>,
    ValuesError,
>)
    ensures
        match values_for_ids_spec(sync, n_ids as nat, values@) {
            Ok(v) => r is Ok && r->Ok_0@.len() == v.len() && forall|i: int|
                0 <= i < v.len() ==> (#[trigger] r->Ok_0@[i])@ == v[i]@,
            Err(e) => r == Err::<Vec<Vec<u8>>, ValuesError>(e),
        },
{
    if !sync && values.len() != 1 {
        return Err(ValuesError::MultipleWithoutSync);
    }
    if sync && values.len() != n_ids && values.len() != 1 {
        return Err(ValuesError::CountMismatch);
    }
    let mut out: Vec<Vec<u8>> = Vec::new();
    let n = if values.len() == 1 { n_ids } else { values.len() };
    let mut i: usize = 0;
    while i < n
        invariant
            0 <= i <= n,
            values@.len() == 1 ==> n == n_ids,
            values@.len() != 1 ==> n == values@.len(),
            out@.len() == i,
            forall|k: int|
                0 <= k < i ==> (#[trigger] out@[k])@ == (if values@.len() == 1 {
                    values@[0]
                } else {
                    values@[k]
                })@,
        decreases n - i,
    {
        let v = if values.len() == 1 { copy_bytes(&values[0]) } else { copy_bytes(&values[i]) };
        out.push(v);
        i = i + 1;
    }
    Ok(out)
}

/// A copy of `b`.
fn copy_bytes(b: &Vec<u8>) -> (r: Vec<u8>)
    ensures
        r@ == b@,
{
    let mut out: Vec<u8> = Vec::new();
    let mut i: usize = 0;
    while i < b.len()
        invariant
            0 <= i <= b@.len(),
            out@ == b@.subrange(0, i as int),
        decreases b@.len() - i,
    {
        out.push(b[i]);
        i = i + 1;
        assert(out@ =~= b@.subrange(0, i as int));
    }
    assert(b@.subrange(0, b@.len() as int) =~= b@);
    out
}

} // verus!
