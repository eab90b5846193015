//! The encoder and decoder for point paths.

use vstd::prelude::*;

use crate::alphabet::{safe_character, safe_index, symbol, symbol_value};
use crate::pairing::{pair, pair_u64, unpair, unpair_u64, unzigzag, unzigzag_u64, zigzag, zigzag_i64};

verus! {

/// A point of a path, each coordinate in hundred-thousandths of a degree
/// (a coordinate in degrees times 100000, rounded to the nearest integer).
#[derive(Clone, Copy, Debug, PartialEq, Eq, Structural)]
pub struct Point {
    pub lat: i64,
    pub long: i64,
}

/// The largest magnitude of a coordinate that the encoder takes: 2^29 units,
/// about 5368 degrees. Within it every point's code fits in 64 bits.
pub const MAX_COORDINATE: i64 = 0x2000_0000;

/// Why a byte string is not a valid encoding.
#[derive(Clone, Copy, Debug, PartialEq, Eq, Structural)]
pub enum DecompressError {
    /// A byte outside the 64-symbol alphabet.
    InvalidCharError(char),
    /// The input ends inside a digit group.
    TruncatedError,
    /// A digit group's value does not fit in 64 bits, or a running
    /// coordinate leaves the range of `i64`.
    OverflowError,
}

/// Both coordinates of `p` lie within `MAX_COORDINATE` of zero.
pub open spec fn in_range(p: Point) -> bool {
    -MAX_COORDINATE <= p.lat <= MAX_COORDINATE && -MAX_COORDINATE <= p.long <= MAX_COORDINATE
}

/// `v` is representable as an `i64`.
pub open spec fn fits_i64(v: int) -> bool {
    i64::MIN <= v <= i64::MAX
}

/// The number that encodes point `p` after a point at `(lat, long)`.
pub open spec fn point_code(p: Point, lat: int, long: int) -> nat {
    pair(zigzag(p.lat - lat), zigzag(p.long - long))
}

/// The symbols of `n` in base 32, least significant digit first; every digit
/// but the last carries the continuation flag 32. Zero has no digits.
pub open spec fn group_bytes(n: nat) -> Seq<u8>
    decreases n,
{
    if n == 0 {
        seq![]
    } else {
        let low = n % 32;
        let digit = if n / 32 > 0 {
            low + 32
        } else {
            low
        };
        seq![symbol(digit as int)] + group_bytes(n / 32)
    }
}

/// The encoding of `pts` when the point before the first one is `(lat, long)`.
pub open spec fn encode_from(pts: Seq<Point>, lat: int, long: int) -> Seq<u8>
    decreases pts.len(),
{
    if pts.len() == 0 {
        seq![]
    } else {
        group_bytes(point_code(pts[0], lat, long)) + encode_from(
            pts.drop_first(),
            pts[0].lat as int,
            pts[0].long as int,
        )
    }
}

/// The encoding of a path: deltas are taken from the origin `(0, 0)` on.
pub open spec fn encoding(pts: Seq<Point>) -> Seq<u8> {
    encode_from(pts, 0, 0)
}

/// A symbol whose continuation flag is set.
pub open spec fn is_continuation(b: u8) -> bool {
    symbol_value(b) matches Some(v) && v >= 32
}

/// The low five bits of a symbol's value.
pub open spec fn digit_of(b: u8) -> nat {
    match symbol_value(b) {
        Some(v) => (v % 32) as nat,
        None => 0,
    }
}

/// The number of leading continuation symbols.
pub open spec fn continued_len(bytes: Seq<u8>) -> nat
    decreases bytes.len(),
{
    if bytes.len() > 0 && is_continuation(bytes[0]) {
        1 + continued_len(bytes.drop_first())
    } else {
        0
    }
}

/// The value of a digit group, least significant digit first.
pub open spec fn digits_value(bytes: Seq<u8>) -> nat
    decreases bytes.len(),
{
    if bytes.len() == 0 {
        0
    } else {
        digit_of(bytes[0]) + 32 * digits_value(bytes.drop_first())
    }
}

/// The points that `bytes` decodes to when the point before them is
/// `(lat, long)`, or the first error met scanning from the left.
pub open spec fn decode_from(bytes: Seq<u8>, lat: int, long: int) -> Result<Seq<Point>, DecompressError>
    decreases bytes.len(),
{
    if bytes.len() == 0 {
        Ok(seq![])
    } else {
        let k = continued_len(bytes) as int;
        if k >= bytes.len() {
            Err(DecompressError::TruncatedError)
        } else if symbol_value(bytes[k]) is None {
            Err(DecompressError::InvalidCharError(bytes[k] as char))
        } else {
            let n = digits_value(bytes.take(k + 1int));
            if n >= 0x1_0000_0000_0000_0000 {
                Err(DecompressError::OverflowError)
            } else {
                let lat2 = lat + unzigzag(unpair(n).0);
                let long2 = long + unzigzag(unpair(n).1);
                if !fits_i64(lat2) || !fits_i64(long2) {
                    Err(DecompressError::OverflowError)
                } else {
                    match decode_from(bytes.skip(k + 1int), lat2, long2) {
                        Ok(rest) => Ok(seq![Point { lat: lat2 as i64, long: long2 as i64 }] + rest),
                        Err(e) => Err(e),
                    }
                }
            }
        }
    }
}

/// Every byte of `bytes` is one of the 64 symbols.
pub open spec fn all_symbols(bytes: Seq<u8>) -> bool {
    forall|j: int| 0 <= j < bytes.len() ==> symbol_value(#[trigger] bytes[j]) is Some
}

/// The position of the first byte of `bytes` outside the alphabet.
pub open spec fn first_invalid(bytes: Seq<u8>) -> int {
    choose|j: int| 0 <= j < bytes.len() && symbol_value(bytes[j]) is None && #[trigger] all_symbols(bytes.take(j))
}

/// `i` is the position of the first byte of `bytes` outside the alphabet.
pub proof fn lemma_first_invalid(bytes: Seq<u8>, i: int)
    requires
        0 <= i < bytes.len(),
        symbol_value(bytes[i]) is None,
        forall|j: int| 0 <= j < i ==> symbol_value(#[trigger] bytes[j]) is Some,
    ensures
        first_invalid(bytes) == i,
        !all_symbols(bytes),
{
    assert(all_symbols(bytes.take(i)));
    let j = first_invalid(bytes);
    if j < i {
        assert(symbol_value(bytes[j]) is Some);
    } else if j > i {
        assert(bytes.take(j)[i] == bytes[i]);
    }
}

/// The decoding of a byte string. A byte outside the alphabet is reported
/// first (the first such byte), then a last symbol that still carries the
/// continuation flag; otherwise the groups are decoded from the left, with
/// sums starting at the origin `(0, 0)`.
pub open spec fn decoding(bytes: Seq<u8>) -> Result<Seq<Point>, DecompressError> {
    if !all_symbols(bytes) {
        Err(DecompressError::InvalidCharError(bytes[first_invalid(bytes)] as char))
    } else if bytes.len() > 0 && is_continuation(bytes.last()) {
        Err(DecompressError::TruncatedError)
    } else {
        decode_from(bytes, 0, 0)
    }
}

/// Appends the digit group of `n` to `out`.
fn push_group(out: &mut Vec<u8>, n: u64)
    ensures
        final(out)@ == old(out)@ + group_bytes(n as nat),
{
    let ghost start = out@;
    let mut m: u64 = n;
    while m > 0
        invariant
            start + group_bytes(n as nat) == out@ + group_bytes(m as nat),
        decreases m,
    {
        let low: u8 = (m % 32) as u8;
        let rest: u64 = m / 32;
        let digit: u8 = if rest > 0 {
            low + 32
        } else {
            low
        };
        let ghost before = out@;
        out.push(safe_character(digit));
        assert(before + group_bytes(m as nat) == out@ + group_bytes(rest as nat));
        m = rest;
    }
    assert(group_bytes(0) =~= Seq::<u8>::empty());
    assert(out@ + group_bytes(m as nat) =~= out@);
}

/// Encodes a path as a string of symbols of the 64-symbol alphabet.
///
/// Each point's code is the Cantor pairing of the zigzagged deltas of its
/// coordinates to the previous point's; a point equal to its predecessor
/// (or, for the first point, to the origin) has code zero and adds no byte.
pub fn compress(points: &[Point]) -> (r: Vec<u8>)
    requires
        forall|i: int| 0 <= i < points@.len() ==> in_range(#[trigger] points@[i]),
    ensures
        r@ == encoding(points@),
{
    let mut result: Vec<u8> = Vec::new();
    let mut lat: i64 = 0;
    let mut long: i64 = 0;
    let mut i: usize = 0;
    assert(points@.skip(0) =~= points@);
    assert(result@ + encoding(points@) =~= encoding(points@));
    while i < points.len()
        invariant
            i <= points@.len(),
            forall|j: int| 0 <= j < points@.len() ==> in_range(#[trigger] points@[j]),
            -MAX_COORDINATE <= lat <= MAX_COORDINATE,
            -MAX_COORDINATE <= long <= MAX_COORDINATE,
            encoding(points@) == result@ + encode_from(points@.skip(i as int), lat as int, long as int),
        decreases points@.len() - i,
    {
        let p = points[i];
        assert(in_range(points@[i as int]));
        let zy = zigzag_i64(p.lat - lat);
        let zx = zigzag_i64(p.long - long);
        let n = pair_u64(zy, zx);
        let ghost before = result@;
        push_group(&mut result, n);
        assert(points@.skip(i as int).drop_first() =~= points@.skip(i as int + 1));
        assert(result@ + encode_from(points@.skip(i as int + 1), p.lat as int, p.long as int)
            =~= before + encode_from(points@.skip(i as int), lat as int, long as int));
        lat = p.lat;
        long = p.long;
        i = i + 1;
    }
    assert(encode_from(points@.skip(i as int), lat as int, long as int) =~= Seq::<u8>::empty());
    assert(result@ + Seq::<u8>::empty() =~= result@);
    result
}

/// `32` to the power `i`.
spec fn pow32(i: nat) -> nat
    decreases i,
{
    if i == 0 {
        1
    } else {
        32 * pow32((i - 1) as nat)
    }
}

proof fn lemma_pow32_monotone(i: nat, j: nat)
    requires
        i <= j,
    ensures
        pow32(i) <= pow32(j),
    decreases j - i,
{
    if i < j {
        lemma_pow32_monotone(i, (j - 1) as nat);
    }
}

proof fn lemma_pow32_thirteen()
    ensures
        pow32(13) == 0x2_0000_0000_0000_0000,
{
    reveal_with_fuel(pow32, 14);
}

/// Appending a digit adds it at the next power of 32.
proof fn lemma_digits_value_push(s: Seq<u8>, b: u8)
    ensures
        digits_value(s.push(b)) == digits_value(s) + pow32(s.len()) * digit_of(b),
    decreases s.len(),
{
    if s.len() == 0 {
        assert(s.push(b).drop_first() =~= Seq::<u8>::empty());
        assert(digits_value(Seq::<u8>::empty()) == 0);
        assert(pow32(0) == 1);
        assert(digits_value(s) == 0);
        assert(digits_value(s.push(b)) == digit_of(b));
    } else {
        assert(s.push(b)[0] == s[0]);
        assert(pow32(s.len()) == 32 * pow32(s.drop_first().len()));
        assert(s.push(b).drop_first() =~= s.drop_first().push(b));
        lemma_digits_value_push(s.drop_first(), b);
        let a = digits_value(s.drop_first());
        let p = pow32(s.drop_first().len());
        let d = digit_of(b);
        assert(32 * (a + p * d) == 32 * a + (32 * p) * d) by (nonlinear_arith);
    }
}

/// A run of `m` continuation symbols ended by another byte, or by the end of
/// the input, is `continued_len` long.
proof fn lemma_continued_len(s: Seq<u8>, m: nat)
    requires
        m <= s.len(),
        forall|j: int| 0 <= j < m ==> is_continuation(#[trigger] s[j]),
        m == s.len() || !is_continuation(s[m as int]),
    ensures
        continued_len(s) == m,
    decreases m,
{
    if m > 0 {
        lemma_continued_len(s.drop_first(), (m - 1) as nat);
    }
}

/// Reads the digit group that starts at `start`. On success gives its value
/// and the position after its last symbol.
fn read_group(value: &[u8], start: usize) -> (r: Result<(u64, usize), DecompressError>)
    requires
        start < value@.len(),
    ensures
        ({
            let rest = value@.skip(start as int);
            let k = continued_len(rest) as int;
            match r {
                Ok((n, end)) => k < rest.len() && symbol_value(rest[k]) is Some && end == start + k + 1
                    && n == digits_value(rest.take(k + 1)),
                Err(DecompressError::TruncatedError) => k >= rest.len(),
                Err(DecompressError::InvalidCharError(c)) => k < rest.len() && symbol_value(rest[k]) is None
                    && c == rest[k] as char,
                Err(DecompressError::OverflowError) => k < rest.len() && symbol_value(rest[k]) is Some
                    && digits_value(rest.take(k + 1)) >= 0x1_0000_0000_0000_0000,
            }
        }),
{
    let ghost rest = value@.skip(start as int);
    let mut pos: usize = start;
    let mut i: usize = 0;
    let mut n: u128 = 0;
    let mut scale: u128 = 1;
    proof {
        lemma_pow32_thirteen();
    }
    assert(rest.take(0) =~= Seq::<u8>::empty());
    loop
        invariant
            start <= pos <= value@.len(),
            i == pos - start,
            rest == value@.skip(start as int),
            forall|j: int| 0 <= j < i ==> is_continuation(#[trigger] rest[j]),
            n == (if digits_value(rest.take(i as int)) < 0x1_0000_0000_0000_0000 {
                digits_value(rest.take(i as int))
            } else {
                0x1_0000_0000_0000_0000
            }),
            scale == pow32(if i < 13 { i as nat } else { 13 }),
            pow32(13) == 0x2_0000_0000_0000_0000,
        decreases value@.len() - pos,
    {
        if pos >= value.len() {
            proof {
                lemma_continued_len(rest, i as nat);
            }
            return Err(DecompressError::TruncatedError);
        }
        let b = value[pos];
        assert(b == rest[i as int]);
        let v = match safe_index(b) {
            Some(v) => v,
            None => {
                proof {
                    lemma_continued_len(rest, i as nat);
                }
                return Err(DecompressError::InvalidCharError(b as char));
            },
        };
        let d: u128 = (v % 32) as u128;
        let ghost old_val = digits_value(rest.take(i as int));
        let ghost p = pow32(i as nat);
        proof {
            assert(rest.take(i as int + 1) =~= rest.take(i as int).push(b));
            lemma_digits_value_push(rest.take(i as int), b);
            assert(digit_of(b) == d);
            lemma_pow32_monotone(if i < 13 { i as nat } else { 13 }, i as nat);
            if i < 13 {
                lemma_pow32_monotone(i as nat, 13);
            }
            assert(d * scale <= 31 * 0x2_0000_0000_0000_0000) by (nonlinear_arith)
                requires
                    d < 32,
                    scale <= 0x2_0000_0000_0000_0000,
            ;
        }
        let sum: u128 = n + d * scale;
        n = if sum < 0x1_0000_0000_0000_0000 {
            sum
        } else {
            0x1_0000_0000_0000_0000
        };
        proof {
            let new_val = digits_value(rest.take(i as int + 1));
            assert(new_val == old_val + p * d);
            if d == 0 {
                assert(p * d == 0 && d * scale == 0) by (nonlinear_arith)
                    requires
                        d == 0,
                ;
            } else {
                assert(p * d >= p && d * scale >= scale) by (nonlinear_arith)
                    requires
                        d > 0,
                ;
            }
            if i < 13 {
                assert(scale == p);
                assert(d * scale == p * d) by (nonlinear_arith)
                    requires
                        scale == p,
                ;
            }
        }
        pos = pos + 1;
        i = i + 1;
        if i <= 13 {
            scale = scale * 32;
        }
        if v < 32 {
            proof {
                lemma_continued_len(rest, (i - 1) as nat);
            }
            if n >= 0x1_0000_0000_0000_0000 {
                return Err(DecompressError::OverflowError);
            }
            return Ok((n as u64, pos));
        }
    }
}

/// `pre` followed by the points of `r`, or the error of `r`.
spec fn prepend(pre: Seq<Point>, r: Result<Seq<Point>, DecompressError>) -> Result<Seq<Point>, DecompressError> {
    match r {
        Ok(rest) => Ok(pre + rest),
        Err(e) => Err(e),
    }
}

/// Decodes a string of symbols back into the path it encodes.
///
/// Fails with `InvalidCharError` on the first byte outside the alphabet,
/// wherever it stands; else with `TruncatedError` when the input ends inside
/// a digit group; else with `OverflowError` on the first group, from the
/// left, whose value or running coordinate does not fit its 64-bit integer.
pub fn decompress(value: &[u8]) -> (r: Result<Vec<Point>, DecompressError>)
    ensures
        match r {
            Ok(pts) => decoding(value@) == Ok::<Seq<Point>, DecompressError>(pts@),
            Err(e) => decoding(value@) == Err::<Seq<Point>, DecompressError>(e),
        },
{
    let mut i: usize = 0;
    while i < value.len()
        invariant
            i <= value@.len(),
            forall|j: int| 0 <= j < i ==> symbol_value(#[trigger] value@[j]) is Some,
        decreases value@.len() - i,
    {
        if safe_index(value[i]).is_none() {
            proof {
                lemma_first_invalid(value@, i as int);
            }
            return Err(DecompressError::InvalidCharError(value[i] as char));
        }
        i = i + 1;
    }
    assert(all_symbols(value@));
    if value.len() > 0 {
        if let Some(v) = safe_index(value[value.len() - 1]) {
            if v >= 32 {
                return Err(DecompressError::TruncatedError);
            }
        }
    }
    let mut points: Vec<Point> = Vec::new();
    let mut pos: usize = 0;
    let mut ysum: i64 = 0;
    let mut xsum: i64 = 0;
    assert(value@.skip(0) =~= value@);
    assert(prepend(points@, decoding(value@)) == decoding(value@)) by {
        match decoding(value@) {
            Ok(rest) => assert(points@ + rest =~= rest),
            Err(e) => {},
        }
    }
    while pos < value.len()
        invariant
            pos <= value@.len(),
            decoding(value@) == prepend(points@, decode_from(value@.skip(pos as int), ysum as int, xsum as int)),
        decreases value@.len() - pos,
    {
        let ghost rest = value@.skip(pos as int);
        let ghost k = continued_len(rest) as int;
        let (n, end) = match read_group(value, pos) {
            Ok(g) => g,
            Err(e) => {
                return Err(e);
            },
        };
        let (zy, zx) = unpair_u64(n);
        let dy = unzigzag_u64(zy);
        let dx = unzigzag_u64(zx);
        let lat: i128 = ysum as i128 + dy as i128;
        let long: i128 = xsum as i128 + dx as i128;
        if lat < i64::MIN as i128 || lat > i64::MAX as i128 || long < i64::MIN as i128 || long
            > i64::MAX as i128 {
            return Err(DecompressError::OverflowError);
        }
        let p = Point { lat: lat as i64, long: long as i64 };
        let ghost before = points@;
        points.push(p);
        proof {
            assert(rest.skip(k + 1) =~= value@.skip(end as int));
            match decode_from(value@.skip(end as int), lat as int, long as int) {
                Ok(tail) => assert(before + (seq![p] + tail) =~= points@ + tail),
                Err(e) => {},
            }
        }
        ysum = lat as i64;
        xsum = long as i64;
        pos = end;
    }
    assert(decode_from(value@.skip(pos as int), ysum as int, xsum as int) == Ok::<Seq<Point>, DecompressError>(seq![]));
    assert(points@ + seq![] =~= points@);
    Ok(points)
}

} // verus!
