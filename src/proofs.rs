//! What the encoder and decoder guarantee together.

use vstd::prelude::*;

use crate::alphabet::{lemma_symbol_round_trip, symbol, symbol_value};
use crate::codec::{
    all_symbols, continued_len, decode_from, decoding, digit_of, digits_value, encode_from, encoding, group_bytes,
    in_range, is_continuation, lemma_first_invalid, point_code, DecompressError, Point, MAX_COORDINATE,
};
use crate::pairing::{
    lemma_pair_small,
    lemma_pair_zero,
    lemma_unpair_pair,
    lemma_unzigzag_zigzag,
    unpair,
    unzigzag,
    zigzag,
};

verus! {

/// No point of `pts` repeats its predecessor; the first one's predecessor is `(lat, long)`.
pub open spec fn no_repeats(pts: Seq<Point>, lat: int, long: int) -> bool {
    &&& pts.len() > 0 ==> (pts[0].lat != lat || pts[0].long != long)
    &&& forall|i: int| 1 <= i < pts.len() ==> #[trigger] pts[i] != pts[i - 1]
}

/// The latitude of the last point of `pts`, or `lat` when there is none.
pub open spec fn last_lat(pts: Seq<Point>, lat: int) -> int {
    if pts.len() == 0 {
        lat
    } else {
        pts.last().lat as int
    }
}

/// The longitude of the last point of `pts`, or `long` when there is none.
pub open spec fn last_long(pts: Seq<Point>, long: int) -> int {
    if pts.len() == 0 {
        long
    } else {
        pts.last().long as int
    }
}

/// `pts` without the points that equal their predecessor (the first one's
/// predecessor is `(lat, long)`): the points that have bytes of their own.
pub open spec fn collapse_repeats(pts: Seq<Point>, lat: int, long: int) -> Seq<Point>
    decreases pts.len(),
{
    if pts.len() == 0 {
        seq![]
    } else if pts[0].lat == lat && pts[0].long == long {
        collapse_repeats(pts.drop_first(), lat, long)
    } else {
        seq![pts[0]] + collapse_repeats(pts.drop_first(), pts[0].lat as int, pts[0].long as int)
    }
}

proof fn lemma_collapse_no_repeats(pts: Seq<Point>, lat: int, long: int)
    requires
        no_repeats(pts, lat, long),
    ensures
        collapse_repeats(pts, lat, long) == pts,
    decreases pts.len(),
{
    if pts.len() > 0 {
        let p = pts[0];
        let tail = pts.drop_first();
        assert forall|i: int| 1 <= i < tail.len() implies #[trigger] tail[i] != tail[i - 1] by {
            assert(pts[i + 1] != pts[i]);
        }
        if tail.len() > 0 {
            assert(pts[1] != pts[0]);
            assert(tail[0].lat != p.lat || tail[0].long != p.long);
        }
        lemma_collapse_no_repeats(tail, p.lat as int, p.long as int);
        assert(seq![p] + tail =~= pts);
    }
}

/// A nonzero code's digit group, followed by anything, is read back as that code.
proof fn lemma_group_bytes(n: nat, suffix: Seq<u8>)
    requires
        n > 0,
    ensures
        ({
            let g = group_bytes(n);
            let s = g + suffix;
            &&& g.len() > 0
            &&& continued_len(s) == g.len() - 1
            &&& symbol_value(s[g.len() - 1]) is Some
            &&& digits_value(s.take(g.len() as int)) == n
            &&& s.skip(g.len() as int) =~= suffix
        }),
    decreases n,
{
    let g = group_bytes(n);
    let s = g + suffix;
    let low = n % 32;
    if n / 32 == 0 {
        lemma_symbol_round_trip(low as int);
        assert(group_bytes(0) =~= Seq::<u8>::empty());
        assert(g =~= seq![symbol(low as int)]);
        assert(s.drop_first() =~= suffix);
        assert(s.take(1).drop_first() =~= Seq::<u8>::empty());
        assert(s[0] == symbol(low as int));
        assert(!is_continuation(s[0]));
        assert(continued_len(s) == 0);
        assert(digits_value(s.take(1)) == digit_of(s[0]) + 32 * digits_value(s.take(1).drop_first()));
        assert(digit_of(s[0]) == low);
        assert(digits_value(s.take(1)) == n);
    } else {
        let g2 = group_bytes(n / 32);
        lemma_group_bytes(n / 32, suffix);
        lemma_symbol_round_trip(low + 32int);
        assert(s.drop_first() =~= g2 + suffix);
        assert(s.take(g.len() as int).drop_first() =~= (g2 + suffix).take(g2.len() as int));
        assert(s[g.len() - 1] == (g2 + suffix)[g2.len() - 1]);
        assert(s[0] == symbol(low + 32int));
        assert(is_continuation(s[0]));
        assert(continued_len(s) == 1 + continued_len(s.drop_first()));
        assert(digit_of(s[0]) == low);
        let t = s.take(g.len() as int);
        assert(t[0] == s[0]);
        assert(digits_value(t) == digit_of(t[0]) + 32 * digits_value(t.drop_first()));
        assert(digits_value(t) == n);
    }
}

/// A nonzero code's digit group is made of symbols, the last one without
/// the continuation flag.
proof fn lemma_group_symbols(n: nat)
    requires
        n > 0,
    ensures
        all_symbols(group_bytes(n)),
        !is_continuation(group_bytes(n).last()),
    decreases n,
{
    let g = group_bytes(n);
    let low = n % 32;
    if n / 32 == 0 {
        lemma_symbol_round_trip(low as int);
        assert(group_bytes(0) =~= Seq::<u8>::empty());
        assert(g =~= seq![symbol(low as int)]);
    } else {
        let g2 = group_bytes(n / 32);
        lemma_group_symbols(n / 32);
        lemma_symbol_round_trip(low + 32int);
        assert(g =~= seq![symbol(low + 32int)] + g2);
        assert forall|j: int| 0 <= j < g.len() implies symbol_value(#[trigger] g[j]) is Some by {
            if j > 0 {
                assert(g[j] == g2[j - 1]);
            }
        }
        assert(g.last() == g2.last());
    }
}

/// An encoding is made of symbols, the last one without the continuation flag.
proof fn lemma_encoding_symbols(pts: Seq<Point>, lat: int, long: int)
    ensures
        all_symbols(encode_from(pts, lat, long)),
        encode_from(pts, lat, long).len() > 0 ==> !is_continuation(encode_from(pts, lat, long).last()),
    decreases pts.len(),
{
    if pts.len() > 0 {
        let p = pts[0];
        let n = point_code(p, lat, long);
        let g = group_bytes(n);
        let r = encode_from(pts.drop_first(), p.lat as int, p.long as int);
        lemma_encoding_symbols(pts.drop_first(), p.lat as int, p.long as int);
        let e = encode_from(pts, lat, long);
        assert(e =~= g + r);
        if n == 0 {
            assert(g =~= Seq::<u8>::empty());
            assert(e =~= r);
        } else {
            lemma_group_symbols(n);
            assert forall|j: int| 0 <= j < e.len() implies symbol_value(#[trigger] e[j]) is Some by {
                if j < g.len() {
                    assert(e[j] == g[j]);
                } else {
                    assert(e[j] == r[j - g.len()]);
                }
            }
            if r.len() > 0 {
                assert(e.last() == r.last());
            } else {
                assert(e.last() == g.last());
            }
        }
    }
}

/// Decoding an encoded path followed by more bytes gives the path back,
/// without its repeated points, then what the rest decodes to from the
/// path's last point.
pub proof fn lemma_decode_encoded_prefix(pts: Seq<Point>, lat: int, long: int, suffix: Seq<u8>)
    requires
        forall|i: int| 0 <= i < pts.len() ==> in_range(#[trigger] pts[i]),
        -MAX_COORDINATE <= lat <= MAX_COORDINATE,
        -MAX_COORDINATE <= long <= MAX_COORDINATE,
    ensures
        decode_from(encode_from(pts, lat, long) + suffix, lat, long) == match decode_from(
            suffix,
            last_lat(pts, lat),
            last_long(pts, long),
        ) {
            Ok(rest) => Ok(collapse_repeats(pts, lat, long) + rest),
            Err(e) => Err::<Seq<Point>, DecompressError>(e),
        },
    decreases pts.len(),
{
    if pts.len() == 0 {
        assert(encode_from(pts, lat, long) + suffix =~= suffix);
        match decode_from(suffix, lat, long) {
            Ok(rest) => assert(collapse_repeats(pts, lat, long) + rest =~= rest),
            Err(e) => {},
        }
    } else {
        let p = pts[0];
        let tail = pts.drop_first();
        let zy = zigzag(p.lat - lat);
        let zx = zigzag(p.long - long);
        let n = point_code(p, lat, long);
        lemma_pair_zero(zy, zx);
        lemma_pair_small(zy, zx);
        lemma_unpair_pair(zy, zx);
        lemma_unzigzag_zigzag(p.lat - lat);
        lemma_unzigzag_zigzag(p.long - long);
        let after = encode_from(tail, p.lat as int, p.long as int) + suffix;
        let s = encode_from(pts, lat, long) + suffix;
        assert(s =~= group_bytes(n) + after);
        assert(forall|i: int| 0 <= i < tail.len() ==> #[trigger] tail[i] == pts[i + 1]);
        lemma_decode_encoded_prefix(tail, p.lat as int, p.long as int, suffix);
        if tail.len() > 0 {
            assert(tail.last() == pts.last());
        }
        if n == 0 {
            assert(group_bytes(0) =~= Seq::<u8>::empty());
            assert(s =~= after);
        } else {
            lemma_group_bytes(n, after);
            let g = group_bytes(n);
            assert(s.skip(g.len() as int) =~= after);
            assert(Point { lat: (p.lat as int) as i64, long: (p.long as int) as i64 } == p);
            match decode_from(suffix, last_lat(pts, lat), last_long(pts, long)) {
                Ok(rest) => assert(seq![p] + (collapse_repeats(tail, p.lat as int, p.long as int) + rest)
                    =~= collapse_repeats(pts, lat, long) + rest),
                Err(e) => {},
            }
        }
    }
}

/// Decoding the encoding of any path gives the path back without the points
/// that equal their predecessor (the first point's predecessor is the origin).
pub proof fn lemma_round_trip_collapses_repeats(pts: Seq<Point>)
    requires
        forall|i: int| 0 <= i < pts.len() ==> in_range(#[trigger] pts[i]),
    ensures
        decoding(encoding(pts)) == Ok::<Seq<Point>, DecompressError>(collapse_repeats(pts, 0, 0)),
{
    lemma_decode_encoded_prefix(pts, 0, 0, seq![]);
    lemma_encoding_symbols(pts, 0, 0);
    assert(encoding(pts) + seq![] =~= encoding(pts));
    assert(collapse_repeats(pts, 0, 0) + seq![] =~= collapse_repeats(pts, 0, 0));
}

/// Decoding the encoding of a path gives the path back, when each point
/// differs from the one before it (the first one from the origin): a point
/// equal to its predecessor has no bytes of its own.
pub proof fn lemma_round_trip(pts: Seq<Point>)
    requires
        forall|i: int| 0 <= i < pts.len() ==> in_range(#[trigger] pts[i]),
        no_repeats(pts, 0, 0),
    ensures
        decoding(encoding(pts)) == Ok::<Seq<Point>, DecompressError>(pts),
{
    lemma_round_trip_collapses_repeats(pts);
    lemma_collapse_no_repeats(pts, 0, 0);
}

/// The empty path encodes to no bytes, and no bytes decode to the empty path.
pub proof fn lemma_empty()
    ensures
        encoding(seq![]) == Seq::<u8>::empty(),
        decoding(seq![]) == Ok::<Seq<Point>, DecompressError>(seq![]),
{
}

/// Encoding and decoding are functions of their input alone: equal inputs
/// give equal outputs.
pub proof fn lemma_deterministic(p1: Seq<Point>, p2: Seq<Point>, b1: Seq<u8>, b2: Seq<u8>)
    ensures
        p1 == p2 ==> encoding(p1) == encoding(p2),
        b1 == b2 ==> decoding(b1) == decoding(b2),
{
}

proof fn lemma_continued_prefix(s: Seq<u8>)
    ensures
        continued_len(s) <= s.len(),
        continued_len(s) < s.len() ==> !is_continuation(s[continued_len(s) as int]),
        forall|j: int| 0 <= j < continued_len(s) ==> is_continuation(#[trigger] s[j]),
    decreases s.len(),
{
    if s.len() > 0 && is_continuation(s[0]) {
        lemma_continued_prefix(s.drop_first());
        if continued_len(s) < s.len() {
            assert(s[continued_len(s) as int] == s.drop_first()[continued_len(s.drop_first()) as int]);
        }
        assert forall|j: int| 0 <= j < continued_len(s) implies is_continuation(#[trigger] s[j]) by {
            if j > 0 {
                assert(s[j] == s.drop_first()[j - 1]);
            }
        }
    }
}

/// Bytes that hold a symbol outside the alphabet decode to the error that
/// names the first such byte, whatever stands before or after it.
pub proof fn lemma_invalid_byte_fails(bytes: Seq<u8>, i: int)
    requires
        0 <= i < bytes.len(),
        symbol_value(bytes[i]) is None,
        forall|j: int| 0 <= j < i ==> symbol_value(#[trigger] bytes[j]) is Some,
    ensures
        decoding(bytes) == Err::<Seq<Point>, DecompressError>(
            DecompressError::InvalidCharError(bytes[i] as char),
        ),
{
    lemma_first_invalid(bytes, i);
}

/// Symbols whose last one carries the continuation flag decode to the
/// truncation error.
pub proof fn lemma_open_group_fails(bytes: Seq<u8>)
    requires
        all_symbols(bytes),
        bytes.len() > 0,
        is_continuation(bytes.last()),
    ensures
        decoding(bytes) == Err::<Seq<Point>, DecompressError>(DecompressError::TruncatedError),
{
}

/// From any point on, symbols whose last one ends a group decode to points,
/// or fail only because a value does not fit its 64-bit integer.
proof fn lemma_closed_groups_decode(bytes: Seq<u8>, lat: int, long: int)
    requires
        all_symbols(bytes),
        bytes.len() > 0 ==> !is_continuation(bytes.last()),
    ensures
        decode_from(bytes, lat, long) is Ok || decode_from(bytes, lat, long) == Err::<Seq<Point>, DecompressError>(
            DecompressError::OverflowError,
        ),
    decreases bytes.len(),
{
    if bytes.len() > 0 {
        lemma_continued_prefix(bytes);
        let k = continued_len(bytes) as int;
        if k >= bytes.len() {
            assert(is_continuation(bytes[bytes.len() - 1]));
        }
        assert(symbol_value(bytes[k]) is Some);
        let n = digits_value(bytes.take(k + 1));
        if n < 0x1_0000_0000_0000_0000 {
            let lat2 = lat + unzigzag(unpair(n).0);
            let long2 = long + unzigzag(unpair(n).1);
            let rest = bytes.skip(k + 1);
            assert forall|j: int| 0 <= j < rest.len() implies symbol_value(#[trigger] rest[j]) is Some by {
                assert(rest[j] == bytes[j + k + 1]);
            }
            if rest.len() > 0 {
                assert(rest.last() == bytes.last());
            }
            lemma_closed_groups_decode(rest, lat2, long2);
        }
    }
}

/// Symbols whose last one ends a group decode to points, or fail only
/// because a value does not fit its 64-bit integer.
pub proof fn lemma_closed_input_decodes(bytes: Seq<u8>)
    requires
        all_symbols(bytes),
        bytes.len() > 0 ==> !is_continuation(bytes.last()),
    ensures
        decoding(bytes) is Ok || decoding(bytes) == Err::<Seq<Point>, DecompressError>(
            DecompressError::OverflowError,
        ),
{
    lemma_closed_groups_decode(bytes, 0, 0);
}

} // verus!
