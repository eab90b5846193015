use point_compression::alphabet::{safe_character, safe_index};
use point_compression::codec::{compress, decompress, DecompressError, Point, MAX_COORDINATE};

fn quantize(lat: f64, long: f64) -> Point {
    Point {
        lat: (lat * 100000.0).round() as i64,
        long: (long * 100000.0).round() as i64,
    }
}

fn degrees(p: &Point) -> (f64, f64) {
    ((p.lat as f64) * 0.00001, (p.long as f64) * 0.00001)
}

fn known_path() -> Vec<(f64, f64)> {
    vec![
        (35.894309002906084, -110.72522000409663),
        (35.89393097907304, -110.72577999904752),
        (35.89374498464167, -110.72606003843248),
        (35.893366960808635, -110.72661500424147),
    ]
}

#[test]
fn test_encode() {
    let output = b"vx1vilihnM6hR7mEl2Q";

    let path = known_path();
    let points: Vec<Point> = path.iter().map(|&(lat, long)| quantize(lat, long)).collect();

    let r = compress(&points);

    assert_eq!(r, output);

    let p2 = decompress(&r).unwrap();

    assert_eq!(p2.len(), path.len());
    for (i, &(lat, long)) in path.iter().enumerate() {
        let (lat2, long2) = degrees(&p2[i]);
        assert!((lat - lat2).abs() < 1e-5 && (long - long2).abs() < 1e-5);
    }
}

#[test]
fn test_safe_idx_inverse() {
    for i in 0u8..64 {
        // the symbol of each value looks up to that value
        let c = safe_character(i);
        assert!(safe_index(c) == Some(i));
    }

    for c in 0u8..=255 {
        match safe_index(c) {
            None => {
                // the byte is not one of the symbols
                for i in 0u8..64 {
                    assert!(safe_character(i) != c);
                }
            }
            Some(i) => {
                // the byte is the symbol of the value it looks up to
                assert!(safe_character(i) == c);
            }
        }
    }
}

#[test]
fn alphabet_is_url_safe_and_ordered() {
    let symbols: Vec<u8> = (0u8..64).map(safe_character).collect();
    assert_eq!(
        symbols,
        b"ABCDEFGHIJKLMNOPQRSTUVWXYZabcdefghijklmnopqrstuvwxyz0123456789_-".to_vec()
    );
    assert_eq!(safe_index(b'!'), None);
    assert_eq!(safe_index(b'='), None);
    assert_eq!(safe_index(b'-'), Some(63));
}

#[test]
fn empty_input() {
    assert_eq!(compress(&[]), Vec::<u8>::new());
    assert_eq!(decompress(b"").unwrap(), Vec::<Point>::new());
}

#[test]
fn encoding_is_deterministic() {
    let points: Vec<Point> = known_path().iter().map(|&(lat, long)| quantize(lat, long)).collect();
    assert_eq!(compress(&points), compress(&points));
    let bytes = b"vx1vilihnM6hR7mEl2Q";
    assert_eq!(decompress(bytes).unwrap(), decompress(bytes).unwrap());
}

#[test]
fn invalid_character_is_reported() {
    assert_eq!(decompress(b"vx1v!lihnM"), Err(DecompressError::InvalidCharError('!')));
    assert_eq!(decompress(b"A!"), Err(DecompressError::InvalidCharError('!')));
    assert_eq!(decompress(b"A="), Err(DecompressError::InvalidCharError('=')));
}

#[test]
fn invalid_character_wins_over_oversized_group() {
    // the group before '!' is worth 2^64, yet the byte outside the alphabet is reported
    assert_eq!(decompress(b"ggggggggggggQ!"), Err(DecompressError::InvalidCharError('!')));
    assert_eq!(decompress(b"ggggggggggggQg!"), Err(DecompressError::InvalidCharError('!')));
    assert_eq!(decompress(b"!"), Err(DecompressError::InvalidCharError('!')));
}

#[test]
fn truncation_wins_over_oversized_group() {
    // every byte is a symbol and the last one carries the continuation flag
    assert_eq!(decompress(b"ggggggggggggQg"), Err(DecompressError::TruncatedError));
    assert_eq!(decompress(b"g"), Err(DecompressError::TruncatedError));
}

#[test]
fn truncated_group_is_reported() {
    // 'v' has value 47: continuation flag set, nothing follows
    assert_eq!(decompress(b"v"), Err(DecompressError::TruncatedError));
    assert_eq!(decompress(b"vx1vilihnM6hR7mEl2Qv"), Err(DecompressError::TruncatedError));
}

#[test]
fn oversized_group_is_reported() {
    // thirteen digits of 31 with the flag, then a 1 at 32^13 = 2^65
    assert_eq!(decompress(b"-------------B"), Err(DecompressError::OverflowError));
    // a digit of 16 at 32^12 = 2^60 reaches 2^64
    assert_eq!(decompress(b"gggggggggggggQ"), Err(DecompressError::OverflowError));
}

#[test]
fn single_deltas_have_known_codes() {
    // (0, 1): zigzags (0, 2), diagonal 2, code 3
    assert_eq!(compress(&[Point { lat: 0, long: 1 }]), b"D".to_vec());
    // (1, 0): zigzags (2, 0), code 3 + 2 = 5
    assert_eq!(compress(&[Point { lat: 1, long: 0 }]), b"F".to_vec());
    // (-1, 0): zigzags (1, 0), code 1 + 1 = 2
    assert_eq!(compress(&[Point { lat: -1, long: 0 }]), b"C".to_vec());
    // (0, 4): zigzags (0, 8), code 36 = 4 + 32 * 1: digits 4 | 32, then 1
    assert_eq!(compress(&[Point { lat: 0, long: 4 }]), b"kB".to_vec());
    assert_eq!(decompress(b"kB").unwrap(), vec![Point { lat: 0, long: 4 }]);
}

#[test]
fn repeated_points_add_no_bytes() {
    let p = Point { lat: 3589431, long: -11072522 };
    assert_eq!(compress(&[p, p, p]), compress(&[p]));
    assert_eq!(compress(&[Point { lat: 0, long: 0 }]), Vec::<u8>::new());
    let q = Point { lat: 3589393, long: -11072578 };
    assert_eq!(decompress(&compress(&[p, p, q, q])).unwrap(), vec![p, q]);
}

#[test]
fn round_trip_at_the_range_limits() {
    let points = vec![
        Point { lat: MAX_COORDINATE, long: -MAX_COORDINATE },
        Point { lat: -MAX_COORDINATE, long: MAX_COORDINATE },
        Point { lat: 1, long: -1 },
        Point { lat: -MAX_COORDINATE, long: -MAX_COORDINATE },
    ];
    let bytes = compress(&points);
    assert_eq!(decompress(&bytes).unwrap(), points);
}

#[test]
fn round_trip_within_tolerance() {
    let path = vec![(48.858222, 2.2945), (-33.856784, 151.215297), (0.000004, -0.000004), (89.99999, -179.99999)];
    let points: Vec<Point> = path.iter().map(|&(lat, long)| quantize(lat, long)).collect();
    let decoded = decompress(&compress(&points)).unwrap();
    assert_eq!(decoded.len(), path.len());
    for (i, &(lat, long)) in path.iter().enumerate() {
        let (lat2, long2) = degrees(&decoded[i]);
        assert!((lat - lat2).abs() <= 5e-6 + 1e-12 && (long - long2).abs() <= 5e-6 + 1e-12);
    }
}
