use geosearch::decimal::{parse_number, signed_text, unsigned_text, NumberFault};
use geosearch::float::{Float32, Float64};

fn double(value: f64) -> Float64 {
    Float64 { bits: value.to_bits() }
}

fn single(value: f32) -> Float32 {
    Float32 { bits: value.to_bits() }
}

const DOUBLES: [f64; 14] = [
    f64::NEG_INFINITY,
    f64::MIN,
    -74.0721,
    -1.0,
    -5e-324,
    -0.0,
    0.0,
    5e-324,
    f64::MIN_POSITIVE,
    0.5,
    4.711,
    1e300,
    f64::INFINITY,
    f64::NAN,
];

const SINGLES: [f32; 11] = [
    f32::NEG_INFINITY,
    f32::MIN,
    -1.5,
    -1e-45,
    -0.0,
    0.0,
    1e-45,
    2.5,
    f32::MAX,
    f32::INFINITY,
    f32::NAN,
];

#[test]
fn doubles_compare_as_the_numbers_do() {
    for a in DOUBLES {
        for b in DOUBLES {
            assert_eq!(double(a).is_below(double(b)), a < b, "{a} {b}");
            assert_eq!(double(a).is_within(double(b)), a <= b, "{a} {b}");
            assert_eq!(double(a) == double(b), a == b, "{a} {b}");
        }
    }
}

#[test]
fn singles_compare_as_the_numbers_do() {
    for a in SINGLES {
        for b in SINGLES {
            assert_eq!(single(a).is_below(single(b)), a < b, "{a} {b}");
            assert_eq!(single(a) == single(b), a == b, "{a} {b}");
        }
    }
}

#[test]
fn whole_numbers_become_doubles() {
    for n in [0, 1, 2, 3, 7, 250, 1000, 65535, 0x7fff_ffff, 0x8000_0000, u32::MAX] {
        assert_eq!(Float64::of_u32(n).bits, f64::from(n).to_bits(), "{n}");
    }
    for shift in 0..32 {
        let n = 0x9234_5679_u32 >> shift;
        assert_eq!(Float64::of_u32(n).bits, f64::from(n).to_bits(), "{n}");
    }
}

#[test]
fn decimal_notation_is_that_of_std() {
    for n in [0, 9, 10, 99, 100, 18_446_744_073_709_551_615_u64] {
        assert_eq!(unsigned_text(n), n.to_string());
        assert_eq!(parse_number(&unsigned_text(n), u64::MAX), Ok(n));
    }
    for n in [0, 7, -1, -1482, i32::MAX, i32::MIN] {
        assert_eq!(signed_text(n), n.to_string());
    }
}

#[test]
fn numbers_are_read_as_std_reads_them() {
    let texts = [
        "", "+", "-", "0", "007", "+5", "++5", "-5", "12a", " 1", "1 ", "4294967295", "4294967296",
        "99999999999999999999x", "99999999999", "18446744073709551615", "18446744073709551616", "٣",
    ];
    for text in texts {
        let wide = text.parse::<u64>().map_err(|error| error.to_string());
        let read = parse_number(text, u64::MAX).map_err(|fault| fault.message());
        assert_eq!(read, wide, "{text:?}");
        let narrow = text.parse::<u32>().map(u64::from).map_err(|error| error.to_string());
        let read = parse_number(text, u64::from(u32::MAX)).map_err(|fault| fault.message());
        assert_eq!(read, narrow, "{text:?}");
    }
    assert_eq!(parse_number("", 10), Err(NumberFault::Empty));
    assert_eq!(parse_number("x", 10), Err(NumberFault::InvalidDigit));
    assert_eq!(parse_number("11", 10), Err(NumberFault::TooLarge));
}
