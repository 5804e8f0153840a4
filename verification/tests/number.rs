use geotable::number::{digit, is_float, parse_unsigned};

#[test]
fn digits_are_zero_to_nine() {
    for c in '0'..='9' {
        assert!(digit(c));
    }
    for c in ['/', ':', 'a', ' ', '+', '-', '\u{660}', '\u{ff11}'] {
        assert!(!digit(c), "{:?}", c);
    }
}

#[test]
fn unsigned_values() {
    assert_eq!(parse_unsigned("0"), Some(0));
    assert_eq!(parse_unsigned("5"), Some(5));
    assert_eq!(parse_unsigned("10"), Some(10));
    assert_eq!(parse_unsigned("007"), Some(7));
    assert_eq!(parse_unsigned("+42"), Some(42));
    assert_eq!(parse_unsigned("123456789"), Some(123456789));
}

#[test]
fn unsigned_limit() {
    assert_eq!(parse_unsigned("4294967295"), Some(u32::MAX));
    assert_eq!(parse_unsigned("4294967296"), None);
    assert_eq!(parse_unsigned("4294967300"), None);
    assert_eq!(parse_unsigned("42949672950"), None);
    assert_eq!(parse_unsigned("99999999999999999999999999"), None);
    assert_eq!(parse_unsigned("00000000000000000004294967295"), Some(u32::MAX));
}

#[test]
fn unsigned_rejects_what_is_no_number() {
    for text in ["", "+", "-", "-1", "-0", "1.0", "1e3", " 1", "1 ", "1_000", "0x10", "++1", "1+", "alpha", "\u{661}"] {
        assert_eq!(parse_unsigned(text), None, "{:?}", text);
    }
}

#[test]
fn unsigned_agrees_with_the_standard_library() {
    let samples = [
        "", "0", "1", "9", "10", "+", "+0", "+9", "-", "-0", "-5", "4294967294", "4294967295",
        "4294967296", "4294967305", "5000000000", "18446744073709551616", "0004294967295",
        "+4294967295", "+4294967296", "12a", "a12", "1 2", "1.5", ".5", "5.", "1e2", "\t7", "7\n",
        "\u{ff17}", "٣", "0000", "+0000", "+-1", "+ 1",
    ];
    for text in samples {
        assert_eq!(parse_unsigned(text), text.parse::<u32>().ok(), "{:?}", text);
    }
    let mut state: u64 = 0x2545f4914f6cdd1d;
    for _ in 0..2000 {
        state ^= state << 13;
        state ^= state >> 7;
        state ^= state << 17;
        let text = format!("{}", state >> (state % 40));
        assert_eq!(parse_unsigned(&text), text.parse::<u32>().ok(), "{:?}", text);
    }
}

#[test]
fn float_literals() {
    for text in [
        "1.0", "2.0", "-1.0", "3", "+3", "-3", "0", ".5", "5.", "-.5", "+5.", "1e5", "1E5",
        "1e+5", "1e-5", "1.5e10", ".5e1", "5.e1", "1e0005", "inf", "+inf", "-inf", "INF",
        "Infinity", "-INFINITY", "nan", "NaN", "-nan", "+NAN", "0.000000000000000000001",
        "123456789012345678901234567890", "1e999", "1e-999",
    ] {
        assert!(is_float(text), "{:?}", text);
    }
}

#[test]
fn float_rejects_what_is_no_number() {
    for text in [
        "", "+", "-", ".", "+.", "-.", "e5", ".e5", "1e", "1e+", "1e-", "1e5.0", "1.2.3", "1..2",
        " 1", "1 ", "1,5", "1_0", "0x10", "1f", "1.0f32", "--1", "+-1", "1e++5", "in", "infi",
        "infinit", "infinityy", "na", "nann", "i", "abc", "north", "١",
    ] {
        assert!(!is_float(text), "{:?}", text);
    }
}

#[test]
fn float_agrees_with_the_standard_library() {
    let alphabet = ['0', '1', '9', '.', 'e', 'E', '+', '-', 'i', 'n', 'f', 'a', 'N', ' ', 't', 'y'];
    let mut state: u64 = 0x9e3779b97f4a7c15;
    for _ in 0..20000 {
        let mut text = String::new();
        state ^= state << 13;
        state ^= state >> 7;
        state ^= state << 17;
        let len = (state % 7) as usize;
        let mut bits = state >> 8;
        for _ in 0..len {
            text.push(alphabet[(bits % 16) as usize]);
            bits /= 16;
        }
        assert_eq!(is_float(&text), text.parse::<f32>().is_ok(), "{:?}", text);
    }
    for text in ["inf", "infinity", "nan", "iNf", "InFiNiTy", "nAn", "+infinity", "-NaN", "infinit", "1e10", "1.e10", ".1e-10"] {
        assert_eq!(is_float(text), text.parse::<f32>().is_ok(), "{:?}", text);
    }
}
