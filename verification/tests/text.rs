//! Text against what the standard library makes of it.
use deltax2sort::float::Float32;
use deltax2sort::text::{
    holds_ignoring_case, is_ignoring_case, push_decimal, push_fixed_two, push_signed, same_text,
    trim,
};

fn two_decimals(x: f32) -> String {
    let mut s = String::new();
    push_fixed_two(&mut s, Float32 { bits: x.to_bits() });
    s
}

#[test]
fn two_decimals_as_the_standard_library_writes_them() {
    let mut cases = vec![
        0.0,
        -0.0,
        0.125,
        0.375,
        0.625,
        0.005,
        0.004,
        -0.001,
        0.995,
        0.999,
        1.0,
        -180.0,
        159.995,
        8388607.5,
        8388608.0,
        16777217.0,
        1e-45,
        f32::MIN_POSITIVE,
        f32::MAX,
        f32::MIN,
        f32::NAN,
        f32::INFINITY,
        f32::NEG_INFINITY,
    ];
    let mut state = 0x2545_f491_4f6c_dd1du64;
    for _ in 0..20_000 {
        state ^= state << 13;
        state ^= state >> 7;
        state ^= state << 17;
        cases.push(f32::from_bits(state as u32));
        // In the range of the workspace.
        cases.push((state % 400_000) as f32 / 1024.0 - 195.0);
    }
    for x in cases {
        assert_eq!(two_decimals(x), format!("{x:.2}"), "{x:e}");
    }
}

#[test]
fn decimal_numbers() {
    for n in [0u128, 7, 10, 99, 100, 15000, u64::MAX as u128, u128::MAX] {
        let mut s = "x".to_string();
        push_decimal(&mut s, n);
        assert_eq!(s, format!("x{n}"));
    }
    for n in [0i64, -1, 1, i64::MIN, i64::MAX, -800] {
        let mut s = String::new();
        push_signed(&mut s, n);
        assert_eq!(s, n.to_string());
    }
}

#[test]
fn white_space_is_what_unicode_says() {
    for n in 0..=0x10ffff_u32 {
        if let Some(c) = char::from_u32(n) {
            let s = c.to_string();
            assert_eq!(trim(&s).is_empty(), c.is_whitespace(), "U+{n:04X}");
        }
    }
}

#[test]
fn trimming() {
    for s in ["", " ", "a", " a b\t", "\r\nYesDelta\r\n", "\u{3000}é \u{85}", "ok \u{200b}"] {
        assert_eq!(trim(s), s.trim(), "{s:?}");
    }
}

#[test]
fn ascii_case() {
    for s in ["", "ok", "OK", "Ok", "okay", "o", "ÖK", "oK "] {
        assert_eq!(is_ignoring_case(s, "ok"), s.eq_ignore_ascii_case("ok"), "{s:?}");
    }
    for s in ["", "error", "ERROR limit", "an Error!", "err", "errör", "eerror", "errerror", "terro"] {
        assert_eq!(
            holds_ignoring_case(s, "error"),
            s.to_ascii_lowercase().contains("error"),
            "{s:?}"
        );
    }
    assert!(holds_ignoring_case("anything", ""));
}

#[test]
fn equal_texts() {
    assert!(same_text("", ""));
    assert!(same_text("é1", "é1"));
    assert!(!same_text("a", "b"));
    assert!(!same_text("a", "ab"));
}
