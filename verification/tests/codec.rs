use fofb_server::codec::to_fixed;
use fofb_server::fofb_server_u32_to_std_vec;
use fofb_server::Session;

fn fix(tok: &str, w: u32) -> Option<i32> {
    to_fixed(&tok.as_bytes().to_vec(), w)
}

/// MSB-first two's-complement decoding of a 32-element logic vector.
fn decode_logic(v: &[u8; 32]) -> i32 {
    let mut u: u32 = 0;
    for &b in v.iter() {
        assert!(b == 2 || b == 3);
        u = (u << 1) | (if b == 3 { 1 } else { 0 });
    }
    u as i32
}

#[test]
fn exact_values() {
    assert_eq!(fix("1.0", 12), Some(4096));
    assert_eq!(fix("2.5", 2), Some(10));
    assert_eq!(fix("-1.5", 1), Some(-3));
    assert_eq!(fix("0", 0), Some(0));
    assert_eq!(fix("+3", 0), Some(3));
    assert_eq!(fix(".5", 1), Some(1));
    assert_eq!(fix("5.", 0), Some(5));
    assert_eq!(fix("1.5e2", 0), Some(150));
    assert_eq!(fix("15e-1", 0), Some(1));
    assert_eq!(fix("1E3", 0), Some(1000));
}

#[test]
fn truncation_toward_zero() {
    assert_eq!(fix("0.99", 0), Some(0));
    assert_eq!(fix("-0.99", 0), Some(0));
    assert_eq!(fix("1.999", 0), Some(1));
    assert_eq!(fix("-1.999", 0), Some(-1));
    assert_eq!(fix("0.75", 1), Some(1));
    assert_eq!(fix("-0.75", 1), Some(-1));
}

#[test]
fn saturation_boundaries() {
    assert_eq!(fix("1e10", 0), Some(i32::MAX));
    assert_eq!(fix("-1e10", 0), Some(i32::MIN));
    assert_eq!(fix("2147483647", 0), Some(i32::MAX));
    assert_eq!(fix("2147483648", 0), Some(i32::MAX));
    assert_eq!(fix("-2147483648", 0), Some(i32::MIN));
    assert_eq!(fix("-2147483649", 0), Some(i32::MIN));
    assert_eq!(fix("2", 31), Some(i32::MAX));
    assert_eq!(fix("-2", 31), Some(i32::MIN));
    assert_eq!(fix("0.9999999999", 31), Some(2147483647));
}

#[test]
fn special_words() {
    assert_eq!(fix("inf", 0), Some(i32::MAX));
    assert_eq!(fix("-inf", 5), Some(i32::MIN));
    assert_eq!(fix("Infinity", 0), Some(i32::MAX));
    assert_eq!(fix("-INFINITY", 0), Some(i32::MIN));
    assert_eq!(fix("nan", 0), Some(0));
    assert_eq!(fix("NaN", 7), Some(0));
    assert_eq!(fix("-nan", 0), Some(0));
}

#[test]
fn malformed_tokens() {
    assert_eq!(fix("", 0), None);
    assert_eq!(fix("abc", 0), None);
    assert_eq!(fix(".", 0), None);
    assert_eq!(fix("-", 0), None);
    assert_eq!(fix("1.2.3", 0), None);
    assert_eq!(fix("1e", 0), None);
    assert_eq!(fix("1e+", 0), None);
    assert_eq!(fix("--1", 0), None);
    assert_eq!(fix("1.0x", 0), None);
    assert_eq!(fix("infx", 0), None);
    assert_eq!(fix("1 2", 0), None);
}

#[test]
fn extreme_exponents_and_digit_counts() {
    assert_eq!(fix("1e999999999999999999999999999999999", 0), Some(i32::MAX));
    assert_eq!(fix("-1e999999999999999999999999999999999", 0), Some(i32::MIN));
    assert_eq!(fix("1e-999999999999999999999999999999999", 31), Some(0));
    assert_eq!(fix("0e999999999999999999999999999999999", 0), Some(0));
    assert_eq!(fix("123456789012345678901234567890123456789", 0), Some(i32::MAX));
    let tiny = format!("0.{}1", "0".repeat(40));
    assert_eq!(fix(&tiny, 31), Some(0));
    let long_frac = format!("1.{}", "5".repeat(60));
    assert_eq!(fix(&long_frac, 1), Some(3));
}

#[test]
fn logic_vector_driven_states() {
    let mut v = [0u8; 32];
    fofb_server_u32_to_std_vec(0, &mut v);
    assert_eq!(v, [2u8; 32]);
    fofb_server_u32_to_std_vec(0xFFFF_FFFF, &mut v);
    assert_eq!(v, [3u8; 32]);
    fofb_server_u32_to_std_vec(5, &mut v);
    let mut expect = [2u8; 32];
    expect[31] = 3; // bit 0
    expect[29] = 3; // bit 2
    assert_eq!(v, expect);
}

#[test]
fn logic_vector_round_trip() {
    let mut v = [0u8; 32];
    for &x in &[0i32, 1, -1, 5, -5, 4096, i32::MAX, i32::MIN, -123456789] {
        fofb_server_u32_to_std_vec(x as u32, &mut v);
        assert_eq!(decode_logic(&v), x);
    }
}

#[test]
fn round_trip_through_to_fixed() {
    let mut session = Session::new(12, 2, 3);
    assert_eq!(
        session.parse_line(&b"coefficients -1.5".to_vec()),
        fofb_server::FOFBMsgType::Coeff
    );
    let mut v = [0u8; 32];
    session.read_coeff(0, &mut v);
    assert_eq!(decode_logic(&v), -6);
}
