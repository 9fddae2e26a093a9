use etl_legs::num::{parse_dec2, parse_dec4, push_dec2, push_dec4, push_dec_i64, push_dec_u64};

#[test]
fn fixed_width_renderings_are_zero_padded() {
    let mut out = Vec::new();
    push_dec4(&mut out, 7);
    push_dec2(&mut out, 3);
    push_dec4(&mut out, 2023);
    push_dec2(&mut out, 12);
    assert_eq!(out, b"000703202312".to_vec());
}

#[test]
fn minimal_renderings_have_no_leading_zeros() {
    let mut out = Vec::new();
    push_dec_u64(&mut out, 0);
    out.push(b' ');
    push_dec_u64(&mut out, 907);
    out.push(b' ');
    push_dec_u64(&mut out, u64::MAX);
    assert_eq!(out, b"0 907 18446744073709551615".to_vec());
}

#[test]
fn signed_renderings_carry_the_sign() {
    let mut out = Vec::new();
    push_dec_i64(&mut out, -45);
    out.push(b' ');
    push_dec_i64(&mut out, 0);
    out.push(b' ');
    push_dec_i64(&mut out, -(i64::MAX));
    assert_eq!(out, b"-45 0 -9223372036854775807".to_vec());
}

#[test]
fn fixed_width_parses_invert_the_renderings() {
    let bytes = b"xx202312".to_vec();
    assert_eq!(parse_dec4(&bytes, 2), Some(2023));
    assert_eq!(parse_dec2(&bytes, 6), Some(12));
    // a non-digit in the window is rejected
    assert_eq!(parse_dec4(&bytes, 0), None);
    assert_eq!(parse_dec2(&bytes, 1), None);
}
