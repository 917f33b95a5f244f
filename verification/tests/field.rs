use swapview::field_display_name;
use swapview::normalize_field;
use swapview::read_field;
use swapview::FieldError;

#[test]
fn normalization_appends_separator_once() {
    assert_eq!(normalize_field(b"Swap".to_vec()), b"Swap:".to_vec());
    assert_eq!(normalize_field(b"Swap:".to_vec()), b"Swap:".to_vec());
    assert_eq!(normalize_field(Vec::new()), b":".to_vec());
}

#[test]
fn header_name_drops_separators_and_upper_cases() {
    assert_eq!(field_display_name(&b"Swap:".to_vec()), b"SWAP".to_vec());
    assert_eq!(field_display_name(&b"Pss_Anon:".to_vec()), b"PSS_ANON".to_vec());
    assert_eq!(field_display_name(&b"::x::".to_vec()), b"X".to_vec());
    assert_eq!(field_display_name(&b":".to_vec()), b"".to_vec());
    assert_eq!(field_display_name(&b"RSS9:".to_vec()), b"RSS9".to_vec());
}

#[test]
fn specifier_with_and_without_separator_select_the_same_field() {
    let content = b"Rss: 4 kB\nSwap: 12 kB\n".to_vec();
    let bare = normalize_field(b"Swap".to_vec());
    let with = normalize_field(b"Swap:".to_vec());
    assert_eq!(bare, with);
    assert_eq!(read_field(&content, &bare), read_field(&content, &with));
    assert_eq!(read_field(&content, &bare), Ok(12 * 1024));
}

#[test]
fn reads_the_matching_line_and_scales_to_bytes() {
    let content = b"Rss: 4 kB\nPss: 2 kB\nSwap: 12 kB\nSwapPss: 3 kB\n".to_vec();
    assert_eq!(read_field(&content, &b"Swap:".to_vec()), Ok(12288));
    assert_eq!(read_field(&content, &b"SwapPss:".to_vec()), Ok(3072));
    assert_eq!(read_field(&content, &b"Rss:".to_vec()), Ok(4096));
}

#[test]
fn first_matching_line_wins() {
    let content = b"Swap: 7 kB\nSwap: 9 kB\n".to_vec();
    assert_eq!(read_field(&content, &b"Swap:".to_vec()), Ok(7 * 1024));
}

#[test]
fn absent_field_is_the_absent_value() {
    let content = b"Rss: 4 kB\nPss: 2 kB\n".to_vec();
    assert_eq!(read_field(&content, &b"Swap:".to_vec()), Ok(0));
}

#[test]
fn empty_content_is_the_absent_value() {
    assert_eq!(read_field(&Vec::new(), &b"Swap:".to_vec()), Ok(0));
}

#[test]
fn zero_value_reads_as_zero() {
    let content = b"Swap: 0 kB\n".to_vec();
    assert_eq!(read_field(&content, &b"Swap:".to_vec()), Ok(0));
}

#[test]
fn negative_value_keeps_its_sign() {
    let content = b"Swap: -5 kB\n".to_vec();
    assert_eq!(read_field(&content, &b"Swap:".to_vec()), Ok(-5120));
}

#[test]
fn explicit_plus_sign_is_accepted() {
    let content = b"Swap: +7 kB\n".to_vec();
    assert_eq!(read_field(&content, &b"Swap:".to_vec()), Ok(7168));
}

#[test]
fn value_without_unit_still_parses() {
    let content = b"Swap: 8".to_vec();
    assert_eq!(read_field(&content, &b"Swap:".to_vec()), Ok(8192));
}

#[test]
fn non_numeric_value_is_malformed() {
    let content = b"Swap: abc kB\n".to_vec();
    assert_eq!(read_field(&content, &b"Swap:".to_vec()), Err(FieldError::Malformed));
}

#[test]
fn missing_value_is_malformed() {
    let content = b"Swap:\n".to_vec();
    assert_eq!(read_field(&content, &b"Swap:".to_vec()), Err(FieldError::Malformed));
    let spaces = b"Swap:   \n".to_vec();
    assert_eq!(read_field(&spaces, &b"Swap:".to_vec()), Err(FieldError::Malformed));
}

#[test]
fn sign_without_digits_is_malformed() {
    let content = b"Swap: - kB\n".to_vec();
    assert_eq!(read_field(&content, &b"Swap:".to_vec()), Err(FieldError::Malformed));
}

#[test]
fn value_too_wide_for_the_usage_type_is_malformed() {
    let content = b"Swap: 99999999999999999999 kB\n".to_vec();
    assert_eq!(read_field(&content, &b"Swap:".to_vec()), Err(FieldError::Malformed));
    // 9007199254740992 kB is exactly one byte past the positive range...
    let edge = b"Swap: 9007199254740992 kB\n".to_vec();
    assert_eq!(read_field(&edge, &b"Swap:".to_vec()), Err(FieldError::Malformed));
    let just_fits = b"Swap: 9007199254740991 kB\n".to_vec();
    assert_eq!(read_field(&just_fits, &b"Swap:".to_vec()), Ok(9007199254740991 * 1024));
    // ...but its negation is the lowest value the usage type holds.
    let lowest = b"Swap: -9007199254740992 kB\n".to_vec();
    assert_eq!(read_field(&lowest, &b"Swap:".to_vec()), Ok(i64::MIN));
}

#[test]
fn non_utf8_bytes_elsewhere_do_not_disturb_the_read() {
    let mut content = vec![0xffu8, 0xfe, b'\n'];
    content.extend_from_slice(b"Swap: 3 kB\n");
    assert_eq!(read_field(&content, &b"Swap:".to_vec()), Ok(3072));
}
