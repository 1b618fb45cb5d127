use patternsleuth::util::parse_maybe_hex;

#[test]
fn hex_numbers_need_the_0x_prefix() {
    assert_eq!(parse_maybe_hex("0x10"), Ok(16));
    assert_eq!(parse_maybe_hex("0x1400f2345"), Ok(0x1400f2345));
    assert_eq!(parse_maybe_hex("0xDEADBEEF"), Ok(0xDEADBEEF));
}

#[test]
fn plain_numbers_are_decimal() {
    assert_eq!(parse_maybe_hex("123"), Ok(123));
    assert_eq!(parse_maybe_hex("0"), Ok(0));
    assert_eq!(parse_maybe_hex("+5"), Ok(5));
}

#[test]
fn malformed_numbers_are_refused() {
    assert!(parse_maybe_hex("").is_err());
    assert!(parse_maybe_hex("0x").is_err());
    assert!(parse_maybe_hex("abc").is_err());
    assert!(parse_maybe_hex("12a").is_err());
    assert!(parse_maybe_hex("0xZZ").is_err());
    assert!(parse_maybe_hex("-4").is_err());
}

#[test]
fn values_over_the_address_space_are_refused() {
    assert!(parse_maybe_hex("0xFFFFFFFFFFFFFFFF").is_ok());
    assert!(parse_maybe_hex("0x10000000000000000").is_err());
    assert!(parse_maybe_hex("99999999999999999999999").is_err());
}
