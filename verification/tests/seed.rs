use tilemap_gen::seed::parse_seed;

#[test]
fn seed_in_hex_digits() {
    assert_eq!(parse_seed("ff"), Some(255));
    assert_eq!(parse_seed("1A"), Some(26));
    assert_eq!(parse_seed("+10"), Some(16));
    assert_eq!(parse_seed("0"), Some(0));
    assert_eq!(parse_seed("ffffffffffffffff"), Some(u64::MAX));
}

#[test]
fn seed_rejects_what_from_str_radix_rejects() {
    for text in ["", "+", "-1", "g", "12 ", "0x10", "10000000000000000", "++1"] {
        assert_eq!(parse_seed(text), u64::from_str_radix(text, 16).ok());
        assert_eq!(parse_seed(text), None);
    }
    for text in ["abc", "ABC", "+0", "00ff"] {
        assert_eq!(parse_seed(text), u64::from_str_radix(text, 16).ok());
    }
}

#[test]
fn seed_round_trips_through_upper_hex() {
    for s in [0u64, 1, 15, 16, 255, 0xDEAD_BEEF, 123_456_789_012_345, u64::MAX] {
        assert_eq!(parse_seed(&format!("{:X}", s)), Some(s));
    }
}
