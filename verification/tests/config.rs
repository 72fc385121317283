use cargo_registry::config::parse_cidr_block;
use cargo_registry::config::parse_cidr_list;
use cargo_registry::config::parse_comma_list;
use cargo_registry::config::parse_traffic_patterns;
use cargo_registry::config::AllowedOrigins;
use cargo_registry::config::CidrBlock;
use cargo_registry::config::CidrBlockError;
use cargo_registry::strutil::find_char;
use cargo_registry::strutil::split_string;
use cargo_registry::strutil::str_eq;

#[test]
fn parse_traffic_patterns_splits_on_comma_and_looks_for_equal_sign() {
    let pattern_string_1 = "Foo=BAR,Bar=BAZ";
    let pattern_string_2 = "Baz=QUX";
    let pattern_string_3 = "";

    let patterns_1 = parse_traffic_patterns(pattern_string_1);
    assert_eq!(
        vec![
            ("Foo".to_string(), "BAR".to_string()),
            ("Bar".to_string(), "BAZ".to_string())
        ],
        patterns_1
    );

    let patterns_2 = parse_traffic_patterns(pattern_string_2);
    assert_eq!(vec![("Baz".to_string(), "QUX".to_string())], patterns_2);

    assert!(parse_traffic_patterns(pattern_string_3).is_empty());
}

#[test]
fn parse_cidr_block_list_successfully() {
    assert_eq!(
        parse_cidr_block("127.0.0.1/24"),
        Ok(CidrBlock::V4 {
            addr: 0x7F00_0001,
            prefix: 24
        })
    );
    assert_eq!(
        parse_cidr_block("192.168.0.1/31"),
        Ok(CidrBlock::V4 {
            addr: 0xC0A8_0001,
            prefix: 31
        })
    );
}

#[test]
fn parse_cidr_blocks_panics_when_host_ipv4_prefix_is_too_low() {
    assert!(parse_cidr_block("127.0.0.1/8").is_err());
}

#[test]
fn parse_cidr_blocks_panics_when_host_ipv6_prefix_is_too_low() {
    assert!(parse_cidr_block("2001:0db8:0123:4567:89ab:cdef:1234:5678/56").is_err());
}

#[test]
fn parse_ipv6_based_cidr_blocks() {
    assert_eq!(
        parse_cidr_block("2002::1234:abcd:ffff:c0a8:101/64"),
        Ok(CidrBlock::V6 {
            addr: 0x2002_0000_0000_1234_ABCD_FFFF_C0A8_0101,
            prefix: 64
        })
    );
    assert_eq!(
        parse_cidr_block("2001:0db8:0123:4567:89ab:cdef:1234:5678/92"),
        Ok(CidrBlock::V6 {
            addr: 0x2001_0DB8_0123_4567_89AB_CDEF_1234_5678,
            prefix: 92
        })
    );
}

#[test]
fn parse_cidr_block_distinguishes_its_errors() {
    assert_eq!(
        parse_cidr_block("not an ip"),
        Err(CidrBlockError::NotACidrBlock)
    );
    assert_eq!(
        parse_cidr_block("127.0.0.1/8"),
        Err(CidrBlockError::HostPrefixTooShort)
    );
}

#[test]
fn parse_cidr_list_takes_every_block_or_the_first_error() {
    assert_eq!(
        parse_cidr_list("127.0.0.1/24,192.168.0.1/31"),
        Ok(vec![
            CidrBlock::V4 {
                addr: 0x7F00_0001,
                prefix: 24
            },
            CidrBlock::V4 {
                addr: 0xC0A8_0001,
                prefix: 31
            },
        ])
    );
    assert_eq!(
        parse_cidr_list("127.0.0.1/8,not an ip"),
        Err(CidrBlockError::HostPrefixTooShort)
    );
}

#[test]
fn allowed_origins_are_split_on_commas() {
    let origins = AllowedOrigins::from_default_env("https://crates.io,https://staging.crates.io");
    assert!(origins.contains("https://crates.io"));
    assert!(origins.contains("https://staging.crates.io"));
    assert!(!origins.contains("https://evil.example"));
    assert!(!origins.contains("https://crates.io,https://staging.crates.io"));
}

#[test]
fn parse_comma_list_of_empty_value_has_no_entries() {
    assert!(parse_comma_list("").is_empty());
    assert_eq!(
        parse_comma_list("alpha,beta"),
        vec!["alpha".to_string(), "beta".to_string()]
    );
}

#[test]
fn split_string_keeps_empty_pieces() {
    assert_eq!(
        split_string("a,,b", ','),
        vec!["a".to_string(), "".to_string(), "b".to_string()]
    );
    assert_eq!(split_string("", ','), vec!["".to_string()]);
    assert_eq!(
        split_string("a,", ','),
        vec!["a".to_string(), "".to_string()]
    );
}

#[test]
fn find_char_returns_first_occurrence() {
    assert_eq!(find_char("a=b=c", '='), Some(1));
    assert_eq!(find_char("abc", '='), None);
}

#[test]
fn str_eq_compares_by_content() {
    assert!(str_eq("same", "same"));
    assert!(!str_eq("same", "sama"));
    assert!(!str_eq("same", "sam"));
}
