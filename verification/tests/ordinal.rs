use shaker::error::StoreError;
use shaker::ordinal::{ancestor_of, ordinal_before, parent_of, parse_ordinal, sibling_of};

#[test]
fn ancestor_is_the_first_segment() {
    assert_eq!(ancestor_of("3.1.4").unwrap(), 3);
    assert_eq!(ancestor_of("12").unwrap(), 12);
    assert_eq!(ancestor_of("0.9").unwrap(), 0);
    assert_eq!(ancestor_of("007.1").unwrap(), 7);
    assert_eq!(ancestor_of("+7.1").unwrap(), 7);
    assert_eq!(ancestor_of("4294967295.1").unwrap(), 4294967295);
}

#[test]
fn ancestor_of_a_malformed_first_segment_is_invalid() {
    for text in ["", ".1", "x.1", "-1.2", "1x.2", "+", "++1", " 1", "4294967296", "1e3"] {
        assert!(matches!(ancestor_of(text), Err(StoreError::InvalidOrdinal)), "{:?}", text);
    }
}

#[test]
fn ancestor_ignores_what_follows_the_first_dot() {
    assert_eq!(ancestor_of("5.x.y").unwrap(), 5);
    assert_eq!(ancestor_of("5.").unwrap(), 5);
}

#[test]
fn parent_of_a_section_is_none() {
    assert_eq!(parent_of("1"), None);
    assert_eq!(parent_of("42"), None);
    assert_eq!(parent_of(""), None);
    assert_eq!(parent_of("abc"), None);
}

#[test]
fn parent_strips_the_last_segment_and_its_dot() {
    assert_eq!(parent_of("1.2"), Some("1".to_string()));
    assert_eq!(parent_of("3.1.4"), Some("3.1".to_string()));
    assert_eq!(parent_of("1."), Some("1".to_string()));
    assert_eq!(parent_of(".5"), Some(String::new()));
    assert_eq!(parent_of("a.b.c"), Some("a.b".to_string()));
}

#[test]
fn parent_is_none_exactly_without_a_dot() {
    for text in ["1", "1.2", "10.20.30", "", ".", "x", "x.y"] {
        assert_eq!(parent_of(text).is_none(), !text.contains('.'), "{:?}", text);
    }
}

#[test]
fn sibling_moves_the_last_segment() {
    assert_eq!(sibling_of("1.2", 1).unwrap(), "1.3");
    assert_eq!(sibling_of("1.2", -1).unwrap(), "1.1");
    assert_eq!(sibling_of("3.1.9", 1).unwrap(), "3.1.10");
    assert_eq!(sibling_of("3.1.10", -1).unwrap(), "3.1.9");
    assert_eq!(sibling_of("1.2", 0).unwrap(), "1.2");
    assert_eq!(sibling_of("1.2", 40).unwrap(), "1.42");
}

#[test]
fn sibling_of_a_single_segment_moves_that_segment() {
    assert_eq!(sibling_of("5", 1).unwrap(), "6");
    assert_eq!(sibling_of("5", -1).unwrap(), "4");
    assert_eq!(sibling_of("0", 1).unwrap(), "1");
}

#[test]
fn sibling_is_not_bounded() {
    assert_eq!(sibling_of("1.0", -1).unwrap(), "1.-1");
    assert_eq!(sibling_of("0", -1).unwrap(), "-1");
    assert_eq!(sibling_of("1.4294967295", 1).unwrap(), "1.4294967296");
    assert_eq!(sibling_of("1.0", i32::MIN).unwrap(), "1.-2147483648");
    assert_eq!(sibling_of("1.4294967295", i32::MAX).unwrap(), "1.6442450942");
}

#[test]
fn sibling_moves_numbers_of_every_size() {
    assert_eq!(sibling_of("1.4294967296", 1).unwrap(), "1.4294967297");
    assert_eq!(sibling_of("1.4294967296", -1).unwrap(), "1.4294967295");
    assert_eq!(sibling_of("1.9999999999", 1).unwrap(), "1.10000000000");
    assert_eq!(sibling_of("1.10000000000", -1).unwrap(), "1.9999999999");
    assert_eq!(sibling_of("1.99999999999", i32::MIN).unwrap(), "1.97852516351");
    assert_eq!(sibling_of("1.10000000000", i32::MAX).unwrap(), "1.12147483647");
    assert_eq!(sibling_of("1.4294967296", i32::MIN).unwrap(), "1.2147483648");
    assert_eq!(
        sibling_of("99999999999999999999999999999", 1).unwrap(),
        "100000000000000000000000000000"
    );
    assert_eq!(
        sibling_of("100000000000000000000000000000", -1).unwrap(),
        "99999999999999999999999999999"
    );
    assert_eq!(sibling_of("7.123456789012345678909", 91).unwrap(), "7.123456789012345679000");
    assert_eq!(sibling_of("7.123456789012345679000", -91).unwrap(), "7.123456789012345678909");
    assert_eq!(sibling_of("1.+99999999999999999999", 1).unwrap(), "1.100000000000000000000");
    assert_eq!(sibling_of("1.00000000000000000000000005", 1).unwrap(), "1.6");
    assert_eq!(sibling_of("1.000099999999999999999999", 1).unwrap(), "1.100000000000000000000");
}

#[test]
fn sibling_of_a_malformed_last_segment_is_invalid() {
    for text in ["", "1.", "1.x", "x", "1.-1", "1.2a", "1.+", "1.9999999999999999999x"] {
        assert!(matches!(sibling_of(text, 1), Err(StoreError::InvalidOrdinal)), "{:?}", text);
        assert!(matches!(sibling_of(text, -1), Err(StoreError::InvalidOrdinal)), "{:?}", text);
    }
}

#[test]
fn sibling_keeps_what_stands_before_the_last_segment() {
    assert_eq!(sibling_of("x.y.3", 1).unwrap(), "x.y.4");
    assert_eq!(sibling_of("..3", -1).unwrap(), "..2");
}

#[test]
fn next_then_previous_is_a_round_trip() {
    for text in [
        "1.1", "1.0", "7", "3.1.4", "10.99", "2.4294967294", "2.4294967295", "2.4294967296",
        "1.9999999999", "1.99999999999999999999", "123456789012345678901234567890", "x.9",
    ] {
        let next = sibling_of(text, 1).unwrap();
        assert_eq!(sibling_of(&next, -1).unwrap(), text);
    }
}

#[test]
fn the_round_trip_settles_on_one_spelling() {
    let next = sibling_of("1.007", 1).unwrap();
    assert_eq!(next, "1.8");
    assert_eq!(sibling_of(&next, -1).unwrap(), "1.7");
    let next = sibling_of("1.+7", 1).unwrap();
    assert_eq!(sibling_of(&next, -1).unwrap(), "1.7");
}

#[test]
fn segments_beyond_32_bits_are_not_numbers() {
    assert_eq!(ancestor_of("4294967295").unwrap(), u32::MAX);
    assert!(matches!(ancestor_of("4294967296"), Err(StoreError::InvalidOrdinal)));
    assert!(matches!(ancestor_of("99999999999999999999999999"), Err(StoreError::InvalidOrdinal)));
    assert_eq!(ancestor_of("0000000000000000000000042").unwrap(), 42);
    assert_eq!(parse_ordinal("1.4294967295"), Some(vec![1, u32::MAX]));
    assert_eq!(parse_ordinal("1.4294967296"), None);
}

#[test]
fn an_ordinal_is_read_into_its_path() {
    assert_eq!(parse_ordinal("3.1.4"), Some(vec![3, 1, 4]));
    assert_eq!(parse_ordinal("7"), Some(vec![7]));
    assert_eq!(parse_ordinal("0.0"), Some(vec![0, 0]));
    assert_eq!(parse_ordinal("10.020"), Some(vec![10, 20]));
}

#[test]
fn a_malformed_ordinal_has_no_path() {
    for text in ["", ".", "1.", ".1", "1..2", "1.x", "a", "1.-1", "1.2 "] {
        assert_eq!(parse_ordinal(text), None, "{:?}", text);
    }
}

#[test]
fn the_order_is_numeric_segment_by_segment() {
    assert!(ordinal_before("2", "10"));
    assert!(!ordinal_before("10", "2"));
    assert!(ordinal_before("1.2", "1.10"));
    assert!(ordinal_before("1.9", "1.10"));
    assert!(ordinal_before("1", "1.1"));
    assert!(ordinal_before("1.99", "2"));
    assert!(ordinal_before("1.1.5", "1.2"));
    assert!(!ordinal_before("1.2", "1.1.5"));
}

#[test]
fn the_order_is_numeric_for_numbers_of_every_size() {
    assert!(ordinal_before("4294967295", "4294967296"));
    assert!(!ordinal_before("4294967296", "4294967295"));
    assert!(ordinal_before("1.9999999999", "1.10000000000"));
    assert!(!ordinal_before("1.10000000000", "1.9999999999"));
    assert!(ordinal_before("99999999999999999999", "100000000000000000000"));
    assert!(ordinal_before("1.123456789012345678901234567890", "1.123456789012345678901234567891"));
    assert!(ordinal_before("1.000000000000000000000000000002", "1.10"));
    assert!(ordinal_before("2.99999999999999999999999", "10.1"));
    assert!(ordinal_before("99999999999999999999999", "x"));
    assert!(!ordinal_before("x", "99999999999999999999999"));
}

#[test]
fn nothing_comes_before_itself() {
    for text in ["1", "1.1", "", "abc", "1.x"] {
        assert!(!ordinal_before(text, text), "{:?}", text);
    }
}

#[test]
fn of_two_different_texts_exactly_one_comes_first() {
    let texts = [
        "1", "01", "1.1", "1.10", "1.2", "2", "10", "", "abc", "1.x", "1.", "+1", "4294967296",
        "04294967296", "99999999999999999999", "1.99999999999999999999", "0", "00", "+0",
    ];
    for a in texts {
        for b in texts {
            if a != b {
                assert!(ordinal_before(a, b) != ordinal_before(b, a), "{:?} {:?}", a, b);
            }
        }
    }
}

#[test]
fn the_order_is_transitive() {
    let texts = [
        "1", "01", "1.1", "1.10", "1.2", "2", "10", "", "abc", "1.x", "4294967296", "0", "00",
        "99999999999999999999", "1.99999999999999999999",
    ];
    for a in texts {
        for b in texts {
            for c in texts {
                if ordinal_before(a, b) && ordinal_before(b, c) {
                    assert!(ordinal_before(a, c), "{:?} {:?} {:?}", a, b, c);
                }
            }
        }
    }
}

#[test]
fn well_formed_ordinals_come_before_other_texts() {
    assert!(ordinal_before("999", "1.x"));
    assert!(ordinal_before("999", ""));
    assert!(!ordinal_before("abc", "5"));
    assert!(ordinal_before("abc", "abd"));
}

#[test]
fn two_spellings_of_one_path_are_told_apart_by_their_characters() {
    assert!(ordinal_before("01", "1"));
    assert!(!ordinal_before("1", "01"));
    assert!(ordinal_before("+1", "1"));
    assert!(ordinal_before("1.02", "1.2"));
}
