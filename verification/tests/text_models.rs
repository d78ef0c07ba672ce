use battle_net_manager::groups::normalize_group_name;
use battle_net_manager::models::{default_region, id_of_uuid, nanos_of, new_id, now_nanos, AccountInfo};
use battle_net_manager::text::{concat_str, decimal_u64, parse_unsigned_chars, str_eq_ignore_case, trim};

#[test]
fn uuid_text_loses_its_hyphens() {
    assert_eq!(id_of_uuid("123e4567-e89b-12d3-a456-426614174000"), "123e4567e89b12d3a456426614174000");
    assert_eq!(id_of_uuid("--"), "");
}

#[test]
fn new_ids_are_32_lowercase_hex_digits() {
    let a = new_id();
    let b = new_id();
    assert_eq!(a.len(), 32);
    assert!(a.chars().all(|c| c.is_ascii_digit() || ('a'..='f').contains(&c)));
    assert_ne!(a, b);
}

#[test]
fn new_account_has_a_fresh_id() {
    let a = AccountInfo::new("r".to_string(), "u".to_string(), "g".to_string(), vec!["t".to_string()], "cn".to_string());
    assert_eq!(a.id.len(), 32);
    assert_eq!(a.remark, "r");
    assert_eq!(a.tags, vec!["t".to_string()]);
    assert!(a.last_used > 0);
    assert_eq!(default_region(), "cn");
}

#[test]
fn trimming_twice_is_trimming_once() {
    for t in ["  a b  ", "\u{3000}名字\u{3000}", "", "   "] {
        let once = trim(t);
        assert_eq!(trim(&once), once);
        assert_eq!(normalize_group_name(t), once);
    }
    assert_eq!(trim("\t x \n"), "x");
}

#[test]
fn decimal_numbers_parse_back() {
    for n in [0u64, 7, 10, 4294967295, u64::MAX] {
        let text: Vec<char> = decimal_u64(n);
        assert_eq!(parse_unsigned_chars(&text, u64::MAX), Some(n));
    }
    let t: Vec<char> = "4294967296".chars().collect();
    assert_eq!(parse_unsigned_chars(&t, 0xffff_ffff), None);
    let plus: Vec<char> = "+12".chars().collect();
    assert_eq!(parse_unsigned_chars(&plus, 100), Some(12));
    let bad: Vec<char> = "1 2".chars().collect();
    assert_eq!(parse_unsigned_chars(&bad, 100), None);
}

#[test]
fn ascii_case_and_concatenation() {
    assert!(str_eq_ignore_case("GitHub.com", "github.COM"));
    assert!(!str_eq_ignore_case("É", "é"));
    assert_eq!(concat_str("ab", "cd"), "abcd");
}

#[test]
fn clock_readings_combine_seconds_and_nanoseconds() {
    assert_eq!(nanos_of(1, 5), 1_000_000_005);
    assert_eq!(nanos_of(-2, 500_000_000), -1_500_000_000);
    assert_eq!(nanos_of(0, 1_999_999_999), 1_999_999_999);
    let a = now_nanos();
    let b = now_nanos();
    assert!(a > 1_500_000_000_000_000_000);
    assert!(b >= a - 1_000_000_000);
}
