use battle_net_manager::models::RegistryValueBackup;
use battle_net_manager::registry::{
    backup_record, backups_to_prune, deserialize_registry_value, kind_name, parse_value_kind,
    registry_key_paths, restored_value, select_value_names, serialize_raw_value, RegKind,
};

fn utf16le(text: &str) -> Vec<u8> {
    let mut out = Vec::new();
    for u in text.encode_utf16() {
        out.push((u & 0xff) as u8);
        out.push((u >> 8) as u8);
    }
    out
}

#[test]
fn kind_names_read_back() {
    for k in [
        RegKind::Binary,
        RegKind::Dword,
        RegKind::DwordBigEndian,
        RegKind::Qword,
        RegKind::Sz,
        RegKind::ExpandSz,
        RegKind::MultiSz,
    ] {
        assert_eq!(parse_value_kind(kind_name(k)), k);
    }
    assert_eq!(kind_name(RegKind::DwordBigEndian), "REG_DWORD_BIG_ENDIAN");
    assert_eq!(parse_value_kind("REG_LINK"), RegKind::Sz);
    assert_eq!(parse_value_kind("reg_dword"), RegKind::Sz);
}

#[test]
fn dword_values_as_decimal() {
    assert_eq!(serialize_raw_value(RegKind::Dword, &vec![1, 0, 0, 0]), "1");
    assert_eq!(serialize_raw_value(RegKind::Dword, &vec![0xff, 0xff, 0xff, 0xff]), "4294967295");
    assert_eq!(serialize_raw_value(RegKind::DwordBigEndian, &vec![0, 0, 1, 2]), "258");
    assert_eq!(serialize_raw_value(RegKind::Dword, &vec![1, 2]), "AQI=");
    assert_eq!(deserialize_registry_value("258", RegKind::Dword), Some(vec![2, 1, 0, 0]));
    assert_eq!(deserialize_registry_value("258", RegKind::DwordBigEndian), Some(vec![0, 0, 1, 2]));
    assert_eq!(deserialize_registry_value("4294967296", RegKind::Dword), None);
    assert_eq!(deserialize_registry_value("+7", RegKind::Dword), Some(vec![7, 0, 0, 0]));
    assert_eq!(deserialize_registry_value("x", RegKind::Dword), None);
}

#[test]
fn qword_values_as_decimal() {
    let bytes = vec![1, 0, 0, 0, 0, 0, 0, 1];
    assert_eq!(serialize_raw_value(RegKind::Qword, &bytes), "72057594037927937");
    assert_eq!(deserialize_registry_value("72057594037927937", RegKind::Qword), Some(bytes));
    assert_eq!(deserialize_registry_value("18446744073709551616", RegKind::Qword), None);
}

#[test]
fn binary_values_as_base64() {
    assert_eq!(serialize_raw_value(RegKind::Binary, &vec![1, 2, 3]), "AQID");
    assert_eq!(serialize_raw_value(RegKind::Binary, &vec![]), "");
    assert_eq!(serialize_raw_value(RegKind::NoType, &vec![0xfb, 0xff]), "+/8=");
    assert_eq!(deserialize_registry_value("AQID", RegKind::Binary), Some(vec![1, 2, 3]));
    assert_eq!(deserialize_registry_value("not base64!", RegKind::Binary), None);
    assert_eq!(deserialize_registry_value("AQI", RegKind::Binary), None);
    assert_eq!(deserialize_registry_value("AQJ=", RegKind::Binary), None);
    assert_eq!(deserialize_registry_value("AQI=", RegKind::Link), Some(vec![1, 2]));
}

#[test]
fn string_values_as_text() {
    let bytes = utf16le("héllo\0");
    assert_eq!(serialize_raw_value(RegKind::Sz, &bytes), "héllo");
    assert_eq!(deserialize_registry_value("héllo", RegKind::Sz), Some(bytes.clone()));
    assert_eq!(deserialize_registry_value("héllo", RegKind::ExpandSz), Some(bytes));
    let with_tail = utf16le("ab\0cd");
    assert_eq!(serialize_raw_value(RegKind::ExpandSz, &with_tail), "ab");
}

#[test]
fn multi_string_values_as_json() {
    let bytes = utf16le("a\0b\0\0");
    assert_eq!(serialize_raw_value(RegKind::MultiSz, &bytes), "[\"a\",\"b\"]");
    assert_eq!(deserialize_registry_value("[\"a\",\"b\"]", RegKind::MultiSz), Some(bytes));
    assert_eq!(deserialize_registry_value("[]", RegKind::MultiSz), Some(vec![0, 0]));
    assert_eq!(deserialize_registry_value("{", RegKind::MultiSz), None);
}

#[test]
fn records_restore_what_was_saved() {
    let cases: Vec<(RegKind, Vec<u8>)> = vec![
        (RegKind::Dword, vec![9, 8, 7, 6]),
        (RegKind::DwordBigEndian, vec![9, 8, 7, 6]),
        (RegKind::Qword, vec![1, 2, 3, 4, 5, 6, 7, 8]),
        (RegKind::Binary, vec![0, 255, 16, 32, 64]),
        (RegKind::Sz, utf16le("token\0")),
        (RegKind::ExpandSz, utf16le("%APPDATA%\\x\0")),
        (RegKind::MultiSz, utf16le("one\0two words\0\0")),
        (RegKind::MultiSz, vec![0, 0]),
    ];
    for (kind, bytes) in cases {
        let r = backup_record("Software\\Key", "Name", kind, &bytes);
        assert_eq!(r.key_path, "Software\\Key");
        assert_eq!(r.value_name, "Name");
        assert_eq!(r.value_kind, kind_name(kind));
        assert_eq!(restored_value(&r), Some((kind, bytes)));
    }
}

#[test]
fn record_with_bad_text_restores_nothing() {
    let r = RegistryValueBackup {
        key_path: "k".to_string(),
        value_name: "v".to_string(),
        value_kind: "REG_DWORD".to_string(),
        data: "abc".to_string(),
    };
    assert_eq!(restored_value(&r), None);
}

#[test]
fn sign_in_keys() {
    let keys = registry_key_paths();
    assert_eq!(keys.len(), 4);
    assert_eq!(keys[0], ("Software\\Blizzard Entertainment\\Battle.net\\UnifiedAuth", None));
    assert_eq!(keys[3], ("Software\\Blizzard Entertainment\\Battle.net\\Launch Options", Some("URI_TOKEN")));
}

#[test]
fn value_names_filtered_ignoring_case() {
    let names = vec!["URI_TOKEN".to_string(), "Other".to_string(), "uri_token".to_string()];
    assert_eq!(select_value_names(&names, Some("URI_TOKEN")), vec!["URI_TOKEN".to_string(), "uri_token".to_string()]);
    assert_eq!(select_value_names(&names, None), names);
}

#[test]
fn all_but_three_newest_backups_are_pruned() {
    assert_eq!(backups_to_prune(&vec![5, 1, 9, 3, 7]), vec![false, true, false, true, false]);
    assert_eq!(backups_to_prune(&vec![4, 4, 4, 4]), vec![false, false, false, true]);
    assert_eq!(backups_to_prune(&vec![1, 2]), vec![false, false]);
}

#[test]
fn multi_string_escapes_and_reads_back() {
    let bytes = utf16le("a\"b\0c\\d\0e\nf\u{1}\0\0");
    let text = serialize_raw_value(RegKind::MultiSz, &bytes);
    assert_eq!(text, "[\"a\\\"b\",\"c\\\\d\",\"e\\nf\\u0001\"]");
    assert_eq!(deserialize_registry_value(&text, RegKind::MultiSz), Some(bytes));
}

#[test]
fn unpaired_surrogates_become_replacement_characters() {
    let bytes = vec![0x00, 0xD8, 0x41, 0x00, 0x3D, 0xD8, 0x00, 0xDE, 0x00, 0xDC, 0x00, 0x00];
    assert_eq!(serialize_raw_value(RegKind::Sz, &bytes), "\u{FFFD}A\u{1F600}\u{FFFD}");
}
