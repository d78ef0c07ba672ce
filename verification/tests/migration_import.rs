use battle_net_manager::links::{is_allowed_link, may_open_external_url};
use battle_net_manager::migration::{
    has_migrated_data_directory, importable_account_ids, remember_migrated_data_directory,
    ImportCheck, ImportStep, LegacyDirEntry,
};
use battle_net_manager::models::{AccountInfo, GroupInfo, LegacyMigrationState};
use battle_net_manager::store::BattleNetCore;

fn account(id: &str, group_id: &str) -> AccountInfo {
    AccountInfo {
        id: id.to_string(),
        remark: format!("r-{}", id),
        username: String::new(),
        last_used: 1,
        group_id: group_id.to_string(),
        tags: Vec::new(),
        region: "cn".to_string(),
    }
}

fn group(id: &str, name: &str) -> GroupInfo {
    GroupInfo { id: id.to_string(), name: name.to_string(), created_at: 0 }
}

fn entry(name: &str, is_dir: bool, has_config: bool, modified: Option<i128>) -> LegacyDirEntry {
    LegacyDirEntry { name: name.to_string(), is_dir, has_config, modified }
}

#[test]
fn migrated_directories_compare_ignoring_case() {
    let mut state = LegacyMigrationState { data_directories: Vec::new() };
    assert!(!has_migrated_data_directory(&state, "C:\\Old\\Data"));
    remember_migrated_data_directory(&mut state, "C:\\Old\\Data", 100);
    assert!(has_migrated_data_directory(&state, "c:\\old\\data"));
    assert_eq!(state.data_directories.len(), 1);
    assert_eq!(state.data_directories[0].imported_at_utc, 100);
    assert!(!state.data_directories[0].prefer_legacy_data);
    remember_migrated_data_directory(&mut state, "C:\\OLD\\DATA", 200);
    assert_eq!(state.data_directories.len(), 1);
    assert_eq!(state.data_directories[0].path, "C:\\Old\\Data");
    assert_eq!(state.data_directories[0].imported_at_utc, 200);
    remember_migrated_data_directory(&mut state, "D:\\Other", 300);
    assert_eq!(state.data_directories.len(), 2);
}

#[test]
fn importable_ids_are_lowercased_and_distinct() {
    let legacy = vec![account("ABC", ""), account("", ""), account("abc", ""), account("Def", "")];
    let entries = vec![
        entry("GHI", true, true, None),
        entry("jkl", true, false, None),
        entry("file.txt", false, true, None),
        entry("def", true, true, None),
    ];
    let mut ids = importable_account_ids(&legacy, &entries);
    ids.sort();
    assert_eq!(ids, vec!["abc".to_string(), "def".to_string(), "ghi".to_string()]);
}

fn check(ids_with_data: Vec<&str>, current: Option<i128>, legacy: Option<i128>) -> ImportCheck {
    ImportCheck {
        legacy_accounts_exists: true,
        current_accounts_exists: true,
        current_modified: current,
        legacy_modified: legacy,
        ids_with_data: ids_with_data.into_iter().map(|s| s.to_string()).collect(),
    }
}

#[test]
fn already_imported_directory_is_recognised() {
    let core = BattleNetCore::from_store(vec![account("AbC", ""), account("x", "")], Vec::new());
    let legacy = vec![account("abc", "")];
    let entries = vec![entry("X", true, true, None)];
    assert!(core.looks_like_data_directory_already_imported(&legacy, &entries, &check(vec!["abc", "x"], Some(10), Some(5))));
    assert!(!core.looks_like_data_directory_already_imported(&legacy, &entries, &check(vec!["abc", "x"], Some(4), Some(5))));
    assert!(!core.looks_like_data_directory_already_imported(&legacy, &entries, &check(vec!["abc"], Some(10), Some(5))));
    assert!(!core.looks_like_data_directory_already_imported(&legacy, &entries, &check(vec!["abc", "x"], None, Some(5))));
    let mut missing_file = check(vec!["abc", "x"], Some(10), Some(5));
    missing_file.legacy_accounts_exists = false;
    assert!(!core.looks_like_data_directory_already_imported(&legacy, &entries, &missing_file));
    let unknown = vec![account("new", "")];
    assert!(!core.looks_like_data_directory_already_imported(&unknown, &Vec::new(), &check(vec!["new"], Some(10), Some(5))));
    assert!(!core.looks_like_data_directory_already_imported(&Vec::new(), &Vec::new(), &check(vec![], Some(10), Some(5))));
}

#[test]
fn merge_adds_new_groups_and_accounts_and_recovers_directories() {
    let mut core = BattleNetCore::from_store(vec![account("a", "")], vec![group("default", "Main"), group("g1", "Work")]);
    let legacy_groups = vec![group("G1", "Work again"), group("g2", " Play "), group("", "no id")];
    let legacy_accounts = vec![account("A", "g2"), account("b", "g2"), account("", "")];
    let entries = vec![
        entry("B", true, false, None),
        entry("orphan", true, true, Some(1234)),
        entry("empty", true, false, None),
        entry("lonely", true, true, None),
        entry("note.txt", false, true, None),
    ];
    let copies = core.merge_legacy_data(&legacy_groups, &legacy_accounts, &entries, 555);
    let gids: Vec<String> = core.groups.iter().map(|g| g.id.clone()).collect();
    assert_eq!(gids, vec!["default", "g1", "g2"]);
    assert_eq!(core.groups[2].name, "Play");
    assert!(core.groups_saved);
    let aids: Vec<String> = core.accounts.iter().map(|a| a.id.clone()).collect();
    assert_eq!(aids, vec!["a", "b", "orphan", "lonely"]);
    assert_eq!(core.accounts[1].group_id, "g2");
    assert_eq!(core.accounts[2].remark, "恢复账号 1");
    assert_eq!(core.accounts[2].last_used, 1234);
    assert_eq!(core.accounts[2].region, "cn");
    assert_eq!(core.accounts[2].group_id, "");
    assert_eq!(core.accounts[3].remark, "恢复账号 2");
    assert_eq!(core.accounts[3].last_used, 555);
    assert!(core.accounts_saved);
    assert_eq!(
        copies,
        vec![
            ("b".to_string(), false),
            ("B".to_string(), true),
            ("orphan".to_string(), true),
            ("lonely".to_string(), true),
        ]
    );
}

#[test]
fn merging_the_same_directory_twice_adds_nothing_the_second_time() {
    let mut core = BattleNetCore::from_store(vec![account("a", "")], vec![group("default", "Main")]);
    let legacy_groups = vec![group("g5", "Five")];
    let legacy_accounts = vec![account("z", "g5")];
    let first = core.merge_legacy_data(&legacy_groups, &legacy_accounts, &Vec::new(), 7);
    assert_eq!(first, vec![("z".to_string(), false)]);
    let mut again = BattleNetCore::from_store(core.accounts.clone(), core.groups.clone());
    let second = again.merge_legacy_data(&legacy_groups, &legacy_accounts, &Vec::new(), 8);
    assert!(second.is_empty());
    assert!(!again.groups_saved);
    assert!(!again.accounts_saved);
}

#[test]
fn merging_known_data_writes_nothing() {
    let mut core = BattleNetCore::from_store(vec![account("a", "")], vec![group("default", "Main")]);
    let copies = core.merge_legacy_data(&vec![group("default", "x")], &vec![account("A", "")], &Vec::new(), 1);
    assert!(copies.is_empty());
    assert!(!core.groups_saved);
    assert!(!core.accounts_saved);
}

#[test]
fn external_links_only_to_github() {
    assert!(may_open_external_url("https://github.com/owner/repo/releases"));
    assert!(may_open_external_url("http://GitHub.com"));
    assert!(!may_open_external_url("https://example.com"));
    assert!(!may_open_external_url("ftp://github.com/x"));
    assert!(!may_open_external_url("https://github.com.evil.io/"));
    assert!(!may_open_external_url("not a url"));
    assert!(!is_allowed_link(&None));
    assert!(is_allowed_link(&Some(("https".to_string(), Some("GITHUB.COM".to_string())))));
    assert!(!is_allowed_link(&Some(("https".to_string(), None))));
}

#[test]
fn import_steps() {
    let core = BattleNetCore::from_store(vec![account("abc", "")], Vec::new());
    let legacy = vec![account("ABC", "")];
    let mut state = LegacyMigrationState { data_directories: Vec::new() };
    let here = check(vec!["abc"], Some(9), Some(1));
    assert_eq!(core.import_step(&state, "D:\\Old", &legacy, &Vec::new(), &here), ImportStep::Remember);
    let stale = check(vec!["abc"], Some(0), Some(1));
    assert_eq!(core.import_step(&state, "D:\\Old", &legacy, &Vec::new(), &stale), ImportStep::MergeAndRemember);
    remember_migrated_data_directory(&mut state, "d:\\old", 5);
    assert_eq!(core.import_step(&state, "D:\\Old", &legacy, &Vec::new(), &stale), ImportStep::Skip);
}
