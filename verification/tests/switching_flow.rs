use battle_net_manager::json::Json;
use battle_net_manager::models::{AccountInfo, GroupInfo, RegistryValueBackup};
use battle_net_manager::session_state::{
    has_local_session_state, has_session_state, has_usable_registry_snapshot, snapshot_region_allowed,
    LocalStateProbe, SessionStateProbe,
};
use battle_net_manager::store::BattleNetCore;
use battle_net_manager::switching::{
    capture_failure, get_active_bnet_region, last_used_index, leaving_snapshot_region,
    needs_graceful_close, new_saved_account, read_saved_account_names, restore_mode,
    saved_account_names_of_text, save_failure,
    save_finished, should_refresh_leaving_account, should_relaunch, switch_finished, RestoreMode,
};

fn account(id: &str, region: &str, last_used: i128) -> AccountInfo {
    AccountInfo {
        id: id.to_string(),
        remark: String::new(),
        username: String::new(),
        last_used,
        group_id: String::new(),
        tags: Vec::new(),
        region: region.to_string(),
    }
}

fn record(key: &str, name: &str, data: &str) -> RegistryValueBackup {
    RegistryValueBackup {
        key_path: key.to_string(),
        value_name: name.to_string(),
        value_kind: "REG_SZ".to_string(),
        data: data.to_string(),
    }
}

fn empty_local() -> LocalStateProbe {
    LocalStateProbe { account_has_files: false, browser_caches_has_files: false, cache_has_files: false, cached_data_len: None }
}

#[test]
fn saved_account_names_from_client_section() {
    let config = Json::Object(vec![(
        "Client".to_string(),
        Json::Object(vec![("SavedAccountNames".to_string(), Json::Str("me@x.com".to_string()))]),
    )]);
    assert_eq!(read_saved_account_names(&config), Some("me@x.com".to_string()));
    let number = Json::Object(vec![(
        "Client".to_string(),
        Json::Object(vec![("SavedAccountNames".to_string(), Json::Number("1".to_string()))]),
    )]);
    assert_eq!(read_saved_account_names(&number), None);
    assert_eq!(read_saved_account_names(&Json::Null), None);
}

#[test]
fn last_used_account_ties_go_to_the_later_one() {
    let accs = vec![account("a", "cn", 5), account("b", "cn", 9), account("c", "cn", 9), account("d", "cn", 1)];
    assert_eq!(last_used_index(&accs), Some(2));
    assert_eq!(last_used_index(&Vec::new()), None);
}

#[test]
fn active_region_prefers_the_live_configuration() {
    let a = account("a", " Europe ", 1);
    assert_eq!(get_active_bnet_region("cn", Some(&a)), "cn");
    assert_eq!(get_active_bnet_region("", Some(&a)), "europe");
    assert_eq!(get_active_bnet_region("", None), "");
}

#[test]
fn leaving_account_refresh_rules() {
    let active = account("A1", "cn", 2);
    let target = account("b", "asia", 1);
    assert!(should_refresh_leaving_account(Some(&active), &target, "cn", true, "cn"));
    assert!(!should_refresh_leaving_account(None, &target, "cn", true, "cn"));
    assert!(!should_refresh_leaving_account(Some(&active), &account("a1", "cn", 0), "cn", true, "cn"));
    assert!(!should_refresh_leaving_account(Some(&active), &target, "cn", false, "cn"));
    assert!(!should_refresh_leaving_account(Some(&active), &target, "asia", true, "cn"));
    assert!(!should_refresh_leaving_account(Some(&active), &target, "cn", true, "asia"));
    assert_eq!(leaving_snapshot_region(&active, " CN"), Some("cn".to_string()));
    assert_eq!(leaving_snapshot_region(&active, "asia"), None);
}

#[test]
fn switch_fails_without_config_or_account() {
    let core = BattleNetCore::from_store(vec![account("a", "cn", 1)], Vec::<GroupInfo>::new());
    let e = core.plan_switch("a", false, true, "cn", false).err().unwrap();
    assert!(!e.success);
    assert_eq!(e.error, "missing_config");
    let e = core.plan_switch("zz", true, true, "cn", false).err().unwrap();
    assert_eq!(e.error, "missing_account");
}

#[test]
fn switch_across_regions_without_state_needs_a_clean_login() {
    let core = BattleNetCore::from_store(vec![account("a", "cn", 5), account("b", "asia", 1)], Vec::new());
    let plan = core.plan_switch("b", true, true, "cn", false).ok().unwrap();
    assert_eq!(plan.target_region, "asia");
    assert_eq!(plan.active_account.as_ref().unwrap().id, "a");
    assert_eq!(plan.active_region, "cn");
    assert!(plan.requires_clean_login);
    assert!(plan.full_reset);
    assert!(plan.refresh_leaving);
    assert!(needs_graceful_close(&plan));
    assert_eq!(restore_mode(&plan), RestoreMode::CleanLogin);
    let e = capture_failure(&plan, false).unwrap();
    assert_eq!(e.error, "client_exit_timeout");
    assert!(capture_failure(&plan, true).is_none());
    let done = switch_finished(&plan);
    assert!(done.success);
    assert_eq!(done.error, "missing_session_state");
}

#[test]
fn switch_with_saved_state_restores_it() {
    let core = BattleNetCore::from_store(vec![account("a", "cn", 5), account("b", "asia", 1)], Vec::new());
    let plan = core.plan_switch("b", true, true, "cn", true).ok().unwrap();
    assert!(plan.has_state);
    assert!(!plan.requires_clean_login);
    assert!(plan.full_reset);
    assert_eq!(restore_mode(&plan), RestoreMode::SessionState);
    assert_eq!(switch_finished(&plan).error, "");
}

#[test]
fn switch_within_a_region_is_a_plain_copy() {
    let core = BattleNetCore::from_store(vec![account("a", "cn", 5), account("b", "cn", 1)], Vec::new());
    let plan = core.plan_switch("b", true, false, "", false).ok().unwrap();
    assert_eq!(plan.active_region, "cn");
    assert!(!plan.requires_clean_login);
    assert!(!plan.full_reset);
    assert!(!plan.refresh_leaving);
    assert!(!needs_graceful_close(&plan));
    assert_eq!(restore_mode(&plan), RestoreMode::PlainCopy);
}

#[test]
fn find_saved_account_reads_normalized() {
    let core = BattleNetCore::from_store(vec![account("a", "cn", 5), account("b", "cn", 1)], Vec::new());
    let found = core.find_saved_account("b").unwrap();
    assert_eq!(found.region, "cn");
    assert!(core.find_saved_account("x").is_none());
}

#[test]
fn save_outcomes() {
    assert!(should_relaunch(true, true, true));
    assert!(should_relaunch(true, false, false));
    assert!(!should_relaunch(true, false, true));
    assert!(!should_relaunch(false, true, false));
    let f = save_failure("create_dir_failed");
    assert!(!f.success && !f.session_state_saved);
    assert_eq!(f.error, "create_dir_failed");
    assert_eq!(save_finished(true, true).error, "");
    assert_eq!(save_finished(false, true).error, "missing_session_snapshot");
    assert_eq!(save_finished(false, false).error, "client_exit_timeout");
    assert!(save_finished(false, false).success);
}

#[test]
fn new_saved_account_fields() {
    let tags = vec![" t ".to_string(), "t".to_string()];
    let a = new_saved_account("note", "Tag#1", "g1".to_string(), &tags, " CN ");
    assert_eq!(a.remark, "note");
    assert_eq!(a.username, "Tag#1");
    assert_eq!(a.group_id, "g1");
    assert_eq!(a.tags, vec!["t".to_string()]);
    assert_eq!(a.region, "cn");
    assert_eq!(a.id.len(), 32);
    assert!(a.id.chars().all(|c| c.is_ascii_hexdigit() && !c.is_ascii_uppercase()));
}

#[test]
fn registry_snapshot_needs_sign_in_data() {
    assert!(!has_usable_registry_snapshot(&None));
    assert!(!has_usable_registry_snapshot(&Some(Vec::new())));
    let blank = vec![record("Software\\X\\UnifiedAuth", "a", "   ")];
    assert!(!has_usable_registry_snapshot(&Some(blank)));
    let other_key = vec![record("Software\\X\\Other", "a", "data")];
    assert!(!has_usable_registry_snapshot(&Some(other_key)));
    let auth = vec![record("Software\\X\\Other", "a", "data"), record("SOFTWARE\\X\\IDENTITY", "b", "x")];
    assert!(has_usable_registry_snapshot(&Some(auth)));
    let token = vec![record("Software\\Launch Options", "uri_token", "abc")];
    assert!(has_usable_registry_snapshot(&Some(token)));
}

#[test]
fn local_state_needs_some_file() {
    assert!(!has_local_session_state(&empty_local()));
    let mut p = empty_local();
    p.cached_data_len = Some(0);
    assert!(!has_local_session_state(&p));
    p.cached_data_len = Some(12);
    assert!(has_local_session_state(&p));
    let mut q = empty_local();
    q.browser_caches_has_files = true;
    assert!(has_local_session_state(&q));
}

#[test]
fn session_state_needs_every_part() {
    let good = |dir: bool, meta: bool| SessionStateProbe {
        state_dir_exists: dir,
        metadata_exists: meta,
        registry_records: Some(vec![record("K\\EncryptionKey", "v", "1")]),
        local: LocalStateProbe { account_has_files: true, browser_caches_has_files: false, cache_has_files: false, cached_data_len: None },
    };
    assert!(has_session_state(&good(true, true)));
    assert!(!has_session_state(&good(false, true)));
    assert!(!has_session_state(&good(true, false)));
    let mut no_local = good(true, true);
    no_local.local = empty_local();
    assert!(!has_session_state(&no_local));
}

#[test]
fn snapshot_region_rules() {
    assert!(snapshot_region_allowed(false, "", "whatever"));
    assert!(snapshot_region_allowed(true, "cn", " CN "));
    assert!(!snapshot_region_allowed(true, "asia", "cn"));
    assert!(!snapshot_region_allowed(true, "", ""));
}

#[test]
fn saved_account_names_from_configuration_text() {
    let text = "{\"Client\":{\"SavedAccountNames\":\"me@x.com\",\"Other\":1}}";
    assert_eq!(saved_account_names_of_text(text), Some("me@x.com".to_string()));
    assert_eq!(saved_account_names_of_text("{\"Client\":{}}"), None);
    assert_eq!(saved_account_names_of_text("{\"Client\":{\"SavedAccountNames\":5}}"), None);
    assert_eq!(saved_account_names_of_text("oops"), None);
}
