use battle_net_manager::groups::{normalize_accounts, normalize_groups, normalize_tags};
use battle_net_manager::models::{AccountInfo, GroupInfo};
use battle_net_manager::store::BattleNetCore;

fn account(id: &str, group_id: &str, region: &str, last_used: i128) -> AccountInfo {
    AccountInfo {
        id: id.to_string(),
        remark: format!("remark {}", id),
        username: String::new(),
        last_used,
        group_id: group_id.to_string(),
        tags: Vec::new(),
        region: region.to_string(),
    }
}

fn group(id: &str, name: &str) -> GroupInfo {
    GroupInfo { id: id.to_string(), name: name.to_string(), created_at: 10 }
}

fn ids(groups: &[GroupInfo]) -> Vec<String> {
    groups.iter().map(|g| g.id.clone()).collect()
}

#[test]
fn groups_get_a_default_group_first() {
    let mut gs = vec![group("g1", "  Work "), group("", "no id"), group("default", "Main"), group("g2", "   ")];
    normalize_groups(&mut gs, 77);
    assert_eq!(ids(&gs), vec!["default", "g1", "g2"]);
    assert_eq!(gs[0].name, "Main");
    assert_eq!(gs[1].name, "Work");
    assert_eq!(gs[2].name, "未命名分组");
}

#[test]
fn missing_default_group_is_made() {
    let mut gs = vec![group("g1", "Work")];
    normalize_groups(&mut gs, 5);
    assert_eq!(ids(&gs), vec!["default", "g1"]);
    assert_eq!(gs[0].name, "默认分组");
    assert_eq!(gs[0].created_at, 5);
}

#[test]
fn normalizing_groups_again_changes_nothing() {
    let mut gs = vec![group("g1", " A "), group("default", ""), group("", "x")];
    normalize_groups(&mut gs, 1);
    let once: Vec<(String, String, i128)> = gs.iter().map(|g| (g.id.clone(), g.name.clone(), g.created_at)).collect();
    normalize_groups(&mut gs, 2);
    let twice: Vec<(String, String, i128)> = gs.iter().map(|g| (g.id.clone(), g.name.clone(), g.created_at)).collect();
    assert_eq!(once, twice);
}

#[test]
fn tags_are_trimmed_distinct_and_not_empty() {
    let tags = vec![" a ".to_string(), "".to_string(), "b".to_string(), "a".to_string(), "   ".to_string()];
    assert_eq!(normalize_tags(&tags), vec!["a".to_string(), "b".to_string()]);
}

#[test]
fn accounts_lose_unknown_groups_and_get_a_region() {
    let groups = vec![group("default", "Main"), group("g1", "Work")];
    let mut accs = vec![account("a", "g1", " Europe ", 1), account("b", "gone", "", 2), account("c", "", "asia", 3)];
    let changed = normalize_accounts(&mut accs, &groups);
    assert!(changed);
    assert_eq!(accs[0].group_id, "g1");
    assert_eq!(accs[0].region, "europe");
    assert_eq!(accs[1].group_id, "");
    assert_eq!(accs[1].region, "cn");
    assert_eq!(accs[2].region, "asia");
    assert!(!normalize_accounts(&mut accs, &groups));
}

#[test]
fn create_group_trims_and_reuses_names() {
    let mut core = BattleNetCore::from_store(Vec::new(), Vec::new());
    let g = core.create_group("  Work  ").unwrap();
    assert_eq!(g.name, "Work");
    assert_eq!(g.id.len(), 32);
    assert!(core.groups_saved);
    assert_eq!(ids(&core.groups), vec!["default".to_string(), g.id.clone()]);
    let again = core.create_group("WORK").unwrap();
    assert_eq!(again.id, g.id);
    assert_eq!(core.groups.len(), 2);
    assert!(core.create_group("   ").is_none());
}

#[test]
fn rename_group_rules() {
    let mut core = BattleNetCore::from_store(Vec::new(), vec![group("default", "Main"), group("g1", "Work"), group("g2", "Play")]);
    assert!(!core.rename_group("default", "Other"));
    assert!(!core.rename_group("g1", "   "));
    assert!(!core.rename_group("g1", "play"));
    assert!(!core.rename_group("nope", "New"));
    assert!(!core.groups_saved);
    assert!(core.rename_group("g1", " Jobs "));
    assert!(core.groups_saved);
    assert_eq!(core.groups[1].name, "Jobs");
    assert!(core.rename_group("g1", "JOBS"));
}

#[test]
fn delete_group_moves_its_accounts_to_no_group() {
    let mut core = BattleNetCore::from_store(
        vec![account("a", "g1", "cn", 1), account("b", "g2", "cn", 2)],
        vec![group("default", "Main"), group("g1", "Work"), group("g2", "Play")],
    );
    assert!(!core.delete_group("default"));
    assert!(!core.delete_group(""));
    assert!(!core.delete_group("zzz"));
    assert!(core.delete_group("g1"));
    assert_eq!(ids(&core.groups), vec!["default", "g2"]);
    assert_eq!(core.accounts[0].group_id, "");
    assert_eq!(core.accounts[1].group_id, "g2");
    assert!(core.accounts_saved);
}

#[test]
fn move_account_checks_the_group() {
    let mut core = BattleNetCore::from_store(
        vec![account("a", "", "cn", 1)],
        vec![group("default", "Main"), group("g1", "Work")],
    );
    assert!(core.move_account_to_group("a", "g1"));
    assert_eq!(core.accounts[0].group_id, "g1");
    assert!(core.move_account_to_group("a", "unknown"));
    assert_eq!(core.accounts[0].group_id, "");
    assert!(core.move_account_to_group("a", "default"));
    assert_eq!(core.accounts[0].group_id, "default");
    assert!(!core.move_account_to_group("missing", "g1"));
}

#[test]
fn update_account_info_trims_and_normalizes() {
    let mut core = BattleNetCore::from_store(vec![account("a", "", "cn", 1)], Vec::new());
    let tags = vec![" x".to_string(), "x".to_string(), "".to_string()];
    assert!(core.update_account_info("a", "  note ", " Tag#123 ", &tags));
    assert_eq!(core.accounts[0].remark, "note");
    assert_eq!(core.accounts[0].username, "Tag#123");
    assert_eq!(core.accounts[0].tags, vec!["x".to_string()]);
    assert!(!core.update_account_info("b", "r", "t", &tags));
}

#[test]
fn delete_and_add_accounts() {
    let mut core = BattleNetCore::from_store(vec![account("a", "", "cn", 1), account("b", "", "cn", 2)], Vec::new());
    core.delete_account("a");
    assert_eq!(core.accounts.len(), 1);
    assert_eq!(core.accounts[0].id, "b");
    core.add_account(account("c", "nope", "EUROPE", 3));
    assert_eq!(core.accounts.len(), 2);
    assert_eq!(core.accounts[1].group_id, "");
    assert_eq!(core.accounts[1].region, "europe");
    core.touch_account("b", 99);
    assert_eq!(core.accounts[0].last_used, 99);
}

#[test]
fn get_accounts_saves_only_when_normalizing_changed_them() {
    let mut clean = BattleNetCore::from_store(vec![account("a", "", "cn", 1)], Vec::new());
    let accs = clean.get_accounts();
    assert_eq!(accs.len(), 1);
    assert!(!clean.accounts_saved);
    let mut dirty = BattleNetCore::from_store(vec![account("a", "", "", 1)], Vec::new());
    let accs = dirty.get_accounts();
    assert_eq!(accs[0].region, "cn");
    assert!(dirty.accounts_saved);
}

#[test]
fn ensure_valid_group_id_keeps_known_groups_only() {
    let core = BattleNetCore::from_store(Vec::new(), vec![group("g1", "Work")]);
    assert_eq!(core.ensure_valid_group_id("g1"), "g1");
    assert_eq!(core.ensure_valid_group_id("default"), "default");
    assert_eq!(core.ensure_valid_group_id("g9"), "");
    assert_eq!(core.ensure_valid_group_id(""), "");
}

#[test]
fn active_account_by_saved_names() {
    let mut core = BattleNetCore::from_store(vec![account("a", "", "cn", 1), account("b", "", "cn", 2)], Vec::new());
    let names = vec![
        ("a".to_string(), Some("x@y".to_string())),
        ("b".to_string(), Some("me@here".to_string())),
    ];
    assert_eq!(core.get_active_account_id(&Some("me@here".to_string()), &names), Some("b".to_string()));
    assert_eq!(core.get_active_account_id(&Some("nobody".to_string()), &names), None);
    assert_eq!(core.get_active_account_id(&None, &names), None);
}

#[test]
fn saved_groups_read_back_unchanged() {
    let mut core = BattleNetCore::from_store(Vec::new(), Vec::new());
    let groups = vec![group("g1", " A "), group("default", "Main")];
    core.save_groups(&groups, 3);
    let saved: Vec<(String, String)> = core.groups.iter().map(|g| (g.id.clone(), g.name.clone())).collect();
    let read: Vec<(String, String)> = core.read_groups(8).iter().map(|g| (g.id.clone(), g.name.clone())).collect();
    assert_eq!(saved, read);
}
