use battle_net_manager::config::{
    apply_region_settings, cross_region_login_config, cross_region_login_text, new_account_login_config,
};
use battle_net_manager::json::Json;
use battle_net_manager::region::{
    collect_region_values, get_region_settings, infer_region_from_config, infer_region_from_text,
    is_cross_region_switch, is_tagged_region, map_region_code, normalize_region,
};

fn s(x: &str) -> Json {
    Json::Str(x.to_string())
}

fn obj(members: Vec<(&str, Json)>) -> Json {
    Json::Object(members.into_iter().map(|(k, v)| (k.to_string(), v)).collect())
}

fn render(j: &Json) -> String {
    match j {
        Json::Null => "null".to_string(),
        Json::Bool(b) => b.to_string(),
        Json::Number(n) => n.clone(),
        Json::Str(t) => format!("\"{}\"", t),
        Json::Array(items) => {
            let parts: Vec<String> = items.iter().map(render).collect();
            format!("[{}]", parts.join(","))
        }
        Json::Object(members) => {
            let parts: Vec<String> =
                members.iter().map(|(k, v)| format!("\"{}\":{}", k, render(v))).collect();
            format!("{{{}}}", parts.join(","))
        }
    }
}

#[test]
fn normalize_region_trims_and_lowercases() {
    assert_eq!(normalize_region("  CN "), "cn");
    assert_eq!(normalize_region("Asia"), "asia");
    assert_eq!(normalize_region("AMERICAS"), "americas");
    assert_eq!(normalize_region("europe\t"), "europe");
    assert_eq!(normalize_region("kr"), "");
    assert_eq!(normalize_region(""), "");
}

#[test]
fn normalize_region_twice_is_once() {
    for r in ["  Cn", "EUROPE ", "x", "asia"] {
        let once = normalize_region(r);
        assert_eq!(normalize_region(&once), once);
    }
}

#[test]
fn tagged_regions_are_the_four() {
    assert!(is_tagged_region("cn"));
    assert!(is_tagged_region(" Europe "));
    assert!(!is_tagged_region("us"));
    assert!(!is_tagged_region(""));
}

#[test]
fn region_settings_per_region() {
    let cn = get_region_settings("CN");
    assert_eq!(cn.allowed_regions, "CN");
    assert_eq!(cn.allowed_locales, "zhCN");
    assert_eq!(cn.login_address, "cn.actual.battlenet.com.cn");
    assert_eq!(cn.login_region, "CN");
    assert_eq!(cn.tassadar_host, "account.battlenet.com.cn");
    let us = get_region_settings("americas");
    assert_eq!(us.allowed_regions, "US");
    assert_eq!(us.login_address, "us.actual.battle.net");
    let eu = get_region_settings("europe");
    assert_eq!(eu.login_region, "EU");
    let other = get_region_settings("nowhere");
    assert_eq!(other.allowed_regions, "KR");
    assert_eq!(other.allowed_locales, "");
    assert_eq!(other.tassadar_host, "account.battle.net");
}

#[test]
fn region_codes_map_to_regions() {
    assert_eq!(map_region_code(" cn "), "cn");
    assert_eq!(map_region_code("US"), "americas");
    assert_eq!(map_region_code("eu"), "europe");
    assert_eq!(map_region_code("KR"), "asia");
    assert_eq!(map_region_code("tw"), "asia");
    assert_eq!(map_region_code("SG"), "asia");
    assert_eq!(map_region_code("XX"), "");
}

#[test]
fn cross_region_switches() {
    assert!(!is_cross_region_switch("cn", "CN"));
    assert!(is_cross_region_switch("cn", "asia"));
    assert!(is_cross_region_switch("", "europe"));
    assert!(!is_cross_region_switch("cn", ""));
    assert!(!is_cross_region_switch("asia", "unknown"));
}

#[test]
fn region_values_are_collected_at_any_depth() {
    let config = obj(vec![
        ("Client", obj(vec![("WebRegion", s("EU")), ("Other", s("x"))])),
        ("Games", Json::Array(vec![obj(vec![("LastRegion", s("KR")), ("RegionCount", Json::Number("3".to_string()))])])),
    ]);
    let mut values = Vec::new();
    collect_region_values(&config, &mut values);
    assert_eq!(
        values,
        vec![("WebRegion".to_string(), "EU".to_string()), ("LastRegion".to_string(), "KR".to_string())]
    );
}

#[test]
fn allowed_regions_come_first() {
    let config = obj(vec![
        ("Services", obj(vec![("LastLoginRegion", s("US"))])),
        ("Client", obj(vec![("LoginSettings", obj(vec![("AllowedRegions", s("CN"))]))])),
    ]);
    assert_eq!(infer_region_from_config(&config), "cn");
}

#[test]
fn last_login_region_comes_before_other_fields() {
    let config = obj(vec![
        ("A", obj(vec![("SomeRegion", s("EU"))])),
        ("Services", obj(vec![("LastLoginRegion", s("us"))])),
    ]);
    assert_eq!(infer_region_from_config(&config), "americas");
}

#[test]
fn any_region_field_is_the_last_resort() {
    let config = obj(vec![("A", obj(vec![("SomeRegion", s("xx")), ("OtherRegion", s("tw"))]))]);
    assert_eq!(infer_region_from_config(&config), "asia");
    let none = obj(vec![("A", s("cn"))]);
    assert_eq!(infer_region_from_config(&none), "");
}

#[test]
fn new_account_config_for_cn() {
    let c = new_account_login_config("CN").unwrap();
    assert_eq!(
        render(&c),
        "{\"Client\":{\"LoginSettings\":{\"AllowedRegions\":\"CN\",\"AllowedLocales\":\"zhCN\"}},\"Services\":{\"LastLoginAddress\":\"cn.actual.battlenet.com.cn\",\"LastLoginRegion\":\"CN\",\"LastLoginTassadar\":\"account.battlenet.com.cn\"}}"
    );
}

#[test]
fn new_account_config_needs_a_region() {
    assert!(new_account_login_config("moon").is_none());
    assert!(new_account_login_config("").is_none());
}

#[test]
fn cross_region_config_strips_sign_in_and_sets_region() {
    let root = obj(vec![
        (
            "Client",
            obj(vec![
                ("AutoLogin", Json::Bool(true)),
                ("SavedAccountNames", s("someone@example.com")),
                ("RememberAccountName", Json::Bool(true)),
                ("Theme", s("dark")),
                ("LoginSettings", obj(vec![("AllowedRegions", s("CN"))])),
            ]),
        ),
        ("Game", obj(vec![("Client", obj(vec![("LoginSettings", obj(vec![]))]))])),
    ]);
    let out = cross_region_login_config(root, "asia").unwrap();
    assert_eq!(
        render(&out),
        "{\"Client\":{\"Theme\":\"dark\",\"LoginSettings\":{\"AllowedRegions\":\"KR\",\"AllowedLocales\":\"\"}},\"Game\":{\"Client\":{\"LoginSettings\":{\"AllowedRegions\":\"KR\",\"AllowedLocales\":\"\"}}},\"Services\":{\"LastLoginAddress\":\"kr.actual.battle.net\",\"LastLoginRegion\":\"KR\",\"LastLoginTassadar\":\"account.battle.net\"}}"
    );
}

#[test]
fn region_settings_only_touch_present_sections() {
    let mut section = obj(vec![("Other", s("x"))]);
    let settings = get_region_settings("europe");
    apply_region_settings(&mut section, &settings, false);
    assert_eq!(render(&section), "{\"Other\":\"x\"}");
    apply_region_settings(&mut section, &settings, true);
    assert_eq!(
        render(&section),
        "{\"Other\":\"x\",\"Client\":{\"LoginSettings\":{\"AllowedRegions\":\"EU\",\"AllowedLocales\":\"\"}},\"Services\":{\"LastLoginAddress\":\"eu.actual.battle.net\",\"LastLoginRegion\":\"EU\",\"LastLoginTassadar\":\"account.battle.net\"}}"
    );
}

#[test]
fn cross_region_config_of_other_json_is_left_to_copying() {
    assert!(cross_region_login_config(Json::Array(vec![]), "cn").is_none());
    assert!(cross_region_login_config(s("x"), "cn").is_none());
    let null = cross_region_login_config(Json::Null, "cn").unwrap();
    assert_eq!(
        render(&null),
        "{\"Client\":{\"LoginSettings\":{\"AllowedRegions\":\"CN\",\"AllowedLocales\":\"zhCN\"}},\"Services\":{\"LastLoginAddress\":\"cn.actual.battlenet.com.cn\",\"LastLoginRegion\":\"CN\",\"LastLoginTassadar\":\"account.battlenet.com.cn\"}}"
    );
}

#[test]
fn cross_region_config_from_text() {
    let out = cross_region_login_text("{\"Client\":{\"AutoLogin\":true,\"Theme\":\"x\"}}", "europe").unwrap();
    assert_eq!(
        render(&out),
        "{\"Client\":{\"Theme\":\"x\",\"LoginSettings\":{\"AllowedRegions\":\"EU\",\"AllowedLocales\":\"\"}},\"Services\":{\"LastLoginAddress\":\"eu.actual.battle.net\",\"LastLoginRegion\":\"EU\",\"LastLoginTassadar\":\"account.battle.net\"}}"
    );
    assert!(cross_region_login_text("[1]", "cn").is_none());
    assert!(cross_region_login_text("42", "cn").is_none());
    assert!(cross_region_login_text("{not json", "cn").is_none());
}

#[test]
fn region_inferred_from_configuration_text() {
    let text = "{\"Services\":{\"LastLoginRegion\":\"US\"},\"Client\":{\"LoginSettings\":{\"AllowedRegions\":\"CN\"}}}";
    assert_eq!(infer_region_from_text(text), "cn");
    assert_eq!(infer_region_from_text("{\"Games\":[{\"WebRegion\":\"eu\"}]}"), "europe");
    assert_eq!(infer_region_from_text("{\"Region\":\"mars\"}"), "");
    assert_eq!(infer_region_from_text("not json"), "");
}
