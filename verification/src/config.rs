//! Battle.net login configurations: the minimal configuration of a new account,
//! and a configuration moved to another region with its sign-in data removed.
use vstd::prelude::*;

use crate::json::{
    empty_object, find_member, insert_into, insert_member, jget, json_parsed, json_string, jv,
    jvm, key_index, lemma_jvm, parse_json, remove_from, remove_member, set_member, Json, JsonV,
};
use crate::region::{
    get_region_settings, normalize_region, normalized_region, settings_of, RegionSettings,
    RegionSettingsView,
};

verus! {

pub open spec fn obj(es: Seq<(Seq<char>, JsonV)>) -> JsonV {
    JsonV::Object(es)
}

pub open spec fn empty_obj() -> JsonV {
    JsonV::Object(Seq::empty())
}

/// `LoginSettings` with the region's allowed regions and locales set (objects only).
pub open spec fn login_settings_v(ls: JsonV, s: RegionSettingsView) -> JsonV {
    match ls {
        JsonV::Object(es) => obj(
            insert_member(
                insert_member(es, "AllowedRegions"@, JsonV::Str(s.allowed_regions)),
                "AllowedLocales"@,
                JsonV::Str(s.allowed_locales),
            ),
        ),
        _ => ls,
    }
}

/// A `Client` section with its `LoginSettings` set; an empty `LoginSettings` is
/// added first when `create` is set and there is none (objects only).
pub open spec fn client_v(c: JsonV, s: RegionSettingsView, create: bool) -> JsonV {
    match c {
        JsonV::Object(es) => {
            let es1 = if create && key_index(es, "LoginSettings"@) is None {
                insert_member(es, "LoginSettings"@, empty_obj())
            } else {
                es
            };
            match key_index(es1, "LoginSettings"@) {
                Some(i) => obj(es1.update(i, ("LoginSettings"@, login_settings_v(es1[i].1, s)))),
                None => obj(es1),
            }
        },
        _ => c,
    }
}

/// A `Services` section with the region's last login address, region and
/// account host set (objects only).
pub open spec fn services_v(v: JsonV, s: RegionSettingsView) -> JsonV {
    match v {
        JsonV::Object(es) => obj(
            insert_member(
                insert_member(
                    insert_member(es, "LastLoginAddress"@, JsonV::Str(s.login_address)),
                    "LastLoginRegion"@,
                    JsonV::Str(s.login_region),
                ),
                "LastLoginTassadar"@,
                JsonV::Str(s.tassadar_host),
            ),
        ),
        _ => v,
    }
}

/// The login part: `Client.LoginSettings` is set when it is there, or when
/// `create` is set, in which case missing sections are added.
pub open spec fn with_login_v(section: JsonV, s: RegionSettingsView, create: bool) -> JsonV {
    let present = match jget(section, "Client"@) {
        Some(c) => jget(c, "LoginSettings"@) is Some,
        None => false,
    };
    if present || create {
        let s0 = if create && jget(section, "Client"@) is None {
            set_member(section, "Client"@, empty_obj())
        } else {
            section
        };
        match jget(s0, "Client"@) {
            Some(c) => set_member(s0, "Client"@, client_v(c, s, create)),
            None => s0,
        }
    } else {
        section
    }
}

/// The services part: `Services` is set when it is there, or added when `create` is set.
pub open spec fn with_services_v(section: JsonV, s: RegionSettingsView, create: bool) -> JsonV {
    let s2 = if create && jget(section, "Services"@) is None {
        set_member(section, "Services"@, empty_obj())
    } else {
        section
    };
    match jget(s2, "Services"@) {
        Some(v) => set_member(s2, "Services"@, services_v(v, s)),
        None => s2,
    }
}

/// What `apply_region_settings` makes of a section.
pub open spec fn applied_v(section: JsonV, s: RegionSettingsView, create: bool) -> JsonV {
    with_services_v(with_login_v(section, s, create), s, create)
}

/// A value that `value[key] = ..` can be used on without a panic.
pub open spec fn settable(j: JsonV) -> bool {
    j is Object || j is Null
}

fn set_in(j: &mut Json, key: &str, v: Json)
    requires
        settable(jv(*old(j))),
    ensures
        jv(*final(j)) == set_member(jv(*old(j)), key@, jv(v)),
        jv(*final(j)) is Object,
{
    let ghost vv = jv(v);
    match j {
        Json::Object(es) => {
            insert_into(es, String::from_str(key), v);
        },
        _ => {
            let mut es: Vec<(String, Json)> = Vec::new();
            es.push((String::from_str(key), v));
            proof {
                lemma_jvm(es@);
                assert(jvm(es@) =~= seq![(key@, vv)]);
            }
            *j = Json::Object(es);
        },
    }
}

/// Replaces the value of the member at `i` by `f` of it, in place.
fn member_at(es: &Vec<(String, Json)>, i: usize) -> (r: &Json)
    requires
        i < es@.len(),
    ensures
        *r == es@[i as int].1,
{
    &es[i].1
}

fn set_login_settings(ls: &mut Json, s: &RegionSettings)
    ensures
        jv(*final(ls)) == login_settings_v(jv(*old(ls)), s@),
{
    proof {
        reveal_strlit("AllowedRegions");
        reveal_strlit("AllowedLocales");
    }
    match ls {
        Json::Object(es) => {
            insert_into(es, String::from_str("AllowedRegions"), json_string(s.allowed_regions));
            insert_into(es, String::from_str("AllowedLocales"), json_string(s.allowed_locales));
        },
        _ => {},
    }
}

fn set_client(c: &mut Json, s: &RegionSettings, create: bool)
    ensures
        jv(*final(c)) == client_v(jv(*old(c)), s@, create),
{
    match c {
        Json::Object(es) => {
            if create && find_member(es, "LoginSettings").is_none() {
                insert_into(es, String::from_str("LoginSettings"), empty_object());
            }
            let ghost es1 = jvm(es@);
            match find_member(es, "LoginSettings") {
                Some(i) => {
                    let ghost pre = es@;
                    proof {
                        lemma_jvm(pre);
                        crate::json::lemma_key_index(es1, "LoginSettings"@);
                    }
                    let (k, mut v) = es.remove(i);
                    assert((k, v) == pre[i as int]);
                    assert(k@ == "LoginSettings"@ && jv(v) == es1[i as int].1);
                    set_login_settings(&mut v, s);
                    es.insert(i, (k, v));
                    proof {
                        assert(es@ =~= pre.update(i as int, (k, v)));
                        lemma_jvm(es@);
                        assert(jvm(es@) =~= es1.update(
                            i as int,
                            ("LoginSettings"@, login_settings_v(es1[i as int].1, s@)),
                        ));
                    }
                },
                None => {},
            }
        },
        _ => {},
    }
}

fn set_services(v: &mut Json, s: &RegionSettings)
    ensures
        jv(*final(v)) == services_v(jv(*old(v)), s@),
{
    match v {
        Json::Object(es) => {
            insert_into(es, String::from_str("LastLoginAddress"), json_string(s.login_address));
            insert_into(es, String::from_str("LastLoginRegion"), json_string(s.login_region));
            insert_into(es, String::from_str("LastLoginTassadar"), json_string(s.tassadar_host));
        },
        _ => {},
    }
}

/// Whether the member `key` of an object is there.
fn has_member(j: &Json, key: &str) -> (r: bool)
    ensures
        r == (jget(jv(*j), key@) is Some),
{
    match j {
        Json::Object(es) => find_member(es, key).is_some(),
        _ => false,
    }
}

/// Whether `Client.LoginSettings` is there.
fn has_login_settings(section: &Json) -> (r: bool)
    ensures
        r == match jget(jv(*section), "Client"@) {
            Some(c) => jget(c, "LoginSettings"@) is Some,
            None => false,
        },
{
    match section {
        Json::Object(es) => match find_member(es, "Client") {
            Some(i) => {
                proof {
                    lemma_jvm(es@);
                    crate::json::lemma_key_index(jvm(es@), "Client"@);
                }
                has_member(member_at(es, i), "LoginSettings")
            },
            None => false,
        },
        _ => false,
    }
}

/// Applies `f` to the member `key` of an object, in place; nothing happens when
/// there is no such member. `which` picks the change: the `Client` or the `Services` one.
fn update_member(section: &mut Json, key: &str, s: &RegionSettings, create: bool, client: bool)
    ensures
        jv(*final(section)) == match jget(jv(*old(section)), key@) {
            Some(v) => set_member(
                jv(*old(section)),
                key@,
                if client {
                    client_v(v, s@, create)
                } else {
                    services_v(v, s@)
                },
            ),
            None => jv(*old(section)),
        },
{
    match section {
        Json::Object(es) => {
            let ghost es0 = jvm(es@);
            match find_member(es, key) {
                Some(i) => {
                    let ghost pre = es@;
                    proof {
                        lemma_jvm(pre);
                        crate::json::lemma_key_index(es0, key@);
                    }
                    let (k, mut v) = es.remove(i);
                    assert((k, v) == pre[i as int]);
                    assert(k@ == key@ && jv(v) == es0[i as int].1);
                    let ghost v0 = jv(v);
                    if client {
                        set_client(&mut v, s, create);
                    } else {
                        set_services(&mut v, s);
                    }
                    es.insert(i, (k, v));
                    proof {
                        assert(es@ =~= pre.update(i as int, (k, v)));
                        lemma_jvm(es@);
                        let nv = if client {
                            client_v(v0, s@, create)
                        } else {
                            services_v(v0, s@)
                        };
                        assert(jvm(es@) =~= es0.update(i as int, (key@, nv)));
                    }
                },
                None => {},
            }
        },
        _ => {},
    }
}

/// Sets a section's login settings and services to those of `settings`. When
/// `create_missing` is set, missing `Client`, `Client.LoginSettings` and `Services`
/// sections are added first; otherwise only sections that are there change.
pub fn apply_region_settings(section: &mut Json, settings: &RegionSettings, create_missing: bool)
    requires
        create_missing ==> settable(jv(*old(section))),
    ensures
        jv(*final(section)) == applied_v(jv(*old(section)), settings@, create_missing),
        create_missing ==> jv(*final(section)) is Object,
{
    proof {
        reveal_strlit("Client");
        reveal_strlit("LoginSettings");
        reveal_strlit("Services");
    }
    let present = has_login_settings(section);
    if present || create_missing {
        if create_missing && !has_member(section, "Client") {
            set_in(section, "Client", empty_object());
        }
        update_member(section, "Client", settings, create_missing, true);
    }
    let ghost mid = jv(*section);
    assert(mid == with_login_v(jv(*old(section)), settings@, create_missing));
    if create_missing && !has_member(section, "Services") {
        set_in(section, "Services", empty_object());
    }
    update_member(section, "Services", settings, create_missing, false);
    proof {
        if create_missing {
            assert(settable(jv(*old(section))));
        }
    }
}

// ─── New-account configuration ────────────────────────────────────────

/// The minimal login configuration of a region.
pub open spec fn login_config_v(s: RegionSettingsView) -> JsonV {
    obj(
        seq![
            ("Client"@, obj(seq![("LoginSettings"@, obj(seq![("AllowedRegions"@, JsonV::Str(s.allowed_regions)), ("AllowedLocales"@, JsonV::Str(s.allowed_locales))]))])),
            ("Services"@, obj(seq![("LastLoginAddress"@, JsonV::Str(s.login_address)), ("LastLoginRegion"@, JsonV::Str(s.login_region)), ("LastLoginTassadar"@, JsonV::Str(s.tassadar_host))])),
        ],
    )
}

fn pair(k: &str, v: Json) -> (r: (String, Json))
    ensures
        r.0@ == k@,
        r.1 == v,
{
    (String::from_str(k), v)
}

/// The login configuration written for a new account of `region`: the region's
/// allowed regions and locales, and its last login address, region and account host.
/// `None` when `region` names no region (nothing is written then).
pub fn new_account_login_config(region: &str) -> (r: Option<Json>)
    ensures
        normalized_region(region@).len() == 0 <==> r is None,
        r matches Some(j) ==> jv(j) == login_config_v(settings_of(normalized_region(region@))),
{
    let norm = normalize_region(region);
    if norm.as_str().unicode_len() == 0 {
        return None;
    }
    let settings = get_region_settings(norm.as_str());
    proof {
        crate::region::lemma_normalize_region_idempotent(region@);
    }
    let mut ls: Vec<(String, Json)> = Vec::new();
    ls.push(pair("AllowedRegions", json_string(settings.allowed_regions)));
    ls.push(pair("AllowedLocales", json_string(settings.allowed_locales)));
    let mut client: Vec<(String, Json)> = Vec::new();
    client.push(pair("LoginSettings", Json::Object(ls)));
    let mut services: Vec<(String, Json)> = Vec::new();
    services.push(pair("LastLoginAddress", json_string(settings.login_address)));
    services.push(pair("LastLoginRegion", json_string(settings.login_region)));
    services.push(pair("LastLoginTassadar", json_string(settings.tassadar_host)));
    let mut root: Vec<(String, Json)> = Vec::new();
    root.push(pair("Client", Json::Object(client)));
    root.push(pair("Services", Json::Object(services)));
    proof {
        lemma_jvm(ls@);
        lemma_jvm(client@);
        lemma_jvm(services@);
        lemma_jvm(root@);
        let s = settings@;
        assert(jvm(ls@) =~= seq![("AllowedRegions"@, JsonV::Str(s.allowed_regions)), ("AllowedLocales"@, JsonV::Str(s.allowed_locales))]);
        assert(jvm(client@) =~= seq![("LoginSettings"@, jv(Json::Object(ls)))]);
        assert(jvm(services@) =~= seq![("LastLoginAddress"@, JsonV::Str(s.login_address)), ("LastLoginRegion"@, JsonV::Str(s.login_region)), ("LastLoginTassadar"@, JsonV::Str(s.tassadar_host))]);
        assert(jvm(root@) =~= seq![("Client"@, jv(Json::Object(client))), ("Services"@, jv(Json::Object(services)))]);
    }
    Some(Json::Object(root))
}

// ─── Cross-region configuration ───────────────────────────────────────

/// The sign-in members removed from the `Client` section when moving to another region.
pub open spec fn without_sign_in(es: Seq<(Seq<char>, JsonV)>) -> Seq<(Seq<char>, JsonV)> {
    remove_member(
        remove_member(
            remove_member(remove_member(es, "AutoLogin"@), "AutoLoginCN"@),
            "RememberAccountName"@,
        ),
        "SavedAccountNames"@,
    )
}

/// The configuration with its `Client` section's sign-in members removed.
pub open spec fn stripped_v(root: JsonV) -> JsonV {
    match jget(root, "Client"@) {
        Some(JsonV::Object(es)) => set_member(root, "Client"@, obj(without_sign_in(es))),
        _ => root,
    }
}

/// Each top-level section that is an object gets the region settings, without
/// anything being added.
pub open spec fn sections_v(es: Seq<(Seq<char>, JsonV)>, s: RegionSettingsView) -> Seq<
    (Seq<char>, JsonV),
> {
    es.map_values(
        |e: (Seq<char>, JsonV)|
            (
                e.0,
                if e.1 is Object {
                    applied_v(e.1, s, false)
                } else {
                    e.1
                },
            ),
    )
}

/// What `cross_region_login_config` makes of a configuration.
pub open spec fn cross_region_v(root: JsonV, s: RegionSettingsView) -> JsonV {
    let r1 = applied_v(stripped_v(root), s, true);
    match r1 {
        JsonV::Object(es) => obj(sections_v(es, s)),
        _ => r1,
    }
}

fn strip_sign_in(root: &mut Json)
    requires
        settable(jv(*old(root))),
    ensures
        jv(*final(root)) == stripped_v(jv(*old(root))),
        settable(jv(*final(root))),
{
    proof {
        reveal_strlit("Client");
    }
    match root {
        Json::Object(es) => {
            let ghost es0 = jvm(es@);
            match find_member(es, "Client") {
                Some(i) => {
                    let ghost pre = es@;
                    proof {
                        lemma_jvm(pre);
                        crate::json::lemma_key_index(es0, "Client"@);
                    }
                    let (k, mut c) = es.remove(i);
                    assert((k, c) == pre[i as int]);
                    assert(k@ == "Client"@ && jv(c) == es0[i as int].1);
                    let ghost c0 = jv(c);
                    match &mut c {
                        Json::Object(ces) => {
                            remove_from(ces, "AutoLogin");
                            remove_from(ces, "AutoLoginCN");
                            remove_from(ces, "RememberAccountName");
                            remove_from(ces, "SavedAccountNames");
                        },
                        _ => {},
                    }
                    es.insert(i, (k, c));
                    proof {
                        assert(es@ =~= pre.update(i as int, (k, c)));
                        lemma_jvm(es@);
                        if c0 is Object {
                            assert(jvm(es@) =~= es0.update(
                                i as int,
                                ("Client"@, obj(without_sign_in(c0->Object_0))),
                            ));
                        } else {
                            assert(jvm(es@) =~= es0);
                        }
                    }
                },
                None => {},
            }
        },
        _ => {},
    }
}

/// The login configuration for signing in to `target_region` with a saved
/// configuration that is an object (or null): the `Client` section loses
/// `AutoLogin`, `AutoLoginCN`, `RememberAccountName` and `SavedAccountNames`; the
/// region settings are applied to the whole configuration (adding missing
/// sections), then to each top-level section that is an object (adding nothing).
/// `None` for any other configuration, which is then copied as it is.
pub fn cross_region_login_config(root: Json, target_region: &str) -> (r: Option<Json>)
    ensures
        settable(jv(root)) ==> (r matches Some(j) && jv(j) == cross_region_v(
            jv(root),
            settings_of(normalized_region(target_region@)),
        )),
        !settable(jv(root)) ==> r is None,
{
    let ok = match &root {
        Json::Object(_) => true,
        Json::Null => true,
        _ => false,
    };
    if ok {
        Some(cross_region_of(root, target_region))
    } else {
        None
    }
}

/// The login configuration for signing in to `target_region` with a saved
/// configuration text: `cross_region_login_config` of the parsed text; `None` when
/// the text is not JSON or not an object (or null).
pub fn cross_region_login_text(text: &str, target_region: &str) -> (r: Option<Json>)
    ensures
        match json_parsed(text@) {
            Some(v) => if settable(v) {
                r matches Some(j) && jv(j) == cross_region_v(
                    v,
                    settings_of(normalized_region(target_region@)),
                )
            } else {
                r is None
            },
            None => r is None,
        },
{
    match parse_json(text) {
        Some(j) => cross_region_login_config(j, target_region),
        None => None,
    }
}

fn cross_region_of(root: Json, target_region: &str) -> (r: Json)
    requires
        settable(jv(root)),
    ensures
        jv(r) == cross_region_v(jv(root), settings_of(normalized_region(target_region@))),
{
    let mut root = root;
    strip_sign_in(&mut root);
    let settings = get_region_settings(target_region);
    apply_region_settings(&mut root, &settings, true);
    match &mut root {
        Json::Object(es) => {
            let ghost es0 = jvm(es@);
            proof {
                lemma_jvm(es@);
            }
            let n = es.len();
            let mut i: usize = 0;
            while i < n
                invariant
                    n == es@.len(),
                    i <= n,
                    es0.len() == n,
                    jvm(es@).len() == n,
                    forall|k: int| 0 <= k < n ==> #[trigger] jvm(es@)[k] == (es@[k].0@, jv(es@[k].1)),
                    forall|k: int|
                        0 <= k < i ==> #[trigger] jvm(es@)[k] == sections_v(es0, settings@)[k],
                    forall|k: int| i <= k < n ==> #[trigger] jvm(es@)[k] == es0[k],
                decreases n - i,
            {
                let ghost pre = es@;
                let (k, mut v) = es.remove(i);
                assert((k, v) == pre[i as int]);
                let ghost v0 = jv(v);
                let is_obj = match &v {
                    Json::Object(_) => true,
                    _ => false,
                };
                if is_obj {
                    apply_region_settings(&mut v, &settings, false);
                }
                es.insert(i, (k, v));
                proof {
                    assert(es@ =~= pre.update(i as int, (k, v)));
                    lemma_jvm(es@);
                    lemma_jvm(pre);
                    assert forall|q: int| 0 <= q < n && q != i implies #[trigger] jvm(es@)[q]
                        == jvm(pre)[q] by {
                        assert(es@[q] == pre[q]);
                    }
                    assert(jvm(pre)[i as int] == es0[i as int]);
                    assert(jvm(es@)[i as int] == sections_v(es0, settings@)[i as int]);
                }
                i = i + 1;
            }
            proof {
                assert(jvm(es@) =~= sections_v(es0, settings@));
            }
        },
        _ => {},
    }
    root
}

} // verus!
