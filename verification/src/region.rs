//! Battle.net regions: normalising region names, the login settings of each
//! region, mapping Battle.net region codes, and inferring the region that a
//! Battle.net configuration is set to.
use vstd::prelude::*;

use crate::json::{json_parsed, jv, jv_items, jvm, lemma_jv_items, lemma_jvm, parse_json, Json, JsonV};
use crate::text::{
    chars_eq, chars_eq_ignore_case, chars_of, eq_ignore_case, has_infix, is_ascii_seq,
    lemma_ascii_lower_idem, ascii_lower_seq, ascii_upper_seq, chars_contains, lower, lower_text,
    trim, trimmed, upper, upper_text,
};

verus! {

pub const REGION_CN: &'static str = "cn";
pub const REGION_ASIA: &'static str = "asia";
pub const REGION_AMERICAS: &'static str = "americas";
pub const REGION_EUROPE: &'static str = "europe";
pub const UNSET_REGION: &'static str = "";
pub const DEFAULT_ACCOUNT_REGION: &'static str = "asia";

pub open spec fn cn() -> Seq<char> {
    seq!['c', 'n']
}

pub open spec fn asia() -> Seq<char> {
    seq!['a', 's', 'i', 'a']
}

pub open spec fn americas() -> Seq<char> {
    seq!['a', 'm', 'e', 'r', 'i', 'c', 'a', 's']
}

pub open spec fn europe() -> Seq<char> {
    seq!['e', 'u', 'r', 'o', 'p', 'e']
}

/// One of the four regions that an account can be tagged with.
pub open spec fn is_region_name(r: Seq<char>) -> bool {
    r == cn() || r == asia() || r == americas() || r == europe()
}

/// The region named by an already lowercased, trimmed key; empty when none.
pub open spec fn region_of_key(k: Seq<char>) -> Seq<char> {
    if is_region_name(k) {
        k
    } else {
        Seq::empty()
    }
}

/// What `normalize_region` gives: the region named by the trimmed, lowercased text,
/// or the empty text.
pub open spec fn normalized_region(s: Seq<char>) -> Seq<char> {
    region_of_key(lower_text(trimmed(s)))
}

/// A text names a region once normalised.
pub open spec fn tagged(s: Seq<char>) -> bool {
    normalized_region(s).len() > 0
}

fn region_string(k: &Vec<char>) -> (r: String)
    ensures
        r@ == region_of_key(k@),
{
    proof {
        reveal_strlit("cn");
        reveal_strlit("asia");
        reveal_strlit("americas");
        reveal_strlit("europe");
        reveal_strlit("");
        assert("cn"@ =~= cn());
        assert("asia"@ =~= asia());
        assert("americas"@ =~= americas());
        assert("europe"@ =~= europe());
        assert(""@ =~= Seq::<char>::empty());
    }
    if chars_eq(k, &chars_of("cn")) {
        String::from_str("cn")
    } else if chars_eq(k, &chars_of("asia")) {
        String::from_str("asia")
    } else if chars_eq(k, &chars_of("americas")) {
        String::from_str("americas")
    } else if chars_eq(k, &chars_of("europe")) {
        String::from_str("europe")
    } else {
        String::from_str("")
    }
}

/// The region an account's region text stands for: `"cn"`, `"asia"`, `"americas"`,
/// `"europe"`, or `""` when the trimmed, lowercased text is none of these.
pub fn normalize_region(region: &str) -> (r: String)
    ensures
        r@ == normalized_region(region@),
        is_region_name(r@) || r@.len() == 0,
{
    let t = trim(region);
    let l = lower(t.as_str());
    let k = chars_of(l.as_str());
    region_string(&k)
}

/// A region text names one of the four regions.
pub fn is_tagged_region(region: &str) -> (r: bool)
    ensures
        r == tagged(region@),
{
    let n = normalize_region(region);
    n.as_str().unicode_len() > 0
}

/// A region name (or the empty text) is trimmed, ASCII and left as it is by normalising.
pub proof fn lemma_region_name_fixed(r: Seq<char>)
    requires
        is_region_name(r) || r.len() == 0,
    ensures
        normalized_region(r) == r,
        trimmed(r) == r,
        is_ascii_seq(r),
{
    reveal_with_fuel(crate::text::trim_start, 2);
    reveal_with_fuel(crate::text::trim_end, 2);
    assert(trimmed(r) == r);
    assert(is_ascii_seq(r));
    lemma_ascii_lower_idem(r);
    assert(ascii_lower_seq(r) =~= r);
}

/// Normalising a region twice gives what normalising it once gives, and the
/// result is always one of the four regions or the empty text.
pub proof fn lemma_normalize_region_idempotent(s: Seq<char>)
    ensures
        normalized_region(normalized_region(s)) == normalized_region(s),
        is_region_name(normalized_region(s)) || normalized_region(s).len() == 0,
{
    lemma_region_name_fixed(normalized_region(s));
}

/// A text is tagged exactly when it names a region after normalisation; a region
/// name is tagged and the empty text is not.
pub proof fn lemma_tagged_region_names(r: Seq<char>)
    requires
        is_region_name(r) || r.len() == 0,
    ensures
        tagged(r) == is_region_name(r),
{
    lemma_region_name_fixed(r);
}

// ─── Region settings ──────────────────────────────────────────────────

/// The login settings that Battle.net uses for a region.
pub struct RegionSettings {
    pub allowed_regions: &'static str,
    pub allowed_locales: &'static str,
    pub login_address: &'static str,
    pub login_region: &'static str,
    pub tassadar_host: &'static str,
}

pub struct RegionSettingsView {
    pub allowed_regions: Seq<char>,
    pub allowed_locales: Seq<char>,
    pub login_address: Seq<char>,
    pub login_region: Seq<char>,
    pub tassadar_host: Seq<char>,
}

impl View for RegionSettings {
    type V = RegionSettingsView;

    open spec fn view(&self) -> RegionSettingsView {
        RegionSettingsView {
            allowed_regions: self.allowed_regions@,
            allowed_locales: self.allowed_locales@,
            login_address: self.login_address@,
            login_region: self.login_region@,
            tassadar_host: self.tassadar_host@,
        }
    }
}

/// The settings of a normalised region; the Korean/Asian settings for every
/// region other than China, the Americas and Europe.
pub open spec fn settings_of(r: Seq<char>) -> RegionSettingsView {
    if r == cn() {
        RegionSettingsView {
            allowed_regions: seq!['C', 'N'],
            allowed_locales: seq!['z', 'h', 'C', 'N'],
            login_address: "cn.actual.battlenet.com.cn"@,
            login_region: seq!['C', 'N'],
            tassadar_host: "account.battlenet.com.cn"@,
        }
    } else if r == americas() {
        RegionSettingsView {
            allowed_regions: seq!['U', 'S'],
            allowed_locales: Seq::empty(),
            login_address: "us.actual.battle.net"@,
            login_region: seq!['U', 'S'],
            tassadar_host: "account.battle.net"@,
        }
    } else if r == europe() {
        RegionSettingsView {
            allowed_regions: seq!['E', 'U'],
            allowed_locales: Seq::empty(),
            login_address: "eu.actual.battle.net"@,
            login_region: seq!['E', 'U'],
            tassadar_host: "account.battle.net"@,
        }
    } else {
        RegionSettingsView {
            allowed_regions: seq!['K', 'R'],
            allowed_locales: Seq::empty(),
            login_address: "kr.actual.battle.net"@,
            login_region: seq!['K', 'R'],
            tassadar_host: "account.battle.net"@,
        }
    }
}

/// The login settings for a region text (after normalisation).
pub fn get_region_settings(region: &str) -> (r: RegionSettings)
    ensures
        r@ == settings_of(normalized_region(region@)),
{
    proof {
        reveal_strlit("CN");
        reveal_strlit("zhCN");
        reveal_strlit("US");
        reveal_strlit("EU");
        reveal_strlit("KR");
        reveal_strlit("");
        assert("CN"@ =~= seq!['C', 'N']);
        assert("zhCN"@ =~= seq!['z', 'h', 'C', 'N']);
        assert("US"@ =~= seq!['U', 'S']);
        assert("EU"@ =~= seq!['E', 'U']);
        assert("KR"@ =~= seq!['K', 'R']);
        assert(""@ =~= Seq::<char>::empty());
    }
    let n = normalize_region(region);
    let k = chars_of(n.as_str());
    proof {
        reveal_strlit("cn");
        reveal_strlit("americas");
        reveal_strlit("europe");
        assert("cn"@ =~= cn());
        assert("americas"@ =~= americas());
        assert("europe"@ =~= europe());
    }
    if chars_eq(&k, &chars_of("cn")) {
        RegionSettings {
            allowed_regions: "CN",
            allowed_locales: "zhCN",
            login_address: "cn.actual.battlenet.com.cn",
            login_region: "CN",
            tassadar_host: "account.battlenet.com.cn",
        }
    } else if chars_eq(&k, &chars_of("americas")) {
        RegionSettings {
            allowed_regions: "US",
            allowed_locales: "",
            login_address: "us.actual.battle.net",
            login_region: "US",
            tassadar_host: "account.battle.net",
        }
    } else if chars_eq(&k, &chars_of("europe")) {
        RegionSettings {
            allowed_regions: "EU",
            allowed_locales: "",
            login_address: "eu.actual.battle.net",
            login_region: "EU",
            tassadar_host: "account.battle.net",
        }
    } else {
        RegionSettings {
            allowed_regions: "KR",
            allowed_locales: "",
            login_address: "kr.actual.battle.net",
            login_region: "KR",
            tassadar_host: "account.battle.net",
        }
    }
}

/// The settings of a region depend only on its normalised form.
pub proof fn lemma_settings_follow_normalized(s: Seq<char>)
    ensures
        settings_of(normalized_region(normalized_region(s))) == settings_of(normalized_region(s)),
{
    lemma_normalize_region_idempotent(s);
}

// ─── Battle.net region codes ──────────────────────────────────────────

/// The region that a Battle.net region code (already trimmed and uppercased) stands for.
pub open spec fn region_of_code(u: Seq<char>) -> Seq<char> {
    if u == seq!['C', 'N'] {
        cn()
    } else if u == seq!['U', 'S'] {
        americas()
    } else if u == seq!['E', 'U'] {
        europe()
    } else if u == seq!['K', 'R'] || u == seq!['T', 'W'] || u == seq!['S', 'G'] {
        asia()
    } else {
        Seq::empty()
    }
}

/// What `map_region_code` gives: the region of the trimmed, uppercased code.
pub open spec fn mapped_region(s: Seq<char>) -> Seq<char> {
    region_of_code(upper_text(trimmed(s)))
}

/// Maps a Battle.net region code (`CN`, `US`, `EU`, `KR`, `TW`, `SG`, in any case
/// and with surrounding whitespace) to an account region; `""` for other codes.
pub fn map_region_code(value: &str) -> (r: String)
    ensures
        r@ == mapped_region(value@),
        is_region_name(r@) || r@.len() == 0,
{
    proof {
        reveal_strlit("CN");
        reveal_strlit("US");
        reveal_strlit("EU");
        reveal_strlit("KR");
        reveal_strlit("TW");
        reveal_strlit("SG");
        reveal_strlit("cn");
        reveal_strlit("americas");
        reveal_strlit("europe");
        reveal_strlit("asia");
        reveal_strlit("");
        assert("CN"@ =~= seq!['C', 'N']);
        assert("US"@ =~= seq!['U', 'S']);
        assert("EU"@ =~= seq!['E', 'U']);
        assert("KR"@ =~= seq!['K', 'R']);
        assert("TW"@ =~= seq!['T', 'W']);
        assert("SG"@ =~= seq!['S', 'G']);
        assert("cn"@ =~= cn());
        assert("asia"@ =~= asia());
        assert("americas"@ =~= americas());
        assert("europe"@ =~= europe());
        assert(""@ =~= Seq::<char>::empty());
    }
    let t = trim(value);
    let u = upper(t.as_str());
    let k = chars_of(u.as_str());
    if chars_eq(&k, &chars_of("CN")) {
        String::from_str("cn")
    } else if chars_eq(&k, &chars_of("US")) {
        String::from_str("americas")
    } else if chars_eq(&k, &chars_of("EU")) {
        String::from_str("europe")
    } else if chars_eq(&k, &chars_of("KR")) || chars_eq(&k, &chars_of("TW")) || chars_eq(
        &k,
        &chars_of("SG"),
    ) {
        String::from_str("asia")
    } else {
        String::from_str("")
    }
}

/// A mapped code is already normalised, and it is tagged exactly when it is not empty.
pub proof fn lemma_mapped_region_normalized(s: Seq<char>)
    ensures
        normalized_region(mapped_region(s)) == mapped_region(s),
        tagged(mapped_region(s)) == (mapped_region(s).len() > 0),
{
    lemma_region_name_fixed(mapped_region(s));
}

// ─── Cross-region switches ────────────────────────────────────────────

/// What `is_cross_region_switch` gives.
pub open spec fn cross_region(active: Seq<char>, target: Seq<char>) -> bool {
    let t = normalized_region(target);
    let a = normalized_region(active);
    t.len() > 0 && (a.len() == 0 || a != t)
}

/// Switching to `target_region` from `active_region` changes region: the target names
/// a region and the active one names none or another one.
pub fn is_cross_region_switch(active_region: &str, target_region: &str) -> (r: bool)
    ensures
        r == cross_region(active_region@, target_region@),
{
    let target = normalize_region(target_region);
    proof {
        lemma_region_name_fixed(target@);
    }
    if !is_tagged_region(target.as_str()) {
        return false;
    }
    let active = normalize_region(active_region);
    proof {
        lemma_region_name_fixed(active@);
    }
    if !is_tagged_region(active.as_str()) {
        return true;
    }
    !(active == target)
}

/// Staying in a region is never a cross-region switch.
pub proof fn lemma_same_region_not_cross(r: Seq<char>)
    ensures
        !cross_region(r, r),
{
}

// ─── Inferring the region of a configuration ─────────────────────────

/// The string members anywhere in a JSON document whose lowercased name contains
/// `region`, as `(name, value)`, in document order.
pub open spec fn region_fields(j: Json) -> Seq<(Seq<char>, Seq<char>)>
    decreases j, 0int,
{
    match j {
        Json::Object(m) => region_fields_members(m@, m@.len() as int),
        Json::Array(a) => region_fields_items(a@, a@.len() as int),
        _ => Seq::empty(),
    }
}

/// `region_fields` of the first `n` members of an object.
pub open spec fn region_fields_members(es: Seq<(String, Json)>, n: int) -> Seq<(Seq<char>, Seq<char>)>
    decreases es, n,
{
    if n <= 0 || n > es.len() {
        Seq::empty()
    } else {
        let e = es[n - 1];
        let own = match e.1 {
            Json::Str(s) => if has_infix(lower_text(e.0@), "region"@) {
                seq![(e.0@, s@)]
            } else {
                Seq::empty()
            },
            _ => Seq::empty(),
        };
        region_fields_members(es, n - 1) + own + region_fields(e.1)
    }
}

/// `region_fields` of the first `n` items of an array.
pub open spec fn region_fields_items(items: Seq<Json>, n: int) -> Seq<(Seq<char>, Seq<char>)>
    decreases items, n,
{
    if n <= 0 || n > items.len() {
        Seq::empty()
    } else {
        region_fields_items(items, n - 1) + region_fields(items[n - 1])
    }
}

/// The string members anywhere in a JSON value (by its view) whose lowercased name
/// contains `region`, as `(name, value)`, in document order.
pub open spec fn fields_v(v: JsonV) -> Seq<(Seq<char>, Seq<char>)>
    decreases v, 0int,
{
    match v {
        JsonV::Object(es) => fields_members_v(es, es.len() as int),
        JsonV::Array(a) => fields_items_v(a, a.len() as int),
        _ => Seq::empty(),
    }
}

/// `fields_v` of the first `n` members of an object.
pub open spec fn fields_members_v(es: Seq<(Seq<char>, JsonV)>, n: int) -> Seq<
    (Seq<char>, Seq<char>),
>
    decreases es, n,
{
    if n <= 0 || n > es.len() {
        Seq::empty()
    } else {
        let e = es[n - 1];
        let own = match e.1 {
            JsonV::Str(s) => if has_infix(lower_text(e.0), "region"@) {
                seq![(e.0, s)]
            } else {
                Seq::empty()
            },
            _ => Seq::empty(),
        };
        fields_members_v(es, n - 1) + own + fields_v(e.1)
    }
}

/// `fields_v` of the first `n` items of an array.
pub open spec fn fields_items_v(items: Seq<JsonV>, n: int) -> Seq<(Seq<char>, Seq<char>)>
    decreases items, n,
{
    if n <= 0 || n > items.len() {
        Seq::empty()
    } else {
        fields_items_v(items, n - 1) + fields_v(items[n - 1])
    }
}

/// The region fields of a configuration depend only on its view.
pub proof fn lemma_region_fields_view(j: Json)
    ensures
        region_fields(j) == fields_v(jv(j)),
    decreases j, 0int,
{
    match j {
        Json::Object(m) => {
            lemma_jvm(m@);
            lemma_fields_members_view(m@, m@.len() as int);
        },
        Json::Array(a) => {
            lemma_jv_items(a@, a@.len() as int);
            lemma_fields_items_view(a@, a@.len() as int);
        },
        _ => {},
    }
}

proof fn lemma_fields_members_view(es: Seq<(String, Json)>, n: int)
    requires
        0 <= n <= es.len(),
    ensures
        region_fields_members(es, n) == fields_members_v(jvm(es), n),
    decreases es, n,
{
    lemma_jvm(es);
    if n > 0 {
        lemma_fields_members_view(es, n - 1);
        lemma_region_fields_view(es[n - 1].1);
        assert(jvm(es)[n - 1] == (es[n - 1].0@, jv(es[n - 1].1)));
    }
}

proof fn lemma_fields_items_view(items: Seq<Json>, n: int)
    requires
        0 <= n <= items.len(),
    ensures
        region_fields_items(items, n) == fields_items_v(jv_items(items, items.len() as int), n),
    decreases items, n,
{
    lemma_jv_items(items, items.len() as int);
    if n > 0 {
        lemma_fields_items_view(items, n - 1);
        lemma_region_fields_view(items[n - 1]);
    }
}

pub open spec fn pair_views(v: Seq<(String, String)>) -> Seq<(Seq<char>, Seq<char>)> {
    v.map_values(|p: (String, String)| (p.0@, p.1@))
}

/// Appends to `values` every string member of `element` (at any depth) whose
/// lowercased name contains `region`, in document order.
pub fn collect_region_values(element: &Json, values: &mut Vec<(String, String)>)
    ensures
        pair_views(final(values)@) == pair_views(old(values)@) + region_fields(*element),
    decreases element, 1int,
{
    proof {
        reveal_strlit("region");
    }
    match element {
        Json::Object(map) => {
            let mut i: usize = 0;
            while i < map.len()
                invariant
                    i <= map@.len(),
                    *element == Json::Object(*map),
                    pair_views(values@) == pair_views(old(values)@) + region_fields_members(
                        map@,
                        i as int,
                    ),
                decreases map.len() - i,
            {
                let entry = &map[i];
                proof {
                    assert(*entry == map@[i as int]);
                    assert(decreases_to!(*element => (*element)->Object_0));
                    assert((*element)->Object_0 == *map);
                    assert(decreases_to!(*map => map@));
                    assert(decreases_to!(map@ => map@[i as int]));
                    assert(decreases_to!(map@[i as int] => map@[i as int].1));
                    assert(decreases_to!(*element => entry.1));
                }
                let ghost before = values@;
                if let Json::Str(s) = &entry.1 {
                    let kl = lower(entry.0.as_str());
                    let kc = chars_of(kl.as_str());
                    if chars_contains(&kc, &chars_of("region")) {
                        values.push((entry.0.clone(), s.clone()));
                        proof {
                            assert(pair_views(values@) =~= pair_views(before) + seq![
                                (entry.0@, s@),
                            ]);
                        }
                    }
                }
                let ghost mid = values@;
                collect_region_values(&entry.1, values);
                proof {
                    assert(pair_views(values@) == pair_views(mid) + region_fields(entry.1));
                    assert(pair_views(values@) =~= pair_views(old(values)@)
                        + region_fields_members(map@, i + 1));
                }
                i = i + 1;
            }
        },
        Json::Array(arr) => {
            let mut i: usize = 0;
            while i < arr.len()
                invariant
                    i <= arr@.len(),
                    *element == Json::Array(*arr),
                    pair_views(values@) == pair_views(old(values)@) + region_fields_items(
                        arr@,
                        i as int,
                    ),
                decreases arr.len() - i,
            {
                let ghost mid = values@;
                proof {
                    assert(arr[i as int] == arr@[i as int]);
                    assert(decreases_to!(*element => (*element)->Array_0));
                    assert((*element)->Array_0 == *arr);
                    assert(decreases_to!(*arr => arr@));
                    assert(decreases_to!(arr@ => arr@[i as int]));
                }
                collect_region_values(&arr[i], values);
                proof {
                    assert(pair_views(values@) =~= pair_views(old(values)@) + region_fields_items(
                        arr@,
                        i + 1,
                    ));
                }
                i = i + 1;
            }
        },
        _ => {
            assert(pair_views(values@) =~= pair_views(old(values)@) + region_fields(*element));
        },
    }
}

/// The priority groups of region fields: `AllowedRegions` first, then
/// `LastLoginRegion` or `WebRegion`, then any region field (names without regard to ASCII case).
pub open spec fn in_tier(name: Seq<char>, tier: int) -> bool {
    if tier == 1 {
        eq_ignore_case(name, "AllowedRegions"@)
    } else if tier == 2 {
        eq_ignore_case(name, "LastLoginRegion"@) || eq_ignore_case(name, "WebRegion"@)
    } else {
        true
    }
}

/// The mapped region of the first field from position `i` on that is in `tier` and
/// whose value maps to a region.
pub open spec fn pick_region(vals: Seq<(Seq<char>, Seq<char>)>, tier: int, i: int) -> Option<
    Seq<char>,
>
    decreases vals.len() - i,
{
    if i < 0 || i >= vals.len() {
        None
    } else if in_tier(vals[i].0, tier) && mapped_region(vals[i].1).len() > 0 {
        Some(mapped_region(vals[i].1))
    } else {
        pick_region(vals, tier, i + 1)
    }
}

/// What `infer_region_from_config` gives for a parsed configuration.
pub open spec fn inferred_region(j: Json) -> Seq<char> {
    region_of_fields(region_fields(j))
}

/// The region that the region fields decide: the first `AllowedRegions` field whose
/// value maps to a region, else the first such `LastLoginRegion` or `WebRegion`
/// field, else the first such region field of any name; `""` when there is none.
pub open spec fn region_of_fields(vals: Seq<(Seq<char>, Seq<char>)>) -> Seq<char> {
    match pick_region(vals, 1, 0) {
        Some(r) => r,
        None => match pick_region(vals, 2, 0) {
            Some(r) => r,
            None => match pick_region(vals, 3, 0) {
                Some(r) => r,
                None => Seq::empty(),
            },
        },
    }
}

fn name_in_tier(name: &String, tier: u8) -> (r: bool)
    ensures
        r == in_tier(name@, tier as int),
{
    proof {
        reveal_strlit("AllowedRegions");
        reveal_strlit("LastLoginRegion");
        reveal_strlit("WebRegion");
    }
    let n = chars_of(name.as_str());
    if tier == 1 {
        chars_eq_ignore_case(&n, &chars_of("AllowedRegions"))
    } else if tier == 2 {
        chars_eq_ignore_case(&n, &chars_of("LastLoginRegion")) || chars_eq_ignore_case(
            &n,
            &chars_of("WebRegion"),
        )
    } else {
        true
    }
}

fn pick_tier(values: &Vec<(String, String)>, tier: u8) -> (r: Option<String>)
    ensures
        match pick_region(pair_views(values@), tier as int, 0) {
            Some(x) => r matches Some(y) && y@ == x,
            None => r is None,
        },
        r matches Some(y) ==> is_region_name(y@),
{
    let ghost vals = pair_views(values@);
    let mut i: usize = 0;
    while i < values.len()
        invariant
            vals == pair_views(values@),
            i <= values@.len(),
            pick_region(vals, tier as int, 0) == pick_region(vals, tier as int, i as int),
        decreases values.len() - i,
    {
        let mapped = map_region_code(values[i].1.as_str());
        if name_in_tier(&values[i].0, tier) && mapped.as_str().unicode_len() > 0 {
            return Some(mapped);
        }
        i = i + 1;
    }
    None
}

/// The region that a parsed Battle.net configuration is set to. Region fields are
/// searched at any depth; an `AllowedRegions` field comes first, then a
/// `LastLoginRegion` or `WebRegion` field, then any other region field; the first
/// whose value maps to a region decides. `""` when none does.
pub fn infer_region_from_config(config: &Json) -> (r: String)
    ensures
        r@ == inferred_region(*config),
        is_region_name(r@) || r@.len() == 0,
{
    let mut values: Vec<(String, String)> = Vec::new();
    collect_region_values(config, &mut values);
    assert(pair_views(values@) =~= region_fields(*config));
    match pick_tier(&values, 1) {
        Some(r) => r,
        None => match pick_tier(&values, 2) {
            Some(r) => r,
            None => match pick_tier(&values, 3) {
                Some(r) => r,
                None => {
                    proof {
                        reveal_strlit("");
                    }
                    String::from_str("")
                },
            },
        },
    }
}

/// The region that a configuration text is set to, as `infer_region_from_config`
/// finds it in the parsed configuration; `""` when the text is not JSON.
pub fn infer_region_from_text(text: &str) -> (r: String)
    ensures
        r@ == match json_parsed(text@) {
            Some(v) => region_of_fields(fields_v(v)),
            None => Seq::empty(),
        },
        is_region_name(r@) || r@.len() == 0,
{
    match parse_json(text) {
        Some(j) => {
            proof {
                lemma_region_fields_view(j);
            }
            infer_region_from_config(&j)
        },
        None => {
            proof {
                reveal_strlit("");
                assert(""@ =~= Seq::<char>::empty());
            }
            String::from_str("")
        },
    }
}

} // verus!
