//! The records the library keeps: saved accounts, groups, operation results,
//! registry value backups and migration bookkeeping. Times are nanoseconds
//! since the Unix epoch.
use vstd::prelude::*;

use crate::text::{string_of, chars_of};

verus! {

/// A saved Battle.net account.
#[derive(Clone, Debug)]
pub struct AccountInfo {
    pub id: String,
    pub remark: String,
    pub username: String,
    pub last_used: i128,
    pub group_id: String,
    pub tags: Vec<String>,
    pub region: String,
}

pub struct AccountView {
    pub id: Seq<char>,
    pub remark: Seq<char>,
    pub username: Seq<char>,
    pub last_used: i128,
    pub group_id: Seq<char>,
    pub tags: Seq<Seq<char>>,
    pub region: Seq<char>,
}

/// The characters of each string.
pub open spec fn strs(v: Seq<String>) -> Seq<Seq<char>> {
    v.map_values(|s: String| s@)
}

impl View for AccountInfo {
    type V = AccountView;

    open spec fn view(&self) -> AccountView {
        AccountView {
            id: self.id@,
            remark: self.remark@,
            username: self.username@,
            last_used: self.last_used,
            group_id: self.group_id@,
            tags: strs(self.tags@),
            region: self.region@,
        }
    }
}

/// The views of a list of accounts.
pub open spec fn account_views(v: Seq<AccountInfo>) -> Seq<AccountView> {
    v.map_values(|a: AccountInfo| a@)
}

/// A group of accounts.
#[derive(Clone, Debug)]
pub struct GroupInfo {
    pub id: String,
    pub name: String,
    pub created_at: i128,
}

pub struct GroupView {
    pub id: Seq<char>,
    pub name: Seq<char>,
    pub created_at: i128,
}

impl View for GroupInfo {
    type V = GroupView;

    open spec fn view(&self) -> GroupView {
        GroupView { id: self.id@, name: self.name@, created_at: self.created_at }
    }
}

/// The views of a list of groups.
pub open spec fn group_views(v: Seq<GroupInfo>) -> Seq<GroupView> {
    v.map_values(|g: GroupInfo| g@)
}

/// The outcome of saving the current Battle.net sign-in as an account.
#[derive(Clone, Debug)]
pub struct SaveAccountResult {
    pub success: bool,
    pub session_state_saved: bool,
    pub error: String,
}

/// The outcome of switching to a saved account.
#[derive(Clone, Debug)]
pub struct SwitchAccountResult {
    pub success: bool,
    pub requires_manual_launch: bool,
    pub error: String,
}

/// A registry value as it is kept in a snapshot file.
#[derive(Clone, Debug)]
pub struct RegistryValueBackup {
    pub key_path: String,
    pub value_name: String,
    pub value_kind: String,
    pub data: String,
}

/// When a session-state snapshot was taken.
#[derive(Clone, Debug)]
pub struct SessionStateMetadata {
    pub captured_at_utc: i128,
}

/// A data directory of an earlier version that was imported.
#[derive(Clone, Debug)]
pub struct LegacyMigrationDataDirectory {
    pub path: String,
    pub prefer_legacy_data: bool,
    pub imported_at_utc: i128,
}

pub struct MigratedDirView {
    pub path: Seq<char>,
    pub prefer_legacy_data: bool,
    pub imported_at_utc: i128,
}

impl View for LegacyMigrationDataDirectory {
    type V = MigratedDirView;

    open spec fn view(&self) -> MigratedDirView {
        MigratedDirView {
            path: self.path@,
            prefer_legacy_data: self.prefer_legacy_data,
            imported_at_utc: self.imported_at_utc,
        }
    }
}

/// The views of a list of imported data directories.
pub open spec fn dir_views(v: Seq<LegacyMigrationDataDirectory>) -> Seq<MigratedDirView> {
    v.map_values(|d: LegacyMigrationDataDirectory| d@)
}

/// The data directories of earlier versions that were imported.
#[derive(Clone, Debug)]
pub struct LegacyMigrationState {
    pub data_directories: Vec<LegacyMigrationDataDirectory>,
}

// ─── Copies with what they hold stated ────────────────────────────────

/// A copy of a list of strings.
pub fn copy_strings(v: &Vec<String>) -> (r: Vec<String>)
    ensures
        r@ == v@,
{
    let mut r: Vec<String> = Vec::new();
    let mut i: usize = 0;
    while i < v.len()
        invariant
            i <= v@.len(),
            r@ == v@.subrange(0, i as int),
        decreases v.len() - i,
    {
        r.push(v[i].clone());
        i = i + 1;
    }
    r
}

impl AccountInfo {
    /// A copy of the account.
    pub fn copy(&self) -> (r: AccountInfo)
        ensures
            r@ == self@,
    {
        AccountInfo {
            id: self.id.clone(),
            remark: self.remark.clone(),
            username: self.username.clone(),
            last_used: self.last_used,
            group_id: self.group_id.clone(),
            tags: copy_strings(&self.tags),
            region: self.region.clone(),
        }
    }
}

impl GroupInfo {
    /// A copy of the group.
    pub fn copy(&self) -> (r: GroupInfo)
        ensures
            r == *self,
    {
        GroupInfo { id: self.id.clone(), name: self.name.clone(), created_at: self.created_at }
    }
}

/// A copy of a list of accounts.
pub fn copy_accounts(v: &Vec<AccountInfo>) -> (r: Vec<AccountInfo>)
    ensures
        account_views(r@) == account_views(v@),
{
    let mut r: Vec<AccountInfo> = Vec::new();
    let mut i: usize = 0;
    while i < v.len()
        invariant
            i <= v@.len(),
            r@.len() == i,
            forall|k: int| 0 <= k < i ==> (#[trigger] r@[k])@ == v@[k]@,
        decreases v.len() - i,
    {
        r.push(v[i].copy());
        i = i + 1;
    }
    assert(account_views(r@) =~= account_views(v@));
    r
}

/// A copy of a list of groups.
pub fn copy_groups(v: &Vec<GroupInfo>) -> (r: Vec<GroupInfo>)
    ensures
        r@ == v@,
{
    let mut r: Vec<GroupInfo> = Vec::new();
    let mut i: usize = 0;
    while i < v.len()
        invariant
            i <= v@.len(),
            r@ == v@.subrange(0, i as int),
        decreases v.len() - i,
    {
        r.push(v[i].copy());
        i = i + 1;
    }
    r
}

// ─── Time and identifiers ─────────────────────────────────────────────

/// The current local time (chrono's `Local::now`), as whole seconds since the Unix
/// epoch (`timestamp`) and the nanoseconds past that second
/// (`timestamp_subsec_nanos`). Trusted: the nanoseconds are below 2,000,000,000, as
/// chrono keeps them (more than 999,999,999 only in a leap second); the values
/// themselves come from the system clock and are not stated. chrono panics, with no
/// input involved, when the system clock reads before 1970.
#[verifier::external_body]
fn local_now() -> (r: (i64, u32))
    ensures
        r.1 < 2_000_000_000,
{
    let t = chrono::Local::now();
    (t.timestamp(), t.timestamp_subsec_nanos())
}

/// The nanoseconds since the Unix epoch of a time given as whole seconds and the
/// nanoseconds past that second.
pub open spec fn clock_nanos(secs: i64, subsec_nanos: u32) -> int {
    secs * 1_000_000_000 + subsec_nanos
}

/// The nanoseconds since the Unix epoch of a time given as whole seconds and the
/// nanoseconds past that second.
pub fn nanos_of(secs: i64, subsec_nanos: u32) -> (r: i128)
    ensures
        r == clock_nanos(secs, subsec_nanos),
{
    (secs as i128) * 1_000_000_000 + (subsec_nanos as i128)
}

/// The current time, in nanoseconds since the Unix epoch: some clock reading of
/// whole seconds and nanoseconds past them (below two seconds' worth, leap seconds
/// included), combined.
pub fn now_nanos() -> (r: i128)
    ensures
        exists|secs: i64, subsec: u32|
            subsec < 2_000_000_000 && r == #[trigger] clock_nanos(secs, subsec),
{
    let (secs, nanos) = local_now();
    nanos_of(secs, nanos)
}

pub open spec fn is_lower_hex(c: char) -> bool {
    (48 <= (c as u32) <= 57) || (97 <= (c as u32) <= 102)
}

pub open spec fn is_hyphen_position(i: int) -> bool {
    i == 8 || i == 13 || i == 18 || i == 23
}

/// The hyphenated text form of a UUID: 36 characters, `-` at positions 8, 13, 18
/// and 23, lowercase hexadecimal digits elsewhere.
pub open spec fn uuid_shaped(t: Seq<char>) -> bool {
    &&& t.len() == 36
    &&& forall|i: int| 0 <= i < 36 && is_hyphen_position(i) ==> #[trigger] t[i] == '-'
    &&& forall|i: int| 0 <= i < 36 && !is_hyphen_position(i) ==> is_lower_hex(#[trigger] t[i])
}

/// A fresh random version-4 UUID in its hyphenated text form (uuid's
/// `Uuid::new_v4` then `to_string`). Trusted: the text has the shape that the
/// crate's `Display` writes; the digits themselves are random and not stated. uuid
/// panics, with no input involved, when the operating system's random source fails.
#[verifier::external_body]
fn uuid_v4_text() -> (r: String)
    ensures
        uuid_shaped(r@),
{
    uuid::Uuid::new_v4().to_string()
}

/// The text without its `-` characters (`str::replace('-', "")`).
pub open spec fn without_hyphens(s: Seq<char>) -> Seq<char>
    decreases s.len(),
{
    if s.len() == 0 {
        Seq::empty()
    } else if s.last() == '-' {
        without_hyphens(s.drop_last())
    } else {
        without_hyphens(s.drop_last()).push(s.last())
    }
}

/// The identifier made from a UUID's text: the text without its hyphens.
pub fn id_of_uuid(uuid_text: &str) -> (r: String)
    ensures
        r@ == without_hyphens(uuid_text@),
{
    let c = chars_of(uuid_text);
    let mut out: Vec<char> = Vec::new();
    let mut i: usize = 0;
    while i < c.len()
        invariant
            i <= c@.len(),
            out@ == without_hyphens(c@.subrange(0, i as int)),
        decreases c.len() - i,
    {
        proof {
            assert(c@.subrange(0, i + 1).drop_last() =~= c@.subrange(0, i as int));
            assert(c@.subrange(0, i + 1).last() == c@[i as int]);
        }
        if c[i] != '-' {
            out.push(c[i]);
        }
        i = i + 1;
    }
    assert(c@.subrange(0, c@.len() as int) =~= c@);
    string_of(&out)
}

/// How many hyphen positions come before position `n` of a UUID's text.
pub open spec fn hyphens_before(n: int) -> int {
    if n > 23 {
        4
    } else if n > 18 {
        3
    } else if n > 13 {
        2
    } else if n > 8 {
        1
    } else {
        0
    }
}

proof fn lemma_uuid_prefix(t: Seq<char>, n: int)
    requires
        uuid_shaped(t),
        0 <= n <= 36,
    ensures
        without_hyphens(t.subrange(0, n)).len() == n - hyphens_before(n),
        forall|k: int|
            0 <= k < without_hyphens(t.subrange(0, n)).len() ==> is_lower_hex(
                #[trigger] without_hyphens(t.subrange(0, n))[k],
            ),
    decreases n,
{
    if n > 0 {
        lemma_uuid_prefix(t, n - 1);
        let p = t.subrange(0, n);
        assert(p.drop_last() =~= t.subrange(0, n - 1));
        assert(p.last() == t[n - 1]);
        if !is_hyphen_position(n - 1) {
            assert(is_lower_hex(t[n - 1]));
            assert(t[n - 1] != '-');
        }
    }
}

/// An identifier for a new account or group: a random UUID without its hyphens,
/// i.e. 32 lowercase hexadecimal digits.
pub fn new_id() -> (r: String)
    ensures
        r@.len() == 32,
        forall|i: int| 0 <= i < 32 ==> is_lower_hex(#[trigger] r@[i]),
        exists|t: Seq<char>| uuid_shaped(t) && r@ == #[trigger] without_hyphens(t),
{
    let t = uuid_v4_text();
    proof {
        lemma_uuid_prefix(t@, 36);
        assert(t@.subrange(0, 36) =~= t@);
    }
    id_of_uuid(t.as_str())
}

/// The hyphenated UUID text whose 32 digits, in order, are `s`.
pub open spec fn with_hyphens(s: Seq<char>) -> Seq<char> {
    Seq::new(36, |i: int| if is_hyphen_position(i) { '-' } else { s[i - hyphens_before(i)] })
}

proof fn lemma_with_hyphens_prefix(s: Seq<char>, n: int)
    requires
        s.len() == 32,
        forall|i: int| 0 <= i < 32 ==> is_lower_hex(#[trigger] s[i]),
        0 <= n <= 36,
    ensures
        without_hyphens(with_hyphens(s).subrange(0, n)) == s.subrange(0, n - hyphens_before(n)),
    decreases n,
{
    let t = with_hyphens(s);
    if n == 0 {
        assert(t.subrange(0, 0) =~= Seq::<char>::empty());
        assert(s.subrange(0, 0) =~= Seq::<char>::empty());
    } else {
        lemma_with_hyphens_prefix(s, n - 1);
        let p = t.subrange(0, n);
        assert(p.drop_last() =~= t.subrange(0, n - 1));
        assert(p.last() == t[n - 1]);
        if is_hyphen_position(n - 1) {
            assert(s.subrange(0, n - hyphens_before(n)) =~= s.subrange(
                0,
                n - 1 - hyphens_before(n - 1),
            ));
        } else {
            let m = n - 1 - hyphens_before(n - 1);
            assert(t[n - 1] == s[m]);
            assert(is_lower_hex(s[m]));
            assert(s.subrange(0, n - hyphens_before(n)) =~= s.subrange(0, m).push(s[m]));
        }
    }
}

/// Every 32 lowercase hexadecimal digits are the identifier of the UUID text that
/// holds them with its hyphens.
pub proof fn lemma_with_hyphens(s: Seq<char>)
    requires
        s.len() == 32,
        forall|i: int| 0 <= i < 32 ==> is_lower_hex(#[trigger] s[i]),
    ensures
        uuid_shaped(with_hyphens(s)),
        without_hyphens(with_hyphens(s)) == s,
{
    let t = with_hyphens(s);
    assert forall|i: int| 0 <= i < 36 && !is_hyphen_position(i) implies is_lower_hex(
        #[trigger] t[i],
    ) by {
        assert(t[i] == s[i - hyphens_before(i)]);
    }
    lemma_with_hyphens_prefix(s, 36);
    assert(t.subrange(0, 36) =~= t);
    assert(s.subrange(0, 32) =~= s);
}

/// The identifier numbered `k`: its decimal numeral padded with `0` on the left to
/// 32 digits.
pub open spec fn counter_id(k: nat) -> Seq<char> {
    Seq::new((32 - crate::text::decimal(k).len()) as nat, |i: int| '0') + crate::text::decimal(k)
}

proof fn lemma_digits_value_zeros(m: nat, s: Seq<char>)
    ensures
        crate::text::digits_value(Seq::new(m, |i: int| '0') + s) == crate::text::digits_value(s),
    decreases s.len(), m,
{
    let z = Seq::new(m, |i: int| '0');
    if s.len() == 0 {
        assert(z + s =~= z);
        if m > 0 {
            lemma_digits_value_zeros((m - 1) as nat, s);
            assert(z.drop_last() =~= Seq::new((m - 1) as nat, |i: int| '0') + s);
        }
    } else {
        lemma_digits_value_zeros(m, s.drop_last());
        assert((z + s).drop_last() =~= z + s.drop_last());
        assert((z + s).last() == s.last());
    }
}

pub open spec fn pow10(n: nat) -> nat
    decreases n,
{
    if n == 0 {
        1
    } else {
        10 * pow10((n - 1) as nat)
    }
}

proof fn lemma_decimal_len(k: nat, m: nat)
    requires
        1 <= m,
        k < pow10(m),
    ensures
        crate::text::decimal(k).len() <= m,
    decreases m,
{
    if k >= 10 {
        assert(m >= 2) by {
            if m == 1 {
                assert(pow10(1) == 10 * pow10(0));
            }
        }
        let p = pow10((m - 1) as nat);
        assert(k / 10 < p) by (nonlinear_arith)
            requires
                k < 10 * p,
        ;
        lemma_decimal_len(k / 10, (m - 1) as nat);
    }
}

/// The identifier numbered `k` is 32 decimal digits (so lowercase hexadecimal) and
/// has the value `k`: identifiers of different numbers differ.
pub proof fn lemma_counter_id(k: nat)
    requires
        k <= u64::MAX,
    ensures
        counter_id(k).len() == 32,
        forall|i: int| 0 <= i < 32 ==> is_lower_hex(#[trigger] counter_id(k)[i]),
        crate::text::all_digits(counter_id(k)),
        crate::text::digits_value(counter_id(k)) == k,
{
    let d = crate::text::decimal(k);
    crate::text::lemma_decimal_digits(k);
    assert(pow10(20) == 100_000_000_000_000_000_000nat) by {
        reveal_with_fuel(pow10, 21);
    }
    lemma_decimal_len(k, 20);
    let z = Seq::new((32 - d.len()) as nat, |i: int| '0');
    lemma_digits_value_zeros((32 - d.len()) as nat, d);
    let c = counter_id(k);
    assert forall|i: int| 0 <= i < c.len() implies crate::text::is_digit(#[trigger] c[i]) by {
        if i >= z.len() {
            assert(c[i] == d[i - z.len()]);
        }
    }
    assert forall|i: int| 0 <= i < 32 implies is_lower_hex(#[trigger] counter_id(k)[i]) by {
        assert(crate::text::is_digit(c[i]));
    }
}

/// Among the identifiers numbered `0` to `k`, one is not in `ids` when `ids` has
/// at most `k` entries.
pub proof fn lemma_counter_ids_not_all_in(ids: Seq<Seq<char>>, k: nat)
    requires
        k <= u64::MAX,
        forall|j: nat| j <= k ==> ids.contains(#[trigger] counter_id(j)),
    ensures
        k < ids.len(),
{
    let x = vstd::set_lib::set_int_range(0, k + 1 as int);
    let f = |s: Seq<char>| crate::text::digits_value(s) as int;
    let ys = ids.to_set();
    let y = ys.map(f);
    vstd::set_lib::lemma_int_range(0, k + 1 as int);
    ids.lemma_cardinality_of_set();
    vstd::set_lib::lemma_map_size_bound(ys, y, f);
    assert forall|i: int| x.contains(i) implies y.contains(i) by {
        let j = i as nat;
        assert(ids.contains(counter_id(j)));
        lemma_counter_id(j);
        assert(ys.contains(counter_id(j)));
        assert(f(counter_id(j)) == i);
    }
    vstd::set_lib::lemma_len_subset(x, y);
}

/// The identifier numbered `k`.
pub fn counter_id_text(k: u64) -> (r: String)
    ensures
        r@ == counter_id(k as nat),
{
    let d = crate::text::decimal_u64(k);
    proof {
        lemma_counter_id(k as nat);
    }
    let mut out: Vec<char> = Vec::new();
    let pad: usize = 32 - d.len();
    while out.len() < pad
        invariant
            pad == 32 - d@.len(),
            d@.len() <= 32,
            out@.len() <= pad,
            forall|i: int| 0 <= i < out@.len() ==> #[trigger] out@[i] == '0',
        decreases pad - out@.len(),
    {
        out.push('0');
    }
    let mut i: usize = 0;
    while i < d.len()
        invariant
            i <= d@.len(),
            out@ == Seq::new(pad as nat, |q: int| '0') + d@.subrange(0, i as int),
        decreases d.len() - i,
    {
        out.push(d[i]);
        proof {
            assert(d@.subrange(0, i + 1) =~= d@.subrange(0, i as int).push(d@[i as int]));
        }
        i = i + 1;
    }
    proof {
        assert(d@.subrange(0, d@.len() as int) =~= d@);
    }
    string_of(&out)
}

/// The region of an account stored without one.
pub fn default_region() -> (r: String)
    ensures
        r@ == crate::region::cn(),
{
    proof {
        reveal_strlit("cn");
        assert("cn"@ =~= crate::region::cn());
    }
    String::from_str("cn")
}

impl AccountInfo {
    /// A new account with a fresh identifier, last used now.
    pub fn new(
        remark: String,
        username: String,
        group_id: String,
        tags: Vec<String>,
        region: String,
    ) -> (r: Self)
        ensures
            r.remark == remark,
            r.username == username,
            r.group_id == group_id,
            r.tags == tags,
            r.region == region,
            r.id@.len() == 32,
            forall|i: int| 0 <= i < 32 ==> is_lower_hex(#[trigger] r.id@[i]),
            exists|t: Seq<char>| uuid_shaped(t) && r.id@ == #[trigger] without_hyphens(t),
            exists|secs: i64, subsec: u32|
                subsec < 2_000_000_000 && r.last_used == #[trigger] clock_nanos(secs, subsec),
    {
        let id = new_id();
        let last_used = now_nanos();
        AccountInfo { id, remark, username, last_used, group_id, tags, region }
    }
}

} // verus!
