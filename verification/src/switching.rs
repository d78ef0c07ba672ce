//! The decisions of switching accounts, saving the current sign-in and refreshing
//! a session: which account is active, whether its session is refreshed before
//! leaving, whether the client state is reset, how the configuration is restored,
//! and what the caller is told.
use vstd::prelude::*;

use crate::json::{find_member, get_str, jget, json_parsed, jstr, jv, lemma_jvm, parse_json, Json, JsonV};
use crate::models::{account_views, AccountInfo, AccountView, SaveAccountResult, SwitchAccountResult};
use crate::region::{
    cross_region, is_cross_region_switch, is_tagged_region, normalize_region, normalized_region,
    tagged,
};
use crate::store::{account_index, find_account, read_accounts_v, BattleNetCore};
use crate::text::{chars_eq_ignore_case, chars_of, eq_ignore_case, str_eq};

verus! {

/// `Client.SavedAccountNames` of a configuration, when it is a string.
pub open spec fn saved_account_names_v(config: Json) -> Option<Seq<char>> {
    saved_names_of_v(jv(config))
}

/// `Client.SavedAccountNames` of a configuration (by its view), when it is a string.
pub open spec fn saved_names_of_v(v: JsonV) -> Option<Seq<char>> {
    match jget(v, "Client"@) {
        Some(c) => jstr(jget(c, "SavedAccountNames"@)),
        None => None,
    }
}

/// The account names a configuration remembers (`Client.SavedAccountNames`).
pub fn read_saved_account_names(config: &Json) -> (r: Option<String>)
    ensures
        match saved_account_names_v(*config) {
            Some(s) => r matches Some(x) && x@ == s,
            None => r is None,
        },
{
    match config {
        Json::Object(es) => match find_member(es, "Client") {
            Some(i) => {
                proof {
                    lemma_jvm(es@);
                    crate::json::lemma_key_index(crate::json::jvm(es@), "Client"@);
                }
                get_str(&es[i].1, "SavedAccountNames")
            },
            None => None,
        },
        _ => None,
    }
}

/// The account names that a configuration text remembers; `None` when the text is
/// not JSON or has no such string.
pub fn saved_account_names_of_text(text: &str) -> (r: Option<String>)
    ensures
        match json_parsed(text@) {
            Some(v) => match saved_names_of_v(v) {
                Some(s) => r matches Some(x) && x@ == s,
                None => r is None,
            },
            None => r is None,
        },
{
    match parse_json(text) {
        Some(j) => read_saved_account_names(&j),
        None => None,
    }
}

// ─── The active account and region ────────────────────────────────────

/// Account `i` was used last: no later one was used after it, and no earlier one
/// was used later (ties go to the later account, as `max_by_key` picks).
pub open spec fn is_last_used(accs: Seq<AccountView>, i: int) -> bool {
    &&& 0 <= i < accs.len()
    &&& forall|k: int| 0 <= k < i ==> (#[trigger] accs[k]).last_used <= accs[i].last_used
    &&& forall|k: int| i < k < accs.len() ==> (#[trigger] accs[k]).last_used < accs[i].last_used
}

/// The position of the account used last.
pub fn last_used_index(accounts: &Vec<AccountInfo>) -> (r: Option<usize>)
    ensures
        r is None <==> accounts@.len() == 0,
        r matches Some(i) ==> is_last_used(account_views(accounts@), i as int),
{
    if accounts.len() == 0 {
        return None;
    }
    let ghost av = account_views(accounts@);
    let mut best: usize = 0;
    let mut i: usize = 1;
    while i < accounts.len()
        invariant
            av == account_views(accounts@),
            1 <= i <= accounts@.len(),
            best < i,
            forall|k: int| 0 <= k < best ==> (#[trigger] av[k]).last_used <= av[best as int].last_used,
            forall|k: int| best < k < i ==> (#[trigger] av[k]).last_used < av[best as int].last_used,
        decreases accounts.len() - i,
    {
        if accounts[i].last_used >= accounts[best].last_used {
            best = i;
        }
        i = i + 1;
    }
    Some(best)
}

/// What `get_active_bnet_region` gives: the region of the live configuration when it
/// names one, else the normalised region of the account used last, else none.
pub open spec fn active_region_v(config_region: Seq<char>, last: Option<AccountView>) -> Seq<
    char,
> {
    if tagged(config_region) {
        config_region
    } else {
        match last {
            Some(a) => normalized_region(a.region),
            None => Seq::empty(),
        }
    }
}

/// The region Battle.net is set to: `config_region` (the region inferred from the
/// live configuration) when it names one, else that of `last_active`.
pub fn get_active_bnet_region(config_region: &str, last_active: Option<&AccountInfo>) -> (r:
    String)
    ensures
        r@ == active_region_v(
            config_region@,
            match last_active {
                Some(a) => Some(a@),
                None => None,
            },
        ),
{
    if is_tagged_region(config_region) {
        return String::from_str(config_region);
    }
    match last_active {
        Some(a) => normalize_region(a.region.as_str()),
        None => {
            proof {
                reveal_strlit("");
                assert(""@ =~= Seq::<char>::empty());
            }
            String::from_str("")
        },
    }
}

/// What `should_refresh_leaving_account` gives.
pub open spec fn refresh_leaving_v(
    active: Option<AccountView>,
    target: AccountView,
    active_region: Seq<char>,
    config_exists: bool,
    config_region: Seq<char>,
) -> bool {
    match active {
        None => false,
        Some(a) => {
            &&& !eq_ignore_case(a.id, target.id)
            &&& config_exists
            &&& tagged(a.region)
            &&& tagged(config_region)
            &&& normalized_region(active_region) == config_region
            &&& normalized_region(a.region) == config_region
        },
    }
}

/// Whether the session of the account being left is saved before switching: there
/// is such an account, it is not the target (identifiers without regard to ASCII
/// case), the live configuration exists, and its region (`config_region`), the
/// active region and the account's region are one and the same region.
pub fn should_refresh_leaving_account(
    active_account: Option<&AccountInfo>,
    target_account: &AccountInfo,
    active_region: &str,
    config_exists: bool,
    config_region: &str,
) -> (r: bool)
    ensures
        r == refresh_leaving_v(
            match active_account {
                Some(a) => Some(a@),
                None => None,
            },
            target_account@,
            active_region@,
            config_exists,
            config_region@,
        ),
{
    let active = match active_account {
        Some(a) => a,
        None => {
            return false;
        },
    };
    if chars_eq_ignore_case(&chars_of(active.id.as_str()), &chars_of(target_account.id.as_str())) {
        return false;
    }
    if !config_exists {
        return false;
    }
    let active_norm = normalize_region(active.region.as_str());
    if !is_tagged_region(active.region.as_str()) {
        return false;
    }
    if !is_tagged_region(config_region) {
        return false;
    }
    let ar = normalize_region(active_region);
    if !str_eq(ar.as_str(), config_region) {
        return false;
    }
    str_eq(active_norm.as_str(), config_region)
}

/// The region the leaving account's session is saved under (the live configuration
/// must then be set to it): its normalised region, when that names a region and is
/// the normalised active region; otherwise nothing is saved.
pub fn leaving_snapshot_region(active_account: &AccountInfo, active_region: &str) -> (r: Option<
    String,
>)
    ensures
        (tagged(active_account@.region) && normalized_region(active_account@.region)
            == normalized_region(active_region@)) ==> (r matches Some(x) && x@ == normalized_region(
            active_account@.region,
        )),
        !(tagged(active_account@.region) && normalized_region(active_account@.region)
            == normalized_region(active_region@)) ==> r is None,
{
    let active_norm = normalize_region(active_account.region.as_str());
    let other = normalize_region(active_region);
    if !is_tagged_region(active_account.region.as_str()) || !(active_norm == other) {
        return None;
    }
    Some(active_norm)
}

// ─── Switching ────────────────────────────────────────────────────────

/// How the live configuration is restored when switching.
#[derive(Clone, Copy, Debug, PartialEq, Eq, Structural)]
pub enum RestoreMode {
    /// The saved session state is restored, then the saved configuration copied.
    SessionState,
    /// A configuration for signing in afresh in the target region is written.
    CleanLogin,
    /// The saved configuration is copied.
    PlainCopy,
}

/// The decisions of a switch to a saved account.
pub struct SwitchPlan {
    /// The target account's normalised region.
    pub target_region: String,
    /// The account used last, when the target has a region.
    pub active_account: Option<AccountInfo>,
    /// The region Battle.net is set to, when the target has a region.
    pub active_region: String,
    /// The target has a usable saved session state.
    pub has_state: bool,
    /// Moving to another region with no saved session state: a clean sign-in.
    pub requires_clean_login: bool,
    /// The client state is reset (caches and sign-in registry values cleared).
    pub full_reset: bool,
    /// The leaving account's session is saved first.
    pub refresh_leaving: bool,
}

pub struct SwitchPlanView {
    pub target_region: Seq<char>,
    pub active_account: Option<AccountView>,
    pub active_region: Seq<char>,
    pub has_state: bool,
    pub requires_clean_login: bool,
    pub full_reset: bool,
    pub refresh_leaving: bool,
}

impl View for SwitchPlan {
    type V = SwitchPlanView;

    open spec fn view(&self) -> SwitchPlanView {
        SwitchPlanView {
            target_region: self.target_region@,
            active_account: match self.active_account {
                Some(a) => Some(a@),
                None => None,
            },
            active_region: self.active_region@,
            has_state: self.has_state,
            requires_clean_login: self.requires_clean_login,
            full_reset: self.full_reset,
            refresh_leaving: self.refresh_leaving,
        }
    }
}

/// The account used last among `accs`, if any.
pub open spec fn last_used_v(accs: Seq<AccountView>) -> Option<AccountView> {
    if accs.len() == 0 {
        None
    } else {
        Some(accs[choose|i: int| is_last_used(accs, i)])
    }
}

/// The plan for switching to `target` among `accs`.
pub open spec fn switch_plan_v(
    accs: Seq<AccountView>,
    target: AccountView,
    config_exists: bool,
    config_region: Seq<char>,
    target_has_state: bool,
) -> SwitchPlanView {
    let target_region = normalized_region(target.region);
    if !tagged(target_region) {
        SwitchPlanView {
            target_region,
            active_account: None,
            active_region: Seq::empty(),
            has_state: false,
            requires_clean_login: false,
            full_reset: false,
            refresh_leaving: false,
        }
    } else {
        let active = last_used_v(accs);
        let active_region = active_region_v(config_region, active);
        let cross = cross_region(active_region, target_region);
        let requires_clean_login = cross && !target_has_state;
        SwitchPlanView {
            target_region,
            active_account: active,
            active_region,
            has_state: target_has_state,
            requires_clean_login,
            full_reset: target_has_state || requires_clean_login,
            refresh_leaving: refresh_leaving_v(
                active,
                target,
                active_region,
                config_exists,
                config_region,
            ),
        }
    }
}

pub open spec fn switch_failure_v(r: SwitchAccountResult, error: Seq<char>) -> bool {
    !r.success && !r.requires_manual_launch && r.error@ == error
}

/// A failed switch with `error`.
pub fn switch_failure(error: &str) -> (r: SwitchAccountResult)
    ensures
        switch_failure_v(r, error@),
{
    SwitchAccountResult { success: false, requires_manual_launch: false, error: String::from_str(error) }
}

impl BattleNetCore {
    /// The decisions of switching to account `id`. `saved_config_exists`: the account's
    /// saved configuration exists; `config_exists` and `config_region`: the live
    /// configuration exists and the region inferred from it; `target_has_state`: the
    /// account has a usable saved session state. Fails with `missing_config` when
    /// there is no saved configuration, and with `missing_account` when no stored
    /// account has that identifier.
    pub fn plan_switch(
        &self,
        id: &str,
        saved_config_exists: bool,
        config_exists: bool,
        config_region: &str,
        target_has_state: bool,
    ) -> (r: Result<SwitchPlan, SwitchAccountResult>)
        ensures
            !saved_config_exists ==> (r matches Err(e) && switch_failure_v(e, "missing_config"@)),
            saved_config_exists && account_index(read_accounts_v(self@), id@) is None ==> (r matches Err(
                e,
            ) && switch_failure_v(e, "missing_account"@)),
            saved_config_exists ==> match account_index(read_accounts_v(self@), id@) {
                Some(i) => r matches Ok(p) && p@ == switch_plan_v(
                    read_accounts_v(self@),
                    read_accounts_v(self@)[i],
                    config_exists,
                    config_region@,
                    target_has_state,
                ),
                None => true,
            },
    {
        if !saved_config_exists {
            return Err(switch_failure("missing_config"));
        }
        let now = crate::models::now_nanos();
        let groups = self.read_groups(now);
        proof {
            crate::groups::lemma_normalized_against_stored(self@.accounts, self@.groups, now);
        }
        let accounts = self.get_accounts_with_groups(&groups);
        let ghost accs = account_views(accounts@);
        let i = match find_account(&accounts, id) {
            Some(i) => i,
            None => {
                return Err(switch_failure("missing_account"));
            },
        };
        let target = accounts[i].copy();
        let target_region = normalize_region(target.region.as_str());
        proof {
            crate::region::lemma_normalize_region_idempotent(target@.region);
        }
        if !is_tagged_region(target_region.as_str()) {
            proof {
                reveal_strlit("");
                assert(""@ =~= Seq::<char>::empty());
            }
            return Ok(
                SwitchPlan {
                    target_region,
                    active_account: None,
                    active_region: String::from_str(""),
                    has_state: false,
                    requires_clean_login: false,
                    full_reset: false,
                    refresh_leaving: false,
                },
            );
        }
        let active_account = match last_used_index(&accounts) {
            Some(k) => {
                proof {
                    assert(is_last_used(accs, k as int));
                    lemma_last_used_unique(accs, k as int);
                }
                Some(accounts[k].copy())
            },
            None => None,
        };
        let active_region = get_active_bnet_region(
            config_region,
            match &active_account {
                Some(a) => Some(a),
                None => None,
            },
        );
        let is_cross = is_cross_region_switch(active_region.as_str(), target_region.as_str());
        let requires_clean_login = is_cross && !target_has_state;
        let full_reset = target_has_state || requires_clean_login;
        let refresh_leaving = should_refresh_leaving_account(
            match &active_account {
                Some(a) => Some(a),
                None => None,
            },
            &target,
            active_region.as_str(),
            config_exists,
            config_region,
        );
        Ok(
            SwitchPlan {
                target_region,
                active_account,
                active_region,
                has_state: target_has_state,
                requires_clean_login,
                full_reset,
                refresh_leaving,
            },
        )
    }
}

/// Only one account is the one used last.
pub proof fn lemma_last_used_unique(accs: Seq<AccountView>, i: int)
    requires
        is_last_used(accs, i),
    ensures
        last_used_v(accs) == Some(accs[i]),
{
    let j = choose|j: int| is_last_used(accs, j);
    if j < i {
        assert(accs[j].last_used <= accs[i].last_used);
        assert(accs[i].last_used < accs[j].last_used);
    } else if j > i {
        assert(accs[i].last_used <= accs[j].last_used);
        assert(accs[j].last_used < accs[i].last_used);
    }
}

/// A switch to an account of the region Battle.net is set to needs no clean sign-in,
/// and resets the client state only to restore a saved session state.
pub proof fn lemma_same_region_switch(
    accs: Seq<AccountView>,
    target: AccountView,
    config_exists: bool,
    config_region: Seq<char>,
    target_has_state: bool,
)
    ensures
        ({
            let p = switch_plan_v(accs, target, config_exists, config_region, target_has_state);
            p.active_region == p.target_region ==> !p.requires_clean_login && p.full_reset
                == p.has_state
        }),
{
    crate::region::lemma_same_region_not_cross(normalized_region(target.region));
}

/// The client must first be closed gracefully: the state is reset or the leaving
/// session is saved. Otherwise the client processes are just ended.
pub fn needs_graceful_close(plan: &SwitchPlan) -> (r: bool)
    ensures
        r == (plan.full_reset || plan.refresh_leaving),
{
    plan.full_reset || plan.refresh_leaving
}

/// After the graceful close: a switch that resets the client state fails with
/// `client_exit_timeout` when the client did not exit.
pub fn capture_failure(plan: &SwitchPlan, capture_ok: bool) -> (r: Option<SwitchAccountResult>)
    ensures
        (plan.full_reset && !capture_ok) ==> (r matches Some(e) && switch_failure_v(
            e,
            "client_exit_timeout"@,
        )),
        !(plan.full_reset && !capture_ok) ==> r is None,
{
    if plan.full_reset && !capture_ok {
        Some(switch_failure("client_exit_timeout"))
    } else {
        None
    }
}

/// How the live configuration is restored: from the saved session state when there
/// is one, by a clean sign-in when one is required, else by copying.
pub fn restore_mode(plan: &SwitchPlan) -> (r: RestoreMode)
    ensures
        plan.has_state ==> r is SessionState,
        !plan.has_state && plan.requires_clean_login ==> r is CleanLogin,
        !plan.has_state && !plan.requires_clean_login ==> r is PlainCopy,
{
    if plan.has_state {
        RestoreMode::SessionState
    } else if plan.requires_clean_login {
        RestoreMode::CleanLogin
    } else {
        RestoreMode::PlainCopy
    }
}

/// The outcome of a switch that went through: success, with `missing_session_state`
/// when a clean sign-in was required.
pub fn switch_finished(plan: &SwitchPlan) -> (r: SwitchAccountResult)
    ensures
        r.success,
        !r.requires_manual_launch,
        plan.requires_clean_login ==> r.error@ == "missing_session_state"@,
        !plan.requires_clean_login ==> r.error@ == Seq::<char>::empty(),
{
    proof {
        reveal_strlit("");
    }
    SwitchAccountResult {
        success: true,
        requires_manual_launch: false,
        error: if plan.requires_clean_login {
            String::from_str("missing_session_state")
        } else {
            String::from_str("")
        },
    }
}

// ─── Saving the current sign-in ───────────────────────────────────────

/// Battle.net is started again afterwards when it was running before and it was
/// closed or is no longer running.
pub fn should_relaunch(was_running: bool, prepare_succeeded: bool, still_running: bool) -> (r:
    bool)
    ensures
        r == (was_running && (prepare_succeeded || !still_running)),
{
    was_running && (prepare_succeeded || !still_running)
}

/// A failed save with `error`.
pub fn save_failure(error: &str) -> (r: SaveAccountResult)
    ensures
        !r.success,
        !r.session_state_saved,
        r.error@ == error@,
{
    SaveAccountResult { success: false, session_state_saved: false, error: String::from_str(error) }
}

/// The outcome of a save that went through: no error when the session state was
/// saved; otherwise `missing_session_snapshot` when the client was closed and
/// `client_exit_timeout` when it did not exit.
pub fn save_finished(session_state_saved: bool, prepare_succeeded: bool) -> (r: SaveAccountResult)
    ensures
        r.success,
        r.session_state_saved == session_state_saved,
        session_state_saved ==> r.error@ == Seq::<char>::empty(),
        !session_state_saved && prepare_succeeded ==> r.error@ == "missing_session_snapshot"@,
        !session_state_saved && !prepare_succeeded ==> r.error@ == "client_exit_timeout"@,
{
    proof {
        reveal_strlit("");
    }
    SaveAccountResult {
        success: true,
        session_state_saved,
        error: if session_state_saved {
            String::from_str("")
        } else if prepare_succeeded {
            String::from_str("missing_session_snapshot")
        } else {
            String::from_str("client_exit_timeout")
        },
    }
}

/// The account that saving the current sign-in adds: the given remark and
/// BattleTag, the group, the normalised tags and the normalised region of the live
/// configuration, with a fresh identifier, last used now.
pub fn new_saved_account(
    remark: &str,
    battle_tag: &str,
    group_id: String,
    tags: &Vec<String>,
    config_region: &str,
) -> (r: AccountInfo)
    ensures
        r@.remark == remark@,
        r@.username == battle_tag@,
        r@.group_id == group_id@,
        r@.tags == crate::groups::normalized_tags(crate::models::strs(tags@)),
        r@.region == normalized_region(config_region@),
        r@.id.len() == 32,
        forall|i: int| 0 <= i < 32 ==> crate::models::is_lower_hex(#[trigger] r@.id[i]),
        exists|t: Seq<char>|
            crate::models::uuid_shaped(t) && r@.id == #[trigger] crate::models::without_hyphens(t),
        exists|secs: i64, subsec: u32|
            subsec < 2_000_000_000 && r@.last_used == #[trigger] crate::models::clock_nanos(
                secs,
                subsec,
            ),
{
    AccountInfo::new(
        String::from_str(remark),
        String::from_str(battle_tag),
        group_id,
        crate::groups::normalize_tags(tags),
        normalize_region(config_region),
    )
}

impl BattleNetCore {
    /// The stored account `id` as read (normalised), if there is one.
    pub fn find_saved_account(&self, id: &str) -> (r: Option<AccountInfo>)
        ensures
            match account_index(read_accounts_v(self@), id@) {
                Some(i) => r matches Some(a) && a@ == read_accounts_v(self@)[i],
                None => r is None,
            },
    {
        let now = crate::models::now_nanos();
        let groups = self.read_groups(now);
        proof {
            crate::groups::lemma_normalized_against_stored(self@.accounts, self@.groups, now);
        }
        let accounts = self.get_accounts_with_groups(&groups);
        match find_account(&accounts, id) {
            Some(i) => Some(accounts[i].copy()),
            None => None,
        }
    }
}

} // verus!
