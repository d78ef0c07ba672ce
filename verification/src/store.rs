//! The account store: the saved accounts and groups as `accounts.json` and
//! `groups.json` hold them, and the operations on them. Each operation reads the
//! store as the files hold it, normalises what it reads, and records whether a
//! file is to be written.
use vstd::prelude::*;

use crate::groups::{
    contains_group, default_id, find_group, group_name_of, has_group, known_group,
    lemma_normalized_against_stored, lemma_normalized_groups, named_group, normalize_accounts,
    normalize_group_name, normalize_groups, normalize_tags, normalized_accounts,
    normalized_groups, normalized_stored, normalized_tags,
};
use crate::models::{
    account_views, copy_accounts, copy_groups, group_views, now_nanos, new_id, strs, AccountInfo,
    AccountView, GroupInfo, GroupView,
};
use crate::text::{chars_eq_ignore_case, chars_of, eq_ignore_case, str_eq, trim, trimmed};

verus! {

/// The stored accounts and groups, and whether each file is to be written.
pub struct BattleNetCore {
    /// What `accounts.json` holds (empty when it is missing or unreadable).
    pub accounts: Vec<AccountInfo>,
    /// What `groups.json` holds (empty when it is missing or unreadable).
    pub groups: Vec<GroupInfo>,
    /// `accounts.json` is to be written with `accounts`.
    pub accounts_saved: bool,
    /// `groups.json` is to be written with `groups`.
    pub groups_saved: bool,
}

pub struct CoreView {
    pub accounts: Seq<AccountView>,
    pub groups: Seq<GroupView>,
    pub accounts_saved: bool,
    pub groups_saved: bool,
}

impl View for BattleNetCore {
    type V = CoreView;

    open spec fn view(&self) -> CoreView {
        CoreView {
            accounts: account_views(self.accounts@),
            groups: group_views(self.groups@),
            accounts_saved: self.accounts_saved,
            groups_saved: self.groups_saved,
        }
    }
}

/// The position of the first account with identifier `id`.
pub open spec fn account_index(accs: Seq<AccountView>, id: Seq<char>) -> Option<int>
    decreases accs.len(),
{
    if accs.len() == 0 {
        None
    } else if accs.last().id == id && account_index(accs.drop_last(), id) is None {
        Some(accs.len() - 1)
    } else {
        account_index(accs.drop_last(), id)
    }
}

pub proof fn lemma_account_index(accs: Seq<AccountView>, id: Seq<char>)
    ensures
        account_index(accs, id) matches Some(i) ==> 0 <= i < accs.len() && accs[i].id == id
            && forall|k: int| 0 <= k < i ==> (#[trigger] accs[k]).id != id,
        account_index(accs, id) is None ==> forall|k: int|
            0 <= k < accs.len() ==> (#[trigger] accs[k]).id != id,
    decreases accs.len(),
{
    if accs.len() > 0 {
        lemma_account_index(accs.drop_last(), id);
        assert forall|k: int| 0 <= k < accs.len() - 1 implies #[trigger] accs[k]
            == accs.drop_last()[k] by {}
    }
}

/// The position of the first account with identifier `id`.
pub fn find_account(accounts: &Vec<AccountInfo>, id: &str) -> (r: Option<usize>)
    ensures
        r matches Some(p) ==> account_index(account_views(accounts@), id@) == Some(p as int) && p
            < accounts@.len(),
        r is None ==> account_index(account_views(accounts@), id@) is None,
{
    let ghost av = account_views(accounts@);
    let mut i: usize = 0;
    while i < accounts.len()
        invariant
            i <= accounts@.len(),
            av == account_views(accounts@),
            forall|q: int| 0 <= q < i ==> (#[trigger] av[q]).id != id@,
        decreases accounts.len() - i,
    {
        if str_eq(accounts[i].id.as_str(), id) {
            proof {
                assert(av[i as int].id == id@);
                lemma_account_index(av, id@);
                match account_index(av, id@) {
                    Some(x) => {
                        if x < i {
                            assert(av[x].id != id@);
                        }
                        if x > i {
                            assert(av[i as int].id != id@);
                        }
                    },
                    None => {
                        assert(av[i as int].id != id@);
                    },
                }
            }
            return Some(i);
        }
        i = i + 1;
    }
    proof {
        lemma_account_index(av, id@);
        if account_index(av, id@) is Some {
            let x = account_index(av, id@)->0;
            assert(av[x].id == id@);
        }
    }
    None
}

/// The position of the first group whose name equals `name` without regard to ASCII case.
pub open spec fn name_index(gs: Seq<GroupView>, name: Seq<char>) -> Option<int>
    decreases gs.len(),
{
    if gs.len() == 0 {
        None
    } else if eq_ignore_case(gs.last().name, name) && name_index(gs.drop_last(), name) is None {
        Some(gs.len() - 1)
    } else {
        name_index(gs.drop_last(), name)
    }
}

pub proof fn lemma_name_index(gs: Seq<GroupView>, name: Seq<char>)
    ensures
        name_index(gs, name) matches Some(i) ==> 0 <= i < gs.len() && eq_ignore_case(
            gs[i].name,
            name,
        ) && forall|k: int| 0 <= k < i ==> !eq_ignore_case((#[trigger] gs[k]).name, name),
        name_index(gs, name) is None ==> forall|k: int|
            0 <= k < gs.len() ==> !eq_ignore_case((#[trigger] gs[k]).name, name),
    decreases gs.len(),
{
    if gs.len() > 0 {
        lemma_name_index(gs.drop_last(), name);
        assert forall|k: int| 0 <= k < gs.len() - 1 implies #[trigger] gs[k] == gs.drop_last()[k] by {
        }
    }
}

fn find_group_named(groups: &Vec<GroupInfo>, name: &str) -> (r: Option<usize>)
    ensures
        r matches Some(p) ==> name_index(group_views(groups@), name@) == Some(p as int) && p
            < groups@.len(),
        r is None ==> name_index(group_views(groups@), name@) is None,
{
    let ghost gv = group_views(groups@);
    let n = chars_of(name);
    let mut i: usize = 0;
    while i < groups.len()
        invariant
            i <= groups@.len(),
            gv == group_views(groups@),
            n@ == name@,
            forall|q: int| 0 <= q < i ==> !eq_ignore_case((#[trigger] gv[q]).name, name@),
        decreases groups.len() - i,
    {
        let g = chars_of(groups[i].name.as_str());
        if chars_eq_ignore_case(&g, &n) {
            proof {
                assert(eq_ignore_case(gv[i as int].name, name@));
                lemma_name_index(gv, name@);
                match name_index(gv, name@) {
                    Some(x) => {
                        if x < i {
                            assert(!eq_ignore_case(gv[x].name, name@));
                        }
                        if x > i {
                            assert(!eq_ignore_case(gv[i as int].name, name@));
                        }
                    },
                    None => {
                        assert(!eq_ignore_case(gv[i as int].name, name@));
                    },
                }
            }
            return Some(i);
        }
        i = i + 1;
    }
    proof {
        lemma_name_index(gv, name@);
        if name_index(gv, name@) is Some {
            let x = name_index(gv, name@)->0;
            assert(eq_ignore_case(gv[x].name, name@));
        }
    }
    None
}

/// Some group other than `id` has a name equal to `name` without regard to ASCII case.
pub open spec fn name_taken(gs: Seq<GroupView>, id: Seq<char>, name: Seq<char>) -> bool {
    exists|i: int| 0 <= i < gs.len() && (#[trigger] gs[i]).id != id && eq_ignore_case(gs[i].name, name)
}

fn name_taken_by_other(groups: &Vec<GroupInfo>, id: &str, name: &str) -> (r: bool)
    ensures
        r == name_taken(group_views(groups@), id@, name@),
{
    let ghost gv = group_views(groups@);
    let n = chars_of(name);
    let mut i: usize = 0;
    while i < groups.len()
        invariant
            i <= groups@.len(),
            gv == group_views(groups@),
            n@ == name@,
            forall|q: int|
                0 <= q < i ==> !((#[trigger] gv[q]).id != id@ && eq_ignore_case(gv[q].name, name@)),
        decreases groups.len() - i,
    {
        let g = chars_of(groups[i].name.as_str());
        if !str_eq(groups[i].id.as_str(), id) && chars_eq_ignore_case(&g, &n) {
            assert(gv[i as int].id != id@ && eq_ignore_case(gv[i as int].name, name@));
            return true;
        }
        i = i + 1;
    }
    false
}

// ─── What each operation does to the store ───────────────────────────

/// The store with the accounts set to `accs` normalised against `gs`, and saved.
pub open spec fn with_accounts(c: CoreView, accs: Seq<AccountView>, gs: Seq<GroupView>) -> CoreView {
    CoreView { accounts: normalized_accounts(accs, gs), accounts_saved: true, ..c }
}

/// The store with the groups set to `gs` normalised at `now`, and saved.
pub open spec fn with_groups(c: CoreView, gs: Seq<GroupView>, now: i128) -> CoreView {
    CoreView { groups: normalized_groups(gs, now), groups_saved: true, ..c }
}

/// The groups as read from the store at `now`.
pub open spec fn read_groups_v(c: CoreView, now: i128) -> Seq<GroupView> {
    normalized_groups(c.groups, now)
}

/// The accounts as read from the store, normalised against its groups.
pub open spec fn read_accounts_v(c: CoreView) -> Seq<AccountView> {
    normalized_stored(c.accounts, c.groups)
}

/// What `create_group` gives and makes of the store, with `id` for a new group.
pub open spec fn create_group_v(c: CoreView, name: Seq<char>, id: Seq<char>, now: i128) -> (
    Option<GroupView>,
    CoreView,
) {
    let n = group_name_of(name);
    let gs = read_groups_v(c, now);
    if n.len() == 0 {
        (None, c)
    } else {
        match name_index(gs, n) {
            Some(i) => (Some(gs[i]), c),
            None => {
                let g = GroupView { id, name: n, created_at: now };
                (Some(g), with_groups(c, gs.push(g), now))
            },
        }
    }
}

/// What `rename_group` gives and makes of the store.
pub open spec fn rename_group_v(c: CoreView, id: Seq<char>, name: Seq<char>, now: i128) -> (
    bool,
    CoreView,
) {
    let n = group_name_of(name);
    let gs = read_groups_v(c, now);
    if id == default_id() || n.len() == 0 || name_taken(gs, id, n) {
        (false, c)
    } else {
        match crate::groups::group_index(gs, id) {
            Some(i) => (true, with_groups(c, gs.update(i, GroupView { name: n, ..gs[i] }), now)),
            None => (false, c),
        }
    }
}

/// The groups other than `id`, in order.
pub open spec fn without_group(gs: Seq<GroupView>, id: Seq<char>) -> Seq<GroupView>
    decreases gs.len(),
{
    if gs.len() == 0 {
        Seq::empty()
    } else if gs.last().id != id {
        without_group(gs.drop_last(), id).push(gs.last())
    } else {
        without_group(gs.drop_last(), id)
    }
}

/// The accounts of group `id` moved to no group.
pub open spec fn ungrouped(accs: Seq<AccountView>, id: Seq<char>) -> Seq<AccountView> {
    accs.map_values(
        |a: AccountView|
            if a.group_id == id {
                AccountView { group_id: Seq::empty(), ..a }
            } else {
                a
            },
    )
}

/// Some account is in group `id`.
pub open spec fn has_member_of(accs: Seq<AccountView>, id: Seq<char>) -> bool {
    exists|i: int| 0 <= i < accs.len() && (#[trigger] accs[i]).group_id == id
}

/// What `delete_group` gives and makes of the store.
pub open spec fn delete_group_v(c: CoreView, id: Seq<char>, now: i128) -> (bool, CoreView) {
    let gs = read_groups_v(c, now);
    let rest = without_group(gs, id);
    if id.len() == 0 || id == default_id() || rest.len() == gs.len() {
        (false, c)
    } else {
        let c1 = with_groups(c, rest, now);
        if has_member_of(c.accounts, id) {
            (true, with_accounts(c1, ungrouped(c.accounts, id), rest))
        } else {
            (true, c1)
        }
    }
}

/// The group identifier an account may be put in: `group_id` when it is known to
/// the store, otherwise none.
pub open spec fn valid_group_id(c: CoreView, group_id: Seq<char>) -> Seq<char> {
    if group_id.len() > 0 && known_group(c.groups, group_id) {
        group_id
    } else {
        Seq::empty()
    }
}

/// What `move_account_to_group` gives and makes of the store.
pub open spec fn move_account_v(c: CoreView, account_id: Seq<char>, group_id: Seq<char>) -> (
    bool,
    CoreView,
) {
    let accs = read_accounts_v(c);
    match account_index(accs, account_id) {
        Some(i) => (
            true,
            CoreView {
                accounts: normalized_stored(
                    accs.update(i, AccountView { group_id: valid_group_id(c, group_id), ..accs[i] }),
                    c.groups,
                ),
                accounts_saved: true,
                ..c
            },
        ),
        None => (false, c),
    }
}

/// What `update_account_info` gives and makes of the store.
pub open spec fn update_account_v(
    c: CoreView,
    account_id: Seq<char>,
    remark: Seq<char>,
    battle_tag: Seq<char>,
    tags: Seq<Seq<char>>,
) -> (bool, CoreView) {
    let accs = read_accounts_v(c);
    match account_index(accs, account_id) {
        Some(i) => (
            true,
            CoreView {
                accounts: normalized_stored(
                    accs.update(
                        i,
                        AccountView {
                            remark: trimmed(remark),
                            username: trimmed(battle_tag),
                            tags: normalized_tags(tags),
                            ..accs[i]
                        },
                    ),
                    c.groups,
                ),
                accounts_saved: true,
                ..c
            },
        ),
        None => (false, c),
    }
}

/// The accounts other than `id`, in order.
pub open spec fn without_account(accs: Seq<AccountView>, id: Seq<char>) -> Seq<AccountView>
    decreases accs.len(),
{
    if accs.len() == 0 {
        Seq::empty()
    } else if accs.last().id != id {
        without_account(accs.drop_last(), id).push(accs.last())
    } else {
        without_account(accs.drop_last(), id)
    }
}

/// What `delete_account` makes of the store.
pub open spec fn delete_account_v(c: CoreView, id: Seq<char>) -> CoreView {
    CoreView {
        accounts: normalized_stored(without_account(read_accounts_v(c), id), c.groups),
        accounts_saved: true,
        ..c
    }
}

/// What `touch_account` makes of the store: the account `id` is last used at `now`.
pub open spec fn touch_account_v(c: CoreView, id: Seq<char>, now: i128) -> CoreView {
    let accs = read_accounts_v(c);
    let updated = match account_index(accs, id) {
        Some(i) => accs.update(i, AccountView { last_used: now, ..accs[i] }),
        None => accs,
    };
    CoreView { accounts: normalized_stored(updated, c.groups), accounts_saved: true, ..c }
}

/// What `add_account` makes of the store.
pub open spec fn add_account_v(c: CoreView, a: AccountView) -> CoreView {
    CoreView {
        accounts: normalized_stored(read_accounts_v(c).push(a), c.groups),
        accounts_saved: true,
        ..c
    }
}

/// The first account, in store order, whose saved sign-in name is `current`.
pub open spec fn active_account_v(
    accs: Seq<AccountView>,
    current: Seq<char>,
    names: Seq<(Seq<char>, Option<Seq<char>>)>,
    i: int,
) -> Option<Seq<char>>
    decreases accs.len() - i,
{
    if i < 0 || i >= accs.len() {
        None
    } else if saved_name_of(names, accs[i].id) == Some(current) {
        Some(accs[i].id)
    } else {
        active_account_v(accs, current, names, i + 1)
    }
}

/// The saved sign-in name recorded for account `id` (the first record for it).
pub open spec fn saved_name_of(names: Seq<(Seq<char>, Option<Seq<char>>)>, id: Seq<char>) -> Option<
    Seq<char>,
>
    decreases names.len(),
{
    if names.len() == 0 {
        None
    } else if names[0].0 == id {
        names[0].1
    } else {
        saved_name_of(names.drop_first(), id)
    }
}

pub open spec fn name_records(v: Seq<(String, Option<String>)>) -> Seq<(Seq<char>, Option<Seq<char>>)> {
    v.map_values(
        |p: (String, Option<String>)|
            (
                p.0@,
                match p.1 {
                    Some(s) => Some(s@),
                    None => None,
                },
            ),
    )
}

fn saved_name_lookup(names: &Vec<(String, Option<String>)>, id: &str) -> (r: Option<String>)
    ensures
        match saved_name_of(name_records(names@), id@) {
            Some(s) => r matches Some(x) && x@ == s,
            None => r is None,
        },
{
    let ghost nr = name_records(names@);
    assert(nr.subrange(0, nr.len() as int) =~= nr);
    let mut i: usize = 0;
    while i < names.len()
        invariant
            i <= names@.len(),
            nr == name_records(names@),
            saved_name_of(nr, id@) == saved_name_of(nr.subrange(i as int, nr.len() as int), id@),
        decreases names.len() - i,
    {
        proof {
            assert(nr.subrange(i as int, nr.len() as int).drop_first() =~= nr.subrange(
                i + 1,
                nr.len() as int,
            ));
        }
        if str_eq(names[i].0.as_str(), id) {
            return match &names[i].1 {
                Some(s) => Some(s.clone()),
                None => None,
            };
        }
        i = i + 1;
    }
    None
}

/// Reading the groups after saving them gives back what was saved, whenever the
/// reading is done.
pub proof fn lemma_read_groups_after_save(c: CoreView, gs: Seq<GroupView>, t1: i128, t2: i128)
    ensures
        read_groups_v(with_groups(c, gs, t1), t2) == with_groups(c, gs, t1).groups,
{
    crate::groups::lemma_normalized_groups_idempotent(gs, t1, t2);
}

/// Reading the accounts after saving them gives back what was saved.
pub proof fn lemma_read_accounts_after_save(c: CoreView, accs: Seq<AccountView>)
    ensures
        ({
            let saved = CoreView {
                accounts: normalized_stored(accs, c.groups),
                accounts_saved: true,
                ..c
            };
            read_accounts_v(saved) == saved.accounts
        }),
{
    crate::groups::lemma_normalized_stored_idempotent(accs, c.groups);
}

proof fn lemma_name_index_names(a: Seq<GroupView>, b: Seq<GroupView>, name: Seq<char>)
    requires
        a.len() == b.len(),
        forall|k: int| 0 <= k < a.len() ==> (#[trigger] a[k]).name == b[k].name,
    ensures
        name_index(a, name) == name_index(b, name),
    decreases a.len(),
{
    if a.len() > 0 {
        lemma_name_index_names(a.drop_last(), b.drop_last(), name);
        assert(a.last().name == b[b.len() - 1].name);
    }
}

/// Creating a group twice with the same name gives, the second time, the group of
/// the same identifier and name and changes nothing more, whatever identifier and
/// time the second call has.
pub proof fn lemma_create_group_again(
    c: CoreView,
    name: Seq<char>,
    id1: Seq<char>,
    t1: i128,
    id2: Seq<char>,
    t2: i128,
)
    requires
        id1.len() > 0,
        id1 != default_id(),
    ensures
        ({
            let (g1, c1) = create_group_v(c, name, id1, t1);
            let (g2, c2) = create_group_v(c1, name, id2, t2);
            &&& g1 is Some <==> g2 is Some
            &&& g1 matches Some(x) ==> g2->0.id == x.id && g2->0.name == x.name
            &&& c2 == c1
        }),
{
    let n = group_name_of(name);
    let gs = read_groups_v(c, t1);
    if n.len() > 0 {
        match name_index(gs, n) {
            Some(i) => {
                lemma_name_index(gs, n);
                let gs2 = read_groups_v(c, t2);
                crate::groups::lemma_normalized_names(c.groups, t1, t2);
                assert forall|k: int| 0 <= k < gs.len() implies (#[trigger] gs[k]).name
                    == gs2[k].name by {}
                lemma_name_index_names(gs, gs2, n);
                assert(create_group_v(c, name, id1, t1) == (Some(gs[i]), c));
                assert(create_group_v(c, name, id2, t2) == (Some(gs2[i]), c));
            },
            None => {
                let g = GroupView { id: id1, name: n, created_at: t1 };
                crate::text::lemma_trimmed_idempotent(name);
                assert(named_group(g) == g);
                crate::groups::lemma_normalized_push(c.groups, t1, g, t1);
                let c1 = with_groups(c, gs.push(g), t1);
                assert(c1.groups == gs.push(g));
                lemma_read_groups_after_save(c, gs.push(g), t1, t2);
                let gs1 = read_groups_v(c1, t2);
                assert(gs1 == gs.push(g));
                crate::text::lemma_eq_ignore_case_refl(n);
                lemma_name_index(gs, n);
                lemma_name_index(gs1, n);
                assert(gs1.drop_last() =~= gs);
                assert(name_index(gs1, n) == Some(gs.len() as int));
                assert(gs1[gs.len() as int] == g);
                assert(create_group_v(c, name, id1, t1) == (Some(g), c1));
                assert(create_group_v(c1, name, id2, t2) == (Some(g), c1));
            },
        }
    }
}

/// The groups' identifiers are pairwise distinct.
pub open spec fn distinct_group_ids(gs: Seq<GroupView>) -> bool {
    forall|i: int, j: int|
        0 <= i < j < gs.len() ==> (#[trigger] gs[i]).id != (#[trigger] gs[j]).id
}

/// Creating a group under a name that no group has, with an identifier that no
/// group read from the store has, adds that group last with that identifier and
/// leaves the others as read; creating one under any name keeps the identifiers
/// of the groups read pairwise distinct.
pub proof fn lemma_create_group_keeps_ids_distinct(
    c: CoreView,
    name: Seq<char>,
    id: Seq<char>,
    t: i128,
)
    requires
        id.len() > 0,
        id != default_id(),
        forall|k: int|
            0 <= k < read_groups_v(c, t).len() ==> (#[trigger] read_groups_v(c, t)[k]).id != id,
        distinct_group_ids(read_groups_v(c, t)),
    ensures
        ({
            let (g, c1) = create_group_v(c, name, id, t);
            let before = read_groups_v(c, t);
            let after = read_groups_v(c1, t);
            &&& distinct_group_ids(after)
            &&& (group_name_of(name).len() > 0 && name_index(before, group_name_of(name)) is None)
                ==> g == Some(after.last()) && after.last().id == id && after.drop_last()
                == before
        }),
{
    let n = group_name_of(name);
    let gs = read_groups_v(c, t);
    if n.len() > 0 && name_index(gs, n) is None {
        let g = GroupView { id, name: n, created_at: t };
        crate::text::lemma_trimmed_idempotent(name);
        assert(named_group(g) == g);
        crate::groups::lemma_normalized_push(c.groups, t, g, t);
        let c1 = with_groups(c, gs.push(g), t);
        assert(c1.groups == gs.push(g));
        lemma_read_groups_after_save(c, gs.push(g), t, t);
        let after = read_groups_v(c1, t);
        assert(after == gs.push(g));
        assert(after.drop_last() =~= gs);
        assert forall|i: int, j: int|
            0 <= i < j < after.len() implies (#[trigger] after[i]).id != (#[trigger] after[j]).id by {
            if j == gs.len() {
                assert(after[i] == gs[i]);
            } else {
                assert(after[i] == gs[i]);
                assert(after[j] == gs[j]);
            }
        }
    }
}

/// An identifier of 32 decimal digits that none of `groups` has: the first of the
/// numbered identifiers that is free.
fn unused_group_id(groups: &Vec<GroupInfo>) -> (r: String)
    ensures
        r@.len() == 32,
        forall|i: int| 0 <= i < 32 ==> crate::models::is_lower_hex(#[trigger] r@[i]),
        exists|u: Seq<char>|
            crate::models::uuid_shaped(u) && r@ == #[trigger] crate::models::without_hyphens(u),
        forall|k: int|
            0 <= k < groups@.len() ==> (#[trigger] group_views(groups@)[k]).id != r@,
{
    let ghost gv = group_views(groups@);
    let ghost ids = gv.map_values(|g: GroupView| g.id);
    let mut k: usize = 0;
    loop
        invariant
            gv == group_views(groups@),
            ids == gv.map_values(|g: GroupView| g.id),
            k <= groups@.len(),
            forall|j: nat| j < k ==> ids.contains(#[trigger] crate::models::counter_id(j)),
        decreases groups@.len() - k,
    {
        let c = crate::models::counter_id_text(k as u64);
        proof {
            crate::models::lemma_counter_id(k as nat);
            crate::groups::lemma_group_index(gv, c@);
        }
        match find_group(groups, c.as_str()) {
            None => {
                proof {
                    crate::models::lemma_with_hyphens(c@);
                }
                return c;
            },
            Some(p) => {
                proof {
                    assert(ids[p as int] == c@);
                    assert(ids.contains(crate::models::counter_id(k as nat)));
                    if k == groups.len() {
                        assert forall|j: nat| j <= k implies ids.contains(
                            #[trigger] crate::models::counter_id(j),
                        ) by {}
                        crate::models::lemma_counter_ids_not_all_in(ids, k as nat);
                    }
                }
                k = k + 1;
            },
        }
    }
}

impl BattleNetCore {
    /// A store holding what the files hold, with nothing to be written yet.
    pub fn from_store(accounts: Vec<AccountInfo>, groups: Vec<GroupInfo>) -> (r: Self)
        ensures
            r.accounts == accounts,
            r.groups == groups,
            !r.accounts_saved,
            !r.groups_saved,
    {
        BattleNetCore { accounts, groups, accounts_saved: false, groups_saved: false }
    }

    // ─── Reading and saving ─────────────────────────────────────────

    /// The stored groups, normalised at `now`.
    pub fn read_groups(&self, now: i128) -> (r: Vec<GroupInfo>)
        ensures
            group_views(r@) == read_groups_v(self@, now),
    {
        let mut gs = copy_groups(&self.groups);
        normalize_groups(&mut gs, now);
        gs
    }

    /// The groups; a default group made now is among them when the store has none.
    pub fn get_groups(&self) -> (r: Vec<GroupInfo>)
        ensures
            exists|t: i128| group_views(r@) == #[trigger] read_groups_v(self@, t),
    {
        let now = now_nanos();
        self.read_groups(now)
    }

    /// Stores `groups`, normalised at `now`.
    pub fn save_groups(&mut self, groups: &Vec<GroupInfo>, now: i128)
        ensures
            final(self)@ == with_groups(old(self)@, group_views(groups@), now),
    {
        let mut gs = copy_groups(groups);
        normalize_groups(&mut gs, now);
        self.groups = gs;
        self.groups_saved = true;
    }

    /// `group_id` when it names a known group, otherwise no group (`""`).
    pub fn ensure_valid_group_id(&self, group_id: &str) -> (r: String)
        ensures
            r@ == valid_group_id(self@, group_id@),
    {
        proof {
            reveal_strlit("");
            reveal_strlit("default");
            assert(""@ =~= Seq::<char>::empty());
        }
        if group_id.unicode_len() == 0 {
            return String::from_str("");
        }
        let known = str_eq(group_id, "default") || contains_group(&self.groups, group_id);
        if known {
            String::from_str(group_id)
        } else {
            String::from_str("")
        }
    }

    /// The stored accounts normalised against `groups` (nothing is saved).
    pub fn get_accounts_with_groups(&self, groups: &Vec<GroupInfo>) -> (r: Vec<AccountInfo>)
        ensures
            account_views(r@) == normalized_accounts(self@.accounts, group_views(groups@)),
    {
        let mut accounts = copy_accounts(&self.accounts);
        normalize_accounts(&mut accounts, groups);
        accounts
    }

    /// Stores `accounts` normalised against `groups`.
    pub fn save_accounts_with_groups(
        &mut self,
        accounts: &Vec<AccountInfo>,
        groups: &Vec<GroupInfo>,
    )
        ensures
            final(self)@ == with_accounts(old(self)@, account_views(accounts@), group_views(groups@)),
    {
        let mut accs = copy_accounts(accounts);
        normalize_accounts(&mut accs, groups);
        self.accounts = accs;
        self.accounts_saved = true;
    }

    /// Stores `accounts` normalised against the stored groups.
    pub fn save_accounts(&mut self, accounts: &Vec<AccountInfo>)
        ensures
            final(self)@ == (CoreView {
                accounts: normalized_stored(account_views(accounts@), old(self)@.groups),
                accounts_saved: true,
                ..old(self)@
            }),
    {
        let now = now_nanos();
        let groups = self.read_groups(now);
        proof {
            lemma_normalized_against_stored(account_views(accounts@), self@.groups, now);
        }
        self.save_accounts_with_groups(accounts, &groups);
    }

    /// The accounts normalised against the stored groups; when normalising changed
    /// any of them, the normalised accounts are stored.
    pub fn get_accounts(&mut self) -> (r: Vec<AccountInfo>)
        ensures
            account_views(r@) == read_accounts_v(old(self)@),
            final(self)@ == (if read_accounts_v(old(self)@) != old(self)@.accounts {
                CoreView { accounts: read_accounts_v(old(self)@), accounts_saved: true, ..old(self)@ }
            } else {
                old(self)@
            }),
    {
        let now = now_nanos();
        let groups = self.read_groups(now);
        proof {
            lemma_normalized_against_stored(self@.accounts, self@.groups, now);
        }
        let mut accounts = copy_accounts(&self.accounts);
        let changed = normalize_accounts(&mut accounts, &groups);
        if changed {
            self.accounts = copy_accounts(&accounts);
            self.accounts_saved = true;
        }
        accounts
    }
    // ─── Groups ─────────────────────────────────────────────────────

    /// Creates a group named `name` (trimmed) with identifier `id`, created at `now`.
    /// `None` when the trimmed name is empty. When a group with that name (without
    /// regard to ASCII case) exists, it is given back and nothing changes.
    pub fn create_group_with(&mut self, name: &str, id: String, now: i128) -> (r: Option<
        GroupInfo,
    >)
        ensures
            (match r {
                Some(g) => Some(g@),
                None => None,
            }, final(self)@) == create_group_v(old(self)@, name@, id@, now),
    {
        let name = normalize_group_name(name);
        if name.as_str().unicode_len() == 0 {
            return None;
        }
        let mut groups = self.read_groups(now);
        match find_group_named(&groups, name.as_str()) {
            Some(i) => Some(groups[i].copy()),
            None => {
                let group = GroupInfo { id, name, created_at: now };
                let ghost before = groups@;
                groups.push(group.copy());
                proof {
                    assert(group_views(groups@) =~= group_views(before).push(group@));
                }
                self.save_groups(&groups, now);
                Some(group)
            },
        }
    }

    /// Creates a group named `name` (trimmed) with a fresh identifier, created now;
    /// an existing group of that name (without regard to ASCII case) is given back
    /// instead; `None` when the trimmed name is empty. The identifier is a random
    /// UUID without its hyphens, unless a group read from the store already has that
    /// one: then it is the first free numbered identifier. Either way no group read
    /// from the store has it.
    pub fn create_group(&mut self, name: &str) -> (r: Option<GroupInfo>)
        ensures
            exists|id: Seq<char>, t: i128|
                (match r {
                    Some(g) => Some(g@),
                    None => None,
                }, final(self)@) == #[trigger] create_group_v(old(self)@, name@, id, t) && id.len()
                    == 32 && (forall|i: int| 0 <= i < 32 ==> crate::models::is_lower_hex(
                    #[trigger] id[i],
                )) && (exists|u: Seq<char>|
                    crate::models::uuid_shaped(u) && id == #[trigger] crate::models::without_hyphens(u))
                    && (exists|secs: i64, subsec: u32|
                    subsec < 2_000_000_000 && t == #[trigger] crate::models::clock_nanos(
                        secs,
                        subsec,
                    )) && (forall|k: int|
                    0 <= k < read_groups_v(old(self)@, t).len() ==> (#[trigger] read_groups_v(
                        old(self)@,
                        t,
                    )[k]).id != id),
    {
        let fresh = new_id();
        let now = now_nanos();
        let groups = self.read_groups(now);
        let id = match find_group(&groups, fresh.as_str()) {
            None => {
                proof {
                    crate::groups::lemma_group_index(group_views(groups@), fresh@);
                }
                fresh
            },
            Some(_) => unused_group_id(&groups),
        };
        let ghost idv = id@;
        let r = self.create_group_with(name, id, now);
        assert(idv.len() == 32);
        r
    }

    /// Renames group `id` to `name` (trimmed), at `now` for a default group made while
    /// reading. Refused for the default group, an empty name, a name another group
    /// has (without regard to ASCII case), or an unknown group.
    pub fn rename_group_at(&mut self, id: &str, name: &str, now: i128) -> (r: bool)
        ensures
            (r, final(self)@) == rename_group_v(old(self)@, id@, name@, now),
    {
        if str_eq(id, "default") {
            return false;
        }
        let name = normalize_group_name(name);
        if name.as_str().unicode_len() == 0 {
            return false;
        }
        let mut groups = self.read_groups(now);
        if name_taken_by_other(&groups, id, name.as_str()) {
            return false;
        }
        match find_group(&groups, id) {
            Some(i) => {
                let g = &groups[i];
                let renamed = GroupInfo { id: g.id.clone(), name, created_at: g.created_at };
                let ghost before = groups@;
                groups.set(i, renamed);
                proof {
                    assert(group_views(groups@) =~= group_views(before).update(
                        i as int,
                        GroupView { name: renamed@.name, ..group_views(before)[i as int] },
                    ));
                }
                self.save_groups(&groups, now);
                true
            },
            None => false,
        }
    }

    /// Renames group `id` to `name` (trimmed); see `rename_group_at`.
    pub fn rename_group(&mut self, id: &str, name: &str) -> (r: bool)
        ensures
            exists|t: i128| (r, final(self)@) == #[trigger] rename_group_v(old(self)@, id@, name@, t),
    {
        let now = now_nanos();
        self.rename_group_at(id, name, now)
    }

    /// Deletes group `id`, at `now` for a default group made while reading; the
    /// accounts in it are moved to no group. Refused for an empty identifier, the
    /// default group, or an unknown group.
    pub fn delete_group_at(&mut self, id: &str, now: i128) -> (r: bool)
        ensures
            (r, final(self)@) == delete_group_v(old(self)@, id@, now),
    {
        if id.unicode_len() == 0 || str_eq(id, "default") {
            return false;
        }
        let groups = self.read_groups(now);
        let ghost gs = group_views(groups@);
        let mut rest: Vec<GroupInfo> = Vec::new();
        let mut i: usize = 0;
        while i < groups.len()
            invariant
                i <= groups@.len(),
                gs == group_views(groups@),
                group_views(rest@) == without_group(gs.subrange(0, i as int), id@),
            decreases groups.len() - i,
        {
            proof {
                assert(gs.subrange(0, i + 1).drop_last() =~= gs.subrange(0, i as int));
                assert(gs.subrange(0, i + 1).last() == groups@[i as int]@);
            }
            if !str_eq(groups[i].id.as_str(), id) {
                let ghost before = rest@;
                rest.push(groups[i].copy());
                proof {
                    assert(group_views(rest@) =~= group_views(before).push(groups@[i as int]@));
                }
            }
            i = i + 1;
        }
        assert(gs.subrange(0, gs.len() as int) =~= gs);
        if rest.len() == groups.len() {
            return false;
        }
        self.save_groups(&rest, now);
        let ghost c1 = self@;
        let ghost av = old(self)@.accounts;
        let mut accounts = copy_accounts(&self.accounts);
        let mut changed = false;
        let mut j: usize = 0;
        while j < accounts.len()
            invariant
                j <= accounts@.len(),
                accounts@.len() == av.len(),
                forall|q: int| 0 <= q < j ==> (#[trigger] accounts@[q])@ == ungrouped(av, id@)[q],
                forall|q: int| j <= q < accounts@.len() ==> (#[trigger] accounts@[q])@ == av[q],
                changed == exists|q: int| 0 <= q < j && (#[trigger] av[q]).group_id == id@,
            decreases accounts.len() - j,
        {
            let mut a = accounts[j].copy();
            if str_eq(a.group_id.as_str(), id) {
                proof {
                    reveal_strlit("");
                    assert(""@ =~= Seq::<char>::empty());
                }
                a.group_id = String::from_str("");
                changed = true;
            }
            accounts.set(j, a);
            j = j + 1;
        }
        proof {
            assert(account_views(accounts@) =~= ungrouped(av, id@));
            if has_member_of(av, id@) {
                let q = choose|q: int| 0 <= q < av.len() && (#[trigger] av[q]).group_id == id@;
                assert(av[q].group_id == id@);
            }
        }
        if changed {
            self.save_accounts_with_groups(&accounts, &rest);
        }
        true
    }

    /// Deletes group `id`; see `delete_group_at`.
    pub fn delete_group(&mut self, id: &str) -> (r: bool)
        ensures
            exists|t: i128| (r, final(self)@) == #[trigger] delete_group_v(old(self)@, id@, t),
    {
        let now = now_nanos();
        self.delete_group_at(id, now)
    }

    // ─── Accounts ───────────────────────────────────────────────────

    /// The stored accounts normalised against the groups read now (nothing is saved).
    fn read_accounts(&self) -> (r: (Vec<AccountInfo>, Vec<GroupInfo>))
        ensures
            account_views(r.0@) == read_accounts_v(self@),
            account_views(r.0@) == normalized_accounts(self@.accounts, group_views(r.1@)),
            forall|accs: Seq<AccountView>|
                #[trigger] normalized_accounts(accs, group_views(r.1@)) == normalized_stored(
                    accs,
                    self@.groups,
                ),
    {
        let now = now_nanos();
        let groups = self.read_groups(now);
        proof {
            assert forall|accs: Seq<AccountView>| #[trigger]
                normalized_accounts(accs, group_views(groups@)) == normalized_stored(
                    accs,
                    self@.groups,
                ) by {
                lemma_normalized_against_stored(accs, self@.groups, now);
            }
        }
        let accounts = self.get_accounts_with_groups(&groups);
        (accounts, groups)
    }

    /// Puts account `account_id` in group `group_id` (no group when that group is
    /// unknown). False, with nothing changed, when there is no such account.
    pub fn move_account_to_group(&mut self, account_id: &str, group_id: &str) -> (r: bool)
        ensures
            (r, final(self)@) == move_account_v(old(self)@, account_id@, group_id@),
    {
        let group_id = self.ensure_valid_group_id(group_id);
        let (mut accounts, groups) = self.read_accounts();
        match find_account(&accounts, account_id) {
            Some(i) => {
                let mut a = accounts[i].copy();
                a.group_id = group_id;
                let ghost before = accounts@;
                accounts.set(i, a);
                proof {
                    assert(account_views(accounts@) =~= account_views(before).update(
                        i as int,
                        a@,
                    ));
                }
                self.save_accounts_with_groups(&accounts, &groups);
                true
            },
            None => false,
        }
    }

    /// Sets the remark, BattleTag (both trimmed) and tags (normalised) of account
    /// `account_id`. False, with nothing changed, when there is no such account.
    pub fn update_account_info(
        &mut self,
        account_id: &str,
        remark: &str,
        battle_tag: &str,
        tags: &Vec<String>,
    ) -> (r: bool)
        ensures
            (r, final(self)@) == update_account_v(
                old(self)@,
                account_id@,
                remark@,
                battle_tag@,
                strs(tags@),
            ),
    {
        let (mut accounts, groups) = self.read_accounts();
        match find_account(&accounts, account_id) {
            Some(i) => {
                let mut a = accounts[i].copy();
                a.remark = trim(remark);
                a.username = trim(battle_tag);
                a.tags = normalize_tags(tags);
                let ghost before = accounts@;
                accounts.set(i, a);
                proof {
                    assert(account_views(accounts@) =~= account_views(before).update(
                        i as int,
                        a@,
                    ));
                }
                self.save_accounts_with_groups(&accounts, &groups);
                true
            },
            None => false,
        }
    }

    /// Removes account `id` and stores the rest.
    pub fn delete_account(&mut self, id: &str)
        ensures
            final(self)@ == delete_account_v(old(self)@, id@),
    {
        let accounts = self.get_accounts();
        let ghost acc = account_views(accounts@);
        let mut rest: Vec<AccountInfo> = Vec::new();
        let mut i: usize = 0;
        while i < accounts.len()
            invariant
                i <= accounts@.len(),
                acc == account_views(accounts@),
                account_views(rest@) == without_account(acc.subrange(0, i as int), id@),
            decreases accounts.len() - i,
        {
            proof {
                assert(acc.subrange(0, i + 1).drop_last() =~= acc.subrange(0, i as int));
                assert(acc.subrange(0, i + 1).last() == accounts@[i as int]@);
            }
            if !str_eq(accounts[i].id.as_str(), id) {
                let ghost before = rest@;
                rest.push(accounts[i].copy());
                proof {
                    assert(account_views(rest@) =~= account_views(before).push(
                        accounts@[i as int]@,
                    ));
                }
            }
            i = i + 1;
        }
        assert(acc.subrange(0, acc.len() as int) =~= acc);
        self.save_accounts(&rest);
    }

    /// Records account `id` as last used at `now` and stores the accounts.
    pub fn touch_account(&mut self, id: &str, now: i128)
        ensures
            final(self)@ == touch_account_v(old(self)@, id@, now),
    {
        let (mut accounts, groups) = self.read_accounts();
        match find_account(&accounts, id) {
            Some(i) => {
                let mut a = accounts[i].copy();
                a.last_used = now;
                let ghost before = accounts@;
                accounts.set(i, a);
                proof {
                    assert(account_views(accounts@) =~= account_views(before).update(
                        i as int,
                        a@,
                    ));
                }
            },
            None => {},
        }
        self.save_accounts_with_groups(&accounts, &groups);
    }

    /// Adds `account` after the stored accounts and stores them.
    pub fn add_account(&mut self, account: AccountInfo)
        ensures
            final(self)@ == add_account_v(old(self)@, account@),
    {
        let (mut accounts, groups) = self.read_accounts();
        let ghost before = accounts@;
        let ghost av = account@;
        accounts.push(account);
        proof {
            assert(account_views(accounts@) =~= account_views(before).push(av));
        }
        self.save_accounts_with_groups(&accounts, &groups);
    }

    /// The account the live configuration is signed in to: the first stored account
    /// whose saved configuration has the same `SavedAccountNames` as the live one.
    /// `current_name` is the live configuration's; `saved_names` records, per account
    /// identifier, its saved configuration's (`None` where there is none).
    #[verifier::loop_isolation(false)]
    pub fn get_active_account_id(
        &mut self,
        current_name: &Option<String>,
        saved_names: &Vec<(String, Option<String>)>,
    ) -> (r: Option<String>)
        ensures
            current_name is None ==> r is None && final(self)@ == old(self)@,
            current_name matches Some(cur) ==> match active_account_v(
                read_accounts_v(old(self)@),
                cur@,
                name_records(saved_names@),
                0,
            ) {
                Some(id) => r matches Some(x) && x@ == id,
                None => r is None,
            },
            current_name is Some ==> final(self)@ == (if read_accounts_v(old(self)@)
                != old(self)@.accounts {
                CoreView { accounts: read_accounts_v(old(self)@), accounts_saved: true, ..old(self)@ }
            } else {
                old(self)@
            }),
    {
        let current = match current_name {
            Some(c) => c,
            None => {
                return None;
            },
        };
        let accounts = self.get_accounts();
        let ghost accs = account_views(accounts@);
        let ghost nr = name_records(saved_names@);
        let mut i: usize = 0;
        while i < accounts.len()
            invariant
                i <= accounts@.len(),
                accs == account_views(accounts@),
                nr == name_records(saved_names@),
                active_account_v(accs, current@, nr, 0) == active_account_v(
                    accs,
                    current@,
                    nr,
                    i as int,
                ),
            decreases accounts.len() - i,
        {
            let saved = saved_name_lookup(saved_names, accounts[i].id.as_str());
            match saved {
                Some(name) => {
                    if name == *current {
                        return Some(accounts[i].id.clone());
                    }
                },
                None => {},
            }
            i = i + 1;
        }
        None
    }
}

} // verus!
