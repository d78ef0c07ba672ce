//! Importing the data directories of earlier versions: which directories were
//! imported, whether a directory's data is already here, and how its groups,
//! accounts and account directories are merged into the store.
use vstd::prelude::*;

use crate::groups::normalize_groups;
use crate::groups::normalized_groups;
use crate::groups::normalized_stored;
use crate::models::{
    account_views, copy_accounts, copy_groups, default_region, dir_views, group_views, strs,
    AccountInfo, AccountView, GroupInfo, GroupView, LegacyMigrationDataDirectory,
    LegacyMigrationState, MigratedDirView,
};
use crate::region::cn;
use crate::store::{read_groups_v, with_groups, BattleNetCore, CoreView};
use crate::text::{
    concat_str, decimal, decimal_u64, eq_ignore_case, lemma_eq_ignore_case_refl, lower, lower_text,
    str_eq, str_eq_ignore_case, string_of,
};

verus! {

// ─── Which directories were imported ──────────────────────────────────

/// The position of the first recorded directory whose path equals `path` without
/// regard to ASCII case.
pub open spec fn migrated_index(dirs: Seq<MigratedDirView>, path: Seq<char>) -> Option<int>
    decreases dirs.len(),
{
    if dirs.len() == 0 {
        None
    } else if eq_ignore_case(dirs.last().path, path) && migrated_index(dirs.drop_last(), path) is None {
        Some(dirs.len() - 1)
    } else {
        migrated_index(dirs.drop_last(), path)
    }
}

/// Some recorded directory has the path `path`, without regard to ASCII case.
pub open spec fn is_migrated(dirs: Seq<MigratedDirView>, path: Seq<char>) -> bool {
    exists|i: int| 0 <= i < dirs.len() && eq_ignore_case((#[trigger] dirs[i]).path, path)
}

pub proof fn lemma_migrated_index(dirs: Seq<MigratedDirView>, path: Seq<char>)
    ensures
        migrated_index(dirs, path) matches Some(i) ==> 0 <= i < dirs.len() && eq_ignore_case(
            dirs[i].path,
            path,
        ) && forall|k: int| 0 <= k < i ==> !eq_ignore_case((#[trigger] dirs[k]).path, path),
        migrated_index(dirs, path) is None ==> !is_migrated(dirs, path),
    decreases dirs.len(),
{
    if dirs.len() > 0 {
        lemma_migrated_index(dirs.drop_last(), path);
        assert forall|k: int| 0 <= k < dirs.len() - 1 implies #[trigger] dirs[k]
            == dirs.drop_last()[k] by {}
        if migrated_index(dirs, path) is None {
            assert forall|k: int| 0 <= k < dirs.len() implies !eq_ignore_case(
                (#[trigger] dirs[k]).path,
                path,
            ) by {
                if k < dirs.len() - 1 {
                    assert(dirs[k] == dirs.drop_last()[k]);
                }
            }
        }
    }
}

/// What `remember_migrated_data_directory` makes of the recorded directories: the
/// first one with the same path (without regard to ASCII case) gets the new import
/// time; when there is none, the path is recorded, imported at `now`.
pub open spec fn remembered(dirs: Seq<MigratedDirView>, path: Seq<char>, now: i128) -> Seq<
    MigratedDirView,
> {
    match migrated_index(dirs, path) {
        Some(i) => dirs.update(i, MigratedDirView { imported_at_utc: now, ..dirs[i] }),
        None => dirs.push(MigratedDirView { path, prefer_legacy_data: false, imported_at_utc: now }),
    }
}

fn find_migrated(dirs: &Vec<LegacyMigrationDataDirectory>, path: &str) -> (r: Option<usize>)
    ensures
        r matches Some(p) ==> migrated_index(dir_views(dirs@), path@) == Some(p as int) && p
            < dirs@.len(),
        r is None ==> migrated_index(dir_views(dirs@), path@) is None,
{
    let ghost dv = dir_views(dirs@);
    let mut i: usize = 0;
    while i < dirs.len()
        invariant
            i <= dirs@.len(),
            dv == dir_views(dirs@),
            forall|q: int| 0 <= q < i ==> !eq_ignore_case((#[trigger] dv[q]).path, path@),
        decreases dirs.len() - i,
    {
        if str_eq_ignore_case(dirs[i].path.as_str(), path) {
            proof {
                assert(eq_ignore_case(dv[i as int].path, path@));
                lemma_migrated_index(dv, path@);
                match migrated_index(dv, path@) {
                    Some(x) => {
                        if x < i {
                            assert(!eq_ignore_case(dv[x].path, path@));
                        }
                        if x > i {
                            assert(!eq_ignore_case(dv[i as int].path, path@));
                        }
                    },
                    None => {
                        assert(!eq_ignore_case(dv[i as int].path, path@));
                    },
                }
            }
            return Some(i);
        }
        i = i + 1;
    }
    proof {
        lemma_migrated_index(dv, path@);
        if migrated_index(dv, path@) is Some {
            let x = migrated_index(dv, path@)->0;
            assert(eq_ignore_case(dv[x].path, path@));
        }
    }
    None
}

/// Whether the data directory at `normalized_path` (its canonical path) was imported.
pub fn has_migrated_data_directory(state: &LegacyMigrationState, normalized_path: &str) -> (r:
    bool)
    ensures
        r == is_migrated(dir_views(state.data_directories@), normalized_path@),
{
    let found = find_migrated(&state.data_directories, normalized_path);
    proof {
        let dv = dir_views(state.data_directories@);
        lemma_migrated_index(dv, normalized_path@);
        if let Some(p) = found {
            assert(eq_ignore_case(dv[p as int].path, normalized_path@));
        }
    }
    found.is_some()
}

/// Records that the data directory at `normalized_path` was imported at `now`.
pub fn remember_migrated_data_directory(
    state: &mut LegacyMigrationState,
    normalized_path: &str,
    now: i128,
)
    ensures
        dir_views(final(state).data_directories@) == remembered(
            dir_views(old(state).data_directories@),
            normalized_path@,
            now,
        ),
{
    let ghost dv = dir_views(state.data_directories@);
    match find_migrated(&state.data_directories, normalized_path) {
        Some(i) => {
            let d = LegacyMigrationDataDirectory {
                path: String::from_str(state.data_directories[i].path.as_str()),
                prefer_legacy_data: state.data_directories[i].prefer_legacy_data,
                imported_at_utc: now,
            };
            state.data_directories.set(i, d);
            proof {
                assert(dir_views(state.data_directories@) =~= dv.update(
                    i as int,
                    MigratedDirView { imported_at_utc: now, ..dv[i as int] },
                ));
            }
        },
        None => {
            let d = LegacyMigrationDataDirectory {
                path: String::from_str(normalized_path),
                prefer_legacy_data: false,
                imported_at_utc: now,
            };
            state.data_directories.push(d);
            proof {
                assert(dir_views(state.data_directories@) =~= dv.push(
                    MigratedDirView {
                        path: normalized_path@,
                        prefer_legacy_data: false,
                        imported_at_utc: now,
                    },
                ));
            }
        },
    }
}

/// A directory that was remembered counts as imported.
pub proof fn lemma_remembered_is_migrated(dirs: Seq<MigratedDirView>, path: Seq<char>, now: i128)
    ensures
        is_migrated(remembered(dirs, path, now), path),
{
    lemma_migrated_index(dirs, path);
    let r = remembered(dirs, path, now);
    match migrated_index(dirs, path) {
        Some(i) => {
            assert(r[i].path == dirs[i].path);
            assert(eq_ignore_case(r[i].path, path));
        },
        None => {
            lemma_eq_ignore_case_refl(path);
            assert(r[dirs.len() as int].path == path);
            assert(eq_ignore_case(r[dirs.len() as int].path, path));
        },
    }
}

/// Remembering a directory again records no second entry: only its import time changes.
pub proof fn lemma_remember_again(dirs: Seq<MigratedDirView>, path: Seq<char>, t1: i128, t2: i128)
    ensures
        remembered(remembered(dirs, path, t1), path, t2).len() == remembered(dirs, path, t1).len(),
        remembered(remembered(dirs, path, t1), path, t2) == remembered(dirs, path, t2),
{
    let r1 = remembered(dirs, path, t1);
    lemma_migrated_index(dirs, path);
    lemma_migrated_index(r1, path);
    lemma_remembered_is_migrated(dirs, path, t1);
    match migrated_index(dirs, path) {
        Some(i) => {
            assert forall|k: int| 0 <= k < i implies !eq_ignore_case((#[trigger] r1[k]).path, path) by {
                assert(r1[k] == dirs[k]);
            }
            match migrated_index(r1, path) {
                Some(j) => {
                    if j < i {
                        assert(r1[j] == dirs[j]);
                    }
                    if j > i {
                        assert(!eq_ignore_case(r1[i].path, path));
                    }
                    assert(j == i);
                },
                None => {},
            }
            assert(remembered(r1, path, t2) =~= remembered(dirs, path, t2));
        },
        None => {
            let n = dirs.len() as int;
            assert forall|k: int| 0 <= k < n implies !eq_ignore_case((#[trigger] r1[k]).path, path) by {
                assert(r1[k] == dirs[k]);
            }
            match migrated_index(r1, path) {
                Some(j) => {
                    if j < n {
                        assert(!eq_ignore_case(r1[j].path, path));
                    }
                    assert(j == n);
                },
                None => {},
            }
            assert(remembered(r1, path, t2) =~= remembered(dirs, path, t2));
        },
    }
}

// ─── What a directory of an earlier version holds ─────────────────────

/// An entry of a data directory of an earlier version, as `read_dir` lists it.
#[derive(Clone, Debug)]
pub struct LegacyDirEntry {
    /// The entry's file name, decoded lossily.
    pub name: String,
    pub is_dir: bool,
    /// The entry is a directory holding `Battle.net.config`.
    pub has_config: bool,
    /// When the entry was last modified, if that can be read.
    pub modified: Option<i128>,
}

pub struct EntryView {
    pub name: Seq<char>,
    pub is_dir: bool,
    pub has_config: bool,
    pub modified: Option<i128>,
}

impl View for LegacyDirEntry {
    type V = EntryView;

    open spec fn view(&self) -> EntryView {
        EntryView {
            name: self.name@,
            is_dir: self.is_dir,
            has_config: self.has_config,
            modified: self.modified,
        }
    }
}

pub open spec fn entry_views(v: Seq<LegacyDirEntry>) -> Seq<EntryView> {
    v.map_values(|e: LegacyDirEntry| e@)
}

/// `x` is one of the strings of `v`.
pub open spec fn listed(v: Seq<Seq<char>>, x: Seq<char>) -> bool {
    exists|k: int| 0 <= k < v.len() && #[trigger] v[k] == x
}

/// No string occurs twice in `v`.
pub open spec fn distinct(v: Seq<Seq<char>>) -> bool {
    forall|i: int, j: int| 0 <= i < j < v.len() ==> v[i] != v[j]
}

proof fn lemma_listed_push(v: Seq<Seq<char>>, y: Seq<char>)
    ensures
        forall|x: Seq<char>| #[trigger] listed(v.push(y), x) == (listed(v, x) || x == y),
{
    assert forall|x: Seq<char>| #[trigger] listed(v.push(y), x) == (listed(v, x) || x == y) by {
        let w = v.push(y);
        if listed(v, x) {
            let k = choose|k: int| 0 <= k < v.len() && v[k] == x;
            assert(w[k] == x);
        }
        if x == y {
            assert(w[v.len() as int] == y);
        }
        if listed(w, x) {
            let k = choose|k: int| 0 <= k < w.len() && w[k] == x;
            if k < v.len() {
                assert(v[k] == x);
            }
        }
    }
}

fn is_listed(v: &Vec<String>, x: &str) -> (r: bool)
    ensures
        r == listed(strs(v@), x@),
{
    let ghost sv = strs(v@);
    let mut i: usize = 0;
    while i < v.len()
        invariant
            i <= v@.len(),
            sv == strs(v@),
            forall|q: int| 0 <= q < i ==> sv[q] != x@,
        decreases v.len() - i,
    {
        if str_eq(v[i].as_str(), x) {
            assert(sv[i as int] == x@);
            return true;
        }
        i = i + 1;
    }
    false
}

/// Some account among the first `n` has a non-empty identifier lowercasing to `x`.
pub open spec fn from_accounts(accs: Seq<AccountView>, n: int, x: Seq<char>) -> bool {
    exists|i: int| 0 <= i < n && (#[trigger] accs[i]).id.len() > 0 && lower_text(accs[i].id) == x
}

/// Some entry among the first `n` is a directory with a non-empty name lowercasing
/// to `x` that holds `Battle.net.config`.
pub open spec fn from_entries(es: Seq<EntryView>, n: int, x: Seq<char>) -> bool {
    exists|j: int|
        0 <= j < n && (#[trigger] es[j]).is_dir && es[j].name.len() > 0 && es[j].has_config
            && lower_text(es[j].name) == x
}

/// An account identifier (lowercased) that a directory of an earlier version offers:
/// one from its `accounts.json`, or the name of an account directory in it.
pub open spec fn importable_id(la: Seq<AccountView>, es: Seq<EntryView>, x: Seq<char>) -> bool {
    from_accounts(la, la.len() as int, x) || from_entries(es, es.len() as int, x)
}

proof fn lemma_from_accounts_step(accs: Seq<AccountView>, i: int)
    requires
        0 <= i < accs.len(),
    ensures
        forall|x: Seq<char>| #[trigger] from_accounts(accs, i + 1, x) == (from_accounts(accs, i, x)
            || (accs[i].id.len() > 0 && lower_text(accs[i].id) == x)),
{
    assert forall|x: Seq<char>| #[trigger] from_accounts(accs, i + 1, x) == (from_accounts(
        accs,
        i,
        x,
    ) || (accs[i].id.len() > 0 && lower_text(accs[i].id) == x)) by {
        if from_accounts(accs, i + 1, x) {
            let k = choose|k: int|
                0 <= k < i + 1 && (#[trigger] accs[k]).id.len() > 0 && lower_text(accs[k].id) == x;
            if k < i {
                assert(from_accounts(accs, i, x));
            }
        }
    }
}

proof fn lemma_from_entries_step(es: Seq<EntryView>, j: int)
    requires
        0 <= j < es.len(),
    ensures
        forall|x: Seq<char>| #[trigger] from_entries(es, j + 1, x) == (from_entries(es, j, x) || (
        es[j].is_dir && es[j].name.len() > 0 && es[j].has_config && lower_text(es[j].name) == x)),
{
    assert forall|x: Seq<char>| #[trigger] from_entries(es, j + 1, x) == (from_entries(es, j, x) || (
    es[j].is_dir && es[j].name.len() > 0 && es[j].has_config && lower_text(es[j].name) == x)) by {
        if from_entries(es, j + 1, x) {
            let k = choose|k: int|
                0 <= k < j + 1 && (#[trigger] es[k]).is_dir && es[k].name.len() > 0 && es[k].has_config
                    && lower_text(es[k].name) == x;
            if k < j {
                assert(from_entries(es, j, x));
            }
        }
    }
}

/// Adds `y` to `out` unless it is there.
fn add_unique(out: &mut Vec<String>, y: String)
    requires
        distinct(strs(old(out)@)),
    ensures
        distinct(strs(final(out)@)),
        forall|x: Seq<char>| #[trigger] listed(strs(final(out)@), x) == (listed(strs(old(out)@), x)
            || x == y@),
{
    let ghost before = strs(out@);
    if is_listed(out, y.as_str()) {
        return;
    }
    let ghost yv = y@;
    out.push(y);
    proof {
        assert(strs(out@) =~= before.push(yv));
        lemma_listed_push(before, yv);
        assert forall|i: int, j: int| 0 <= i < j < strs(out@).len() implies strs(out@)[i] != strs(
            out@,
        )[j] by {
            if j == before.len() {
                assert(strs(out@)[i] == before[i]);
            }
        }
    }
}

/// The account identifiers (lowercased, each once) that a data directory of an
/// earlier version offers: those of its `accounts.json` (`legacy_accounts`) that are
/// not empty, and the names of its entries that are directories holding
/// `Battle.net.config`.
pub fn importable_account_ids(legacy_accounts: &Vec<AccountInfo>, entries: &Vec<LegacyDirEntry>) -> (r:
    Vec<String>)
    ensures
        distinct(strs(r@)),
        forall|x: Seq<char>|
            #![trigger listed(strs(r@), x)]
            #![trigger importable_id(account_views(legacy_accounts@), entry_views(entries@), x)]
            listed(strs(r@), x) == importable_id(
                account_views(legacy_accounts@),
                entry_views(entries@),
                x,
            ),
{
    let ghost la = account_views(legacy_accounts@);
    let ghost es = entry_views(entries@);
    let mut out: Vec<String> = Vec::new();
    let mut i: usize = 0;
    while i < legacy_accounts.len()
        invariant
            i <= legacy_accounts@.len(),
            la == account_views(legacy_accounts@),
            distinct(strs(out@)),
            forall|x: Seq<char>| #[trigger] listed(strs(out@), x) == from_accounts(la, i as int, x),
        decreases legacy_accounts.len() - i,
    {
        proof {
            lemma_from_accounts_step(la, i as int);
        }
        if legacy_accounts[i].id.as_str().unicode_len() > 0 {
            let y = lower(legacy_accounts[i].id.as_str());
            add_unique(&mut out, y);
        }
        i = i + 1;
    }
    let mut j: usize = 0;
    while j < entries.len()
        invariant
            j <= entries@.len(),
            la == account_views(legacy_accounts@),
            es == entry_views(entries@),
            distinct(strs(out@)),
            forall|x: Seq<char>| #[trigger]
                listed(strs(out@), x) == (from_accounts(la, la.len() as int, x) || from_entries(
                    es,
                    j as int,
                    x,
                )),
        decreases entries.len() - j,
    {
        proof {
            lemma_from_entries_step(es, j as int);
        }
        let e = &entries[j];
        if e.is_dir && e.name.as_str().unicode_len() > 0 && e.has_config {
            let y = lower(e.name.as_str());
            add_unique(&mut out, y);
        }
        j = j + 1;
    }
    out
}

// ─── Whether a directory's data is already here ───────────────────────

/// What a directory of an earlier version and this one show on disk.
pub struct ImportCheck {
    /// The old directory holds `accounts.json`.
    pub legacy_accounts_exists: bool,
    /// This data directory holds `accounts.json`.
    pub current_accounts_exists: bool,
    /// When this `accounts.json` was last modified, if that can be read.
    pub current_modified: Option<i128>,
    /// When the old `accounts.json` was last modified, if that can be read.
    pub legacy_modified: Option<i128>,
    /// The importable identifiers whose account directory exists here and holds
    /// `Battle.net.config`.
    pub ids_with_data: Vec<String>,
}

/// Some account's identifier lowercases to `y`.
pub open spec fn account_known(accs: Seq<AccountView>, y: Seq<char>) -> bool {
    exists|i: int| 0 <= i < accs.len() && lower_text((#[trigger] accs[i]).id) == y
}

/// A directory of an earlier version counts as imported: both `accounts.json`
/// exist, it offers some account, every account it offers is here (by lowercased
/// identifier) with its directory, and this `accounts.json` is not older than the
/// old one.
pub open spec fn already_imported(
    current: Seq<AccountView>,
    la: Seq<AccountView>,
    es: Seq<EntryView>,
    chk: ImportCheck,
) -> bool {
    &&& chk.legacy_accounts_exists
    &&& chk.current_accounts_exists
    &&& exists|x: Seq<char>| #[trigger] importable_id(la, es, x)
    &&& forall|x: Seq<char>| #[trigger]
        importable_id(la, es, x) ==> account_known(current, lower_text(x))
    &&& match (chk.current_modified, chk.legacy_modified) {
        (Some(c), Some(l)) => c >= l,
        _ => false,
    }
    &&& forall|x: Seq<char>| #[trigger]
        importable_id(la, es, x) ==> listed(strs(chk.ids_with_data@), x)
}

/// The lowercased identifiers of the accounts, in order.
fn lowered_account_ids(accounts: &Vec<AccountInfo>) -> (r: Vec<String>)
    ensures
        forall|y: Seq<char>| #[trigger]
            listed(strs(r@), y) == account_known(account_views(accounts@), y),
{
    let ghost av = account_views(accounts@);
    let mut out: Vec<String> = Vec::new();
    let mut i: usize = 0;
    while i < accounts.len()
        invariant
            i <= accounts@.len(),
            av == account_views(accounts@),
            out@.len() == i,
            forall|k: int| 0 <= k < i ==> #[trigger] strs(out@)[k] == lower_text(av[k].id),
        decreases accounts.len() - i,
    {
        let ghost before = strs(out@);
        let y = lower(accounts[i].id.as_str());
        out.push(y);
        proof {
            assert(strs(out@) =~= before.push(lower_text(av[i as int].id)));
        }
        i = i + 1;
    }
    proof {
        assert forall|y: Seq<char>| #[trigger] listed(strs(out@), y) == account_known(av, y) by {
            if listed(strs(out@), y) {
                let k = choose|k: int| 0 <= k < strs(out@).len() && strs(out@)[k] == y;
                assert(lower_text(av[k].id) == y);
            }
            if account_known(av, y) {
                let k = choose|k: int| 0 <= k < av.len() && lower_text((#[trigger] av[k]).id) == y;
                assert(strs(out@)[k] == y);
            }
        }
    }
    out
}

impl BattleNetCore {
    /// Whether the data of a directory of an earlier version (its `accounts.json`
    /// holding `legacy_accounts`, its entries `entries`) is already here, as `check`
    /// shows the disk.
    #[verifier::loop_isolation(false)]
    pub fn looks_like_data_directory_already_imported(
        &self,
        legacy_accounts: &Vec<AccountInfo>,
        entries: &Vec<LegacyDirEntry>,
        check: &ImportCheck,
    ) -> (r: bool)
        ensures
            r == already_imported(
                account_views(self.accounts@),
                account_views(legacy_accounts@),
                entry_views(entries@),
                *check,
            ),
    {
        let ghost la = account_views(legacy_accounts@);
        let ghost es = entry_views(entries@);
        let ids = importable_account_ids(legacy_accounts, entries);
        if !check.legacy_accounts_exists || !check.current_accounts_exists {
            return false;
        }
        if ids.len() == 0 {
            proof {
                assert forall|x: Seq<char>| !#[trigger] importable_id(la, es, x) by {
                    assert(!listed(strs(ids@), x));
                }
            }
            return false;
        }
        proof {
            assert(listed(strs(ids@), strs(ids@)[0]));
            assert(importable_id(la, es, strs(ids@)[0]));
        }
        let current = lowered_account_ids(&self.accounts);
        let ghost cur = account_views(self.accounts@);
        let mut i: usize = 0;
        while i < ids.len()
            invariant
                i <= ids@.len(),
                cur == account_views(self.accounts@),
                forall|y: Seq<char>| #[trigger] listed(strs(current@), y) == account_known(cur, y),
                forall|k: int| 0 <= k < i ==> account_known(cur, lower_text(#[trigger] strs(ids@)[k])),
            decreases ids.len() - i,
        {
            let y = lower(ids[i].as_str());
            if !is_listed(&current, y.as_str()) {
                proof {
                    let x = strs(ids@)[i as int];
                    assert(listed(strs(ids@), x));
                    assert(importable_id(la, es, x));
                    assert(!account_known(cur, lower_text(x)));
                }
                return false;
            }
            i = i + 1;
        }
        let fresh = match (check.current_modified, check.legacy_modified) {
            (Some(c), Some(l)) => c >= l,
            _ => false,
        };
        if !fresh {
            return false;
        }
        let mut j: usize = 0;
        while j < ids.len()
            invariant
                j <= ids@.len(),
                forall|k: int|
                    0 <= k < j ==> listed(strs(check.ids_with_data@), #[trigger] strs(ids@)[k]),
            decreases ids.len() - j,
        {
            if !is_listed(&check.ids_with_data, ids[j].as_str()) {
                proof {
                    let x = strs(ids@)[j as int];
                    assert(listed(strs(ids@), x));
                    assert(importable_id(la, es, x));
                }
                return false;
            }
            j = j + 1;
        }
        proof {
            assert forall|x: Seq<char>| #[trigger] importable_id(la, es, x) implies account_known(
                cur,
                lower_text(x),
            ) && listed(strs(check.ids_with_data@), x) by {
                assert(listed(strs(ids@), x));
                let k = choose|k: int| 0 <= k < strs(ids@).len() && strs(ids@)[k] == x;
                assert(account_known(cur, lower_text(strs(ids@)[k])));
                assert(listed(strs(check.ids_with_data@), strs(ids@)[k]));
            }
        }
        true
    }
}

/// What is done with a data directory of an earlier version.
#[derive(Clone, Copy, Debug, PartialEq, Eq, Structural)]
pub enum ImportStep {
    /// It was imported before: nothing is done.
    Skip,
    /// Its data is already here: it is only recorded as imported.
    Remember,
    /// Its data is merged in, then it is recorded as imported.
    MergeAndRemember,
}

impl BattleNetCore {
    /// What is done with the data directory at `normalized_path`, given what was
    /// recorded in `state` and what the directory and this one hold.
    pub fn import_step(
        &self,
        state: &LegacyMigrationState,
        normalized_path: &str,
        legacy_accounts: &Vec<AccountInfo>,
        entries: &Vec<LegacyDirEntry>,
        check: &ImportCheck,
    ) -> (r: ImportStep)
        ensures
            is_migrated(dir_views(state.data_directories@), normalized_path@) ==> r is Skip,
            !is_migrated(dir_views(state.data_directories@), normalized_path@) && already_imported(
                account_views(self.accounts@),
                account_views(legacy_accounts@),
                entry_views(entries@),
                *check,
            ) ==> r is Remember,
            !is_migrated(dir_views(state.data_directories@), normalized_path@) && !already_imported(
                account_views(self.accounts@),
                account_views(legacy_accounts@),
                entry_views(entries@),
                *check,
            ) ==> r is MergeAndRemember,
    {
        if has_migrated_data_directory(state, normalized_path) {
            ImportStep::Skip
        } else if self.looks_like_data_directory_already_imported(legacy_accounts, entries, check) {
            ImportStep::Remember
        } else {
            ImportStep::MergeAndRemember
        }
    }
}

// ─── Merging a directory of an earlier version ────────────────────────

/// Some group's identifier lowercases to `y`.
pub open spec fn group_known(gs: Seq<GroupView>, y: Seq<char>) -> bool {
    exists|i: int| 0 <= i < gs.len() && lower_text((#[trigger] gs[i]).id) == y
}

/// The groups after merging `legacy` into `base`, in order: a group whose identifier
/// is not empty and not yet among them (lowercased) is appended.
pub open spec fn merged_groups(base: Seq<GroupView>, legacy: Seq<GroupView>) -> Seq<GroupView>
    decreases legacy.len(),
{
    if legacy.len() == 0 {
        base
    } else {
        let g = merged_groups(base, legacy.drop_last());
        let l = legacy.last();
        if l.id.len() > 0 && !group_known(g, lower_text(l.id)) {
            g.push(l)
        } else {
            g
        }
    }
}

/// The accounts after merging `legacy` into `base`, in order: an account whose
/// identifier is not empty and not yet among them (lowercased) is appended.
pub open spec fn merged_accounts(base: Seq<AccountView>, legacy: Seq<AccountView>) -> Seq<
    AccountView,
>
    decreases legacy.len(),
{
    if legacy.len() == 0 {
        base
    } else {
        let a = merged_accounts(base, legacy.drop_last());
        let l = legacy.last();
        if l.id.len() > 0 && !account_known(a, lower_text(l.id)) {
            a.push(l)
        } else {
            a
        }
    }
}

/// The account directories to copy for the appended accounts, in order, each
/// without overwriting.
pub open spec fn merged_copies(base: Seq<AccountView>, legacy: Seq<AccountView>) -> Seq<
    (Seq<char>, bool),
>
    decreases legacy.len(),
{
    if legacy.len() == 0 {
        seq![]
    } else {
        let c = merged_copies(base, legacy.drop_last());
        let a = merged_accounts(base, legacy.drop_last());
        let l = legacy.last();
        if l.id.len() > 0 && !account_known(a, lower_text(l.id)) {
            c.push((l.id, false))
        } else {
            c
        }
    }
}

/// The remark of the `n`-th recovered account.
pub open spec fn recovered_remark(n: nat) -> Seq<char> {
    "恢复账号 "@ + decimal(n)
}

/// The account recovered from directory entry `e` as the `n`-th one: named after
/// the directory, last used when it was modified (or `now`), in no group, in the
/// `cn` region.
pub open spec fn recovered_account(e: EntryView, n: nat, now: i128) -> AccountView {
    AccountView {
        id: e.name,
        remark: recovered_remark(n),
        username: seq![],
        last_used: match e.modified {
            Some(t) => t,
            None => now,
        },
        group_id: seq![],
        tags: seq![],
        region: cn(),
    }
}

/// Recovering account directories from the entries, in order: a directory named
/// after a known account is copied over this one's; another directory holding
/// `Battle.net.config` becomes a recovered account and is copied. Gives the
/// accounts, the number of the next recovered account, and the copies.
pub open spec fn recovered(accs: Seq<AccountView>, es: Seq<EntryView>, now: i128) -> (
    Seq<AccountView>,
    nat,
    Seq<(Seq<char>, bool)>,
)
    decreases es.len(),
{
    if es.len() == 0 {
        (accs, 1, seq![])
    } else {
        let (a, n, c) = recovered(accs, es.drop_last(), now);
        let e = es.last();
        if !e.is_dir {
            (a, n, c)
        } else if account_known(a, lower_text(e.name)) {
            (a, n, c.push((e.name, true)))
        } else if !e.has_config {
            (a, n, c)
        } else {
            (a.push(recovered_account(e, n, now)), n + 1, c.push((e.name, true)))
        }
    }
}

/// What merging a directory of an earlier version makes of the store, and which
/// account directories it copies (name, whether to overwrite): its groups (`lg`, as
/// read, normalised at `now`) and accounts (`la`) are merged in, and account
/// directories among its entries `es` are recovered. Each file is written only
/// when something was added to it.
pub open spec fn merge_v(
    c: CoreView,
    lg: Seq<GroupView>,
    la: Seq<AccountView>,
    es: Seq<EntryView>,
    now: i128,
) -> (CoreView, Seq<(Seq<char>, bool)>) {
    let gs0 = read_groups_v(c, now);
    let gs = merged_groups(gs0, normalized_groups(lg, now));
    let c1 = if gs.len() > gs0.len() {
        with_groups(c, gs, now)
    } else {
        c
    };
    let a1 = merged_accounts(c.accounts, la);
    let r = recovered(a1, es, now);
    let c2 = if r.0.len() > c.accounts.len() {
        CoreView { accounts: normalized_stored(r.0, c1.groups), accounts_saved: true, ..c1 }
    } else {
        c1
    };
    (c2, merged_copies(c.accounts, la) + r.2)
}

/// Every account of `legacy` with an identifier is known after merging it.
proof fn lemma_merged_accounts_know(base: Seq<AccountView>, legacy: Seq<AccountView>)
    ensures
        forall|k: int|
            0 <= k < legacy.len() && (#[trigger] legacy[k]).id.len() > 0 ==> account_known(
                merged_accounts(base, legacy),
                lower_text(legacy[k].id),
            ),
        forall|y: Seq<char>| account_known(base, y) ==> #[trigger] account_known(
            merged_accounts(base, legacy),
            y,
        ),
    decreases legacy.len(),
{
    if legacy.len() > 0 {
        let d = legacy.drop_last();
        lemma_merged_accounts_know(base, d);
        let a = merged_accounts(base, d);
        let l = legacy.last();
        if l.id.len() > 0 && !account_known(a, lower_text(l.id)) {
            lemma_account_known_push(a, l);
        }
        assert forall|k: int|
            0 <= k < legacy.len() && (#[trigger] legacy[k]).id.len() > 0 implies account_known(
            merged_accounts(base, legacy),
            lower_text(legacy[k].id),
        ) by {
            if k < legacy.len() - 1 {
                assert(legacy[k] == d[k]);
                assert(account_known(a, lower_text(d[k].id)));
            }
        }
    }
}

/// Merging accounts that are all known already changes nothing and copies nothing.
proof fn lemma_merged_accounts_known(base: Seq<AccountView>, legacy: Seq<AccountView>)
    requires
        forall|k: int|
            0 <= k < legacy.len() && (#[trigger] legacy[k]).id.len() > 0 ==> account_known(
                base,
                lower_text(legacy[k].id),
            ),
    ensures
        merged_accounts(base, legacy) == base,
        merged_copies(base, legacy) == Seq::<(Seq<char>, bool)>::empty(),
    decreases legacy.len(),
{
    if legacy.len() > 0 {
        let d = legacy.drop_last();
        assert forall|k: int| 0 <= k < d.len() && (#[trigger] d[k]).id.len() > 0 implies account_known(
            base,
            lower_text(d[k].id),
        ) by {
            assert(d[k] == legacy[k]);
        }
        lemma_merged_accounts_known(base, d);
        assert(legacy.last() == legacy[legacy.len() - 1]);
    }
}

/// Every group of `legacy` with an identifier is known after merging it.
proof fn lemma_merged_groups_know(base: Seq<GroupView>, legacy: Seq<GroupView>)
    ensures
        forall|k: int|
            0 <= k < legacy.len() && (#[trigger] legacy[k]).id.len() > 0 ==> group_known(
                merged_groups(base, legacy),
                lower_text(legacy[k].id),
            ),
        forall|y: Seq<char>| group_known(base, y) ==> #[trigger] group_known(
            merged_groups(base, legacy),
            y,
        ),
    decreases legacy.len(),
{
    if legacy.len() > 0 {
        let d = legacy.drop_last();
        lemma_merged_groups_know(base, d);
        let g = merged_groups(base, d);
        let l = legacy.last();
        if l.id.len() > 0 && !group_known(g, lower_text(l.id)) {
            lemma_group_known_push(g, l);
        }
        assert forall|k: int|
            0 <= k < legacy.len() && (#[trigger] legacy[k]).id.len() > 0 implies group_known(
            merged_groups(base, legacy),
            lower_text(legacy[k].id),
        ) by {
            if k < legacy.len() - 1 {
                assert(legacy[k] == d[k]);
                assert(group_known(g, lower_text(d[k].id)));
            }
        }
    }
}

/// Merging groups that are all known already changes nothing.
proof fn lemma_merged_groups_known(base: Seq<GroupView>, legacy: Seq<GroupView>)
    requires
        forall|k: int|
            0 <= k < legacy.len() && (#[trigger] legacy[k]).id.len() > 0 ==> group_known(
                base,
                lower_text(legacy[k].id),
            ),
    ensures
        merged_groups(base, legacy) == base,
    decreases legacy.len(),
{
    if legacy.len() > 0 {
        let d = legacy.drop_last();
        assert forall|k: int| 0 <= k < d.len() && (#[trigger] d[k]).id.len() > 0 implies group_known(
            base,
            lower_text(d[k].id),
        ) by {
            assert(d[k] == legacy[k]);
        }
        lemma_merged_groups_known(base, d);
        assert(legacy.last() == legacy[legacy.len() - 1]);
    }
}

/// Merging the same groups and accounts a second time adds nothing and copies
/// nothing: an import is not repeated by importing again.
pub proof fn lemma_merge_again(
    groups: Seq<GroupView>,
    accounts: Seq<AccountView>,
    legacy_groups: Seq<GroupView>,
    legacy_accounts: Seq<AccountView>,
)
    ensures
        merged_groups(merged_groups(groups, legacy_groups), legacy_groups) == merged_groups(
            groups,
            legacy_groups,
        ),
        merged_accounts(merged_accounts(accounts, legacy_accounts), legacy_accounts)
            == merged_accounts(accounts, legacy_accounts),
        merged_copies(merged_accounts(accounts, legacy_accounts), legacy_accounts)
            == Seq::<(Seq<char>, bool)>::empty(),
{
    lemma_merged_groups_know(groups, legacy_groups);
    lemma_merged_groups_known(merged_groups(groups, legacy_groups), legacy_groups);
    lemma_merged_accounts_know(accounts, legacy_accounts);
    lemma_merged_accounts_known(merged_accounts(accounts, legacy_accounts), legacy_accounts);
}

/// The views of copy actions.
pub open spec fn copy_views(v: Seq<(String, bool)>) -> Seq<(Seq<char>, bool)> {
    v.map_values(|p: (String, bool)| (p.0@, p.1))
}

proof fn lemma_group_known_push(gs: Seq<GroupView>, g: GroupView)
    ensures
        forall|y: Seq<char>| #[trigger]
            group_known(gs.push(g), y) == (group_known(gs, y) || lower_text(g.id) == y),
{
    assert forall|y: Seq<char>| #[trigger]
        group_known(gs.push(g), y) == (group_known(gs, y) || lower_text(g.id) == y) by {
        let w = gs.push(g);
        if group_known(gs, y) {
            let k = choose|k: int| 0 <= k < gs.len() && lower_text((#[trigger] gs[k]).id) == y;
            assert(w[k] == gs[k]);
        }
        if lower_text(g.id) == y {
            assert(w[gs.len() as int] == g);
        }
        if group_known(w, y) {
            let k = choose|k: int| 0 <= k < w.len() && lower_text((#[trigger] w[k]).id) == y;
            if k < gs.len() {
                assert(w[k] == gs[k]);
            }
        }
    }
}

proof fn lemma_account_known_push(accs: Seq<AccountView>, a: AccountView)
    ensures
        forall|y: Seq<char>| #[trigger]
            account_known(accs.push(a), y) == (account_known(accs, y) || lower_text(a.id) == y),
{
    assert forall|y: Seq<char>| #[trigger]
        account_known(accs.push(a), y) == (account_known(accs, y) || lower_text(a.id) == y) by {
        let w = accs.push(a);
        if account_known(accs, y) {
            let k = choose|k: int| 0 <= k < accs.len() && lower_text((#[trigger] accs[k]).id) == y;
            assert(w[k] == accs[k]);
        }
        if lower_text(a.id) == y {
            assert(w[accs.len() as int] == a);
        }
        if account_known(w, y) {
            let k = choose|k: int| 0 <= k < w.len() && lower_text((#[trigger] w[k]).id) == y;
            if k < accs.len() {
                assert(w[k] == accs[k]);
            }
        }
    }
}

/// The lowercased identifiers of the groups, in order.
fn lowered_group_ids(groups: &Vec<GroupInfo>) -> (r: Vec<String>)
    ensures
        forall|y: Seq<char>| #[trigger] listed(strs(r@), y) == group_known(group_views(groups@), y),
{
    let ghost gv = group_views(groups@);
    let mut out: Vec<String> = Vec::new();
    let mut i: usize = 0;
    while i < groups.len()
        invariant
            i <= groups@.len(),
            gv == group_views(groups@),
            out@.len() == i,
            forall|k: int| 0 <= k < i ==> #[trigger] strs(out@)[k] == lower_text(gv[k].id),
        decreases groups.len() - i,
    {
        let ghost before = strs(out@);
        let y = lower(groups[i].id.as_str());
        out.push(y);
        proof {
            assert(strs(out@) =~= before.push(lower_text(gv[i as int].id)));
        }
        i = i + 1;
    }
    proof {
        assert forall|y: Seq<char>| #[trigger] listed(strs(out@), y) == group_known(gv, y) by {
            if listed(strs(out@), y) {
                let k = choose|k: int| 0 <= k < strs(out@).len() && strs(out@)[k] == y;
                assert(lower_text(gv[k].id) == y);
            }
            if group_known(gv, y) {
                let k = choose|k: int| 0 <= k < gv.len() && lower_text((#[trigger] gv[k]).id) == y;
                assert(strs(out@)[k] == y);
            }
        }
    }
    out
}

/// The `n`-th recovered account for directory entry `e`.
fn recovered_account_info(e: &LegacyDirEntry, n: u64, now: i128) -> (r: AccountInfo)
    ensures
        r@ == recovered_account(e@, n as nat, now),
{
    let number = string_of(&decimal_u64(n));
    let remark = concat_str("恢复账号 ", number.as_str());
    let last_used = match e.modified {
        Some(t) => t,
        None => now,
    };
    let tags: Vec<String> = Vec::new();
    let r = AccountInfo {
        id: String::from_str(e.name.as_str()),
        remark,
        username: String::new(),
        last_used,
        group_id: String::new(),
        tags,
        region: default_region(),
    };
    assert(strs(r.tags@) =~= Seq::<Seq<char>>::empty());
    assert(r.username@ =~= Seq::<char>::empty());
    assert(r.group_id@ =~= Seq::<char>::empty());
    r
}

impl BattleNetCore {
    /// Merges a data directory of an earlier version into the store at `now`: its
    /// groups (`legacy_groups`, as its `groups.json` holds them) and accounts
    /// (`legacy_accounts`) that are not here yet (by lowercased identifier) are
    /// appended, and its entries are searched for account directories to recover.
    /// Gives the account directories to copy from it, in order, with whether to
    /// overwrite the copy here.
    #[verifier::loop_isolation(false)]
    pub fn merge_legacy_data(
        &mut self,
        legacy_groups: &Vec<GroupInfo>,
        legacy_accounts: &Vec<AccountInfo>,
        entries: &Vec<LegacyDirEntry>,
        now: i128,
    ) -> (copies: Vec<(String, bool)>)
        requires
            entries@.len() < u64::MAX,
        ensures
            (final(self)@, copy_views(copies@)) == merge_v(
                old(self)@,
                group_views(legacy_groups@),
                account_views(legacy_accounts@),
                entry_views(entries@),
                now,
            ),
    {
        let ghost c = self@;
        let ghost lav = account_views(legacy_accounts@);
        let ghost ev = entry_views(entries@);
        // Groups.
        let mut groups = self.read_groups(now);
        let ghost gs0 = group_views(groups@);
        let mut group_ids = lowered_group_ids(&groups);
        let mut lg = copy_groups(legacy_groups);
        normalize_groups(&mut lg, now);
        let ghost lgv = group_views(lg@);
        let base_groups = groups.len();
        let mut i: usize = 0;
        assert(lgv.take(0) =~= Seq::<GroupView>::empty());
        while i < lg.len()
            invariant
                i <= lg@.len(),
                lgv == group_views(lg@),
                base_groups == gs0.len(),
                group_views(groups@) == merged_groups(gs0, lgv.take(i as int)),
                forall|y: Seq<char>| #[trigger]
                    listed(strs(group_ids@), y) == group_known(group_views(groups@), y),
                groups@.len() >= base_groups,
            decreases lg.len() - i,
        {
            proof {
                assert(lgv.take(i + 1).drop_last() =~= lgv.take(i as int));
                assert(lgv.take(i + 1).last() == lgv[i as int]);
            }
            if lg[i].id.as_str().unicode_len() > 0 {
                let y = lower(lg[i].id.as_str());
                if !is_listed(&group_ids, y.as_str()) {
                    let ghost before = group_views(groups@);
                    let ghost ids_before = strs(group_ids@);
                    let ghost yv = y@;
                    group_ids.push(y);
                    groups.push(lg[i].copy());
                    proof {
                        assert(group_views(groups@) =~= before.push(lgv[i as int]));
                        assert(strs(group_ids@) =~= ids_before.push(yv));
                        lemma_listed_push(ids_before, yv);
                        lemma_group_known_push(before, lgv[i as int]);
                    }
                }
            }
            i = i + 1;
        }
        assert(lgv.take(lg@.len() as int) =~= lgv);
        if groups.len() > base_groups {
            self.save_groups(&groups, now);
        }
        let ghost c1 = self@;
        // Accounts.
        let mut accounts = copy_accounts(&self.accounts);
        let ghost a0 = account_views(accounts@);
        let base_accounts = accounts.len();
        let mut account_ids = lowered_account_ids(&accounts);
        let mut copies: Vec<(String, bool)> = Vec::new();
        let mut k: usize = 0;
        assert(lav.take(0) =~= Seq::<AccountView>::empty());
        assert(copy_views(copies@) =~= Seq::<(Seq<char>, bool)>::empty());
        while k < legacy_accounts.len()
            invariant
                k <= legacy_accounts@.len(),
                lav == account_views(legacy_accounts@),
                base_accounts == a0.len(),
                account_views(accounts@) == merged_accounts(a0, lav.take(k as int)),
                copy_views(copies@) == merged_copies(a0, lav.take(k as int)),
                forall|y: Seq<char>| #[trigger]
                    listed(strs(account_ids@), y) == account_known(account_views(accounts@), y),
                accounts@.len() >= base_accounts,
            decreases legacy_accounts.len() - k,
        {
            proof {
                assert(lav.take(k + 1).drop_last() =~= lav.take(k as int));
                assert(lav.take(k + 1).last() == lav[k as int]);
            }
            if legacy_accounts[k].id.as_str().unicode_len() > 0 {
                let y = lower(legacy_accounts[k].id.as_str());
                if !is_listed(&account_ids, y.as_str()) {
                    let ghost before = account_views(accounts@);
                    let ghost ids_before = strs(account_ids@);
                    let ghost copies_before = copy_views(copies@);
                    let ghost yv = y@;
                    account_ids.push(y);
                    accounts.push(legacy_accounts[k].copy());
                    copies.push((String::from_str(legacy_accounts[k].id.as_str()), false));
                    proof {
                        assert(account_views(accounts@) =~= before.push(lav[k as int]));
                        assert(strs(account_ids@) =~= ids_before.push(yv));
                        assert(copy_views(copies@) =~= copies_before.push((lav[k as int].id, false)));
                        lemma_listed_push(ids_before, yv);
                        lemma_account_known_push(before, lav[k as int]);
                    }
                }
            }
            k = k + 1;
        }
        assert(lav.take(legacy_accounts@.len() as int) =~= lav);
        let ghost a1 = account_views(accounts@);
        let ghost copies1 = copy_views(copies@);
        // Recovering account directories.
        let mut next: u64 = 1;
        let mut j: usize = 0;
        assert(ev.take(0) =~= Seq::<EntryView>::empty());
        assert(copies1 + Seq::<(Seq<char>, bool)>::empty() =~= copies1);
        while j < entries.len()
            invariant
                j <= entries@.len(),
                entries@.len() < u64::MAX,
                ev == entry_views(entries@),
                next <= j + 1,
                account_views(accounts@) == recovered(a1, ev.take(j as int), now).0,
                next as nat == recovered(a1, ev.take(j as int), now).1,
                copy_views(copies@) == copies1 + recovered(a1, ev.take(j as int), now).2,
                forall|y: Seq<char>| #[trigger]
                    listed(strs(account_ids@), y) == account_known(account_views(accounts@), y),
                accounts@.len() >= a1.len(),
            decreases entries.len() - j,
        {
            proof {
                assert(ev.take(j + 1).drop_last() =~= ev.take(j as int));
                assert(ev.take(j + 1).last() == ev[j as int]);
            }
            let e = &entries[j];
            if e.is_dir {
                let y = lower(e.name.as_str());
                let ghost copies_before = copy_views(copies@);
                if is_listed(&account_ids, y.as_str()) {
                    copies.push((String::from_str(e.name.as_str()), true));
                    proof {
                        assert(copy_views(copies@) =~= copies_before.push((ev[j as int].name, true)));
                        assert(copies1 + recovered(a1, ev.take(j as int), now).2.push(
                            (ev[j as int].name, true),
                        ) =~= (copies1 + recovered(a1, ev.take(j as int), now).2).push(
                            (ev[j as int].name, true),
                        ));
                    }
                } else if e.has_config {
                    let ghost before = account_views(accounts@);
                    let ghost ids_before = strs(account_ids@);
                    let ghost yv = y@;
                    let acc = recovered_account_info(e, next, now);
                    account_ids.push(y);
                    accounts.push(acc);
                    copies.push((String::from_str(e.name.as_str()), true));
                    next = next + 1;
                    proof {
                        let ra = recovered_account(ev[j as int], (next - 1) as nat, now);
                        assert(account_views(accounts@) =~= before.push(ra));
                        assert(strs(account_ids@) =~= ids_before.push(yv));
                        assert(copy_views(copies@) =~= copies_before.push((ev[j as int].name, true)));
                        assert(copies1 + recovered(a1, ev.take(j as int), now).2.push(
                            (ev[j as int].name, true),
                        ) =~= (copies1 + recovered(a1, ev.take(j as int), now).2).push(
                            (ev[j as int].name, true),
                        ));
                        lemma_listed_push(ids_before, yv);
                        lemma_account_known_push(before, ra);
                    }
                }
            }
            j = j + 1;
        }
        assert(ev.take(entries@.len() as int) =~= ev);
        if accounts.len() > base_accounts {
            self.save_accounts(&accounts);
        }
        copies
    }
}

} // verus!
