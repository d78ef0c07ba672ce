//! Normalising the stored groups and accounts: the default group comes first,
//! group names are trimmed and never empty, tags are trimmed and distinct, and
//! every account has a known group (or none) and a region.
use vstd::prelude::*;

use crate::models::{
    account_views, group_views, strs, AccountInfo, AccountView, GroupInfo, GroupView,
};
use crate::region::{cn, normalize_region, normalized_region};
use crate::text::{chars_of, string_of, str_eq, trim, trimmed};

verus! {

pub const DEFAULT_GROUP_ID: &'static str = "default";
pub const DEFAULT_GROUP_NAME: &'static str = "默认分组";
pub const UNNAMED_GROUP_NAME: &'static str = "未命名分组";

pub open spec fn default_id() -> Seq<char> {
    "default"@
}

pub open spec fn default_name() -> Seq<char> {
    "默认分组"@
}

pub open spec fn unnamed() -> Seq<char> {
    "未命名分组"@
}

/// The default group, created at `now`.
pub open spec fn default_group(now: i128) -> GroupView {
    GroupView { id: default_id(), name: default_name(), created_at: now }
}

/// What `normalize_group_name` gives.
pub open spec fn group_name_of(name: Seq<char>) -> Seq<char> {
    trimmed(name)
}

/// A group name is trimmed.
pub fn normalize_group_name(name: &str) -> (r: String)
    ensures
        r@ == group_name_of(name@),
{
    trim(name)
}

// ─── Groups ───────────────────────────────────────────────────────────

/// The groups that have an identifier, in order.
pub open spec fn with_ids(gs: Seq<GroupView>) -> Seq<GroupView>
    decreases gs.len(),
{
    if gs.len() == 0 {
        Seq::empty()
    } else if gs.last().id.len() > 0 {
        with_ids(gs.drop_last()).push(gs.last())
    } else {
        with_ids(gs.drop_last())
    }
}

/// The position of the first group with identifier `id`.
pub open spec fn group_index(gs: Seq<GroupView>, id: Seq<char>) -> Option<int>
    decreases gs.len(),
{
    if gs.len() == 0 {
        None
    } else if gs.last().id == id && group_index(gs.drop_last(), id) is None {
        Some(gs.len() - 1)
    } else {
        group_index(gs.drop_last(), id)
    }
}

/// The groups with identifiers, the default group first (the first one with
/// that identifier moved to the front, or a new one made at `now`).
pub open spec fn ordered_groups(gs: Seq<GroupView>, now: i128) -> Seq<GroupView> {
    let k = with_ids(gs);
    match group_index(k, default_id()) {
        Some(p) => seq![k[p]] + k.remove(p),
        None => seq![default_group(now)] + k,
    }
}

/// A group with its name trimmed, named "未命名分组" when that leaves nothing.
pub open spec fn named_group(g: GroupView) -> GroupView {
    GroupView {
        name: if trimmed(g.name).len() == 0 {
            unnamed()
        } else {
            trimmed(g.name)
        },
        ..g
    }
}

/// What `normalize_groups` makes of a list of groups.
pub open spec fn normalized_groups(gs: Seq<GroupView>, now: i128) -> Seq<GroupView> {
    ordered_groups(gs, now).map_values(|g: GroupView| named_group(g))
}

proof fn lemma_with_ids_all(gs: Seq<GroupView>)
    requires
        forall|k: int| 0 <= k < gs.len() ==> (#[trigger] gs[k]).id.len() > 0,
    ensures
        with_ids(gs) == gs,
    decreases gs.len(),
{
    if gs.len() > 0 {
        let d = gs.drop_last();
        assert forall|k: int| 0 <= k < d.len() implies (#[trigger] d[k]).id.len() > 0 by {
            assert(d[k] == gs[k]);
        }
        lemma_with_ids_all(d);
        assert(d.push(gs.last()) =~= gs);
    }
}

proof fn lemma_named_group_idempotent(g: GroupView)
    ensures
        named_group(named_group(g)) == named_group(g),
{
    crate::text::lemma_trimmed_idempotent(g.name);
    assert(trimmed(unnamed()) == unnamed()) by {
        reveal_strlit("未命名分组");
        let u = unnamed();
        assert(!crate::text::is_ws(u[0]));
        assert(!crate::text::is_ws(u[u.len() - 1]));
        reveal_with_fuel(crate::text::trim_start, 2);
        reveal_with_fuel(crate::text::trim_end, 2);
    }
}

/// Normalising normalised groups changes nothing, whenever it is done.
pub proof fn lemma_normalized_groups_idempotent(gs: Seq<GroupView>, t1: i128, t2: i128)
    ensures
        normalized_groups(normalized_groups(gs, t1), t2) == normalized_groups(gs, t1),
{
    let n = normalized_groups(gs, t1);
    lemma_normalized_groups(gs, t1);
    lemma_with_ids_all(n);
    lemma_group_index(n, default_id());
    assert(group_index(n, default_id()) == Some(0int));
    assert(seq![n[0]] + n.remove(0) =~= n);
    assert forall|k: int| 0 <= k < n.len() implies #[trigger] named_group(n[k]) == n[k] by {
        let o = ordered_groups(gs, t1);
        assert(n[k] == named_group(o[k]));
        lemma_named_group_idempotent(o[k]);
    }
    assert(normalized_groups(n, t2) =~= n);
}

/// Appending a group with a non-default identifier and a normalised name to
/// normalised groups gives groups that normalising leaves as they are.
pub proof fn lemma_normalized_push(gs: Seq<GroupView>, t0: i128, g: GroupView, t: i128)
    requires
        g.id.len() > 0,
        g.id != default_id(),
        named_group(g) == g,
    ensures
        normalized_groups(normalized_groups(gs, t0).push(g), t) == normalized_groups(gs, t0).push(
            g,
        ),
{
    let n = normalized_groups(gs, t0);
    let m = n.push(g);
    lemma_normalized_groups(gs, t0);
    lemma_normalized_groups_idempotent(gs, t0, t);
    assert forall|k: int| 0 <= k < m.len() implies (#[trigger] m[k]).id.len() > 0 by {
        if k < n.len() {
            assert(m[k] == n[k]);
        }
    }
    lemma_with_ids_all(m);
    lemma_group_index(m, default_id());
    assert(m[0] == n[0]);
    assert(group_index(m, default_id()) == Some(0int));
    assert(seq![m[0]] + m.remove(0) =~= m);
    assert forall|k: int| 0 <= k < m.len() implies #[trigger] named_group(m[k]) == m[k] by {
        if k < n.len() {
            assert(m[k] == n[k]);
            let o = ordered_groups(gs, t0);
            assert(n[k] == named_group(o[k]));
            lemma_named_group_idempotent(o[k]);
        }
    }
    assert(normalized_groups(m, t) =~= m);
}

/// Normalising at another time changes no identifier and no name, only the
/// creation time of a default group made while normalising.
pub proof fn lemma_normalized_names(gs: Seq<GroupView>, t1: i128, t2: i128)
    ensures
        normalized_groups(gs, t1).len() == normalized_groups(gs, t2).len(),
        forall|k: int|
            0 <= k < normalized_groups(gs, t1).len() ==> (#[trigger] normalized_groups(gs, t1)[k]).id
                == normalized_groups(gs, t2)[k].id && normalized_groups(gs, t1)[k].name
                == normalized_groups(gs, t2)[k].name,
{
    let o1 = ordered_groups(gs, t1);
    let o2 = ordered_groups(gs, t2);
    assert(o1.len() == o2.len());
    assert forall|k: int| 0 <= k < o1.len() implies o1[k].id == o2[k].id && o1[k].name
        == o2[k].name by {}
}

/// Some group has identifier `id`.
pub open spec fn has_group(gs: Seq<GroupView>, id: Seq<char>) -> bool {
    exists|i: int| 0 <= i < gs.len() && (#[trigger] gs[i]).id == id
}

/// A group identifier is known to the stored groups: the default one, or a
/// non-empty identifier of one of them.
pub open spec fn known_group(gs: Seq<GroupView>, id: Seq<char>) -> bool {
    id == default_id() || (id.len() > 0 && has_group(gs, id))
}

pub proof fn lemma_group_index(gs: Seq<GroupView>, id: Seq<char>)
    ensures
        group_index(gs, id) matches Some(i) ==> 0 <= i < gs.len() && gs[i].id == id && forall|
            k: int,
        |
            0 <= k < i ==> (#[trigger] gs[k]).id != id,
        group_index(gs, id) is None ==> forall|k: int|
            0 <= k < gs.len() ==> (#[trigger] gs[k]).id != id,
    decreases gs.len(),
{
    if gs.len() > 0 {
        lemma_group_index(gs.drop_last(), id);
        assert forall|k: int| 0 <= k < gs.len() - 1 implies #[trigger] gs[k] == gs.drop_last()[k] by {
        }
    }
}

/// Every group kept has an identifier, and the groups with identifiers are all kept.
pub proof fn lemma_with_ids(gs: Seq<GroupView>)
    ensures
        forall|k: int| 0 <= k < with_ids(gs).len() ==> (#[trigger] with_ids(gs)[k]).id.len() > 0,
        forall|id: Seq<char>| #[trigger] has_group(with_ids(gs), id) <==> (id.len() > 0 && has_group(gs, id)),
        with_ids(gs).len() <= gs.len(),
    decreases gs.len(),
{
    if gs.len() > 0 {
        let d = gs.drop_last();
        lemma_with_ids(d);
        let w = with_ids(gs);
        let wd = with_ids(d);
        assert forall|id: Seq<char>| has_group(w, id) <==> (id.len() > 0 && has_group(gs, id)) by {
            lemma_with_ids_one(gs, id);
        }
    }
}

proof fn lemma_with_ids_one(gs: Seq<GroupView>, id: Seq<char>)
    requires
        gs.len() > 0,
        forall|id2: Seq<char>|
            #[trigger] has_group(with_ids(gs.drop_last()), id2) <==> (id2.len() > 0 && has_group(
                gs.drop_last(),
                id2,
            )),
    ensures
        has_group(with_ids(gs), id) <==> (id.len() > 0 && has_group(gs, id)),
{
    let d = gs.drop_last();
    let w = with_ids(gs);
    let wd = with_ids(d);
    let last = gs.last();
    if last.id.len() > 0 {
        assert(w == wd.push(last));
    } else {
        assert(w == wd);
    }
    if has_group(w, id) {
        let i = choose|i: int| 0 <= i < w.len() && (#[trigger] w[i]).id == id;
        if i < wd.len() {
            assert(w[i] == wd[i]);
            assert(has_group(wd, id));
            assert(id.len() > 0 && has_group(d, id));
            let j = choose|j: int| 0 <= j < d.len() && (#[trigger] d[j]).id == id;
            assert(gs[j] == d[j]);
            assert(has_group(gs, id));
        } else {
            assert(w[i] == last);
            assert(gs[gs.len() - 1] == last);
            assert(has_group(gs, id));
        }
    }
    if id.len() > 0 && has_group(gs, id) {
        let j = choose|j: int| 0 <= j < gs.len() && (#[trigger] gs[j]).id == id;
        if j < gs.len() - 1 {
            assert(d[j] == gs[j]);
            assert(has_group(d, id));
            assert(has_group(wd, id));
            let i = choose|i: int| 0 <= i < wd.len() && (#[trigger] wd[i]).id == id;
            assert(w[i] == wd[i]);
        } else {
            assert(gs[j] == last);
            assert(w[w.len() - 1] == last);
        }
    }
}

/// The normalised groups start with the default group, every group has an
/// identifier and a name, and a group identifier is among them exactly when it is
/// known to the groups they came from.
pub proof fn lemma_normalized_groups(gs: Seq<GroupView>, now: i128)
    ensures
        normalized_groups(gs, now).len() > 0,
        normalized_groups(gs, now)[0].id == default_id(),
        forall|k: int|
            0 <= k < normalized_groups(gs, now).len() ==> (#[trigger] normalized_groups(
                gs,
                now,
            )[k]).id.len() > 0 && normalized_groups(gs, now)[k].name.len() > 0,
        forall|id: Seq<char>| has_group(normalized_groups(gs, now), id) <==> known_group(gs, id),
{
    lemma_with_ids(gs);
    let k = with_ids(gs);
    lemma_group_index(k, default_id());
    let o = ordered_groups(gs, now);
    let n = normalized_groups(gs, now);
    assert(default_id().len() > 0) by {
        reveal_strlit("default");
    }
    assert(unnamed().len() > 0) by {
        reveal_strlit("未命名分组");
    }
    assert forall|i: int| 0 <= i < o.len() implies (#[trigger] o[i]).id.len() > 0 by {
        match group_index(k, default_id()) {
            Some(p) => {
                if i > 0 {
                    if i - 1 < p {
                        assert(o[i] == k[i - 1]);
                    } else {
                        assert(o[i] == k[i]);
                    }
                }
            },
            None => {
                if i > 0 {
                    assert(o[i] == k[i - 1]);
                }
            },
        }
    }
    assert forall|i: int| 0 <= i < n.len() implies (#[trigger] n[i]).id == o[i].id && n[i].name.len()
        > 0 by {
    }
    assert forall|id: Seq<char>| has_group(n, id) <==> has_group(o, id) by {
        if has_group(n, id) {
            let i = choose|i: int| 0 <= i < n.len() && (#[trigger] n[i]).id == id;
            assert(o[i].id == id);
        }
        if has_group(o, id) {
            let i = choose|i: int| 0 <= i < o.len() && (#[trigger] o[i]).id == id;
            assert(n[i].id == id);
        }
    }
    assert forall|id: Seq<char>| has_group(o, id) <==> known_group(gs, id) by {
        if has_group(o, id) {
            let i = choose|i: int| 0 <= i < o.len() && (#[trigger] o[i]).id == id;
            match group_index(k, default_id()) {
                Some(p) => {
                    if i == 0 {
                        assert(o[0] == k[p]);
                    } else if i - 1 < p {
                        assert(o[i] == k[i - 1]);
                        assert(has_group(k, id));
                    } else {
                        assert(o[i] == k[i]);
                        assert(has_group(k, id));
                    }
                },
                None => {
                    if i > 0 {
                        assert(o[i] == k[i - 1]);
                        assert(has_group(k, id));
                    }
                },
            }
        }
        if known_group(gs, id) {
            match group_index(k, default_id()) {
                Some(p) => {
                    if id == default_id() {
                        assert(o[0].id == id);
                    } else {
                        assert(has_group(k, id));
                        let j = choose|j: int| 0 <= j < k.len() && (#[trigger] k[j]).id == id;
                        assert(j != p);
                        if j < p {
                            assert(o[j + 1] == k[j]);
                        } else {
                            assert(o[j] == k[j]);
                        }
                    }
                },
                None => {
                    if id == default_id() {
                        assert(o[0].id == id);
                    } else {
                        assert(has_group(k, id));
                        let j = choose|j: int| 0 <= j < k.len() && (#[trigger] k[j]).id == id;
                        assert(o[j + 1] == k[j]);
                    }
                },
            }
        }
    }
}

fn has_id(g: &GroupInfo) -> (r: bool)
    ensures
        r == (g@.id.len() > 0),
{
    g.id.as_str().unicode_len() > 0
}

/// Normalises the groups read from the store: groups without an identifier are
/// dropped, the default group is moved to the front (or made at `now` when there is
/// none), and names are trimmed, an empty one becoming "未命名分组".
pub fn normalize_groups(groups: &mut Vec<GroupInfo>, now: i128)
    ensures
        group_views(final(groups)@) == normalized_groups(group_views(old(groups)@), now),
{
    let ghost gv = group_views(groups@);
    let mut kept: Vec<GroupInfo> = Vec::new();
    let mut i: usize = 0;
    while i < groups.len()
        invariant
            i <= groups@.len(),
            gv == group_views(groups@),
            group_views(kept@) == with_ids(gv.subrange(0, i as int)),
        decreases groups.len() - i,
    {
        let g = groups[i].copy();
        proof {
            assert(gv.subrange(0, i + 1).drop_last() =~= gv.subrange(0, i as int));
            assert(gv.subrange(0, i + 1).last() == g@);
        }
        if has_id(&g) {
            let ghost before = kept@;
            kept.push(g);
            proof {
                assert(group_views(kept@) =~= group_views(before).push(g@));
            }
        }
        i = i + 1;
    }
    assert(gv.subrange(0, gv.len() as int) =~= gv);
    let ghost k = group_views(kept@);
    let found = find_group(&kept, "default");
    if let Some(p) = found {
        let d = kept.remove(p);
        kept.insert(0, d);
        proof {
            assert(group_views(kept@) =~= seq![k[p as int]] + k.remove(p as int));
        }
    } else {
        let d = GroupInfo {
            id: String::from_str("default"),
            name: String::from_str("默认分组"),
            created_at: now,
        };
        kept.insert(0, d);
        proof {
            assert(group_views(kept@) =~= seq![default_group(now)] + k);
        }
    }
    let ghost o = group_views(kept@);
    assert(o == ordered_groups(gv, now));
    let mut out: Vec<GroupInfo> = Vec::new();
    let mut j: usize = 0;
    while j < kept.len()
        invariant
            j <= kept@.len(),
            o == group_views(kept@),
            out@.len() == j,
            forall|q: int| 0 <= q < j ==> (#[trigger] out@[q])@ == named_group(o[q]),
        decreases kept.len() - j,
    {
        let g = &kept[j];
        let t = normalize_group_name(g.name.as_str());
        let name = if t.as_str().unicode_len() == 0 {
            String::from_str("未命名分组")
        } else {
            t
        };
        out.push(GroupInfo { id: g.id.clone(), name, created_at: g.created_at });
        j = j + 1;
    }
    proof {
        assert(group_views(out@) =~= normalized_groups(gv, now));
    }
    *groups = out;
}

/// The position of the first group with identifier `id`.
pub fn find_group(groups: &Vec<GroupInfo>, id: &str) -> (r: Option<usize>)
    ensures
        r matches Some(p) ==> group_index(group_views(groups@), id@) == Some(p as int) && p
            < groups@.len(),
        r is None ==> group_index(group_views(groups@), id@) is None,
{
    let ghost gv = group_views(groups@);
    let mut i: usize = 0;
    while i < groups.len()
        invariant
            i <= groups@.len(),
            gv == group_views(groups@),
            forall|q: int| 0 <= q < i ==> (#[trigger] gv[q]).id != id@,
        decreases groups.len() - i,
    {
        if str_eq(groups[i].id.as_str(), id) {
            proof {
                assert(gv[i as int].id == id@);
                lemma_group_index(gv, id@);
                match group_index(gv, id@) {
                    Some(x) => {
                        if x < i {
                            assert(gv[x].id != id@);
                        }
                        if x > i {
                            assert(gv[i as int].id != id@);
                        }
                    },
                    None => {
                        assert(gv[i as int].id != id@);
                    },
                }
            }
            return Some(i);
        }
        i = i + 1;
    }
    proof {
        lemma_group_index(gv, id@);
        if group_index(gv, id@) is Some {
            let x = group_index(gv, id@)->0;
            assert(gv[x].id == id@);
        }
    }
    None
}

/// Whether a group with identifier `id` is in the list.
pub fn contains_group(groups: &Vec<GroupInfo>, id: &str) -> (r: bool)
    ensures
        r == has_group(group_views(groups@), id@),
{
    let ghost gv = group_views(groups@);
    let mut i: usize = 0;
    while i < groups.len()
        invariant
            i <= groups@.len(),
            gv == group_views(groups@),
            forall|q: int| 0 <= q < i ==> (#[trigger] gv[q]).id != id@,
        decreases groups.len() - i,
    {
        if str_eq(groups[i].id.as_str(), id) {
            assert(gv[i as int].id == id@);
            return true;
        }
        i = i + 1;
    }
    false
}

// ─── Tags ─────────────────────────────────────────────────────────────

/// The trimmed, non-empty tags of `tags`, each once, in the order they first appear.
pub open spec fn normalized_tags(tags: Seq<Seq<char>>) -> Seq<Seq<char>>
    decreases tags.len(),
{
    if tags.len() == 0 {
        Seq::empty()
    } else {
        let r = normalized_tags(tags.drop_last());
        let t = trimmed(tags.last());
        if t.len() == 0 || r.contains(t) {
            r
        } else {
            r.push(t)
        }
    }
}

/// The tags of an account: trimmed, without empty ones and without repeats.
pub fn normalize_tags(tags: &Vec<String>) -> (r: Vec<String>)
    ensures
        strs(r@) == normalized_tags(strs(tags@)),
{
    let ghost tv = strs(tags@);
    let mut out: Vec<String> = Vec::new();
    let mut i: usize = 0;
    while i < tags.len()
        invariant
            i <= tags@.len(),
            tv == strs(tags@),
            strs(out@) == normalized_tags(tv.subrange(0, i as int)),
        decreases tags.len() - i,
    {
        let t = trim(tags[i].as_str());
        proof {
            assert(tv.subrange(0, i + 1).drop_last() =~= tv.subrange(0, i as int));
            assert(tv.subrange(0, i + 1).last() == tags@[i as int]@);
        }
        if t.as_str().unicode_len() > 0 {
            let mut seen = false;
            let mut j: usize = 0;
            while j < out.len()
                invariant
                    j <= out@.len(),
                    seen == (exists|q: int| 0 <= q < j && (#[trigger] out@[q])@ == t@),
                decreases out.len() - j,
            {
                if out[j] == t {
                    seen = true;
                }
                j = j + 1;
            }
            proof {
                let s = strs(out@);
                if seen {
                    let q = choose|q: int| 0 <= q < out@.len() && (#[trigger] out@[q])@ == t@;
                    assert(s[q] == t@);
                }
                if s.contains(t@) {
                    let q = choose|q: int| 0 <= q < s.len() && s[q] == t@;
                    assert(out@[q]@ == t@);
                }
            }
            if !seen {
                let ghost before = out@;
                out.push(t);
                proof {
                    assert(strs(out@) =~= strs(before).push(t@));
                }
            }
        }
        i = i + 1;
    }
    assert(tv.subrange(0, tv.len() as int) =~= tv);
    out
}

/// Normalised tags are trimmed, not empty and distinct.
pub proof fn lemma_normalized_tags(tags: Seq<Seq<char>>)
    ensures
        forall|i: int|
            0 <= i < normalized_tags(tags).len() ==> (#[trigger] normalized_tags(tags)[i]).len()
                > 0,
        forall|i: int, j: int|
            0 <= i < j < normalized_tags(tags).len() ==> normalized_tags(tags)[i]
                != normalized_tags(tags)[j],
    decreases tags.len(),
{
    if tags.len() > 0 {
        lemma_normalized_tags(tags.drop_last());
        let r = normalized_tags(tags.drop_last());
        let t = trimmed(tags.last());
        if !(t.len() == 0 || r.contains(t)) {
            let n = r.push(t);
            assert(normalized_tags(tags) == n);
            assert forall|i: int, j: int| 0 <= i < j < n.len() implies n[i] != n[j] by {
                if j == n.len() - 1 {
                    assert(n[j] == t);
                    assert(n[i] == r[i]);
                    if r[i] == t {
                        assert(r.contains(t));
                    }
                } else {
                    assert(n[i] == r[i] && n[j] == r[j]);
                }
            }
            assert forall|i: int| 0 <= i < n.len() implies (#[trigger] n[i]).len() > 0 by {
                if i < r.len() {
                    assert(n[i] == r[i]);
                }
            }
        }
    }
}

// ─── Accounts ─────────────────────────────────────────────────────────

/// The region an account is kept under: its normalised region, `cn` when it has none.
pub open spec fn effective_region(r: Seq<char>) -> Seq<char> {
    if normalized_region(r).len() == 0 {
        cn()
    } else {
        normalized_region(r)
    }
}

/// An account with an unknown group cleared (when `group_known` is false and it has
/// one) and its region made effective.
pub open spec fn fixed_account(a: AccountView, group_known: bool) -> AccountView {
    AccountView {
        group_id: if a.group_id.len() > 0 && !group_known {
            Seq::empty()
        } else {
            a.group_id
        },
        region: effective_region(a.region),
        ..a
    }
}

/// What `normalize_accounts` makes of accounts, given the groups.
pub open spec fn normalized_accounts(accs: Seq<AccountView>, gs: Seq<GroupView>) -> Seq<
    AccountView,
> {
    accs.map_values(|a: AccountView| fixed_account(a, has_group(gs, a.group_id)))
}

/// Accounts normalised against the groups that the stored groups normalise to.
pub open spec fn normalized_stored(accs: Seq<AccountView>, stored: Seq<GroupView>) -> Seq<
    AccountView,
> {
    accs.map_values(|a: AccountView| fixed_account(a, known_group(stored, a.group_id)))
}

/// Normalising accounts against the normalised stored groups only asks which
/// group identifiers are known to the stored groups.
pub proof fn lemma_normalized_against_stored(
    accs: Seq<AccountView>,
    stored: Seq<GroupView>,
    now: i128,
)
    ensures
        normalized_accounts(accs, normalized_groups(stored, now)) == normalized_stored(
            accs,
            stored,
        ),
{
    lemma_normalized_groups(stored, now);
    assert(normalized_accounts(accs, normalized_groups(stored, now)) =~= normalized_stored(
        accs,
        stored,
    ));
}

/// Normalising accounts again against the same stored groups changes nothing.
pub proof fn lemma_normalized_stored_idempotent(accs: Seq<AccountView>, stored: Seq<GroupView>)
    ensures
        normalized_stored(normalized_stored(accs, stored), stored) == normalized_stored(accs, stored),
{
    let n = normalized_stored(accs, stored);
    assert forall|k: int| 0 <= k < n.len() implies #[trigger] fixed_account(
        n[k],
        known_group(stored, n[k].group_id),
    ) == n[k] by {
        let a = accs[k];
        crate::region::lemma_normalize_region_idempotent(a.region);
        crate::region::lemma_region_name_fixed(cn());
        assert(effective_region(effective_region(a.region)) == effective_region(a.region));
        if n[k].group_id.len() > 0 {
            assert(known_group(stored, a.group_id));
        }
    }
    assert(normalized_stored(n, stored) =~= n);
}

/// The region of an account, made effective.
fn effective_region_of(region: &String) -> (r: String)
    ensures
        r@ == effective_region(region@),
{
    let n = normalize_region(region.as_str());
    if n.as_str().unicode_len() == 0 {
        crate::models::default_region()
    } else {
        n
    }
}

/// Clears the group of each account whose group is not among `groups`, and sets
/// each account's region to its normalised region (`cn` when it has none). Tells
/// whether any account changed.
pub fn normalize_accounts(accounts: &mut Vec<AccountInfo>, groups: &Vec<GroupInfo>) -> (r: bool)
    ensures
        account_views(final(accounts)@) == normalized_accounts(
            account_views(old(accounts)@),
            group_views(groups@),
        ),
        r == (account_views(final(accounts)@) != account_views(old(accounts)@)),
{
    let ghost av = account_views(accounts@);
    let ghost gv = group_views(groups@);
    let ghost want = normalized_accounts(av, gv);
    let mut changed = false;
    let mut i: usize = 0;
    while i < accounts.len()
        invariant
            i <= accounts@.len(),
            accounts@.len() == av.len(),
            gv == group_views(groups@),
            want == normalized_accounts(av, gv),
            forall|q: int| 0 <= q < i ==> (#[trigger] accounts@[q])@ == want[q],
            forall|q: int| i <= q < accounts@.len() ==> (#[trigger] accounts@[q])@ == av[q],
            changed == (exists|q: int| 0 <= q < i && (#[trigger] want[q]) != av[q]),
        decreases accounts.len() - i,
    {
        let mut a = accounts[i].copy();
        let ghost a0 = a@;
        proof {
            reveal_strlit("");
            assert(""@ =~= Seq::<char>::empty());
        }
        if a.group_id.as_str().unicode_len() > 0 && !contains_group(groups, a.group_id.as_str()) {
            a.group_id = String::from_str("");
            changed = true;
        }
        let eff = effective_region_of(&a.region);
        if !(a.region == eff) {
            a.region = eff;
            changed = true;
        }
        proof {
            assert(a@ == fixed_account(a0, has_group(gv, a0.group_id)));
            assert(want[i as int] == a@);
            assert((want[i as int] != av[i as int]) == (a@ != a0));
        }
        accounts.set(i, a);
        i = i + 1;
    }
    proof {
        assert(account_views(accounts@) =~= want);
        if changed {
            let q = choose|q: int| 0 <= q < av.len() && (#[trigger] want[q]) != av[q];
            assert(want[q] != av[q]);
        } else {
            assert(want =~= av);
        }
    }
    changed
}

} // verus!
