use vstd::prelude::*;

use crate::base::errors::AutoShareError;
use crate::base::types::{
    copy_bytes, same_group_id, view_groups, view_ids, view_members, view_payouts, Address, AutoShareDetails,
    DetailsView, GroupId, GroupMember, MemberView, Payout, PayoutView,
};
use crate::base::utils::{
    calculate_share, distribute_amounts, distribution, member_percentages, percentages,
    share_result, validate_percentages,
};
use crate::base::validators::{validate_amount, validate_is_creator, validate_members_unique};
use crate::ledger::{
    create_result, distribute_result, distribution_token_result, groups_of, ledger_wf, law_create_preserves_wf,
    law_update_preserves_wf, member_shares_result, members_acceptable, new_group, payouts_for,
    saturating_total, total_percentage_result, update_members_result, with_members, creator_ids,
    get_result, Ledger,
};

verus! {

/// The groups that one creator has made, in the order of creation.
#[derive(Clone, Debug, PartialEq, Eq)]
pub struct CreatorGroups {
    pub creator: Address,
    pub ids: Vec<GroupId>,
}

/// The AutoShare contract's state: every payment group, and for every creator
/// the groups it made.
pub struct AutoShareContract {
    groups: Vec<AutoShareDetails>,
    creator_groups: Vec<CreatorGroups>,
}

/// The ledger that a list of groups and a list of creator entries stand for.
pub open spec fn groups_map(v: Seq<AutoShareDetails>) -> Map<Seq<u8>, DetailsView> {
    Map::new(
        |k: Seq<u8>| exists|i: int| 0 <= i < v.len() && (#[trigger] v[i]).id@ == k,
        |k: Seq<u8>| v[choose|i: int| 0 <= i < v.len() && (#[trigger] v[i]).id@ == k]@,
    )
}

pub open spec fn creators_map(v: Seq<CreatorGroups>) -> Map<Seq<char>, Seq<Seq<u8>>> {
    Map::new(
        |k: Seq<char>| exists|i: int| 0 <= i < v.len() && (#[trigger] v[i]).creator@ == k,
        |k: Seq<char>| view_ids(v[choose|i: int| 0 <= i < v.len() && (#[trigger] v[i]).creator@ == k].ids@),
    )
}

pub open spec fn unique_ids(v: Seq<AutoShareDetails>) -> bool {
    forall|i: int, j: int|
        0 <= i < v.len() && 0 <= j < v.len() && i != j ==> (#[trigger] v[i]).id@ != (#[trigger] v[j]).id@
}

pub open spec fn unique_creators(v: Seq<CreatorGroups>) -> bool {
    forall|i: int, j: int|
        0 <= i < v.len() && 0 <= j < v.len() && i != j ==> (#[trigger] v[i]).creator@ != (
        #[trigger] v[j]).creator@
}

/// The ledger that stored groups and creator entries stand for.
pub open spec fn ledger_of(groups: Seq<AutoShareDetails>, creators: Seq<CreatorGroups>) -> Ledger {
    Ledger { groups: groups_map(groups), creator_groups: creators_map(creators) }
}

/// Whether stored groups and creator entries form a valid contract state: no
/// identifier or creator occurs twice, and the ledger is well formed.
pub open spec fn parts_wf(groups: Seq<AutoShareDetails>, creators: Seq<CreatorGroups>) -> bool {
    &&& unique_ids(groups)
    &&& unique_creators(creators)
    &&& ledger_wf(ledger_of(groups, creators))
}

proof fn lemma_groups_map_at(v: Seq<AutoShareDetails>, i: int)
    requires
        unique_ids(v),
        0 <= i < v.len(),
    ensures
        groups_map(v).contains_key(v[i].id@),
        groups_map(v)[v[i].id@] == v[i]@,
{
    let k = v[i].id@;
    assert(exists|j: int| 0 <= j < v.len() && (#[trigger] v[j]).id@ == k);
    let j = choose|j: int| 0 <= j < v.len() && (#[trigger] v[j]).id@ == k;
    assert(j == i);
}

proof fn lemma_creators_map_at(v: Seq<CreatorGroups>, i: int)
    requires
        unique_creators(v),
        0 <= i < v.len(),
    ensures
        creators_map(v).contains_key(v[i].creator@),
        creators_map(v)[v[i].creator@] == view_ids(v[i].ids@),
{
    let k = v[i].creator@;
    assert(exists|j: int| 0 <= j < v.len() && (#[trigger] v[j]).creator@ == k);
    let j = choose|j: int| 0 <= j < v.len() && (#[trigger] v[j]).creator@ == k;
    assert(j == i);
}


proof fn lemma_groups_push(v: Seq<AutoShareDetails>, d: AutoShareDetails)
    requires
        unique_ids(v),
        forall|i: int| 0 <= i < v.len() ==> (#[trigger] v[i]).id@ != d.id@,
    ensures
        unique_ids(v.push(d)),
        groups_map(v.push(d)) == groups_map(v).insert(d.id@, d@),
{
    let w = v.push(d);
    assert(unique_ids(w));
    assert forall|k: Seq<u8>| #[trigger] groups_map(w).contains_key(k) == groups_map(v).insert(
        d.id@,
        d@,
    ).contains_key(k) by {
        if groups_map(v).contains_key(k) {
            let i = choose|i: int| 0 <= i < v.len() && (#[trigger] v[i]).id@ == k;
            assert(w[i] == v[i]);
        }
        if k == d.id@ {
            assert(w[v.len() as int] == d);
        }
    }
    assert forall|k: Seq<u8>| #[trigger] groups_map(w).contains_key(k) implies groups_map(w)[k]
        == groups_map(v).insert(d.id@, d@)[k] by {
        if k == d.id@ {
            lemma_groups_map_at(w, v.len() as int);
        } else {
            let i = choose|i: int| 0 <= i < w.len() && (#[trigger] w[i]).id@ == k;
            assert(i < v.len());
            assert(w[i] == v[i]);
            lemma_groups_map_at(w, i);
            lemma_groups_map_at(v, i);
        }
    }
    assert(groups_map(w) =~= groups_map(v).insert(d.id@, d@));
}

proof fn lemma_groups_update(v: Seq<AutoShareDetails>, i: int, d: AutoShareDetails)
    requires
        unique_ids(v),
        0 <= i < v.len(),
        v[i].id@ == d.id@,
    ensures
        unique_ids(v.update(i, d)),
        groups_map(v.update(i, d)) == groups_map(v).insert(d.id@, d@),
{
    let w = v.update(i, d);
    assert(unique_ids(w)) by {
        assert forall|a: int, b: int|
            0 <= a < w.len() && 0 <= b < w.len() && a != b implies (#[trigger] w[a]).id@ != (
            #[trigger] w[b]).id@ by {
            assert(v[a].id@ != v[b].id@);
        }
    }
    lemma_groups_map_at(v, i);
    assert forall|k: Seq<u8>| #[trigger] groups_map(w).contains_key(k) == groups_map(v).insert(
        d.id@,
        d@,
    ).contains_key(k) by {
        if groups_map(v).contains_key(k) {
            let j = choose|j: int| 0 <= j < v.len() && (#[trigger] v[j]).id@ == k;
            assert(w[j].id@ == k);
        }
        if groups_map(w).contains_key(k) {
            let j = choose|j: int| 0 <= j < w.len() && (#[trigger] w[j]).id@ == k;
            assert(v[j].id@ == k);
        }
    }
    assert forall|k: Seq<u8>| #[trigger] groups_map(w).contains_key(k) implies groups_map(w)[k]
        == groups_map(v).insert(d.id@, d@)[k] by {
        if k == d.id@ {
            lemma_groups_map_at(w, i);
        } else {
            let j = choose|j: int| 0 <= j < w.len() && (#[trigger] w[j]).id@ == k;
            assert(j != i);
            assert(w[j] == v[j]);
            lemma_groups_map_at(w, j);
            lemma_groups_map_at(v, j);
        }
    }
    assert(groups_map(w) =~= groups_map(v).insert(d.id@, d@));
}

proof fn lemma_creators_push(v: Seq<CreatorGroups>, c: CreatorGroups)
    requires
        unique_creators(v),
        forall|i: int| 0 <= i < v.len() ==> (#[trigger] v[i]).creator@ != c.creator@,
    ensures
        unique_creators(v.push(c)),
        creators_map(v.push(c)) == creators_map(v).insert(c.creator@, view_ids(c.ids@)),
{
    let w = v.push(c);
    assert(unique_creators(w));
    assert forall|k: Seq<char>| #[trigger] creators_map(w).contains_key(k) == creators_map(
        v,
    ).insert(c.creator@, view_ids(c.ids@)).contains_key(k) by {
        if creators_map(v).contains_key(k) {
            let i = choose|i: int| 0 <= i < v.len() && (#[trigger] v[i]).creator@ == k;
            assert(w[i] == v[i]);
        }
        if k == c.creator@ {
            assert(w[v.len() as int] == c);
        }
    }
    assert forall|k: Seq<char>| #[trigger] creators_map(w).contains_key(k) implies creators_map(
        w,
    )[k] == creators_map(v).insert(c.creator@, view_ids(c.ids@))[k] by {
        if k == c.creator@ {
            lemma_creators_map_at(w, v.len() as int);
        } else {
            let i = choose|i: int| 0 <= i < w.len() && (#[trigger] w[i]).creator@ == k;
            assert(i < v.len());
            assert(w[i] == v[i]);
            lemma_creators_map_at(w, i);
            lemma_creators_map_at(v, i);
        }
    }
    assert(creators_map(w) =~= creators_map(v).insert(c.creator@, view_ids(c.ids@)));
}

proof fn lemma_creators_update(v: Seq<CreatorGroups>, i: int, c: CreatorGroups)
    requires
        unique_creators(v),
        0 <= i < v.len(),
        v[i].creator@ == c.creator@,
    ensures
        unique_creators(v.update(i, c)),
        creators_map(v.update(i, c)) == creators_map(v).insert(c.creator@, view_ids(c.ids@)),
{
    let w = v.update(i, c);
    assert(unique_creators(w)) by {
        assert forall|a: int, b: int|
            0 <= a < w.len() && 0 <= b < w.len() && a != b implies (#[trigger] w[a]).creator@ != (
            #[trigger] w[b]).creator@ by {
            assert(v[a].creator@ != v[b].creator@);
        }
    }
    lemma_creators_map_at(v, i);
    assert forall|k: Seq<char>| #[trigger] creators_map(w).contains_key(k) == creators_map(
        v,
    ).insert(c.creator@, view_ids(c.ids@)).contains_key(k) by {
        if creators_map(v).contains_key(k) {
            let j = choose|j: int| 0 <= j < v.len() && (#[trigger] v[j]).creator@ == k;
            assert(w[j].creator@ == k);
        }
        if creators_map(w).contains_key(k) {
            let j = choose|j: int| 0 <= j < w.len() && (#[trigger] w[j]).creator@ == k;
            assert(v[j].creator@ == k);
        }
    }
    assert forall|k: Seq<char>| #[trigger] creators_map(w).contains_key(k) implies creators_map(
        w,
    )[k] == creators_map(v).insert(c.creator@, view_ids(c.ids@))[k] by {
        if k == c.creator@ {
            lemma_creators_map_at(w, i);
        } else {
            let j = choose|j: int| 0 <= j < w.len() && (#[trigger] w[j]).creator@ == k;
            assert(j != i);
            assert(w[j] == v[j]);
            lemma_creators_map_at(w, j);
            lemma_creators_map_at(v, j);
        }
    }
    assert(creators_map(w) =~= creators_map(v).insert(c.creator@, view_ids(c.ids@)));
}

/// Copies a list of group identifiers.
fn copy_ids(ids: &Vec<GroupId>) -> (r: Vec<GroupId>)
    ensures
        r@ == ids@,
{
    let mut out: Vec<GroupId> = Vec::new();
    let n: usize = ids.len();
    for i in 0..n
        invariant
            n == ids.len(),
            out@ == ids@.take(i as int),
    {
        out.push(ids[i]);
        assert(out@ =~= ids@.take(i as int + 1));
    }
    assert(ids@.take(n as int) =~= ids@);
    out
}

/// Every stored group holds an acceptable member list.
pub open spec fn all_members_acceptable(g: Seq<AutoShareDetails>) -> bool {
    forall|i: int| 0 <= i < g.len() ==> members_acceptable(view_members((#[trigger] g[i]).members@))
}

/// Some stored group has identifier `key` and was made by `creator`.
pub open spec fn listed_group_ok(g: Seq<AutoShareDetails>, creator: Seq<char>, key: Seq<u8>) -> bool {
    exists|gi: int| 0 <= gi < g.len() && (#[trigger] g[gi]).id@ == key && g[gi].creator@ == creator
}

/// Every identifier in a creator's list names a stored group of that creator.
pub open spec fn all_listed_groups_ok(g: Seq<AutoShareDetails>, cg: Seq<CreatorGroups>) -> bool {
    forall|ci: int, k: int|
        0 <= ci < cg.len() && 0 <= k < cg[ci].ids@.len() ==> listed_group_ok(
            g,
            cg[ci].creator@,
            (#[trigger] cg[ci].ids@[k])@,
        )
}

/// No identifier occurs twice in a list of group identifiers.
pub open spec fn ids_distinct(ids: Seq<GroupId>) -> bool {
    forall|j: int, k: int| 0 <= j < k < ids.len() ==> (#[trigger] ids[j])@ != (#[trigger] ids[k])@
}

/// No creator's list names a group twice.
pub open spec fn all_lists_distinct(cg: Seq<CreatorGroups>) -> bool {
    forall|ci: int| 0 <= ci < cg.len() ==> ids_distinct((#[trigger] cg[ci]).ids@)
}

/// Group `id` is named in the list of `creator`.
pub open spec fn group_listed(cg: Seq<CreatorGroups>, creator: Seq<char>, id: Seq<u8>) -> bool {
    exists|ci: int, k: int|
        #![trigger cg[ci].ids@[k]]
        0 <= ci < cg.len() && 0 <= k < cg[ci].ids@.len() && cg[ci].creator@ == creator
            && cg[ci].ids@[k]@ == id
}

/// Every stored group is named in its own creator's list.
pub open spec fn all_groups_listed(g: Seq<AutoShareDetails>, cg: Seq<CreatorGroups>) -> bool {
    forall|gi: int| 0 <= gi < g.len() ==> group_listed(cg, (#[trigger] g[gi]).creator@, g[gi].id@)
}

proof fn lemma_parts_wf_iff(g: Seq<AutoShareDetails>, cg: Seq<CreatorGroups>)
    requires
        unique_ids(g),
        unique_creators(cg),
    ensures
        ledger_wf(ledger_of(g, cg)) <==> (all_members_acceptable(g) && all_listed_groups_ok(g, cg)
            && all_lists_distinct(cg) && all_groups_listed(g, cg)),
{
    let l = ledger_of(g, cg);
    assert forall|id: Seq<u8>| #[trigger] l.groups.contains_key(id) implies l.groups[id].id == id
        && (all_members_acceptable(g) ==> members_acceptable(l.groups[id].members)) by {
        let i = choose|i: int| 0 <= i < g.len() && (#[trigger] g[i]).id@ == id;
        lemma_groups_map_at(g, i);
    }
    if ledger_wf(l) {
        assert forall|i: int| 0 <= i < g.len() implies members_acceptable(
            view_members((#[trigger] g[i]).members@),
        ) by {
            lemma_groups_map_at(g, i);
            assert(l.groups.contains_key(g[i].id@));
        }
        assert forall|ci: int, k: int| 0 <= ci < cg.len() && 0 <= k < cg[ci].ids@.len() implies listed_group_ok(
            g,
            cg[ci].creator@,
            (#[trigger] cg[ci].ids@[k])@,
        ) by {
            let c = cg[ci].creator@;
            let key = cg[ci].ids@[k]@;
            lemma_creators_map_at(cg, ci);
            assert(l.creator_groups[c][k] == key);
            assert(l.groups.contains_key(key));
            let gi = choose|gi: int| 0 <= gi < g.len() && (#[trigger] g[gi]).id@ == key;
            lemma_groups_map_at(g, gi);
        }
        assert forall|ci: int| 0 <= ci < cg.len() implies ids_distinct((#[trigger] cg[ci]).ids@) by {
            let c = cg[ci].creator@;
            lemma_creators_map_at(cg, ci);
            assert forall|j: int, k: int| 0 <= j < k < cg[ci].ids@.len() implies (
            #[trigger] cg[ci].ids@[j])@ != (#[trigger] cg[ci].ids@[k])@ by {
                assert(l.creator_groups[c][j] == cg[ci].ids@[j]@);
                assert(l.creator_groups[c][k] == cg[ci].ids@[k]@);
                assert(l.creator_groups[c][j] != l.creator_groups[c][k]);
            }
        }
        assert forall|gi: int| 0 <= gi < g.len() implies group_listed(
            cg,
            (#[trigger] g[gi]).creator@,
            g[gi].id@,
        ) by {
            let id = g[gi].id@;
            lemma_groups_map_at(g, gi);
            assert(l.groups.contains_key(id));
            let c = g[gi].creator@;
            assert(l.creator_groups.contains_key(c));
            assert(l.creator_groups[c].contains(id));
            let k = choose|k: int| 0 <= k < l.creator_groups[c].len() && l.creator_groups[c][k] == id;
            let ci = choose|ci: int| 0 <= ci < cg.len() && (#[trigger] cg[ci]).creator@ == c;
            lemma_creators_map_at(cg, ci);
            assert(cg[ci].ids@[k]@ == id);
        }
    }
    if all_members_acceptable(g) && all_listed_groups_ok(g, cg) && all_lists_distinct(cg)
        && all_groups_listed(g, cg) {
        assert forall|c: Seq<char>, k: int|
            l.creator_groups.contains_key(c) && 0 <= k < l.creator_groups[c].len() implies {
            &&& l.groups.contains_key(#[trigger] l.creator_groups[c][k])
            &&& l.groups[l.creator_groups[c][k]].creator == c
        } by {
            let ci = choose|ci: int| 0 <= ci < cg.len() && (#[trigger] cg[ci]).creator@ == c;
            lemma_creators_map_at(cg, ci);
            let key = cg[ci].ids@[k]@;
            assert(l.creator_groups[c][k] == key);
            assert(listed_group_ok(g, c, key));
            let gi = choose|gi: int|
                0 <= gi < g.len() && (#[trigger] g[gi]).id@ == key && g[gi].creator@ == c;
            lemma_groups_map_at(g, gi);
        }
        assert forall|c: Seq<char>, j: int, k: int|
            l.creator_groups.contains_key(c) && 0 <= j < k < l.creator_groups[c].len() implies #[trigger] l.creator_groups[c][j]
            != #[trigger] l.creator_groups[c][k] by {
            let ci = choose|ci: int| 0 <= ci < cg.len() && (#[trigger] cg[ci]).creator@ == c;
            lemma_creators_map_at(cg, ci);
            assert(ids_distinct(cg[ci].ids@));
            assert(cg[ci].ids@[j]@ != cg[ci].ids@[k]@);
        }
        assert forall|id: Seq<u8>| #[trigger] l.groups.contains_key(id) implies {
            &&& l.creator_groups.contains_key(l.groups[id].creator)
            &&& l.creator_groups[l.groups[id].creator].contains(id)
        } by {
            let gi = choose|gi: int| 0 <= gi < g.len() && (#[trigger] g[gi]).id@ == id;
            lemma_groups_map_at(g, gi);
            assert(group_listed(cg, g[gi].creator@, id));
            let (ci, k) = choose|ci: int, k: int|
                #![trigger cg[ci].ids@[k]]
                0 <= ci < cg.len() && 0 <= k < cg[ci].ids@.len() && cg[ci].creator@ == g[gi].creator@
                    && cg[ci].ids@[k]@ == id;
            lemma_creators_map_at(cg, ci);
            assert(l.creator_groups[g[gi].creator@][k] == id);
        }
    }
}

fn check_lists_distinct(cg: &Vec<CreatorGroups>) -> (r: bool)
    ensures
        r == all_lists_distinct(cg@),
{
    let n: usize = cg.len();
    for ci in 0..n
        invariant
            n == cg.len(),
            forall|a: int| 0 <= a < ci ==> ids_distinct((#[trigger] cg@[a]).ids@),
    {
        let ids = &cg[ci].ids;
        let m: usize = ids.len();
        for j in 0..m
            invariant
                n == cg.len(),
                ci < n,
                ids == cg@[ci as int].ids,
                m == ids.len(),
                forall|a: int| 0 <= a < ci ==> ids_distinct((#[trigger] cg@[a]).ids@),
                forall|a: int, b: int|
                    0 <= a < j && a < b < m ==> (#[trigger] ids@[a])@ != (#[trigger] ids@[b])@,
        {
            for k in j + 1..m
                invariant
                    n == cg.len(),
                    ci < n,
                    j < m,
                    ids == cg@[ci as int].ids,
                    m == ids.len(),
                    forall|a: int| 0 <= a < ci ==> ids_distinct((#[trigger] cg@[a]).ids@),
                    forall|a: int, b: int|
                        0 <= a < j && a < b < m ==> (#[trigger] ids@[a])@ != (#[trigger] ids@[b])@,
                    forall|b: int| j < b < k ==> ids@[j as int]@ != (#[trigger] ids@[b])@,
            {
                if same_group_id(&ids[j], &ids[k]) {
                    assert(!ids_distinct(cg@[ci as int].ids@)) by {
                        assert(ids@[j as int]@ == ids@[k as int]@);
                    }
                    return false;
                }
            }
        }
    }
    true
}

fn find_creator_in(cg: &Vec<CreatorGroups>, creator: &Address) -> (r: Option<usize>)
    ensures
        match r {
            Some(i) => i < cg.len() && cg@[i as int].creator@ == creator@,
            None => forall|i: int| 0 <= i < cg.len() ==> (#[trigger] cg@[i]).creator@ != creator@,
        },
{
    let n: usize = cg.len();
    for i in 0..n
        invariant
            n == cg.len(),
            forall|j: int| 0 <= j < i ==> (#[trigger] cg@[j]).creator@ != creator@,
    {
        if cg[i].creator.same_as(creator) {
            return Some(i);
        }
    }
    None
}

fn contains_id(ids: &Vec<GroupId>, id: &GroupId) -> (r: bool)
    ensures
        r == exists|k: int| 0 <= k < ids.len() && (#[trigger] ids@[k])@ == id@,
{
    let n: usize = ids.len();
    for k in 0..n
        invariant
            n == ids.len(),
            forall|b: int| 0 <= b < k ==> (#[trigger] ids@[b])@ != id@,
    {
        if same_group_id(&ids[k], id) {
            return true;
        }
    }
    false
}

fn check_groups_listed(g: &Vec<AutoShareDetails>, cg: &Vec<CreatorGroups>) -> (r: bool)
    requires
        unique_creators(cg@),
    ensures
        r == all_groups_listed(g@, cg@),
{
    let n: usize = g.len();
    for gi in 0..n
        invariant
            n == g.len(),
            unique_creators(cg@),
            forall|a: int| 0 <= a < gi ==> group_listed(cg@, (#[trigger] g@[a]).creator@, g@[a].id@),
    {
        let group = &g[gi];
        let found = find_creator_in(cg, &group.creator);
        let ci: usize = match found {
            Some(i) => i,
            None => {
                assert(!group_listed(cg@, group.creator@, group.id@)) by {
                    if group_listed(cg@, group.creator@, group.id@) {
                        let (a, k) = choose|a: int, k: int|
                            #![trigger cg@[a].ids@[k]]
                            0 <= a < cg@.len() && 0 <= k < cg@[a].ids@.len() && cg@[a].creator@
                                == group.creator@ && cg@[a].ids@[k]@ == group.id@;
                        assert(cg@[a].creator@ != group.creator@);
                    }
                }
                assert(g@[gi as int] == *group);
                return false;
            },
        };
        let ids = &cg[ci].ids;
        let listed = contains_id(ids, &group.id);
        if !listed {
            assert(!group_listed(cg@, group.creator@, group.id@)) by {
                if group_listed(cg@, group.creator@, group.id@) {
                    let (a, k) = choose|a: int, k: int|
                        #![trigger cg@[a].ids@[k]]
                        0 <= a < cg@.len() && 0 <= k < cg@[a].ids@.len() && cg@[a].creator@
                            == group.creator@ && cg@[a].ids@[k]@ == group.id@;
                    assert(a == ci as int);
                    assert(ids@[k]@ == group.id@);
                }
            }
            assert(g@[gi as int] == *group);
            return false;
        }
        assert(group_listed(cg@, group.creator@, group.id@));
        assert(g@[gi as int] == *group);
    }
    true
}

fn check_unique_ids(g: &Vec<AutoShareDetails>) -> (r: bool)
    ensures
        r == unique_ids(g@),
{
    let n: usize = g.len();
    for i in 0..n
        invariant
            n == g.len(),
            forall|a: int, b: int|
                0 <= a < i && a < b < n ==> (#[trigger] g@[a]).id@ != (#[trigger] g@[b]).id@,
    {
        for j in i + 1..n
            invariant
                n == g.len(),
                i < n,
                forall|a: int, b: int|
                    0 <= a < i && a < b < n ==> (#[trigger] g@[a]).id@ != (#[trigger] g@[b]).id@,
                forall|b: int| i < b < j ==> g@[i as int].id@ != (#[trigger] g@[b]).id@,
        {
            if same_group_id(&g[i].id, &g[j].id) {
                assert(!unique_ids(g@)) by {
                    assert(g@[i as int].id@ == g@[j as int].id@);
                }
                return false;
            }
        }
    }
    assert(unique_ids(g@)) by {
        assert forall|a: int, b: int|
            0 <= a < g@.len() && 0 <= b < g@.len() && a != b implies (#[trigger] g@[a]).id@ != (
            #[trigger] g@[b]).id@ by {
            if a > b {
                assert(g@[b].id@ != g@[a].id@);
            }
        }
    }
    true
}

fn check_unique_creators(cg: &Vec<CreatorGroups>) -> (r: bool)
    ensures
        r == unique_creators(cg@),
{
    let n: usize = cg.len();
    for i in 0..n
        invariant
            n == cg.len(),
            forall|a: int, b: int|
                0 <= a < i && a < b < n ==> (#[trigger] cg@[a]).creator@ != (#[trigger] cg@[b]).creator@,
    {
        for j in i + 1..n
            invariant
                n == cg.len(),
                i < n,
                forall|a: int, b: int|
                    0 <= a < i && a < b < n ==> (#[trigger] cg@[a]).creator@ != (
                    #[trigger] cg@[b]).creator@,
                forall|b: int| i < b < j ==> cg@[i as int].creator@ != (#[trigger] cg@[b]).creator@,
        {
            if cg[i].creator.same_as(&cg[j].creator) {
                assert(!unique_creators(cg@)) by {
                    assert(cg@[i as int].creator@ == cg@[j as int].creator@);
                }
                return false;
            }
        }
    }
    assert(unique_creators(cg@)) by {
        assert forall|a: int, b: int|
            0 <= a < cg@.len() && 0 <= b < cg@.len() && a != b implies (#[trigger] cg@[a]).creator@
            != (#[trigger] cg@[b]).creator@ by {
            if a > b {
                assert(cg@[b].creator@ != cg@[a].creator@);
            }
        }
    }
    true
}

fn check_members(g: &Vec<AutoShareDetails>) -> (r: bool)
    ensures
        r == all_members_acceptable(g@),
{
    let n: usize = g.len();
    for i in 0..n
        invariant
            n == g.len(),
            forall|a: int| 0 <= a < i ==> members_acceptable(view_members((#[trigger] g@[a]).members@)),
    {
        let members = &g[i].members;
        if members.len() > 0 {
            let unique = validate_members_unique(members);
            let valid = validate_percentages(members);
            if unique.is_err() || valid.is_err() {
                assert(!members_acceptable(view_members(g@[i as int].members@)));
                return false;
            }
        }
    }
    true
}

fn find_group_in(g: &Vec<AutoShareDetails>, id: &GroupId) -> (r: Option<usize>)
    ensures
        match r {
            Some(i) => i < g.len() && g@[i as int].id@ == id@,
            None => forall|i: int| 0 <= i < g.len() ==> (#[trigger] g@[i]).id@ != id@,
        },
{
    let n: usize = g.len();
    for i in 0..n
        invariant
            n == g.len(),
            forall|j: int| 0 <= j < i ==> (#[trigger] g@[j]).id@ != id@,
    {
        if same_group_id(&g[i].id, id) {
            return Some(i);
        }
    }
    None
}

fn check_listed_groups(g: &Vec<AutoShareDetails>, cg: &Vec<CreatorGroups>) -> (r: bool)
    requires
        unique_ids(g@),
    ensures
        r == all_listed_groups_ok(g@, cg@),
{
    let n: usize = cg.len();
    for ci in 0..n
        invariant
            n == cg.len(),
            unique_ids(g@),
            forall|a: int, k: int|
                0 <= a < ci && 0 <= k < cg@[a].ids@.len() ==> listed_group_ok(
                    g@,
                    cg@[a].creator@,
                    (#[trigger] cg@[a].ids@[k])@,
                ),
    {
        let entry = &cg[ci];
        let m: usize = entry.ids.len();
        for k in 0..m
            invariant
                n == cg.len(),
                ci < n,
                entry == cg@[ci as int],
                m == entry.ids.len(),
                unique_ids(g@),
                forall|a: int, kk: int|
                    0 <= a < ci && 0 <= kk < cg@[a].ids@.len() ==> listed_group_ok(
                        g@,
                        cg@[a].creator@,
                        (#[trigger] cg@[a].ids@[kk])@,
                    ),
                forall|kk: int| 0 <= kk < k ==> listed_group_ok(
                    g@,
                    cg@[ci as int].creator@,
                    (#[trigger] cg@[ci as int].ids@[kk])@,
                ),
        {
            let key = &entry.ids[k];
            match find_group_in(g, key) {
                Some(gi) => {
                    if !g[gi].creator.same_as(&entry.creator) {
                        assert(!listed_group_ok(g@, entry.creator@, key@)) by {
                            if listed_group_ok(g@, entry.creator@, key@) {
                                let w = choose|w: int|
                                    0 <= w < g@.len() && (#[trigger] g@[w]).id@ == key@ && g@[w].creator@
                                        == entry.creator@;
                                assert(w == gi);
                            }
                        }
                        assert(cg@[ci as int].ids@[k as int] == *key);
                        return false;
                    }
                },
                None => {
                    assert(!listed_group_ok(g@, entry.creator@, key@));
                    assert(cg@[ci as int].ids@[k as int] == *key);
                    return false;
                },
            }
        }
    }
    true
}

impl View for AutoShareContract {
    type V = Ledger;

    closed spec fn view(&self) -> Ledger {
        ledger_of(self.groups@, self.creator_groups@)
    }
}

impl AutoShareContract {
    /// Whether the state is consistent; every operation keeps it so.
    pub closed spec fn wf(&self) -> bool {
        parts_wf(self.groups@, self.creator_groups@)
    }

    /// A well-formed state always stands for a well-formed ledger.
    pub proof fn lemma_wf_ledger(&self)
        requires
            self.wf(),
        ensures
            ledger_wf(self@),
    {
    }

    /// A contract with no groups.
    pub fn new() -> (r: AutoShareContract)
        ensures
            r.wf(),
            r@ == (Ledger { groups: Map::empty(), creator_groups: Map::empty() }),
    {
        let r = AutoShareContract { groups: Vec::new(), creator_groups: Vec::new() };
        assert(r@.groups =~= Map::<Seq<u8>, DetailsView>::empty());
        assert(r@.creator_groups =~= Map::<Seq<char>, Seq<Seq<u8>>>::empty());
        r
    }

    fn find_group(&self, id: &GroupId) -> (r: Option<usize>)
        ensures
            match r {
                Some(i) => i < self.groups.len() && self.groups@[i as int].id@ == id@,
                None => forall|i: int|
                    0 <= i < self.groups.len() ==> (#[trigger] self.groups@[i]).id@ != id@,
            },
    {
        find_group_in(&self.groups, id)
    }

    fn find_creator(&self, creator: &Address) -> (r: Option<usize>)
        ensures
            match r {
                Some(i) => i < self.creator_groups.len() && self.creator_groups@[i as int].creator@
                    == creator@,
                None => forall|i: int|
                    0 <= i < self.creator_groups.len() ==> (#[trigger] self.creator_groups@[i]).creator@
                        != creator@,
            },
    {
        find_creator_in(&self.creator_groups, creator)
    }

    /// Creates an empty group `id`; `GroupAlreadyExists` when the identifier is
    /// taken, in which case nothing changes. On success the identifier is also
    /// appended to the creator's list of groups.
    pub fn create(
        &mut self,
        id: GroupId,
        name: Vec<u8>,
        creator: Address,
        usage_count: u32,
        payment_token: Address,
    ) -> (r: Result<(), AutoShareError>)
        requires
            old(self).wf(),
        ensures
            final(self).wf(),
            create_result(old(self)@, id@, name@, creator@, usage_count, payment_token@) == (match r {
                Ok(_) => Ok::<Ledger, AutoShareError>(final(self)@),
                Err(e) => Err::<Ledger, AutoShareError>(e),
            }),
            r is Err ==> final(self)@ == old(self)@,
    {
        if self.find_group(&id).is_some() {
            return Err(AutoShareError::GroupAlreadyExists);
        }
        let ghost old_self = *self;
        let ghost expected = create_result(
            self@,
            id@,
            name@,
            creator@,
            usage_count,
            payment_token@,
        )->Ok_0;
        let details = AutoShareDetails {
            id,
            name,
            creator: creator.duplicate(),
            usage_count,
            payment_token,
            members: Vec::new(),
        };
        assert(details@ == new_group(id@, name@, creator@, usage_count, payment_token@)) by {
            assert(view_members(details.members@) =~= Seq::<MemberView>::empty());
        }
        proof {
            lemma_groups_push(self.groups@, details);
        }
        self.groups.push(details);
        match self.find_creator(&creator) {
            Some(ci) => {
                let mut ids = copy_ids(&self.creator_groups[ci].ids);
                proof {
                    lemma_creators_map_at(self.creator_groups@, ci as int);
                }
                ids.push(id);
                let entry = CreatorGroups { creator, ids };
                assert(view_ids(entry.ids@) =~= creator_ids(old_self@, entry.creator@).push(id@));
                proof {
                    lemma_creators_update(self.creator_groups@, ci as int, entry);
                }
                self.creator_groups.set(ci, entry);
            },
            None => {
                let mut ids: Vec<GroupId> = Vec::new();
                ids.push(id);
                let entry = CreatorGroups { creator, ids };
                assert(self.creator_groups@ == old_self.creator_groups@);
                assert(!old_self@.creator_groups.contains_key(entry.creator@)) by {
                    if old_self@.creator_groups.contains_key(entry.creator@) {
                        let j = choose|j: int|
                            0 <= j < old_self.creator_groups@.len() && (#[trigger] old_self.creator_groups@[j]).creator@
                                == entry.creator@;
                        assert(self.creator_groups@[j].creator@ != creator@);
                    }
                }
                assert(view_ids(entry.ids@) =~= creator_ids(old_self@, entry.creator@).push(id@));
                proof {
                    lemma_creators_push(self.creator_groups@, entry);
                }
                self.creator_groups.push(entry);
            },
        }
        assert(self@ =~= expected);
        proof {
            law_create_preserves_wf(old_self@, id@, name@, creator@, usage_count, payment_token@);
        }
        Ok(())
    }


    /// Replaces the members of group `id`. Refused, with nothing changed, when
    /// the group does not exist (`GroupNotFound`), `caller` is not its creator
    /// (`Unauthorized`), the list is empty (`EmptyMembers`), an address occurs
    /// twice (`DuplicateMember`) or the basis points are not valid
    /// (`InvalidPercentage`), checked in that order.
    pub fn update_members(&mut self, id: &GroupId, caller: &Address, new_members: Vec<GroupMember>) -> (r:
        Result<(), AutoShareError>)
        requires
            old(self).wf(),
        ensures
            final(self).wf(),
            update_members_result(old(self)@, id@, caller@, view_members(new_members@)) == (match r {
                Ok(_) => Ok::<Ledger, AutoShareError>(final(self)@),
                Err(e) => Err::<Ledger, AutoShareError>(e),
            }),
            r is Err ==> final(self)@ == old(self)@,
    {
        let ghost old_self = *self;
        let ghost ms = view_members(new_members@);
        let gi: usize = match self.find_group(id) {
            Some(i) => i,
            None => {
                return Err(AutoShareError::GroupNotFound);
            },
        };
        proof {
            lemma_groups_map_at(self.groups@, gi as int);
        }
        match validate_is_creator(&self.groups[gi].creator, caller) {
            Ok(()) => {},
            Err(e) => {
                return Err(e);
            },
        }
        match validate_members_unique(&new_members) {
            Ok(()) => {},
            Err(e) => {
                return Err(e);
            },
        }
        match validate_percentages(&new_members) {
            Ok(()) => {},
            Err(e) => {
                return Err(e);
            },
        }
        let current = &self.groups[gi];
        let updated = AutoShareDetails {
            id: current.id,
            name: copy_bytes(&current.name),
            creator: current.creator.duplicate(),
            usage_count: current.usage_count,
            payment_token: current.payment_token.duplicate(),
            members: new_members,
        };
        assert(updated@ == with_members(old_self@.groups[id@], ms));
        proof {
            lemma_groups_update(self.groups@, gi as int, updated);
        }
        self.groups.set(gi, updated);
        assert(self@ =~= update_members_result(old_self@, id@, caller@, ms)->Ok_0);
        proof {
            law_update_preserves_wf(old_self@, id@, caller@, ms);
        }
        Ok(())
    }

    /// Every group that `creator` has made, oldest first.
    pub fn get_groups_by_creator(&self, creator: &Address) -> (r: Vec<AutoShareDetails>)
        requires
            self.wf(),
        ensures
            view_groups(r@) == groups_of(self@, creator@),
    {
        let mut result: Vec<AutoShareDetails> = Vec::new();
        match self.find_creator(creator) {
            None => {
                assert(!self@.creator_groups.contains_key(creator@)) by {
                    if self@.creator_groups.contains_key(creator@) {
                        let j = choose|j: int|
                            0 <= j < self.creator_groups@.len() && (#[trigger] self.creator_groups@[j]).creator@
                                == creator@;
                    }
                }
                assert(view_groups(result@) =~= groups_of(self@, creator@));
                result
            },
            Some(ci) => {
                proof {
                    lemma_creators_map_at(self.creator_groups@, ci as int);
                }
                let ids = &self.creator_groups[ci].ids;
                let ghost expected = groups_of(self@, creator@);
                assert(creator_ids(self@, creator@) == view_ids(ids@));
                let n: usize = ids.len();
                for k in 0..n
                    invariant
                        self.wf(),
                        n == ids.len(),
                        ids@ == self.creator_groups@[ci as int].ids@,
                        ci < self.creator_groups.len(),
                        self.creator_groups@[ci as int].creator@ == creator@,
                        creator_ids(self@, creator@) == view_ids(ids@),
                        expected == groups_of(self@, creator@),
                        expected.len() == n,
                        result.len() == k,
                        forall|j: int| 0 <= j < k ==> (#[trigger] result@[j])@ == expected[j],
                {
                    let ghost key = ids@[k as int]@;
                    assert(self@.creator_groups[creator@][k as int] == key);
                    match self.find_group(&ids[k]) {
                        Some(gi) => {
                            proof {
                                lemma_groups_map_at(self.groups@, gi as int);
                            }
                            let d = self.groups[gi].duplicate();
                            assert(expected[k as int] == self@.groups[key]);
                            assert(d@ == expected[k as int]);
                            result.push(d);
                        },
                        None => {
                            assert(self@.groups.contains_key(key));
                            let ghost j = choose|j: int|
                                0 <= j < self.groups@.len() && (#[trigger] self.groups@[j]).id@ == key;
                            assert(self.groups@[j].id@ != key);
                        },
                    }
                }
                assert(view_groups(result@) =~= expected);
                result
            },
        }
    }

    /// The checks that `distribute` makes before it needs the sender's balance
    /// (`InvalidAmount` for an amount that is not positive, `GroupNotFound`,
    /// `EmptyMembers`), and the token whose balance it then needs.
    pub fn distribution_token(&self, id: &GroupId, amount: i128) -> (r: Result<Address, AutoShareError>)
        requires
            self.wf(),
        ensures
            match r {
                Ok(t) => distribution_token_result(self@, id@, amount as int) == Ok::<
                    Seq<char>,
                    AutoShareError,
                >(t@),
                Err(e) => distribution_token_result(self@, id@, amount as int) == Err::<
                    Seq<char>,
                    AutoShareError,
                >(e),
            },
    {
        match validate_amount(amount) {
            Ok(()) => {},
            Err(e) => {
                return Err(e);
            },
        }
        let gi: usize = match self.find_group(id) {
            Some(i) => i,
            None => {
                return Err(AutoShareError::GroupNotFound);
            },
        };
        proof {
            lemma_groups_map_at(self.groups@, gi as int);
        }
        let details = &self.groups[gi];
        if details.members.len() == 0 {
            return Err(AutoShareError::EmptyMembers);
        }
        Ok(details.payment_token.duplicate())
    }

    /// Decides a distribution of `amount` from a sender whose balance of the
    /// group's token is `from_balance`: the transfers to make, one per member in
    /// member order, whose amounts add up to exactly `amount`. Refused with
    /// `InvalidAmount`, `GroupNotFound`, `EmptyMembers`, `InsufficientBalance`,
    /// or an error of `distribute_amounts`, checked in that order.
    pub fn distribute(&self, id: &GroupId, amount: i128, from_balance: i128) -> (r: Result<
        Vec<Payout>,
        AutoShareError,
    >)
        requires
            self.wf(),
        ensures
            match r {
                Ok(ps) => distribute_result(self@, id@, amount as int, from_balance as int) == Ok::<
                    Seq<PayoutView>,
                    AutoShareError,
                >(view_payouts(ps@)),
                Err(e) => distribute_result(self@, id@, amount as int, from_balance as int) == Err::<
                    Seq<PayoutView>,
                    AutoShareError,
                >(e),
            },
    {
        match self.distribution_token(id, amount) {
            Ok(_) => {},
            Err(e) => {
                return Err(e);
            },
        }
        let gi: usize = match self.find_group(id) {
            Some(i) => i,
            None => {
                return Err(AutoShareError::GroupNotFound);
            },
        };
        proof {
            lemma_groups_map_at(self.groups@, gi as int);
        }
        if from_balance < amount {
            return Err(AutoShareError::InsufficientBalance);
        }
        let members = &self.groups[gi].members;
        let shares = match distribute_amounts(amount, members) {
            Ok(v) => v,
            Err(e) => {
                return Err(e);
            },
        };
        let ghost ms = view_members(members@);
        let ghost expected = payouts_for(ms, distribution(amount as int, percentages(ms))->Ok_0);
        let n: usize = members.len();
        assert(distribution(amount as int, percentages(ms)) == Ok::<Seq<int>, AutoShareError>(
            crate::base::utils::ints_of(shares@),
        ));
        assert(crate::base::utils::ints_of(shares@).len() == shares@.len());
        assert(percentages(ms).len() == n);
        assert(shares.len() == n);
        let mut payouts: Vec<Payout> = Vec::new();
        for i in 0..n
            invariant
                n == members.len(),
                shares.len() == n,
                ms == view_members(members@),
                expected == payouts_for(ms, distribution(amount as int, percentages(ms))->Ok_0),
                distribution(amount as int, percentages(ms))->Ok_0 =~= shares@.map_values(
                    |x: i128| x as int,
                ),
                expected.len() == n,
                payouts.len() == i,
                forall|j: int| 0 <= j < i ==> (#[trigger] payouts@[j])@ == expected[j],
        {
            let p = Payout { to: members[i].address.duplicate(), amount: shares[i] };
            assert(p@ == expected[i as int]);
            payouts.push(p);
        }
        assert(view_payouts(payouts@) =~= expected);
        Ok(payouts)
    }

    /// The split of `total_amount` among the members of group `group_id`,
    /// exactly as `distribute` would make it; no tokens move.
    pub fn get_member_shares(&self, group_id: &GroupId, total_amount: i128) -> (r: Result<
        Vec<i128>,
        AutoShareError,
    >)
        requires
            self.wf(),
        ensures
            match r {
                Ok(v) => member_shares_result(self@, group_id@, total_amount as int) == Ok::<
                    Seq<int>,
                    AutoShareError,
                >(v@.map_values(|x: i128| x as int)),
                Err(e) => member_shares_result(self@, group_id@, total_amount as int) == Err::<
                    Seq<int>,
                    AutoShareError,
                >(e),
            },
    {
        let gi: usize = match self.find_group(group_id) {
            Some(i) => i,
            None => {
                return Err(AutoShareError::GroupNotFound);
            },
        };
        proof {
            lemma_groups_map_at(self.groups@, gi as int);
        }
        distribute_amounts(total_amount, &self.groups[gi].members)
    }

    /// `total * percentage / 10_000` for any inputs (see `calculate_share`).
    pub fn get_calculated_share(total: i128, percentage: u32) -> (r: Result<i128, AutoShareError>)
        ensures
            match r {
                Ok(s) => share_result(total as int, percentage as int) == Ok::<int, AutoShareError>(
                    s as int,
                ),
                Err(e) => share_result(total as int, percentage as int) == Err::<
                    int,
                    AutoShareError,
                >(e),
            },
    {
        calculate_share(total, percentage)
    }

    /// The sum of the basis points of group `group_id`'s members, saturated at
    /// `u32::MAX`; a group with members always gives 10 000.
    pub fn get_total_percentage(&self, group_id: &GroupId) -> (r: Result<u32, AutoShareError>)
        requires
            self.wf(),
        ensures
            match r {
                Ok(t) => total_percentage_result(self@, group_id@) == Ok::<int, AutoShareError>(
                    t as int,
                ),
                Err(e) => total_percentage_result(self@, group_id@) == Err::<int, AutoShareError>(
                    e,
                ),
            },
    {
        let gi: usize = match self.find_group(group_id) {
            Some(i) => i,
            None => {
                return Err(AutoShareError::GroupNotFound);
            },
        };
        proof {
            lemma_groups_map_at(self.groups@, gi as int);
        }
        let members = &self.groups[gi].members;
        let ghost p = member_percentages(members@);
        let n: usize = members.len();
        let mut sum: u32 = 0;
        for i in 0..n
            invariant
                n == members.len(),
                p == member_percentages(members@),
                p.len() == n,
                sum == saturating_total(p.take(i as int)),
        {
            let pct: u32 = members[i].percentage;
            assert(pct == p[i as int]);
            proof {
                crate::base::utils::lemma_sum_take_step(p, i as int);
                crate::base::utils::lemma_sum_nonneg(p.take(i as int));
            }
            sum = sum.saturating_add(pct);
        }
        assert(p.take(n as int) =~= p);
        Ok(sum)
    }


    /// Rebuilds a contract state from stored groups and creator entries;
    /// `None` unless they form a valid state.
    pub fn restore(groups: Vec<AutoShareDetails>, creator_groups: Vec<CreatorGroups>) -> (r: Option<
        AutoShareContract,
    >)
        ensures
            r is Some <==> parts_wf(groups@, creator_groups@),
            r matches Some(c) ==> c.wf() && c@ == ledger_of(groups@, creator_groups@),
    {
        if !check_unique_ids(&groups) || !check_unique_creators(&creator_groups) {
            return None;
        }
        proof {
            lemma_parts_wf_iff(groups@, creator_groups@);
        }
        if !check_members(&groups) || !check_listed_groups(&groups, &creator_groups)
            || !check_lists_distinct(&creator_groups) || !check_groups_listed(
            &groups,
            &creator_groups,
        ) {
            return None;
        }
        Some(AutoShareContract { groups, creator_groups })
    }

    /// Hands back the stored groups and creator entries, from which `restore`
    /// rebuilds this state.
    pub fn into_parts(self) -> (r: (Vec<AutoShareDetails>, Vec<CreatorGroups>))
        requires
            self.wf(),
        ensures
            parts_wf(r.0@, r.1@),
            ledger_of(r.0@, r.1@) == self@,
    {
        (self.groups, self.creator_groups)
    }

    /// Returns the group `id`, or `GroupNotFound`.
    pub fn get(&self, id: &GroupId) -> (r: Result<AutoShareDetails, AutoShareError>)
        requires
            self.wf(),
        ensures
            match r {
                Ok(d) => get_result(self@, id@) == Ok::<DetailsView, AutoShareError>(d@),
                Err(e) => get_result(self@, id@) == Err::<DetailsView, AutoShareError>(e),
            },
    {
        match self.find_group(id) {
            Some(i) => {
                proof {
                    lemma_groups_map_at(self.groups@, i as int);
                }
                Ok(self.groups[i].duplicate())
            },
            None => Err(AutoShareError::GroupNotFound),
        }
    }
}

} // verus!
