use vstd::prelude::*;

use crate::base::errors::AutoShareError;
use crate::base::types::{DetailsView, MemberView, PayoutView};
use crate::base::utils::{distribution, percentages, percentages_valid, sum_of};
use crate::base::validators::members_unique_check;

verus! {

/// The contract's ledger as a mathematical value: each group by its
/// identifier, and each creator's group identifiers in creation order.
#[verifier::ext_equal]
pub struct Ledger {
    pub groups: Map<Seq<u8>, DetailsView>,
    pub creator_groups: Map<Seq<char>, Seq<Seq<u8>>>,
}

/// A member list that a group may hold: none yet, or a non-empty list of
/// distinct addresses whose basis points are valid.
pub open spec fn members_acceptable(ms: Seq<MemberView>) -> bool {
    ms.len() == 0 || (members_unique_check(ms) is Ok && percentages_valid(percentages(ms)))
}

/// What every reachable ledger satisfies: each group is stored under its own
/// identifier with an acceptable member list, and is listed exactly once, in
/// its own creator's list; a creator's list names only that creator's groups.
pub open spec fn ledger_wf(l: Ledger) -> bool {
    &&& forall|id: Seq<u8>| #[trigger] l.groups.contains_key(id) ==> l.groups[id].id == id
    &&& forall|id: Seq<u8>| #[trigger] l.groups.contains_key(id) ==> members_acceptable(
        l.groups[id].members,
    )
    &&& forall|c: Seq<char>, k: int|
        #![trigger l.creator_groups[c][k]]
        l.creator_groups.contains_key(c) && 0 <= k < l.creator_groups[c].len() ==> {
            &&& l.groups.contains_key(l.creator_groups[c][k])
            &&& l.groups[l.creator_groups[c][k]].creator == c
        }
    &&& forall|c: Seq<char>, j: int, k: int|
        #![trigger l.creator_groups[c][j], l.creator_groups[c][k]]
        l.creator_groups.contains_key(c) && 0 <= j < k < l.creator_groups[c].len()
            ==> l.creator_groups[c][j] != l.creator_groups[c][k]
    &&& forall|id: Seq<u8>| #[trigger] l.groups.contains_key(id) ==> {
        &&& l.creator_groups.contains_key(l.groups[id].creator)
        &&& l.creator_groups[l.groups[id].creator].contains(id)
    }
}

/// The identifiers of the groups that `creator` has made, oldest first.
pub open spec fn creator_ids(l: Ledger, creator: Seq<char>) -> Seq<Seq<u8>> {
    if l.creator_groups.contains_key(creator) {
        l.creator_groups[creator]
    } else {
        Seq::empty()
    }
}

/// A freshly created group: no members yet.
pub open spec fn new_group(
    id: Seq<u8>,
    name: Seq<u8>,
    creator: Seq<char>,
    usage_count: u32,
    payment_token: Seq<char>,
) -> DetailsView {
    DetailsView {
        id,
        name,
        creator,
        usage_count,
        payment_token,
        members: Seq::empty(),
    }
}

/// What `create` does to the ledger: refuse an identifier already in use,
/// else store the new group and append its identifier to the creator's list.
pub open spec fn create_result(
    l: Ledger,
    id: Seq<u8>,
    name: Seq<u8>,
    creator: Seq<char>,
    usage_count: u32,
    payment_token: Seq<char>,
) -> Result<Ledger, AutoShareError> {
    if l.groups.contains_key(id) {
        Err(AutoShareError::GroupAlreadyExists)
    } else {
        Ok(
            Ledger {
                groups: l.groups.insert(id, new_group(id, name, creator, usage_count, payment_token)),
                creator_groups: l.creator_groups.insert(creator, creator_ids(l, creator).push(id)),
            },
        )
    }
}

/// What `get` gives.
pub open spec fn get_result(l: Ledger, id: Seq<u8>) -> Result<DetailsView, AutoShareError> {
    if l.groups.contains_key(id) {
        Ok(l.groups[id])
    } else {
        Err(AutoShareError::GroupNotFound)
    }
}

/// `d` with its member list replaced.
pub open spec fn with_members(d: DetailsView, ms: Seq<MemberView>) -> DetailsView {
    DetailsView {
        id: d.id,
        name: d.name,
        creator: d.creator,
        usage_count: d.usage_count,
        payment_token: d.payment_token,
        members: ms,
    }
}

/// What `update_members` does to the ledger. The checks come in this order:
/// the group exists, the caller is its creator, the list is non-empty with
/// distinct addresses, and its basis points are valid.
pub open spec fn update_members_result(
    l: Ledger,
    id: Seq<u8>,
    caller: Seq<char>,
    ms: Seq<MemberView>,
) -> Result<Ledger, AutoShareError> {
    if !l.groups.contains_key(id) {
        Err(AutoShareError::GroupNotFound)
    } else if l.groups[id].creator != caller {
        Err(AutoShareError::Unauthorized)
    } else if members_unique_check(ms) is Err {
        Err(members_unique_check(ms)->Err_0)
    } else if !percentages_valid(percentages(ms)) {
        Err(AutoShareError::InvalidPercentage)
    } else {
        Ok(
            Ledger {
                groups: l.groups.insert(id, with_members(l.groups[id], ms)),
                creator_groups: l.creator_groups,
            },
        )
    }
}

/// What `get_groups_by_creator` gives: the creator's groups, oldest first.
pub open spec fn groups_of(l: Ledger, creator: Seq<char>) -> Seq<DetailsView> {
    creator_ids(l, creator).map_values(|id: Seq<u8>| l.groups[id])
}

/// What `get_member_shares` gives: the split of `total` among the group's
/// members (see `distribution`), or `GroupNotFound`.
pub open spec fn member_shares_result(l: Ledger, id: Seq<u8>, total: int) -> Result<
    Seq<int>,
    AutoShareError,
> {
    if l.groups.contains_key(id) {
        distribution(total, percentages(l.groups[id].members))
    } else {
        Err(AutoShareError::GroupNotFound)
    }
}

/// A sum of basis points, saturated at `u32::MAX`.
pub open spec fn saturating_total(p: Seq<u32>) -> int {
    if sum_of(p) > u32::MAX {
        u32::MAX as int
    } else {
        sum_of(p)
    }
}

/// What `get_total_percentage` gives.
pub open spec fn total_percentage_result(l: Ledger, id: Seq<u8>) -> Result<int, AutoShareError> {
    if l.groups.contains_key(id) {
        Ok(saturating_total(percentages(l.groups[id].members)))
    } else {
        Err(AutoShareError::GroupNotFound)
    }
}

/// The checks that `distribute` makes before it needs the sender's balance,
/// in order, and the token whose balance it then needs.
pub open spec fn distribution_token_result(l: Ledger, id: Seq<u8>, amount: int) -> Result<
    Seq<char>,
    AutoShareError,
> {
    if amount <= 0 {
        Err(AutoShareError::InvalidAmount)
    } else if !l.groups.contains_key(id) {
        Err(AutoShareError::GroupNotFound)
    } else if l.groups[id].members.len() == 0 {
        Err(AutoShareError::EmptyMembers)
    } else {
        Ok(l.groups[id].payment_token)
    }
}

/// One payout per member, in member order.
pub open spec fn payouts_for(members: Seq<MemberView>, shares: Seq<int>) -> Seq<PayoutView> {
    Seq::new(members.len(), |i: int| PayoutView { to: members[i].address, amount: shares[i] })
}

/// What `distribute` gives for `amount` when the sender holds `balance`:
/// the transfers to make, or why none are made.
pub open spec fn distribute_result(l: Ledger, id: Seq<u8>, amount: int, balance: int) -> Result<
    Seq<PayoutView>,
    AutoShareError,
> {
    match distribution_token_result(l, id, amount) {
        Err(e) => Err(e),
        Ok(_) => if balance < amount {
            Err(AutoShareError::InsufficientBalance)
        } else {
            match distribution(amount, percentages(l.groups[id].members)) {
                Ok(shares) => Ok(payouts_for(l.groups[id].members, shares)),
                Err(e) => Err(e),
            }
        },
    }
}

/// The amounts of a list of payouts, in order.
pub open spec fn payout_amounts(ps: Seq<PayoutView>) -> Seq<int> {
    ps.map_values(|p: PayoutView| p.amount)
}

/// A read after a successful create gives back the new group, with no
/// members, and every other group as it was.
pub proof fn law_get_after_create(
    l: Ledger,
    id: Seq<u8>,
    name: Seq<u8>,
    creator: Seq<char>,
    usage_count: u32,
    payment_token: Seq<char>,
    other: Seq<u8>,
)
    requires
        create_result(l, id, name, creator, usage_count, payment_token) is Ok,
    ensures
        get_result(create_result(l, id, name, creator, usage_count, payment_token)->Ok_0, id)
            == Ok::<DetailsView, AutoShareError>(
            new_group(id, name, creator, usage_count, payment_token),
        ),
        other != id ==> get_result(
            create_result(l, id, name, creator, usage_count, payment_token)->Ok_0,
            other,
        ) == get_result(l, other),
{
}

/// A create with an identifier already in use is refused with
/// `GroupAlreadyExists` (and `create` then leaves the state as it was).
pub proof fn law_create_rejects_taken_id(
    l: Ledger,
    id: Seq<u8>,
    name: Seq<u8>,
    creator: Seq<char>,
    usage_count: u32,
    payment_token: Seq<char>,
)
    requires
        l.groups.contains_key(id),
    ensures
        create_result(l, id, name, creator, usage_count, payment_token) == Err::<
            Ledger,
            AutoShareError,
        >(AutoShareError::GroupAlreadyExists),
{
}

/// After a successful create, the creator's groups are the earlier ones
/// followed by the new group; every other creator's groups are unchanged.
pub proof fn law_groups_by_creator_after_create(
    l: Ledger,
    id: Seq<u8>,
    name: Seq<u8>,
    creator: Seq<char>,
    usage_count: u32,
    payment_token: Seq<char>,
    who: Seq<char>,
)
    requires
        ledger_wf(l),
        create_result(l, id, name, creator, usage_count, payment_token) is Ok,
    ensures
        groups_of(create_result(l, id, name, creator, usage_count, payment_token)->Ok_0, creator)
            == groups_of(l, creator).push(new_group(id, name, creator, usage_count, payment_token)),
        who != creator ==> groups_of(
            create_result(l, id, name, creator, usage_count, payment_token)->Ok_0,
            who,
        ) == groups_of(l, who),
{
    let m = create_result(l, id, name, creator, usage_count, payment_token)->Ok_0;
    let old_ids = creator_ids(l, creator);
    assert(creator_ids(m, creator) == old_ids.push(id));
    assert forall|j: int| 0 <= j < old_ids.len() implies m.groups[#[trigger] old_ids[j]]
        == l.groups[old_ids[j]] by {
        assert(l.creator_groups[creator][j] == old_ids[j]);
        assert(l.groups.contains_key(old_ids[j]));
    }
    assert(groups_of(m, creator) =~= groups_of(l, creator).push(
        new_group(id, name, creator, usage_count, payment_token),
    ));
    if who != creator {
        let ids = creator_ids(l, who);
        assert(creator_ids(m, who) == ids);
        assert forall|j: int| 0 <= j < ids.len() implies m.groups[#[trigger] ids[j]]
            == l.groups[ids[j]] by {
            assert(l.creator_groups[who][j] == ids[j]);
            assert(l.groups.contains_key(ids[j]));
        }
        assert(groups_of(m, who) =~= groups_of(l, who));
    }
}

/// A read after a successful member update gives back the group with the new
/// members and everything else as it was; other groups and the creators'
/// lists are unchanged.
pub proof fn law_get_after_update(
    l: Ledger,
    id: Seq<u8>,
    caller: Seq<char>,
    ms: Seq<MemberView>,
    other: Seq<u8>,
)
    requires
        update_members_result(l, id, caller, ms) is Ok,
    ensures
        get_result(update_members_result(l, id, caller, ms)->Ok_0, id) == Ok::<
            DetailsView,
            AutoShareError,
        >(with_members(l.groups[id], ms)),
        other != id ==> get_result(update_members_result(l, id, caller, ms)->Ok_0, other)
            == get_result(l, other),
        update_members_result(l, id, caller, ms)->Ok_0.creator_groups == l.creator_groups,
{
}

/// A stored group that has members holds valid basis points, so its total is
/// always exactly 10 000.
pub proof fn law_healthy_group_total(l: Ledger, id: Seq<u8>)
    requires
        ledger_wf(l),
        l.groups.contains_key(id),
        l.groups[id].members.len() > 0,
    ensures
        percentages_valid(percentages(l.groups[id].members)),
        total_percentage_result(l, id) == Ok::<int, AutoShareError>(10000),
{
}

/// A distribution pays each member, in member order, the share that
/// `get_member_shares` reports, never a negative amount, and moves exactly
/// `amount` in all.
pub proof fn law_distribute_pays_amount(l: Ledger, id: Seq<u8>, amount: int, balance: int)
    requires
        distribute_result(l, id, amount, balance) is Ok,
    ensures
        distribute_result(l, id, amount, balance)->Ok_0.len() == l.groups[id].members.len(),
        forall|i: int|
            0 <= i < l.groups[id].members.len() ==> (#[trigger] distribute_result(
                l,
                id,
                amount,
                balance,
            )->Ok_0[i]).to == l.groups[id].members[i].address,
        forall|i: int|
            0 <= i < l.groups[id].members.len() ==> (#[trigger] distribute_result(
                l,
                id,
                amount,
                balance,
            )->Ok_0[i]).amount >= 0,
        member_shares_result(l, id, amount) == Ok::<Seq<int>, AutoShareError>(
            payout_amounts(distribute_result(l, id, amount, balance)->Ok_0),
        ),
        crate::base::utils::sum_ints(payout_amounts(distribute_result(l, id, amount, balance)->Ok_0))
            == amount,
{
    let ms = l.groups[id].members;
    let p = percentages(ms);
    let shares = distribution(amount, p)->Ok_0;
    let ps = distribute_result(l, id, amount, balance)->Ok_0;
    assert(payout_amounts(ps) =~= shares);
    crate::base::utils::law_shares_sum_to_total(amount, p);
    assert forall|i: int| 0 <= i < ms.len() implies (#[trigger] ps[i]).amount >= 0 by {
        crate::base::utils::law_no_negative_shares(amount, p, i);
    }
}

/// A group with members always accepts a distribution of a positive amount
/// up to `MAX_SAFE_TOTAL` that the sender's balance covers.
pub proof fn law_distribute_succeeds(l: Ledger, id: Seq<u8>, amount: int, balance: int)
    requires
        ledger_wf(l),
        l.groups.contains_key(id),
        l.groups[id].members.len() > 0,
        0 < amount <= crate::base::utils::MAX_SAFE_TOTAL,
        balance >= amount,
    ensures
        distribute_result(l, id, amount, balance) is Ok,
{
    crate::base::utils::law_distribution_succeeds(amount, percentages(l.groups[id].members));
}

/// Creating a group keeps the ledger well formed.
pub proof fn law_create_preserves_wf(
    l: Ledger,
    id: Seq<u8>,
    name: Seq<u8>,
    creator: Seq<char>,
    usage_count: u32,
    payment_token: Seq<char>,
)
    requires
        ledger_wf(l),
        create_result(l, id, name, creator, usage_count, payment_token) is Ok,
    ensures
        ledger_wf(create_result(l, id, name, creator, usage_count, payment_token)->Ok_0),
{
    let m = create_result(l, id, name, creator, usage_count, payment_token)->Ok_0;
    assert forall|c: Seq<char>, k: int|
        m.creator_groups.contains_key(c) && 0 <= k < m.creator_groups[c].len() implies {
        &&& m.groups.contains_key(#[trigger] m.creator_groups[c][k])
        &&& m.groups[m.creator_groups[c][k]].creator == c
    } by {
        if c == creator {
            if k == creator_ids(l, creator).len() {
                assert(m.creator_groups[c][k] == id);
            } else {
                assert(m.creator_groups[c][k] == l.creator_groups[c][k]);
            }
        } else {
            assert(m.creator_groups[c][k] == l.creator_groups[c][k]);
        }
    }
    let old_ids = creator_ids(l, creator);
    assert(!old_ids.contains(id)) by {
        if old_ids.contains(id) {
            let k = choose|k: int| 0 <= k < old_ids.len() && old_ids[k] == id;
            assert(l.creator_groups[creator][k] == id);
        }
    }
    assert forall|c: Seq<char>, j: int, k: int|
        m.creator_groups.contains_key(c) && 0 <= j < k < m.creator_groups[c].len() implies #[trigger] m.creator_groups[c][j]
        != #[trigger] m.creator_groups[c][k] by {
        if c == creator {
            if k == old_ids.len() {
                assert(m.creator_groups[c][j] == old_ids[j]);
            } else {
                assert(l.creator_groups[c][j] != l.creator_groups[c][k]);
            }
        } else {
            assert(l.creator_groups[c][j] != l.creator_groups[c][k]);
        }
    }
    assert forall|g: Seq<u8>| #[trigger] m.groups.contains_key(g) implies {
        &&& m.creator_groups.contains_key(m.groups[g].creator)
        &&& m.creator_groups[m.groups[g].creator].contains(g)
    } by {
        if g == id {
            assert(m.creator_groups[creator][old_ids.len() as int] == id);
        } else {
            let c = l.groups[g].creator;
            assert(l.creator_groups[c].contains(g));
            let k = choose|k: int| 0 <= k < l.creator_groups[c].len() && l.creator_groups[c][k] == g;
            if c == creator {
                assert(m.creator_groups[c][k] == g);
            } else {
                assert(m.creator_groups[c][k] == g);
            }
        }
    }
}

/// In a well-formed ledger a creator's groups are each listed once: no group
/// comes twice, every group listed was made by that creator, and every stored
/// group that the creator made is listed.
pub proof fn law_groups_by_creator_each_once(l: Ledger, creator: Seq<char>)
    requires
        ledger_wf(l),
    ensures
        forall|j: int, k: int|
            0 <= j < k < groups_of(l, creator).len() ==> (#[trigger] groups_of(l, creator)[j]).id != (
            #[trigger] groups_of(l, creator)[k]).id,
        forall|k: int|
            0 <= k < groups_of(l, creator).len() ==> (#[trigger] groups_of(l, creator)[k]).creator
                == creator,
        forall|id: Seq<u8>|
            #[trigger] l.groups.contains_key(id) && l.groups[id].creator == creator ==> groups_of(
                l,
                creator,
            ).contains(l.groups[id]),
{
    let ids = creator_ids(l, creator);
    let gs = groups_of(l, creator);
    assert forall|j: int, k: int| 0 <= j < k < gs.len() implies (#[trigger] gs[j]).id != (
    #[trigger] gs[k]).id by {
        assert(l.creator_groups[creator][j] == ids[j]);
        assert(l.creator_groups[creator][k] == ids[k]);
        assert(l.groups.contains_key(ids[j]));
        assert(l.groups.contains_key(ids[k]));
    }
    assert forall|k: int| 0 <= k < gs.len() implies (#[trigger] gs[k]).creator == creator by {
        assert(l.creator_groups[creator][k] == ids[k]);
    }
    assert forall|id: Seq<u8>|
        #[trigger] l.groups.contains_key(id) && l.groups[id].creator == creator implies gs.contains(
        l.groups[id],
    ) by {
        assert(l.creator_groups[creator].contains(id));
        let k = choose|k: int| 0 <= k < l.creator_groups[creator].len() && l.creator_groups[creator][k] == id;
        assert(gs[k] == l.groups[id]);
    }
}

/// Replacing a group's members keeps the ledger well formed.
pub proof fn law_update_preserves_wf(l: Ledger, id: Seq<u8>, caller: Seq<char>, ms: Seq<MemberView>)
    requires
        ledger_wf(l),
        update_members_result(l, id, caller, ms) is Ok,
    ensures
        ledger_wf(update_members_result(l, id, caller, ms)->Ok_0),
{
    let m = update_members_result(l, id, caller, ms)->Ok_0;
    assert forall|c: Seq<char>, k: int|
        m.creator_groups.contains_key(c) && 0 <= k < m.creator_groups[c].len() implies {
        &&& m.groups.contains_key(#[trigger] m.creator_groups[c][k])
        &&& m.groups[m.creator_groups[c][k]].creator == c
    } by {
        assert(m.creator_groups[c][k] == l.creator_groups[c][k]);
    }
}

/// A create succeeds exactly when the identifier is not yet in use, and the
/// group it stores has exactly the given identifier, name (byte for byte, of
/// any length), creator, usage count and payment token, and no members; it
/// is the last of its creator's groups.
pub proof fn law_created_group_fields(
    l: Ledger,
    id: Seq<u8>,
    name: Seq<u8>,
    creator: Seq<char>,
    usage_count: u32,
    payment_token: Seq<char>,
)
    ensures
        create_result(l, id, name, creator, usage_count, payment_token) is Ok
            <==> !l.groups.contains_key(id),
        !l.groups.contains_key(id) ==> {
            let m = create_result(l, id, name, creator, usage_count, payment_token)->Ok_0;
            let g = get_result(m, id)->Ok_0;
            &&& get_result(m, id) is Ok
            &&& g.id == id
            &&& g.name == name
            &&& g.creator == creator
            &&& g.usage_count == usage_count
            &&& g.payment_token == payment_token
            &&& g.members.len() == 0
            &&& groups_of(m, creator).len() > 0
            &&& groups_of(m, creator).last() == g
        },
{
}

/// A member update succeeds exactly when the group exists, the caller is its
/// creator, the list is non-empty, no two members (at any positions) share
/// an address, every member's basis points are non-zero, and they add up to
/// exactly 10 000. On success the group holds exactly the given members and
/// keeps its identifier, name, creator, usage count and token.
pub proof fn law_update_members_accepts_exactly(
    l: Ledger,
    id: Seq<u8>,
    caller: Seq<char>,
    ms: Seq<MemberView>,
)
    ensures
        update_members_result(l, id, caller, ms) is Ok <==> {
            &&& l.groups.contains_key(id)
            &&& l.groups[id].creator == caller
            &&& ms.len() > 0
            &&& forall|i: int, j: int|
                #![trigger ms[i], ms[j]]
                0 <= i < j < ms.len() ==> ms[i].address != ms[j].address
            &&& forall|i: int| 0 <= i < ms.len() ==> (#[trigger] ms[i]).percentage != 0
            &&& sum_of(percentages(ms)) == 10000
        },
        update_members_result(l, id, caller, ms) is Ok ==> {
            let g = get_result(update_members_result(l, id, caller, ms)->Ok_0, id)->Ok_0;
            &&& g.members == ms
            &&& g.id == l.groups[id].id
            &&& g.name == l.groups[id].name
            &&& g.creator == l.groups[id].creator
            &&& g.usage_count == l.groups[id].usage_count
            &&& g.payment_token == l.groups[id].payment_token
        },
{
    crate::base::validators::law_members_unique_check_means_distinct(ms);
    let p = percentages(ms);
    assert((forall|i: int| 0 <= i < ms.len() ==> (#[trigger] ms[i]).percentage != 0) <==> (forall|
        i: int,
    | 0 <= i < p.len() ==> #[trigger] p[i] > 0)) by {
        if forall|i: int| 0 <= i < ms.len() ==> (#[trigger] ms[i]).percentage != 0 {
            assert forall|i: int| 0 <= i < p.len() implies #[trigger] p[i] > 0 by {
                assert(p[i] == ms[i].percentage);
            }
        }
        if forall|i: int| 0 <= i < p.len() ==> #[trigger] p[i] > 0 {
            assert forall|i: int| 0 <= i < ms.len() implies (#[trigger] ms[i]).percentage != 0 by {
                assert(p[i] == ms[i].percentage);
            }
        }
    }
}

} // verus!
