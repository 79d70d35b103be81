use vstd::prelude::*;

use crate::base::errors::AutoShareError;
use crate::base::types::{view_members, Address, AutoShareDetails, GroupId, GroupMember, MemberView};
use crate::base::utils::{member_percentages, percentages_check};
use crate::contract::AutoShareContract;

verus! {

/// What `validate_amount` gives: an amount must be strictly positive.
pub open spec fn amount_check(amount: int) -> Result<(), AutoShareError> {
    if amount <= 0 {
        Err(AutoShareError::InvalidAmount)
    } else {
        Ok(())
    }
}

/// Whether two members of the list share an address.
pub open spec fn has_duplicate_address(ms: Seq<MemberView>) -> bool {
    exists|i: int, j: int|
        0 <= i < j < ms.len() && #[trigger] ms[i].address == #[trigger] ms[j].address
}

/// What `validate_members_unique` gives: the list must be non-empty and no
/// address may occur twice.
pub open spec fn members_unique_check(ms: Seq<MemberView>) -> Result<(), AutoShareError> {
    if ms.len() == 0 {
        Err(AutoShareError::EmptyMembers)
    } else if has_duplicate_address(ms) {
        Err(AutoShareError::DuplicateMember)
    } else {
        Ok(())
    }
}

/// A member list passes the uniqueness check exactly when it is non-empty and
/// no two of its members, at any two positions, share an address; an empty
/// list is refused with `EmptyMembers` and a repeated address with
/// `DuplicateMember`.
pub proof fn law_members_unique_check_means_distinct(ms: Seq<MemberView>)
    ensures
        members_unique_check(ms) is Ok <==> (ms.len() > 0 && forall|i: int, j: int|
            #![trigger ms[i], ms[j]]
            0 <= i < j < ms.len() ==> ms[i].address != ms[j].address),
        ms.len() == 0 ==> members_unique_check(ms) == Err::<(), AutoShareError>(
            AutoShareError::EmptyMembers,
        ),
        ms.len() > 0 && (exists|i: int, j: int|
            #![trigger ms[i], ms[j]]
            0 <= i < j < ms.len() && ms[i].address == ms[j].address) ==> members_unique_check(ms)
            == Err::<(), AutoShareError>(AutoShareError::DuplicateMember),
{
    if ms.len() > 0 && (exists|i: int, j: int|
        #![trigger ms[i], ms[j]]
        0 <= i < j < ms.len() && ms[i].address == ms[j].address) {
        let (i, j) = choose|i: int, j: int|
            #![trigger ms[i], ms[j]]
            0 <= i < j < ms.len() && ms[i].address == ms[j].address;
        assert(has_duplicate_address(ms));
    }
    if !has_duplicate_address(ms) {
        assert forall|i: int, j: int| #![trigger ms[i], ms[j]] 0 <= i < j < ms.len() implies ms[i].address
            != ms[j].address by {
            if ms[i].address == ms[j].address {
                assert(has_duplicate_address(ms));
            }
        }
    }
}

/// Validates that an amount is greater than zero; `InvalidAmount` otherwise.
pub fn validate_amount(amount: i128) -> (r: Result<(), AutoShareError>)
    ensures
        r == amount_check(amount as int),
{
    if amount <= 0 {
        Err(AutoShareError::InvalidAmount)
    } else {
        Ok(())
    }
}

/// Validates the members' basis points (see `utils::validate_percentages`).
pub fn validate_percentages(members: &Vec<GroupMember>) -> (r: Result<(), AutoShareError>)
    ensures
        r == percentages_check(member_percentages(members@)),
{
    crate::base::utils::validate_percentages(members)
}

/// Returns the stored group `id`, or `GroupNotFound`.
pub fn validate_group_exists(state: &AutoShareContract, id: &GroupId) -> (r: Result<
    AutoShareDetails,
    AutoShareError,
>)
    requires
        state.wf(),
    ensures
        match r {
            Ok(d) => state@.groups.contains_key(id@) && d@ == state@.groups[id@],
            Err(e) => !state@.groups.contains_key(id@) && e == AutoShareError::GroupNotFound,
        },
{
    state.get(id)
}

/// Returns the first member whose address is `address`, or `MemberNotFound`.
pub fn validate_member_exists(members: &Vec<GroupMember>, address: &Address) -> (r: Result<
    GroupMember,
    AutoShareError,
>)
    ensures
        match r {
            Ok(m) => exists|i: int|
                0 <= i < members.len() && members@[i].address@ == address@ && m@ == members@[i]@
                    && forall|j: int| 0 <= j < i ==> (#[trigger] members@[j]).address@ != address@,
            Err(e) => e == AutoShareError::MemberNotFound && forall|i: int|
                0 <= i < members.len() ==> (#[trigger] members@[i]).address@ != address@,
        },
{
    let n: usize = members.len();
    for i in 0..n
        invariant
            n == members.len(),
            forall|j: int| 0 <= j < i ==> (#[trigger] members@[j]).address@ != address@,
    {
        if members[i].address.same_as(address) {
            return Ok(members[i].duplicate());
        }
    }
    Err(AutoShareError::MemberNotFound)
}

/// `Unauthorized` unless `caller` is the group's `creator`.
pub fn validate_is_creator(creator: &Address, caller: &Address) -> (r: Result<(), AutoShareError>)
    ensures
        r == (if creator@ == caller@ {
            Ok::<(), AutoShareError>(())
        } else {
            Err(AutoShareError::Unauthorized)
        }),
{
    if creator.same_as(caller) {
        Ok(())
    } else {
        Err(AutoShareError::Unauthorized)
    }
}

/// `EmptyMembers` for an empty list, `DuplicateMember` when an address occurs
/// twice.
pub fn validate_members_unique(members: &Vec<GroupMember>) -> (r: Result<(), AutoShareError>)
    ensures
        r == members_unique_check(view_members(members@)),
{
    let ghost ms = view_members(members@);
    let n: usize = members.len();
    if n == 0 {
        return Err(AutoShareError::EmptyMembers);
    }
    for i in 0..n
        invariant
            n == members.len(),
            ms == view_members(members@),
            ms.len() == n,
            forall|a: int, b: int|
                0 <= a < i && a < b < n ==> #[trigger] ms[a].address != #[trigger] ms[b].address,
    {
        for j in i + 1..n
            invariant
                n == members.len(),
                ms == view_members(members@),
                ms.len() == n,
                i < n,
                forall|a: int, b: int|
                    0 <= a < i && a < b < n ==> #[trigger] ms[a].address != #[trigger] ms[b].address,
                forall|b: int| i < b < j ==> ms[i as int].address != #[trigger] ms[b].address,
        {
            if members[i].address.same_as(&members[j].address) {
                assert(ms[i as int].address == ms[j as int].address);
                assert(has_duplicate_address(ms));
                return Err(AutoShareError::DuplicateMember);
            }
        }
    }
    assert(!has_duplicate_address(ms));
    Ok(())
}

} // verus!
