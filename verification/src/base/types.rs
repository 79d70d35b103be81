use vstd::prelude::*;

verus! {

/// Identifier of a group: 32 raw bytes.
pub type GroupId = [u8; 32];

/// A ledger address, held as its strkey text ("G..." for an account,
/// "C..." for a contract). Two addresses are the same exactly when their
/// texts are.
#[derive(Clone, Debug, PartialEq, Eq)]
pub struct Address {
    pub strkey: String,
}

impl View for Address {
    type V = Seq<char>;

    open spec fn view(&self) -> Seq<char> {
        self.strkey@
    }
}

impl Address {
    pub fn new(strkey: String) -> (r: Address)
        ensures
            r@ == strkey@,
    {
        Address { strkey }
    }

    /// An independent copy of this address.
    pub fn duplicate(&self) -> (r: Address)
        ensures
            r@ == self@,
    {
        Address { strkey: self.strkey.clone() }
    }

    /// Whether `self` and `other` name the same address.
    pub fn same_as(&self, other: &Address) -> (r: bool)
        ensures
            r == (self@ == other@),
    {
        self.strkey == other.strkey
    }
}

/// An independent copy of a byte string.
pub fn copy_bytes(bytes: &Vec<u8>) -> (r: Vec<u8>)
    ensures
        r@ == bytes@,
{
    let mut out: Vec<u8> = Vec::new();
    let n: usize = bytes.len();
    for i in 0..n
        invariant
            n == bytes.len(),
            out@ == bytes@.take(i as int),
    {
        out.push(bytes[i]);
        assert(out@ =~= bytes@.take(i as int + 1));
    }
    assert(bytes@.take(n as int) =~= bytes@);
    out
}

/// One participant of a group and its part of every payment, in basis points
/// (10 000 is the whole amount).
#[derive(Clone, Debug, PartialEq, Eq)]
pub struct GroupMember {
    pub address: Address,
    /// The member's name, as the bytes the ledger holds (any bytes).
    pub name: Vec<u8>,
    pub percentage: u32,
}

/// What a member is, as a mathematical value.
#[verifier::ext_equal]
pub struct MemberView {
    pub address: Seq<char>,
    pub name: Seq<u8>,
    pub percentage: u32,
}

impl View for GroupMember {
    type V = MemberView;

    open spec fn view(&self) -> MemberView {
        MemberView { address: self.address@, name: self.name@, percentage: self.percentage }
    }
}

/// The mathematical value of a list of members.
pub open spec fn view_members(members: Seq<GroupMember>) -> Seq<MemberView> {
    members.map_values(|m: GroupMember| m@)
}

impl GroupMember {
    /// An independent copy of this member.
    pub fn duplicate(&self) -> (r: GroupMember)
        ensures
            r@ == self@,
    {
        GroupMember {
            address: self.address.duplicate(),
            name: copy_bytes(&self.name),
            percentage: self.percentage,
        }
    }
}

/// An independent copy of a list of members.
pub fn duplicate_members(members: &Vec<GroupMember>) -> (r: Vec<GroupMember>)
    ensures
        view_members(r@) == view_members(members@),
{
    let mut out: Vec<GroupMember> = Vec::new();
    let n: usize = members.len();
    for i in 0..n
        invariant
            n == members.len(),
            out.len() == i,
            forall|j: int| 0 <= j < i ==> (#[trigger] out@[j])@ == members@[j]@,
    {
        out.push(members[i].duplicate());
    }
    assert(view_members(out@) =~= view_members(members@));
    out
}

/// A payment group as the ledger stores it.
#[derive(Clone, Debug, PartialEq, Eq)]
pub struct AutoShareDetails {
    pub id: GroupId,
    /// The group's name, as the bytes the ledger holds (any bytes).
    pub name: Vec<u8>,
    pub creator: Address,
    pub usage_count: u32,
    pub payment_token: Address,
    pub members: Vec<GroupMember>,
}

/// What a group is, as a mathematical value.
#[verifier::ext_equal]
pub struct DetailsView {
    pub id: Seq<u8>,
    pub name: Seq<u8>,
    pub creator: Seq<char>,
    pub usage_count: u32,
    pub payment_token: Seq<char>,
    pub members: Seq<MemberView>,
}

impl View for AutoShareDetails {
    type V = DetailsView;

    open spec fn view(&self) -> DetailsView {
        DetailsView {
            id: self.id@,
            name: self.name@,
            creator: self.creator@,
            usage_count: self.usage_count,
            payment_token: self.payment_token@,
            members: view_members(self.members@),
        }
    }
}

impl AutoShareDetails {
    /// An independent copy of this group.
    pub fn duplicate(&self) -> (r: AutoShareDetails)
        ensures
            r@ == self@,
    {
        AutoShareDetails {
            id: self.id,
            name: copy_bytes(&self.name),
            creator: self.creator.duplicate(),
            usage_count: self.usage_count,
            payment_token: self.payment_token.duplicate(),
            members: duplicate_members(&self.members),
        }
    }
}

/// The mathematical value of a list of groups.
pub open spec fn view_groups(groups: Seq<AutoShareDetails>) -> Seq<DetailsView> {
    groups.map_values(|d: AutoShareDetails| d@)
}

/// The mathematical value of a list of group identifiers.
pub open spec fn view_ids(ids: Seq<GroupId>) -> Seq<Seq<u8>> {
    ids.map_values(|id: GroupId| id@)
}

/// One transfer that a distribution asks for: `amount` units of the group's
/// token go to `to`.
#[derive(Clone, Debug, PartialEq, Eq)]
pub struct Payout {
    pub to: Address,
    pub amount: i128,
}

#[verifier::ext_equal]
pub struct PayoutView {
    pub to: Seq<char>,
    pub amount: int,
}

impl View for Payout {
    type V = PayoutView;

    open spec fn view(&self) -> PayoutView {
        PayoutView { to: self.to@, amount: self.amount as int }
    }
}

/// The mathematical value of a list of payouts.
pub open spec fn view_payouts(payouts: Seq<Payout>) -> Seq<PayoutView> {
    payouts.map_values(|p: Payout| p@)
}

/// Byte-wise equality of two group identifiers.
pub fn same_group_id(a: &GroupId, b: &GroupId) -> (r: bool)
    ensures
        r == (a@ == b@),
{
    let mut i: usize = 0;
    while i < 32
        invariant
            i <= 32,
            a@.len() == 32,
            b@.len() == 32,
            forall|j: int| 0 <= j < i ==> a@[j] == b@[j],
        decreases 32 - i,
    {
        if a[i] != b[i] {
            return false;
        }
        i = i + 1;
    }
    assert(a@ =~= b@);
    true
}

} // verus!
