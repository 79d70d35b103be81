use vstd::prelude::*;

verus! {

/// Every way in which an AutoShare operation can be refused.
#[derive(Clone, Copy, Debug, PartialEq, Eq, Structural)]
pub enum AutoShareError {
    GroupAlreadyExists,
    GroupNotFound,
    Unauthorized,
    InvalidPercentage,
    DuplicateMember,
    EmptyMembers,
    InvalidAmount,
    InsufficientBalance,
    MemberNotFound,
}

} // verus!
