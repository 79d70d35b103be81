use autoshare::base;
use autoshare::base::errors::AutoShareError;
use autoshare::base::types::{Address, GroupMember};

fn text(s: &str) -> Vec<u8> {
    s.as_bytes().to_vec()
}

fn addr(s: &str) -> Address {
    Address::new(String::from(s))
}

fn member(address: &Address, name: &str, percentage: u32) -> GroupMember {
    GroupMember { address: address.clone(), name: text(name), percentage }
}

fn two(p0: u32, p1: u32) -> Vec<GroupMember> {
    vec![member(&addr("GALICE"), "Alice", p0), member(&addr("GBOB"), "Bob", p1)]
}

#[test]
fn test_validate_amount_zero() {
    let result = base::validators::validate_amount(0);
    assert_eq!(result, Err(AutoShareError::InvalidAmount));
}

#[test]
fn test_validate_amount_negative() {
    let result = base::validators::validate_amount(-1000);
    assert_eq!(result, Err(AutoShareError::InvalidAmount));
}

#[test]
fn test_validate_amount_positive() {
    let result = base::validators::validate_amount(100);
    assert!(result.is_ok());
}

#[test]
fn test_validate_percentages_valid() {
    let members = two(6000, 4000);
    let result = base::validators::validate_percentages(&members);
    assert!(result.is_ok());
}

#[test]
fn test_validate_percentages_invalid_sum() {
    let members = vec![member(&addr("GALICE"), "Alice", 5000)];
    let result = base::validators::validate_percentages(&members);
    assert_eq!(result, Err(AutoShareError::InvalidPercentage));
}

#[test]
fn test_validate_percentages_zero_member() {
    let members = two(10000, 0);
    let result = base::validators::validate_percentages(&members);
    assert_eq!(result, Err(AutoShareError::InvalidPercentage));
}

#[test]
fn test_validate_members_unique_duplicates() {
    let alice = addr("GALICE");
    let members = vec![member(&alice, "Alice", 5000), member(&alice, "Alice Again", 5000)];
    let result = base::validators::validate_members_unique(&members);
    assert_eq!(result, Err(AutoShareError::DuplicateMember));
}

#[test]
fn test_validate_members_unique_empty() {
    let members: Vec<GroupMember> = Vec::new();
    let result = base::validators::validate_members_unique(&members);
    assert_eq!(result, Err(AutoShareError::EmptyMembers));
}

#[test]
fn test_validate_members_unique_valid() {
    let members = two(6000, 4000);
    let result = base::validators::validate_members_unique(&members);
    assert!(result.is_ok());
}

#[test]
fn test_validate_is_creator_valid() {
    let creator = addr("GCREATOR");
    let result = base::validators::validate_is_creator(&creator, &creator);
    assert!(result.is_ok());
}

#[test]
fn test_validate_is_creator_unauthorized() {
    let creator = addr("GCREATOR");
    let caller = addr("GCALLER");
    let result = base::validators::validate_is_creator(&creator, &caller);
    assert_eq!(result, Err(AutoShareError::Unauthorized));
}

#[test]
fn test_validate_member_exists() {
    let alice = addr("GALICE");
    let bob = addr("GBOB");
    let members = vec![member(&alice, "Alice", 6000), member(&bob, "Bob", 4000)];
    let result = base::validators::validate_member_exists(&members, &alice);
    assert!(result.is_ok());
    assert_eq!(result.unwrap().name, text("Alice"));
}

#[test]
fn test_validate_member_exists_not_found() {
    let alice = addr("GALICE");
    let charlie = addr("GCHARLIE");
    let members = vec![member(&alice, "Alice", 10000)];
    let result = base::validators::validate_member_exists(&members, &charlie);
    assert_eq!(result, Err(AutoShareError::MemberNotFound));
}

#[test]
fn test_calculate_share_normal() {
    let share = base::utils::calculate_share(1000, 2500).unwrap();
    assert_eq!(share, 250);
}

#[test]
fn test_calculate_share_zero() {
    let share = base::utils::calculate_share(1000, 0).unwrap();
    assert_eq!(share, 0);
}

#[test]
fn test_calculate_share_full() {
    let share = base::utils::calculate_share(1000, 10000).unwrap();
    assert_eq!(share, 1000);
}

#[test]
fn test_validate_percentages_ok() {
    let members = two(6000, 4000);
    let res = base::utils::validate_percentages(&members);
    assert!(res.is_ok());
}

#[test]
fn test_validate_percentages_too_low() {
    let members = two(5000, 4999);
    let res = base::utils::validate_percentages(&members);
    assert_eq!(res, Err(base::errors::AutoShareError::InvalidPercentage));
}

#[test]
fn test_validate_percentages_too_high() {
    let members = two(5000, 5001);
    let res = base::utils::validate_percentages(&members);
    assert_eq!(res, Err(base::errors::AutoShareError::InvalidPercentage));
}

#[test]
fn test_validate_percentages_zero() {
    let members: Vec<GroupMember> = Vec::new();
    let res = base::utils::validate_percentages(&members);
    assert_eq!(res, Err(base::errors::AutoShareError::InvalidPercentage));
}

#[test]
fn test_distribute_amounts_even() {
    let members = two(5000, 5000);
    let res = base::utils::distribute_amounts(1000, &members).unwrap();
    assert_eq!(res.len(), 2);
    assert_eq!(res[0], 500);
    assert_eq!(res[1], 500);
}

#[test]
fn test_distribute_amounts_indivisible() {
    let members = vec![
        member(&addr("GALICE"), "Alice", 3333),
        member(&addr("GBOB"), "Bob", 3333),
        member(&addr("GCHARLIE"), "Charlie", 3334),
    ];
    let res = base::utils::distribute_amounts(100, &members).unwrap();
    assert_eq!(res.len(), 3);
    let a = res[0];
    let b = res[1];
    let c = res[2];
    assert_eq!(a, 33);
    assert_eq!(b, 33);
    assert_eq!(c, 34);
    assert_eq!(a + b + c, 100);
}

#[test]
fn test_distribute_amounts_single() {
    let members = vec![member(&addr("GALICE"), "Alice", 10000)];
    let res = base::utils::distribute_amounts(12345, &members).unwrap();
    assert_eq!(res.len(), 1);
    assert_eq!(res[0], 12345);
}

#[test]
fn test_distribute_amounts_many() {
    let mut members = Vec::new();
    for i in 0..10 {
        members.push(member(&addr(&format!("GMEMBER{}", i)), "Member", 1000));
    }
    let res = base::utils::distribute_amounts(100000, &members).unwrap();
    assert_eq!(res.len(), 10);
    let mut sum = 0;
    for val in res.iter() {
        sum += val;
        assert_eq!(*val, 10000);
    }
    assert_eq!(sum, 100000);
}

#[test]
fn test_distribute_amounts_large() {
    let members = two(6000, 4000);
    let total: i128 = 1_000_000_000_000_000_000_000_000_000_000i128;
    let res = base::utils::distribute_amounts(total, &members).unwrap();
    assert_eq!(res.len(), 2);
    let a = res[0];
    let b = res[1];
    assert_eq!(a, 600_000_000_000_000_000_000_000_000_000i128);
    assert_eq!(b, 400_000_000_000_000_000_000_000_000_000i128);
    assert_eq!(a + b, total);
}

#[test]
fn test_distribute_amounts_negative() {
    let members = vec![member(&addr("GALICE"), "Alice", 10000)];
    let res = base::utils::distribute_amounts(-100, &members);
    assert_eq!(res, Err(base::errors::AutoShareError::InvalidAmount));
}

#[test]
fn test_distribute_amounts_one() {
    let members = two(5000, 5000);
    let res = base::utils::distribute_amounts(1, &members).unwrap();
    assert_eq!(res.len(), 2);
    assert_eq!(res[0], 0);
    assert_eq!(res[1], 1);
}

#[test]
fn test_distribute_amounts_zero() {
    let members = two(5000, 5000);
    let res = base::utils::distribute_amounts(0, &members).unwrap();
    assert_eq!(res.len(), 2);
    assert_eq!(res[0], 0);
    assert_eq!(res[1], 0);
}

#[test]
fn test_validate_percentages_large_list() {
    let mut members = Vec::new();
    for i in 0..100 {
        members.push(member(&addr(&format!("GMEMBER{}", i)), "Member", 100));
    }
    let res = base::utils::validate_percentages(&members);
    assert!(res.is_ok());
}

#[test]
fn test_calculate_share_overflow_boundary_safe() {
    let max_safe = base::utils::MAX_SAFE_TOTAL;
    let result = base::utils::calculate_share(max_safe, 10_000);
    assert!(result.is_ok(), "expected Ok for total == MAX_SAFE_TOTAL, got {:?}", result);
    assert_eq!(result.unwrap(), max_safe);
}

#[test]
fn test_calculate_share_overflow_boundary_over() {
    let over_safe = base::utils::MAX_SAFE_TOTAL + 1;
    let result = base::utils::calculate_share(over_safe, 10_000);
    assert_eq!(
        result,
        Err(base::errors::AutoShareError::InvalidAmount),
        "expected InvalidAmount for total == MAX_SAFE_TOTAL + 1, got {:?}",
        result
    );
}

#[test]
fn test_distribute_amounts_overflow_returns_err() {
    let over_safe_5000 = i128::MAX / 5_000 + 1;
    let members = two(5_000, 5_000);
    let result = base::utils::distribute_amounts(over_safe_5000, &members);
    assert_eq!(
        result,
        Err(base::errors::AutoShareError::InvalidAmount),
        "expected InvalidAmount for total > i128::MAX/5000, got {:?}",
        result
    );
}

#[test]
fn test_regression_validate_percentages_rejects_zero_member() {
    let members = vec![member(&addr("GALICE"), "Alice", 10000), member(&addr("GGHOST"), "Ghost", 0)];
    assert_eq!(
        base::utils::validate_percentages(&members),
        Err(base::errors::AutoShareError::InvalidPercentage)
    );
    assert_eq!(
        base::validators::validate_percentages(&members),
        Err(base::errors::AutoShareError::InvalidPercentage)
    );
}

#[test]
fn test_regression_validate_percentages_overflow_safe() {
    let members = vec![
        member(&addr("GA"), "A", u32::MAX / 2 + 1),
        member(&addr("GB"), "B", u32::MAX / 2 + 1),
    ];
    assert_eq!(
        base::utils::validate_percentages(&members),
        Err(base::errors::AutoShareError::InvalidPercentage)
    );
    assert_eq!(
        base::validators::validate_percentages(&members),
        Err(base::errors::AutoShareError::InvalidPercentage)
    );
}

#[test]
fn max_safe_total_is_the_i128_bound() {
    assert_eq!(base::utils::MAX_SAFE_TOTAL, i128::MAX / 10_000);
}

#[test]
fn calculate_share_rounds_toward_zero_for_negative_totals() {
    assert_eq!(base::utils::calculate_share(-1, 5000), Ok(0));
    assert_eq!(base::utils::calculate_share(-3, 5000), Ok(-1));
    assert_eq!(base::utils::calculate_share(i128::MIN, 1), Ok(i128::MIN / 10_000));
    assert_eq!(base::utils::calculate_share(i128::MIN, 2), Err(AutoShareError::InvalidAmount));
}

#[test]
fn validate_member_exists_returns_first_match() {
    let alice = addr("GALICE");
    let members = vec![member(&alice, "First", 5000), member(&alice, "Second", 5000)];
    let found = base::validators::validate_member_exists(&members, &alice).unwrap();
    assert_eq!(found.name, text("First"));
}

#[test]
fn distribute_amounts_invalid_percentages_take_precedence_over_overflow() {
    let members = two(5000, 4000);
    let result = base::utils::distribute_amounts(i128::MAX, &members);
    assert_eq!(result, Err(AutoShareError::InvalidPercentage));
}

#[test]
fn distribute_amounts_last_member_share_never_overflows() {
    // Only the non-final shares multiply; the last one is what is left.
    let members = two(1, 9999);
    let total = i128::MAX;
    let res = base::utils::distribute_amounts(total, &members).unwrap();
    assert_eq!(res[0], total / 10_000);
    assert_eq!(res[0] + res[1], total);
}
