use autoshare::base::errors::AutoShareError;
use autoshare::base::types::{Address, GroupId, GroupMember};
use autoshare::contract::CreatorGroups;
use autoshare::AutoShareContract;

fn text(s: &str) -> Vec<u8> {
    s.as_bytes().to_vec()
}

fn addr(s: &str) -> Address {
    Address::new(String::from(s))
}

fn member(address: &str, percentage: u32) -> GroupMember {
    GroupMember { address: addr(address), name: text(address), percentage }
}

#[test]
fn get_after_create_returns_the_new_group_and_leaves_others() {
    let mut c = AutoShareContract::new();
    let (a, b): (GroupId, GroupId) = ([1; 32], [2; 32]);
    c.create(a, text("A"), addr("GX"), 4, addr("CT")).unwrap();
    let before = c.get(&a).unwrap();
    c.create(b, text("B"), addr("GY"), 7, addr("CU")).unwrap();
    let got = c.get(&b).unwrap();
    assert_eq!(got.id, b);
    assert_eq!(got.name, text("B"));
    assert_eq!(got.creator, addr("GY"));
    assert_eq!(got.usage_count, 7);
    assert_eq!(got.payment_token, addr("CU"));
    assert!(got.members.is_empty());
    assert_eq!(c.get(&a).unwrap(), before);
}

#[test]
fn groups_by_creator_come_in_creation_order() {
    let mut c = AutoShareContract::new();
    let me = addr("GME");
    for byte in [5u8, 3, 9] {
        c.create([byte; 32], text(&format!("g{}", byte)), me.clone(), 1, addr("CT")).unwrap();
    }
    c.create([4; 32], text("other"), addr("GOTHER"), 1, addr("CT")).unwrap();
    let ids: Vec<GroupId> = c.get_groups_by_creator(&me).iter().map(|d| d.id).collect();
    assert_eq!(ids, vec![[5u8; 32], [3; 32], [9; 32]]);
    assert_eq!(c.get_groups_by_creator(&addr("GOTHER")).len(), 1);
    assert!(c.get_groups_by_creator(&addr("GNOBODY")).is_empty());
}

#[test]
fn rejected_create_leaves_the_creator_list_unchanged() {
    let mut c = AutoShareContract::new();
    c.create([1; 32], text("A"), addr("GX"), 1, addr("CT")).unwrap();
    assert_eq!(
        c.create([1; 32], text("A2"), addr("GX"), 2, addr("CT")),
        Err(AutoShareError::GroupAlreadyExists)
    );
    assert_eq!(c.get_groups_by_creator(&addr("GX")).len(), 1);
}

#[test]
fn update_replaces_only_the_members() {
    let mut c = AutoShareContract::new();
    let creator = addr("GX");
    c.create([1; 32], text("A"), creator.clone(), 4, addr("CT")).unwrap();
    c.create([2; 32], text("B"), creator.clone(), 5, addr("CT")).unwrap();
    let members = vec![member("GP", 2500), member("GQ", 7500)];
    c.update_members(&[1; 32], &creator, members.clone()).unwrap();
    let got = c.get(&[1; 32]).unwrap();
    assert_eq!(got.members, members);
    assert_eq!(got.name, text("A"));
    assert_eq!(got.usage_count, 4);
    assert!(c.get(&[2; 32]).unwrap().members.is_empty());
    let replaced = vec![member("GR", 10000)];
    c.update_members(&[1; 32], &creator, replaced.clone()).unwrap();
    assert_eq!(c.get(&[1; 32]).unwrap().members, replaced);
}

#[test]
fn update_checks_come_in_order() {
    let mut c = AutoShareContract::new();
    let creator = addr("GX");
    c.create([1; 32], text("A"), creator.clone(), 1, addr("CT")).unwrap();
    // A wrong caller is reported before a bad member list.
    assert_eq!(c.update_members(&[1; 32], &addr("GZ"), vec![]), Err(AutoShareError::Unauthorized));
    // A duplicate is reported before bad basis points.
    assert_eq!(
        c.update_members(&[1; 32], &creator, vec![member("GP", 1), member("GP", 1)]),
        Err(AutoShareError::DuplicateMember)
    );
}

#[test]
fn healthy_group_totals_ten_thousand() {
    let mut c = AutoShareContract::new();
    let creator = addr("GX");
    c.create([1; 32], text("A"), creator.clone(), 1, addr("CT")).unwrap();
    assert_eq!(c.get_total_percentage(&[1; 32]), Ok(0));
    c.update_members(&[1; 32], &creator, vec![member("GP", 1), member("GQ", 9999)]).unwrap();
    assert_eq!(c.get_total_percentage(&[1; 32]), Ok(10000));
}

#[test]
fn distribute_pays_the_member_shares_in_order() {
    let mut c = AutoShareContract::new();
    let creator = addr("GX");
    c.create([1; 32], text("A"), creator.clone(), 1, addr("CT")).unwrap();
    c.update_members(
        &[1; 32],
        &creator,
        vec![member("GP", 3333), member("GQ", 3333), member("GR", 3334)],
    )
    .unwrap();
    assert_eq!(c.distribution_token(&[1; 32], 101), Ok(addr("CT")));
    let payouts = c.distribute(&[1; 32], 101, 101).unwrap();
    let shares = c.get_member_shares(&[1; 32], 101).unwrap();
    let to: Vec<Address> = payouts.iter().map(|p| p.to.clone()).collect();
    assert_eq!(to, vec![addr("GP"), addr("GQ"), addr("GR")]);
    let amounts: Vec<i128> = payouts.iter().map(|p| p.amount).collect();
    assert_eq!(amounts, shares);
    assert_eq!(amounts, vec![33, 33, 35]);
    assert_eq!(amounts.iter().sum::<i128>(), 101);
}

#[test]
fn distribute_errors_each_have_an_input() {
    let mut c = AutoShareContract::new();
    let creator = addr("GX");
    c.create([1; 32], text("A"), creator.clone(), 1, addr("CT")).unwrap();
    assert_eq!(c.distribute(&[1; 32], 0, 100), Err(AutoShareError::InvalidAmount));
    assert_eq!(c.distribute(&[7; 32], 10, 100), Err(AutoShareError::GroupNotFound));
    assert_eq!(c.distribute(&[1; 32], 10, 100), Err(AutoShareError::EmptyMembers));
    assert_eq!(c.distribution_token(&[1; 32], 10), Err(AutoShareError::EmptyMembers));
    c.update_members(&[1; 32], &creator, vec![member("GP", 5000), member("GQ", 5000)]).unwrap();
    assert_eq!(c.distribute(&[1; 32], 10, 9), Err(AutoShareError::InsufficientBalance));
    assert_eq!(
        c.distribute(&[1; 32], i128::MAX, i128::MAX),
        Err(AutoShareError::InvalidAmount)
    );
    let max_safe = autoshare::base::utils::MAX_SAFE_TOTAL;
    assert!(c.distribute(&[1; 32], max_safe, max_safe).is_ok());
}

#[test]
fn final_member_dust_is_below_member_count() {
    let members: Vec<GroupMember> =
        (0..7).map(|i| member(&format!("GM{}", i), if i < 6 { 1428 } else { 1432 })).collect();
    let shares = autoshare::base::utils::distribute_amounts(1_000_003, &members).unwrap();
    let last_floor = 1_000_003i128 * 1432 / 10_000;
    let dust = shares[6] - last_floor;
    assert!(dust >= 0 && dust < 7);
    assert_eq!(shares.iter().sum::<i128>(), 1_000_003);
}

#[test]
fn restore_rebuilds_what_into_parts_hands_back() {
    let mut c = AutoShareContract::new();
    let creator = addr("GX");
    c.create([1; 32], text("A"), creator.clone(), 1, addr("CT")).unwrap();
    c.create([2; 32], text("B"), creator.clone(), 1, addr("CT")).unwrap();
    c.update_members(&[2; 32], &creator, vec![member("GP", 10000)]).unwrap();
    let (groups, creators) = c.into_parts();
    let again = AutoShareContract::restore(groups.clone(), creators.clone()).unwrap();
    assert_eq!(again.get(&[2; 32]).unwrap().members, vec![member("GP", 10000)]);
    assert_eq!(again.get_groups_by_creator(&creator).len(), 2);
}

#[test]
fn restore_refuses_inconsistent_state() {
    let mut c = AutoShareContract::new();
    let creator = addr("GX");
    c.create([1; 32], text("A"), creator.clone(), 1, addr("CT")).unwrap();
    let (groups, creators) = c.into_parts();
    // The same identifier twice.
    let mut doubled = groups.clone();
    doubled.push(groups[0].clone());
    assert!(AutoShareContract::restore(doubled, creators.clone()).is_none());
    // A creator list naming a group that does not exist.
    let dangling = vec![CreatorGroups { creator: creator.clone(), ids: vec![[9; 32]] }];
    assert!(AutoShareContract::restore(groups.clone(), dangling).is_none());
    // A creator list naming another creator's group.
    let foreign = vec![CreatorGroups { creator: addr("GY"), ids: vec![[1; 32]] }];
    assert!(AutoShareContract::restore(groups.clone(), foreign).is_none());
    // A stored member list with bad basis points.
    let mut bad = groups.clone();
    bad[0].members = vec![member("GP", 5000)];
    assert!(AutoShareContract::restore(bad, creators.clone()).is_none());
    assert!(AutoShareContract::restore(groups, creators).is_some());
}

#[test]
fn names_keep_any_bytes() {
    let mut c = AutoShareContract::new();
    let creator = addr("GX");
    let raw: Vec<u8> = vec![0xff, 0x00, 0xc3, 0x28];
    c.create([1; 32], raw.clone(), creator.clone(), 1, addr("CT")).unwrap();
    let odd = GroupMember { address: addr("GP"), name: vec![0x80, 0x81], percentage: 10000 };
    c.update_members(&[1; 32], &creator, vec![odd.clone()]).unwrap();
    let got = c.get(&[1; 32]).unwrap();
    assert_eq!(got.name, raw);
    assert_eq!(got.members, vec![odd]);
}

#[test]
fn groups_by_creator_lists_each_group_once() {
    let mut c = AutoShareContract::new();
    let me = addr("GME");
    c.create([1; 32], text("a"), me.clone(), 1, addr("CT")).unwrap();
    assert!(c.create([1; 32], text("again"), me.clone(), 1, addr("CT")).is_err());
    c.create([2; 32], text("b"), me.clone(), 1, addr("CT")).unwrap();
    c.update_members(&[1; 32], &me, vec![member("GP", 10000)]).unwrap();
    let groups = c.get_groups_by_creator(&me);
    let ids: Vec<GroupId> = groups.iter().map(|d| d.id).collect();
    assert_eq!(ids, vec![[1u8; 32], [2; 32]]);
    assert!(groups.iter().all(|d| d.creator == me));
    assert_eq!(groups[0].members, vec![member("GP", 10000)]);
}

#[test]
fn restore_refuses_lists_that_repeat_or_miss_a_group() {
    let mut c = AutoShareContract::new();
    let creator = addr("GX");
    c.create([1; 32], text("A"), creator.clone(), 1, addr("CT")).unwrap();
    c.create([2; 32], text("B"), creator.clone(), 1, addr("CT")).unwrap();
    let (groups, _) = c.into_parts();
    let repeated = vec![CreatorGroups { creator: creator.clone(), ids: vec![[1; 32], [2; 32], [1; 32]] }];
    assert!(AutoShareContract::restore(groups.clone(), repeated).is_none());
    let missing = vec![CreatorGroups { creator: creator.clone(), ids: vec![[2; 32]] }];
    assert!(AutoShareContract::restore(groups.clone(), missing).is_none());
    let complete = vec![CreatorGroups { creator, ids: vec![[1; 32], [2; 32]] }];
    assert!(AutoShareContract::restore(groups, complete).is_some());
}
