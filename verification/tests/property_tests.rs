use autoshare::base;
use autoshare::base::errors::AutoShareError;
use autoshare::base::types::{Address, GroupMember};

fn text(s: &str) -> Vec<u8> {
    s.as_bytes().to_vec()
}

const CASES: u32 = 256;

/// A small deterministic generator (xorshift) standing in for random inputs.
struct Gen(u64);

impl Gen {
    fn next(&mut self) -> u64 {
        let mut x = self.0;
        x ^= x << 13;
        x ^= x >> 7;
        x ^= x << 17;
        self.0 = x;
        x
    }
    fn below(&mut self, n: u64) -> u64 {
        self.next() % n
    }
    fn amount(&mut self, max: i128) -> i128 {
        let raw = ((self.next() as u128) << 64) | self.next() as u128;
        (raw % (max as u128 + 1)) as i128
    }
}

fn make_members(bps: &[u32]) -> Vec<GroupMember> {
    bps.iter()
        .enumerate()
        .map(|(i, &pct)| GroupMember {
            address: Address::new(format!("GMEMBER{}", i)),
            name: text(if i == 0 { "m0" } else { "mx" }),
            percentage: pct,
        })
        .collect()
}

/// A list of 1..=50 positive basis points adding up to 10 000.
fn bps_partition(g: &mut Gen) -> Vec<u32> {
    let count = 1 + g.below(50) as usize;
    if count == 1 {
        return vec![10_000];
    }
    let mut cuts: Vec<u32> = (0..count - 1).map(|_| 1 + g.below(9_999) as u32).collect();
    cuts.sort_unstable();
    cuts.dedup();
    let mut parts = Vec::new();
    let mut prev = 0u32;
    for &c in &cuts {
        if c - prev > 0 {
            parts.push(c - prev);
        }
        prev = c;
    }
    if 10_000 - prev > 0 {
        parts.push(10_000 - prev);
    }
    parts
}

fn safe_amount(g: &mut Gen) -> i128 {
    1 + g.amount(base::utils::MAX_SAFE_TOTAL - 1)
}

#[test]
fn prop_shares_sum_to_total() {
    let mut g = Gen(0x1234_5678_9abc_def1);
    for _ in 0..CASES {
        let bps = bps_partition(&mut g);
        let total = safe_amount(&mut g);
        let shares = base::utils::distribute_amounts(total, &make_members(&bps)).unwrap();
        let share_sum: i128 = shares.iter().sum();
        assert_eq!(share_sum, total);
    }
}

#[test]
fn prop_non_final_shares_are_floor() {
    let mut g = Gen(0x0fed_cba9_8765_4321);
    for _ in 0..CASES {
        let bps = bps_partition(&mut g);
        let total = safe_amount(&mut g);
        let shares = base::utils::distribute_amounts(total, &make_members(&bps)).unwrap();
        let len = bps.len();
        for (i, &pct) in bps.iter().enumerate().take(len.saturating_sub(1)) {
            let expected = (total * pct as i128) / 10_000;
            let actual = shares[i];
            assert_eq!(actual, expected, "member {} share: floor {} got {}", i, expected, actual);
        }
        let last_floor = (total * bps[len - 1] as i128) / 10_000;
        let last_actual = shares[len - 1];
        let dust = (last_actual - last_floor).abs();
        assert!(dust < len as i128, "final member dust {} >= member_count {}", dust, len);
    }
}

#[test]
fn prop_no_negative_shares() {
    let mut g = Gen(0x5555_aaaa_3333_cccc);
    for _ in 0..CASES {
        let bps = bps_partition(&mut g);
        let total = safe_amount(&mut g);
        let shares = base::utils::distribute_amounts(total, &make_members(&bps)).unwrap();
        for share in shares.iter() {
            assert!(*share >= 0, "negative share: {}", share);
        }
    }
}

#[test]
fn prop_zero_total_all_zeros() {
    let mut g = Gen(0x9e37_79b9_7f4a_7c15);
    for _ in 0..CASES {
        let bps = bps_partition(&mut g);
        let shares = base::utils::distribute_amounts(0, &make_members(&bps)).unwrap();
        for share in shares.iter() {
            assert_eq!(*share, 0i128);
        }
    }
}

#[test]
fn prop_split_additive() {
    let mut g = Gen(0x2545_f491_4f6c_dd1d);
    let half_max = base::utils::MAX_SAFE_TOTAL / 2;
    for _ in 0..CASES {
        let bps = bps_partition(&mut g);
        let members = make_members(&bps);
        let a = g.amount(half_max);
        let b = g.amount(half_max);
        let sum_a: i128 = base::utils::distribute_amounts(a, &members).unwrap().iter().sum();
        let sum_b: i128 = base::utils::distribute_amounts(b, &members).unwrap().iter().sum();
        let sum_ab: i128 = base::utils::distribute_amounts(a + b, &members).unwrap().iter().sum();
        assert_eq!(sum_a, a);
        assert_eq!(sum_b, b);
        assert_eq!(sum_ab, a + b);
        assert_eq!(sum_a + sum_b, sum_ab);
    }
}

#[test]
fn prop_overflow_returns_invalid_amount() {
    let mut g = Gen(0xdead_beef_cafe_f00d);
    for _ in 0..CASES {
        let delta = 1 + g.below(10_000) as i128;
        let total = base::utils::MAX_SAFE_TOTAL + delta;
        let result = base::utils::calculate_share(total, 10_000);
        assert_eq!(
            result,
            Err(AutoShareError::InvalidAmount),
            "expected InvalidAmount for MAX_SAFE + {}, got {:?}",
            delta,
            result
        );
    }
}
