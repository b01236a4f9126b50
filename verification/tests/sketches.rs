use synap_server::hyperloglog::{HyperLogLogStats, HyperLogLogValue};
use synap_server::set::SetValue;

#[test]
fn set_add_remove_pop() {
    let mut s = SetValue::new_at(None, 0);
    assert!(s.is_empty());
    assert_eq!(s.add_at(vec![b"a".to_vec(), b"b".to_vec(), b"a".to_vec()], 1), 2);
    assert_eq!(s.len(), 2);
    assert!(s.is_member(b"a"));
    assert!(!s.is_member(b"z"));
    assert_eq!(s.remove_at(&[b"a".to_vec(), b"a".to_vec(), b"z".to_vec()], 2), 1);
    assert_eq!(s.members(), vec![b"b".to_vec()]);
    s.add_at(vec![b"c".to_vec(), b"d".to_vec()], 3);
    let popped = s.pop_at(2, 4);
    assert_eq!(popped, vec![b"b".to_vec(), b"c".to_vec()]);
    assert_eq!(s.len(), 1);
    assert_eq!(s.updated_at, 4);
}

#[test]
fn set_random_members_and_expiry() {
    let mut s = SetValue::new_at(Some(10), 100);
    s.add_at(vec![b"x".to_vec(), b"y".to_vec(), b"z".to_vec()], 100);
    let two = s.random_members(2);
    assert_eq!(two.len(), 2);
    assert!(two.iter().all(|m| s.is_member(m)));
    assert_eq!(s.random_members(5).len(), 3);
    assert!(!s.is_expired_at(109));
    assert!(s.is_expired_at(110));
}

#[test]
fn hll_add_and_merge() {
    let mut a = HyperLogLogValue::new_at(None, 0);
    assert_eq!(a.registers.len(), 16384);
    let added = a.pfadd_at(vec![b"x".to_vec(), b"y".to_vec()], 1);
    assert!(added >= 1);
    assert_eq!(a.pfadd_at(vec![b"x".to_vec()], 2), 0);
    let mut b = HyperLogLogValue::new_at(None, 0);
    b.pfadd_at(vec![b"z".to_vec()], 1);
    let before: Vec<u8> = a.registers.clone();
    a.merge_at(&b, 3);
    for i in 0..16384 {
        assert_eq!(a.registers[i], before[i].max(b.registers[i]));
    }
    assert_eq!(a.updated_at, 3);
}

#[test]
fn hll_ranks_are_at_least_fifteen() {
    let mut a = HyperLogLogValue::new_at(None, 0);
    a.pfadd_at(vec![b"anything".to_vec()], 0);
    let raised: Vec<u8> = a.registers.iter().copied().filter(|&r| r > 0).collect();
    assert_eq!(raised.len(), 1);
    assert!(raised[0] >= 15 && raised[0] <= 64);
}

#[test]
fn hll_stats_reset_zeroes_counters() {
    let mut s = HyperLogLogStats { total_hlls: 3, pfadd_count: 4, pfcount_count: 5, pfmerge_count: 6, total_cardinality: 7 };
    s.reset();
    assert_eq!(s.total_hlls + s.pfadd_count as usize + s.pfcount_count as usize + s.pfmerge_count as usize, 0);
    assert_eq!(s.total_cardinality, 0);
}
