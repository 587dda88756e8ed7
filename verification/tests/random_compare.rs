use bptree::BTreeMap;

#[test]
fn check_same_behavior_with_std_btreemap() {
    let mut m1 = std::collections::BTreeMap::new();
    let mut m2 = BTreeMap::<u32, 15>::new();

    let nums: Vec<u32> = std::iter::repeat_with(rand::random)
        .take(1024 * 1024)
        .collect();

    for &n in &nums {
        assert_eq!(m1.insert(n as u64, n), m2.insert(n as u64, n));
    }
    for &n in &nums {
        assert_eq!(m1.get(&(n as u64)), m2.get(n as u64));
        assert_eq!(
            m1.get(&(n.wrapping_add(1) as u64)),
            m2.get(n.wrapping_add(1) as u64)
        );
    }
    for &n in &nums {
        assert_eq!(m1.remove(&(n as u64)), m2.remove(n as u64));
    }
}
