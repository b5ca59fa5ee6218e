use stupid_ec::preconditions::{Checked, OddCheck};

#[test]
fn odd_check_accepts_odd_values() {
    let c: Checked<u64, OddCheck> = Checked::new(17);
    assert_eq!(c.inner(), 17);
    assert!(Checked::<u64, OddCheck>::try_new(4).is_none());
    assert_eq!(Checked::<u64, OddCheck>::try_new(4999).unwrap().inner(), 4999);
    assert!(Checked::<i64, OddCheck>::try_new(-3).is_some());
    assert!(Checked::<i64, OddCheck>::try_new(-4).is_none());
}
