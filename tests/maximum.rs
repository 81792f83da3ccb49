use validate_geodsolve::maximum::RunningMaximum;

#[test]
fn empty_maximum_holds_nothing() {
    let m: RunningMaximum<u32> = RunningMaximum::new();
    assert!(!m.is_set());
    assert_eq!(m.metric(), None);
    assert_eq!(m.record(), None);
}

#[test]
fn largest_metric_wins() {
    let mut m = RunningMaximum::new();
    m.fold("a", Some(3));
    m.fold("b", Some(9));
    m.fold("c", Some(4));
    assert_eq!(m.finish(), ("b", 9));
}

#[test]
fn ties_keep_the_earliest_record() {
    let mut m = RunningMaximum::new();
    m.fold(0u32, Some(5));
    m.fold(1u32, Some(7));
    m.fold(2u32, Some(7));
    assert_eq!(m.record(), Some(&1));
    assert_eq!(m.metric(), Some(7));
}

#[test]
fn undefined_metrics_are_skipped() {
    let mut m = RunningMaximum::new();
    m.fold(0u32, None);
    assert!(!m.is_set());
    m.fold(1u32, Some(0));
    m.fold(2u32, None);
    assert_eq!(m.finish(), (1, 0));
}

#[test]
fn held_metric_never_decreases() {
    let metrics = [Some(2u64), None, Some(8), Some(1), Some(8), None, Some(3)];
    let mut m = RunningMaximum::new();
    let mut last = 0u64;
    for (i, x) in metrics.iter().enumerate() {
        m.fold(i, *x);
        let now = m.metric().unwrap();
        assert!(now >= last);
        last = now;
    }
    assert_eq!(m.finish(), (2, 8));
}
