use reversible_logic::ancilla::{AncillaBit, AncillaManager, AncillaState, GarbageCount};

#[test]
fn allocate_and_deallocate_clean() {
    let mut mgr = AncillaManager::new(3, 0);
    let a0 = mgr.allocate_clean(Some("scratch".into()));
    assert_eq!(mgr.clean_available(), 2);
    assert_eq!(mgr.in_use(), 1);
    mgr.deallocate_clean(a0);
    assert_eq!(mgr.clean_available(), 3);
    assert!(mgr.verify_all_returned());
}

#[test]
fn peak_usage_tracking() {
    let mut mgr = AncillaManager::new(4, 0);
    let a = mgr.allocate_clean(None);
    let b = mgr.allocate_clean(None);
    assert_eq!(mgr.peak_usage(), 2);
    mgr.deallocate_clean(a);
    mgr.deallocate_clean(b);
    assert_eq!(mgr.peak_usage(), 2);
}

#[test]
fn dirty_ancilla() {
    let mut mgr = AncillaManager::new(0, 2);
    let d = mgr.allocate_dirty(Some("temp".into()));
    assert_eq!(mgr.dirty_available(), 1);
    mgr.deallocate_dirty(d);
    assert_eq!(mgr.dirty_available(), 2);
}

#[test]
fn garbage_tracker() {
    let mut gc = GarbageCount::new(4);
    assert_eq!(gc.count(), 0);
    gc.mark_garbage(0, "copy".into());
    gc.mark_garbage(1, "scratch".into());
    assert_eq!(gc.count(), 2);
    assert_eq!(gc.useful_count(), 2);
    assert_eq!(gc.label(0), Some("copy"));
}

#[test]
fn garbage_labels_in_manager() {
    let mut mgr = AncillaManager::new(2, 0);
    mgr.track_garbage("copy_a", 2);
    mgr.track_garbage("copy_b", 1);
    assert_eq!(mgr.total_garbage(), 3);
}

#[test]
fn full_lifecycle() {
    let mut mgr = AncillaManager::new(5, 3);
    let a = mgr.allocate_clean(Some("t1".into()));
    let b = mgr.allocate_clean(Some("t2".into()));
    let c = mgr.allocate_dirty(Some("d1".into()));
    assert_eq!(mgr.in_use(), 3);
    mgr.deallocate_clean(a);
    mgr.deallocate_clean(b);
    mgr.deallocate_dirty(c);
    assert!(mgr.verify_all_returned());
    assert_eq!(mgr.peak_usage(), 3);
}

#[test]
fn allocation_takes_lowest_index() {
    let mut mgr = AncillaManager::new(2, 2);
    assert_eq!(mgr.allocate_dirty(None), 2);
    assert_eq!(mgr.allocate_clean(Some("x".into())), 0);
    assert_eq!(mgr.allocate_clean(None), 1);
    assert_eq!(mgr.get_bit(0).state, AncillaState::InUse);
    assert_eq!(mgr.get_bit(0).label, Some("x".to_string()));
    assert_eq!(mgr.get_bit(3).state, AncillaState::Dirty);
    assert_eq!(mgr.get_bit(3).index, 3);
    mgr.deallocate_dirty(0);
    // a clean ancilla released as dirty joins the dirty pool
    assert_eq!(mgr.dirty_available(), 2);
    assert_eq!(mgr.clean_available(), 0);
    assert_eq!(mgr.get_bit(0).label, None);
    assert!(!mgr.verify_all_returned());
    assert_eq!(mgr.total(), 4);
    assert_eq!(mgr.peak_usage(), 3);
}

#[test]
fn garbage_labels_accumulate() {
    let mut mgr = AncillaManager::new(0, 0);
    mgr.track_garbage("a", 2);
    mgr.track_garbage("b", 1);
    mgr.track_garbage("a", 4);
    assert_eq!(mgr.total_garbage(), 7);
    assert_eq!(mgr.garbage_labels(), &[("a".to_string(), 6), ("b".to_string(), 1)]);
}

#[test]
fn garbage_count_labels() {
    let mut gc = GarbageCount::new(3);
    gc.mark_garbage(2, "junk".into());
    gc.mark_garbage(2, "junk2".into());
    assert!(gc.is_garbage(2));
    assert!(!gc.is_garbage(0));
    assert_eq!(gc.label(2), Some("junk2"));
    assert_eq!(gc.label(1), None);
    assert_eq!(gc.count(), 1);
    assert_eq!(gc.useful_count(), 2);
}

#[test]
fn allocate_release_restores_pool() {
    let mut mgr = AncillaManager::new(2, 2);
    let before: Vec<(AncillaState, Option<String>)> =
        (0..4).map(|i| (mgr.get_bit(i).state, mgr.get_bit(i).label.clone())).collect();
    let d = mgr.allocate_dirty(Some("tmp".into()));
    assert_eq!(d, 2);
    assert_eq!(mgr.get_bit(2).label, Some("tmp".to_string()));
    mgr.deallocate_dirty(d);
    let after: Vec<(AncillaState, Option<String>)> =
        (0..4).map(|i| (mgr.get_bit(i).state, mgr.get_bit(i).label.clone())).collect();
    assert_eq!(before, after);
    assert_eq!(mgr.in_use(), 0);
    assert_eq!(mgr.peak_usage(), 1);
}

#[test]
fn garbage_and_useful_lines_cover_width() {
    let mut gc = GarbageCount::new(5);
    gc.mark_garbage(1, "a".into());
    gc.mark_garbage(4, "b".into());
    assert_eq!(gc.count() + gc.useful_count(), 5);
    assert_eq!(gc.count(), 2);
}

#[test]
fn returned_means_back_in_its_own_pool() {
    let mut mgr = AncillaManager::new(1, 1);
    let a = mgr.allocate_clean(None);
    mgr.deallocate_dirty(a);
    assert_eq!(mgr.in_use(), 0);
    assert!(!mgr.verify_all_returned());
    let b = mgr.allocate_dirty(None);
    assert_eq!(b, 0);
    mgr.deallocate_clean(b);
    assert!(mgr.verify_all_returned());
    let copy = mgr.clone();
    assert!(copy.verify_all_returned());
}

#[test]
fn pool_rebuilt_from_parts() {
    let mut mgr = AncillaManager::new(2, 1);
    let a = mgr.allocate_clean(Some("t".into()));
    mgr.track_garbage("g", 3);
    let bits: Vec<AncillaBit> = (0..mgr.total()).map(|i| mgr.get_bit(i).clone()).collect();
    let rebuilt = AncillaManager::from_parts(
        bits,
        mgr.initial_clean_count(),
        mgr.peak_usage(),
        mgr.in_use(),
        mgr.garbage_labels().to_vec(),
    )
    .unwrap();
    assert_eq!(rebuilt.in_use(), 1);
    assert_eq!(rebuilt.get_bit(a).label, Some("t".to_string()));
    assert_eq!(rebuilt.total_garbage(), 3);
    let bad = vec![AncillaBit { index: 1, state: AncillaState::Clean, label: None }];
    assert!(AncillaManager::from_parts(bad, 1, 0, 0, vec![]).is_none());
    let twice = vec![("x".to_string(), 1), ("x".to_string(), 2)];
    assert!(AncillaManager::from_parts(vec![], 0, 0, 0, twice).is_none());
}

#[test]
fn pool_counts_add_up_to_its_size() {
    let mut mgr = AncillaManager::new(3, 2);
    let check = |m: &AncillaManager| {
        assert_eq!(m.clean_available() + m.dirty_available() + m.in_use(), m.total());
        assert_eq!(m.total(), 5);
    };
    check(&mgr);
    let a = mgr.allocate_clean(None);
    check(&mgr);
    let d = mgr.allocate_dirty(Some("borrowed".into()));
    check(&mgr);
    assert_eq!(mgr.in_use(), 2);
    mgr.deallocate_dirty(d);
    check(&mgr);
    mgr.deallocate_clean(a);
    check(&mgr);
    assert_eq!(mgr.in_use(), 0);
    assert!(mgr.verify_all_returned());
}
