use crossbeam::mem::epoch::options::Options;

#[test]
fn options_defaults() {
    let o = Options::new();
    assert_eq!(o.local_gc, true);
    assert_eq!(o.global_gc, true);
    assert_eq!(o.migrate_local, true);
    assert_eq!(o.force_no_gc, false);
    assert_eq!(o.gc_num, 32);
    assert_eq!(o.items_per_gc, usize::MAX);
    assert!(o.will_run_local_gc());
    assert!(o.will_run_global_gc());
}

#[test]
fn options_setters_chain() {
    let mut o = Options::new();
    o.with_local_gc(false).with_gc_num(7).with_items_per_gc(100).with_migrate_local(false);
    assert_eq!(o.local_gc, false);
    assert_eq!(o.global_gc, true);
    assert_eq!(o.gc_num, 7);
    assert_eq!(o.items_per_gc, 100);
    assert_eq!(o.migrate_local, false);
    assert!(!o.will_run_local_gc());
    assert!(o.will_run_global_gc());
    o.with_global_gc(false);
    assert!(!o.will_run_global_gc());
    o.enable_gc();
    assert!(o.will_run_local_gc() && o.will_run_global_gc());
    o.disable_gc();
    assert!(!o.will_run_local_gc() && !o.will_run_global_gc());
    o.set_gc(true);
    assert!(o.local_gc && o.global_gc);
}

#[test]
fn options_force_no_gc_sticks() {
    let mut o = Options::new();
    o.with_force_no_gc(false);
    assert_eq!(o.force_no_gc, false);
    o.with_force_no_gc(true);
    assert_eq!(o.force_no_gc, true);
    o.with_force_no_gc(false);
    assert_eq!(o.force_no_gc, true);
    o.enable_gc();
    assert!(!o.will_run_local_gc());
    assert!(!o.will_run_global_gc());
}
