use lightbringer::value_synchronizer::{ValueSynchronizer, WatchError};

#[test]
fn fresh_watcher_waits_for_first_update() {
    let mut sync: ValueSynchronizer<4, u32> = ValueSynchronizer::new(10);
    let mut w = sync.watch().unwrap();
    assert_eq!(w.read(&sync), None);
    assert!(!w.has_changed(&sync));
    sync.write(11);
    assert!(w.has_changed(&sync));
    assert_eq!(w.read(&sync), Some(11));
    assert_eq!(w.read(&sync), None);
}

#[test]
fn two_updates_deliver_latest_once() {
    let mut sync: ValueSynchronizer<4, u32> = ValueSynchronizer::new(0);
    let mut w = sync.watch().unwrap();
    sync.update(|v| *v + 1);
    sync.update(|v| *v * 10);
    assert_eq!(w.read(&sync), Some(10));
    assert_eq!(w.read(&sync), None);
}

#[test]
fn skip_hides_earlier_change() {
    let mut sync: ValueSynchronizer<4, u32> = ValueSynchronizer::new(0);
    let mut w = sync.watch().unwrap();
    sync.write(5);
    w.skip(&sync);
    assert_eq!(w.read(&sync), None);
    sync.write(6);
    assert_eq!(w.read(&sync), Some(6));
}

#[test]
fn one_update_wakes_every_watcher() {
    let mut sync: ValueSynchronizer<3, (u16, u16)> = ValueSynchronizer::new((1, 2));
    let mut a = sync.watch().unwrap();
    let mut b = sync.watch().unwrap();
    let mut c = sync.watch().unwrap();
    sync.write((7, 8));
    // Any order of reading gives every watcher the same value.
    assert_eq!(c.read(&sync), Some((7, 8)));
    assert_eq!(a.read(&sync), Some((7, 8)));
    assert_eq!(b.read(&sync), Some((7, 8)));
    assert_eq!(a.read(&sync), None);
    assert_eq!(b.read(&sync), None);
    assert_eq!(c.read(&sync), None);
}

#[test]
fn watcher_count_is_bounded() {
    let mut sync: ValueSynchronizer<2, u8> = ValueSynchronizer::new(0);
    assert!(sync.watch().is_ok());
    assert!(sync.watch().is_ok());
    assert!(matches!(sync.watch(), Err(WatchError::TooManyWatchers)));
}

#[test]
fn read_projects_and_read_clone_copies() {
    let mut sync: ValueSynchronizer<1, (u32, u32)> = ValueSynchronizer::new((3, 4));
    assert_eq!(sync.read(|v| v.0 + v.1), 7);
    assert_eq!(sync.read_clone(), (3, 4));
    sync.update(|v| (v.1, v.0));
    assert_eq!(sync.read_clone(), (4, 3));
}

#[test]
fn every_mutation_bumps_the_version() {
    let mut sync: ValueSynchronizer<1, u8> = ValueSynchronizer::new(0);
    assert_eq!(sync.current_version(), 0);
    sync.write(0);
    assert_eq!(sync.current_version(), 1);
    sync.update(|v| *v);
    assert_eq!(sync.current_version(), 2);
}

#[test]
fn late_watcher_sees_no_earlier_change() {
    let mut sync: ValueSynchronizer<2, u8> = ValueSynchronizer::new(0);
    sync.write(1);
    let mut w = sync.watch().unwrap();
    assert_eq!(w.read(&sync), None);
}
