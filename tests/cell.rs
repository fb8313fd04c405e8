use interlock::cell::CountCell;

#[test]
fn take() {
    let mut cell = CountCell::new(());

    cell.reset(1);
    assert!(cell.take().is_none(), "cell gave up value while locked");

    assert!(cell.unlock(), "cell failed to unlock");
    assert!(cell.take().is_some(), "cell does not want to give up the lock >/<");
}

#[test]
fn unlock() {
    let mut cell = CountCell::new(());

    cell.reset(1);
    assert!(cell.unlock(), "cell failed to unlock");
}

#[test]
fn take_once_after_reset_zero() {
    let mut cell = CountCell::new(5u8);
    cell.reset(0);
    let handle = cell.take();
    assert!(handle.is_some());
    assert!(cell.take().is_none());
    cell.release(handle.unwrap());
    assert!(cell.take().is_none());
    cell.reset(0);
    assert!(cell.take().is_some());
    assert_eq!(*cell.get(), 5);
}

#[test]
fn unlock_reports_only_the_last_release() {
    let mut cell = CountCell::new(());
    cell.reset(2);
    cell.lock();
    assert!(!cell.unlock());
    assert!(!cell.unlock());
    assert!(cell.unlock());
    assert!(cell.take().is_some());
}

#[test]
fn completed_cell_counts_without_becoming_ready() {
    let mut cell = CountCell::new(());
    cell.reset(0);
    let handle = cell.take().unwrap();
    cell.release(handle);
    cell.lock();
    assert!(!cell.unlock());
    assert!(cell.take().is_none());
    cell.reset(3);
    assert!(cell.take().is_none());
}
