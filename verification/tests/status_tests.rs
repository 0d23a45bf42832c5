use parblock::blocks::split_range;
use parblock::errors::XcpError;
use parblock::ranges::ByteRange;
use parblock::status::{task_status, StatusUpdate, Tally};

const MIB: u64 = 1024 * 1024;

#[test]
fn a_new_tally_has_nothing_copied() {
    assert_eq!(Tally::new(13), Tally { copied: 0, size: 13 });
}

#[test]
fn set_size_replaces_the_expected_total() {
    let mut t = Tally { copied: 5, size: 0 };
    t.set_size(99);
    assert_eq!(t, Tally { copied: 5, size: 99 });
}

#[test]
fn copied_adds_to_the_bytes_copied() {
    let mut t = Tally::new(100);
    assert_eq!(t.apply(StatusUpdate::Copied(30)), Ok(()));
    assert_eq!(t.apply(StatusUpdate::Copied(12)), Ok(()));
    assert_eq!(t, Tally { copied: 42, size: 100 });
}

#[test]
fn size_adds_to_the_bytes_expected() {
    let mut t = Tally::new(100);
    assert_eq!(t.apply(StatusUpdate::Size(23)), Ok(()));
    assert_eq!(t, Tally { copied: 0, size: 123 });
}

#[test]
fn an_error_is_handed_back_and_changes_nothing() {
    let mut t = Tally { copied: 7, size: 9 };
    let e = XcpError::CopyError("disk full".to_string());
    assert_eq!(t.apply(StatusUpdate::Error(e.clone())), Err(e));
    assert_eq!(t, Tally { copied: 7, size: 9 });
}

#[test]
fn totals_hold_at_the_largest_value() {
    let mut t = Tally { copied: u64::MAX - 1, size: u64::MAX };
    assert_eq!(t.apply(StatusUpdate::Copied(5)), Ok(()));
    assert_eq!(t.apply(StatusUpdate::Size(1)), Ok(()));
    assert_eq!(t, Tally { copied: u64::MAX, size: u64::MAX });
}

#[test]
fn drain_counts_every_update() {
    let mut t = Tally::new(0);
    let r = t.drain(vec![
        StatusUpdate::Size(10),
        StatusUpdate::Copied(4),
        StatusUpdate::Copied(6),
    ]);
    assert_eq!(r, Ok(()));
    assert_eq!(t, Tally { copied: 10, size: 10 });
}

#[test]
fn drain_of_nothing_changes_nothing() {
    let mut t = Tally { copied: 1, size: 2 };
    assert_eq!(t.drain(vec![]), Ok(()));
    assert_eq!(t, Tally { copied: 1, size: 2 });
}

#[test]
fn drain_stops_at_the_first_error() {
    let mut t = Tally::new(0);
    let first = XcpError::CopyError("first".to_string());
    let second = XcpError::CopyError("second".to_string());
    let r = t.drain(vec![
        StatusUpdate::Copied(4),
        StatusUpdate::Error(first.clone()),
        StatusUpdate::Copied(6),
        StatusUpdate::Error(second),
    ]);
    assert_eq!(r, Err(first));
    assert_eq!(t, Tally { copied: 4, size: 0 });
}

#[test]
fn a_task_reports_what_it_copied() {
    assert_eq!(task_status(Ok(4096)), StatusUpdate::Copied(4096));
}

#[test]
fn a_task_reports_its_failure_as_a_copy_error() {
    assert_eq!(
        task_status(Err("No space left on device".to_string())),
        StatusUpdate::Error(XcpError::CopyError("No space left on device".to_string()))
    );
}

#[test]
fn single_small_file_reports_thirteen_bytes() {
    let blocks = split_range(ByteRange { start: 0, end: 13 }, MIB);
    let updates: Vec<StatusUpdate> = blocks.iter().map(|b| task_status(Ok(b.bytes))).collect();
    let mut t = Tally::new(13);
    assert_eq!(t.drain(updates), Ok(()));
    assert_eq!(t, Tally { copied: 13, size: 13 });
}

#[test]
fn large_dense_file_reports_its_length_in_any_order() {
    let len = 128 * MIB;
    let blocks = split_range(ByteRange { start: 0, end: len }, MIB);
    let mut updates: Vec<StatusUpdate> =
        blocks.iter().map(|b| task_status(Ok(b.bytes))).collect();
    updates.reverse();
    updates.swap(3, 77);
    let mut t = Tally::new(len);
    assert_eq!(t.drain(updates), Ok(()));
    assert_eq!(t.copied, 128 * MIB);
    assert_eq!(t.copied, t.size);
}
