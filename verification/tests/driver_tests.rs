use std::sync::Arc;

use parblock::driver::{
    dispatch_failure, exit_code, join_outcome, supported_platform, Driver, PoolShape, QUEUE_LEN,
};
use parblock::errors::XcpError;
use parblock::options::{Opts, Preserve, Reflink};
use parblock::planner::{Dispatch, Plan, PlanStep};
use parblock::blocks::Block;
use parblock::ranges::ByteRange;
use parblock::status::StatusUpdate;
use parblock::walker::{FileType, WalkAction};

fn opts() -> Opts {
    Opts {
        block_size: 1024 * 1024,
        num_workers: 8,
        no_clobber: false,
        reflink: Reflink::Auto,
        preserve: Preserve { permissions: true, ownership: false, timestamps: true },
        fsync: false,
    }
}

#[test]
fn the_engine_runs_on_posix_systems() {
    for os in ["linux", "android", "freebsd", "netbsd", "dragonfly", "macos"] {
        assert!(supported_platform(os));
    }
}

#[test]
fn the_engine_does_not_run_elsewhere() {
    for os in ["windows", "", "Linux", "linux ", "openbsd", "ios"] {
        assert!(!supported_platform(os));
    }
}

#[test]
fn a_driver_keeps_its_settings() {
    let d = Driver::new(Arc::new(opts()), "linux").unwrap();
    assert_eq!(d.opts(), opts());
}

#[test]
fn an_unsupported_system_is_rejected_at_construction() {
    assert_eq!(
        Driver::new(Arc::new(opts()), "windows"),
        Err(XcpError::UnsupportedOS(
            "The parblock driver is not currently supported on this OS.".to_string()
        ))
    );
}

#[test]
fn the_pool_has_one_thread_per_worker_and_a_bounded_queue() {
    let d = Driver::new(Arc::new(opts()), "linux").unwrap();
    assert_eq!(d.pool_shape(), PoolShape { threads: 8, queue_len: 128 });
    assert_eq!(QUEUE_LEN, 128);
}

#[test]
fn the_first_step_follows_the_reflink_policy() {
    let mut o = opts();
    o.reflink = Reflink::Never;
    assert_eq!(Driver::new(Arc::new(o), "macos").unwrap().first_step(), PlanStep::ProbeSparse);
    o.reflink = Reflink::Always;
    assert_eq!(Driver::new(Arc::new(o), "macos").unwrap().first_step(), PlanStep::TryReflink);
    o.reflink = Reflink::Auto;
    assert_eq!(Driver::new(Arc::new(o), "macos").unwrap().first_step(), PlanStep::TryReflink);
}

#[test]
fn the_driver_cuts_blocks_at_its_block_size() {
    let mut o = opts();
    o.block_size = 10;
    let d = Driver::new(Arc::new(o), "linux").unwrap();
    let mut got = Vec::new();
    match d.dispatch(Plan::Ranges(vec![ByteRange { start: 0, end: 25 }]), 25) {
        Dispatch::Submit(mut tasks) => {
            while let Some(b) = tasks.next_block() {
                got.push(b);
            }
        }
        Dispatch::Report(update) => panic!("nothing was submitted: {:?}", update),
    }
    assert_eq!(
        got,
        vec![
            Block { offset: 0, bytes: 10 },
            Block { offset: 10, bytes: 10 },
            Block { offset: 20, bytes: 5 }
        ]
    );
    assert_eq!(d.dispatch(Plan::Reflinked, 25), Dispatch::Report(StatusUpdate::Copied(25)));
}

#[test]
fn the_driver_applies_its_overwrite_policy() {
    let mut o = opts();
    o.no_clobber = true;
    let strict = Driver::new(Arc::new(o), "linux").unwrap();
    let lenient = Driver::new(Arc::new(opts()), "linux").unwrap();
    let from = vec![b"src".to_vec()];
    let target = vec![b"dst".to_vec()];
    assert_eq!(
        strict.visit(FileType::Dir, from.clone(), target.clone(), 0, true),
        Err(XcpError::DestinationExists(target.clone()))
    );
    assert_eq!(
        lenient.visit(FileType::Dir, from, target.clone(), 0, true),
        Ok(WalkAction::CreateDir { target })
    );
}

#[test]
fn a_planning_failure_is_sent_on_and_returned() {
    let e = XcpError::DestinationExists(vec![b"dst".to_vec()]);
    let (update, back) = dispatch_failure(e.clone());
    assert_eq!(back, e);
    assert_eq!(
        update,
        StatusUpdate::Error(XcpError::CopyError(
            "Destination file exists and --no-clobber is set.".to_string()
        ))
    );
}

#[test]
fn a_dispatcher_that_returned_keeps_its_result() {
    assert_eq!(join_outcome(Some(Ok(()))), Ok(()));
    assert_eq!(
        join_outcome(Some(Err(XcpError::ReflinkUnavailable))),
        Err(XcpError::ReflinkUnavailable)
    );
}

#[test]
fn a_dispatcher_that_panicked_is_a_copy_error() {
    assert_eq!(join_outcome(None), Err(XcpError::CopyError("dispatch failed".to_string())));
}

#[test]
fn every_error_has_a_description() {
    let p = vec![b"x".to_vec()];
    assert_eq!(XcpError::Io { path: p.clone(), errno: 5 }.message(), "Input/output error.");
    assert_eq!(XcpError::InvalidSource("bad".to_string()).message(), "bad");
    assert_eq!(
        XcpError::DestinationExists(p.clone()).message(),
        "Destination file exists and --no-clobber is set."
    );
    assert_eq!(XcpError::UnknownFileType(p).message(), "Unknown file type found.");
    assert_eq!(XcpError::UnsupportedOS("no".to_string()).message(), "no");
    assert_eq!(XcpError::ReflinkUnavailable.message(), "Reflink is not available for this file.");
    assert_eq!(XcpError::CopyError("boom".to_string()).message(), "boom");
}

#[test]
fn success_exits_with_zero_and_any_failure_with_one() {
    assert_eq!(exit_code(&Ok(())), 0);
    assert_eq!(exit_code(&Err(XcpError::ReflinkUnavailable)), 1);
    assert_eq!(exit_code(&Err(XcpError::Io { path: vec![b"x".to_vec()], errno: 2 })), 1);
    assert_eq!(exit_code(&Err(XcpError::DestinationExists(vec![b"dst".to_vec()]))), 1);
}

#[test]
fn a_missing_source_exits_with_one() {
    let missing = XcpError::Io {
        path: vec![b"/".to_vec(), b"nonexistent".to_vec()],
        errno: 2,
    };
    assert_eq!(missing.message(), "Input/output error.");
    assert_eq!(exit_code(&Err(missing)), 1);
}
