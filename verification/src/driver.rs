//! The driver of the parallel block engine: where it runs, the shape of its
//! pool, and how the dispatcher's and the orchestrator's outcomes are told.

use std::sync::Arc;
use vstd::prelude::*;
use crate::errors::XcpError;
use crate::options::{Opts, Reflink};
use crate::paths::TreePath;
use crate::planner::{dispatch_plan, plan_start, spec_plan_blocks, Dispatch, Plan, PlanStep};
use crate::status::StatusUpdate;
use crate::walker::{entry_action, spec_entry_action, FileType, WalkAction};

verus! {

/// The length of the block pool's submission queue. Submitting to a full
/// queue blocks, which bounds the files that are open at one time.
pub const QUEUE_LEN: usize = 128;

/// The shape of the block pool: so many worker threads behind a bounded
/// submission queue.
#[derive(Debug, Clone, Copy, PartialEq, Eq, Structural)]
pub struct PoolShape {
    pub threads: usize,
    pub queue_len: usize,
}

/// The parallel block engine, with its settings. The settings are shared
/// with every thread that works for the driver.
#[derive(Debug, Clone, PartialEq, Eq)]
pub struct Driver {
    opts: Arc<Opts>,
}

/// Whether the engine runs on the operating system named `os`.
pub open spec fn platform_supported(os: Seq<char>) -> bool {
    ||| os == "linux"@
    ||| os == "android"@
    ||| os == "freebsd"@
    ||| os == "netbsd"@
    ||| os == "dragonfly"@
    ||| os == "macos"@
}

/// Whether two texts are the same.
fn same_text(a: &str, b: &str) -> (same: bool)
    ensures
        same == (a@ == b@),
{
    let left = a.to_owned();
    let right = b.to_owned();
    left == right
}

/// Whether the engine runs on the operating system named `os`.
pub fn supported_platform(os: &str) -> (supported: bool)
    ensures
        supported == platform_supported(os@),
{
    same_text(os, "linux") || same_text(os, "android") || same_text(os, "freebsd") || same_text(
        os,
        "netbsd",
    ) || same_text(os, "dragonfly") || same_text(os, "macos")
}

/// The text of the error for an operating system the engine does not run on.
pub open spec fn unsupported_text() -> Seq<char> {
    "The parblock driver is not currently supported on this OS."@
}

impl Driver {
    /// The settings the driver was made with.
    pub closed spec fn spec_opts(self) -> Opts {
        *self.opts
    }

    /// Makes the driver for the operating system named `os`. Fails with
    /// `UnsupportedOS` exactly when the engine does not run there.
    pub fn new(opts: Arc<Opts>, os: &str) -> (r: Result<Driver, XcpError>)
        ensures
            platform_supported(os@) ==> (r matches Ok(d) && d.spec_opts() == *opts),
            !platform_supported(os@) ==> (r matches Err(XcpError::UnsupportedOS(text)) && text@
                == unsupported_text()),
    {
        if !supported_platform(os) {
            return Err(
                XcpError::UnsupportedOS(
                    String::from_str("The parblock driver is not currently supported on this OS."),
                ),
            );
        }
        Ok(Driver { opts })
    }

    /// The settings the driver was made with.
    pub fn opts(&self) -> (opts: Opts)
        ensures
            opts == self.spec_opts(),
    {
        *self.opts
    }

    /// The shape of the block pool: one thread per worker, behind a queue of
    /// `QUEUE_LEN` places.
    pub fn pool_shape(&self) -> (shape: PoolShape)
        ensures
            shape == (PoolShape { threads: self.spec_opts().num_workers, queue_len: QUEUE_LEN }),
    {
        PoolShape { threads: self.opts.num_workers, queue_len: QUEUE_LEN }
    }

    /// The planner's first step for a file, under the driver's reflink
    /// policy.
    pub fn first_step(&self) -> (step: PlanStep)
        ensures
            step == match self.spec_opts().reflink {
                Reflink::Always | Reflink::Auto => PlanStep::TryReflink,
                Reflink::Never => PlanStep::ProbeSparse,
            },
    {
        plan_start(self.opts.reflink)
    }

    /// The dispatcher's action for a file of `len` bytes whose plan is made,
    /// at the driver's block size.
    pub fn dispatch(&self, plan: Plan, len: u64) -> (d: Dispatch)
        requires
            self.spec_opts().block_size > 0,
            plan.well_formed(),
        ensures
            match plan {
                Plan::Reflinked => d == Dispatch::Report(StatusUpdate::Copied(len)),
                Plan::Ranges(rs) => {
                    &&& d matches Dispatch::Submit(tasks)
                    &&& tasks.well_formed()
                    &&& tasks.remaining() == spec_plan_blocks(
                        rs@,
                        self.spec_opts().block_size as int,
                    )
                },
            },
    {
        dispatch_plan(plan, len, self.opts.block_size)
    }

    /// The walker's action for one entry, under the driver's overwrite
    /// policy.
    pub fn visit(
        &self,
        kind: FileType,
        from: TreePath,
        target: TreePath,
        len: u64,
        target_exists: bool,
    ) -> (r: Result<WalkAction, XcpError>)
        ensures
            r == spec_entry_action(
                kind,
                from,
                target,
                len,
                self.spec_opts().no_clobber,
                target_exists,
            ),
    {
        entry_action(kind, from, target, len, self.opts.no_clobber, target_exists)
    }
}

/// What the dispatcher does when a file cannot be planned: it sends the
/// failure's description to the aggregator as a `CopyError`, and ends with
/// the failure itself.
pub fn dispatch_failure(e: XcpError) -> (r: (StatusUpdate, XcpError))
    ensures
        r.1 == e,
        r.0 matches StatusUpdate::Error(XcpError::CopyError(text)) && text@ == e.spec_message(),
{
    let text = e.message();
    (StatusUpdate::Error(XcpError::CopyError(text)), e)
}

/// The text of the error for a dispatcher that ended by panicking.
pub open spec fn dispatch_failed_text() -> Seq<char> {
    "dispatch failed"@
}

/// The outcome of the dispatcher once its thread was joined: its own result
/// where it returned one (`Some`), and a `CopyError` where it panicked
/// (`None`).
pub fn join_outcome(joined: Option<Result<(), XcpError>>) -> (r: Result<(), XcpError>)
    ensures
        joined matches Some(own) ==> r == own,
        joined is None ==> (r matches Err(XcpError::CopyError(text)) && text@
            == dispatch_failed_text()),
{
    match joined {
        Some(own) => own,
        None => Err(XcpError::CopyError(String::from_str("dispatch failed"))),
    }
}

/// The exit code of the process for the outcome of a run: `0` for success,
/// `1` for any failure.
pub fn exit_code(outcome: &Result<(), XcpError>) -> (code: i32)
    ensures
        code == if outcome is Ok {
            0int
        } else {
            1int
        },
{
    match outcome {
        Ok(_) => 0,
        Err(_) => 1,
    }
}

} // verus!
