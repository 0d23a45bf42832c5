//! The block planner: which byte ranges of a file are copied, and the block
//! tasks they are cut into.
//!
//! The planner probes the file through its caller. Each function here takes
//! the answer to one probe and says what comes next.

use vstd::prelude::*;
use crate::blocks::{
    blocks_cover, lemma_block_shape, lemma_blocks_ascending, lemma_blocks_cover_concat,
    lemma_blocks_cover_range, lemma_blocks_total, lemma_total_bytes_concat, spec_blocks,
    split_range, total_bytes, Block,
};
use crate::cursor::BlockCursor;
use crate::errors::XcpError;
use crate::options::Reflink;
use crate::ranges::{
    extents_cover, extents_fit, is_canonical, is_merge_of, merge_extents, ranges_cover,
    unfit_extent_text, ByteRange, Extent,
};
use crate::status::{
    all_succeeded, copied_total, drained, lemma_copied_total_any_order, lemma_drained_copied,
    saturating_sum, StatusUpdate, Tally,
};

verus! {

/// The result of examining one file.
#[derive(Debug, Clone, PartialEq, Eq)]
pub enum Plan {
    /// The file was cloned copy-on-write: nothing is left to copy.
    Reflinked,
    /// The byte ranges to copy; what lies between them is a hole.
    Ranges(Vec<ByteRange>),
}

/// What an attempt to clone a file copy-on-write came to.
#[derive(Debug, Clone, Copy, PartialEq, Eq, Structural)]
pub enum ReflinkOutcome {
    /// The destination now shares the source's blocks.
    Reflinked,
    /// The filesystem or the kernel cannot clone this file.
    NotSupported,
}

/// What the planner does next.
#[derive(Debug, Clone, PartialEq, Eq)]
pub enum PlanStep {
    /// Try to clone the file, and report with `plan_after_reflink`.
    TryReflink,
    /// Ask whether the source is probably sparse, and report with
    /// `plan_after_probe`.
    ProbeSparse,
    /// Ask for the source's extent map, and report with `plan_after_extents`.
    MapExtents,
    /// The plan is made.
    Finished(Plan),
}

/// The plan that copies a file of `len` bytes whole: the one range `[0, len)`.
pub open spec fn whole_file(len: u64) -> Seq<ByteRange> {
    seq![ByteRange { start: 0, end: len }]
}

/// Whether every range of `rs` starts at or before its end.
pub open spec fn ranges_well_formed(rs: Seq<ByteRange>) -> bool {
    forall|i: int| 0 <= i < rs.len() ==> (#[trigger] rs[i]).start <= rs[i].end
}

/// The bytes that the ranges of `rs` hold in all.
pub open spec fn total_len(rs: Seq<ByteRange>) -> int
    decreases rs.len(),
{
    if rs.len() == 0 {
        0
    } else {
        total_len(rs.drop_last()) + rs.last().spec_len()
    }
}

/// The block tasks of a plan: the blocks of its first range, then those of
/// its second, and so on.
pub open spec fn spec_plan_blocks(rs: Seq<ByteRange>, bsize: int) -> Seq<Block>
    decreases rs.len(),
{
    if rs.len() == 0 {
        Seq::empty()
    } else {
        spec_plan_blocks(rs.drop_last(), bsize) + spec_blocks(rs.last(), bsize)
    }
}

/// The size in bytes of the blocks in which a filesystem counts what a file
/// has allocated.
pub const ALLOCATION_UNIT: u64 = 512;

/// The cheap test for a sparse file: it has allocated fewer bytes than its
/// length.
pub fn probably_sparse(allocated_blocks: u64, len: u64) -> (sparse: bool)
    ensures
        sparse == (allocated_blocks * ALLOCATION_UNIT < len),
{
    match allocated_blocks.checked_mul(ALLOCATION_UNIT) {
        Some(allocated) => allocated < len,
        None => false,
    }
}

/// The first step: a clone is tried under the policies `Always` and `Auto`;
/// under `Never` the planner goes straight to the sparse probe.
pub fn plan_start(policy: Reflink) -> (step: PlanStep)
    ensures
        step == match policy {
            Reflink::Always | Reflink::Auto => PlanStep::TryReflink,
            Reflink::Never => PlanStep::ProbeSparse,
        },
{
    match policy {
        Reflink::Always | Reflink::Auto => PlanStep::TryReflink,
        Reflink::Never => PlanStep::ProbeSparse,
    }
}

/// The step after a clone was tried. A clone that succeeded ends the plan.
/// One that is not supported fails with `ReflinkUnavailable` under the
/// policy `Always`, and is followed by the sparse probe otherwise.
pub fn plan_after_reflink(policy: Reflink, outcome: ReflinkOutcome) -> (r: Result<
    PlanStep,
    XcpError,
>)
    ensures
        r == match (outcome, policy) {
            (ReflinkOutcome::Reflinked, _) => Ok::<PlanStep, XcpError>(
                PlanStep::Finished(Plan::Reflinked),
            ),
            (ReflinkOutcome::NotSupported, Reflink::Always) => Err::<PlanStep, XcpError>(
                XcpError::ReflinkUnavailable,
            ),
            (ReflinkOutcome::NotSupported, _) => Ok::<PlanStep, XcpError>(PlanStep::ProbeSparse),
        },
{
    match outcome {
        ReflinkOutcome::Reflinked => Ok(PlanStep::Finished(Plan::Reflinked)),
        ReflinkOutcome::NotSupported => match policy {
            Reflink::Always => Err(XcpError::ReflinkUnavailable),
            _ => Ok(PlanStep::ProbeSparse),
        },
    }
}

/// The step after the sparse probe: a file that is probably sparse has its
/// extents mapped; any other file of `len` bytes is copied whole.
pub fn plan_after_probe(probably_sparse: bool, len: u64) -> (step: PlanStep)
    ensures
        probably_sparse ==> step == PlanStep::MapExtents,
        !probably_sparse ==> (step matches PlanStep::Finished(Plan::Ranges(rs)) && rs@
            == whole_file(len)),
        step matches PlanStep::Finished(p) ==> p.well_formed(),
{
    if probably_sparse {
        PlanStep::MapExtents
    } else {
        PlanStep::Finished(Plan::Ranges(whole_file_ranges(len)))
    }
}

/// The plan once the extent map was asked for. Where the filesystem gave a
/// map, the plan is the merge of its extents; where it gave none, the file of
/// `len` bytes is copied whole. Fails with `InvalidSource` exactly when the
/// map holds an extent that reaches past the largest `u64` offset.
pub fn plan_after_extents(extents: Option<Vec<Extent>>, len: u64) -> (r: Result<Plan, XcpError>)
    ensures
        match extents {
            None => r matches Ok(Plan::Ranges(rs)) && rs@ == whole_file(len),
            Some(es) => {
                &&& r is Ok <==> extents_fit(es@)
                &&& r matches Ok(p) ==> (p matches Plan::Ranges(rs) && is_merge_of(rs@, es@))
                &&& r matches Err(e) ==> (e matches XcpError::InvalidSource(text) && text@
                    == unfit_extent_text())
            },
        },
        r matches Ok(p) ==> p.well_formed(),
{
    match extents {
        None => Ok(Plan::Ranges(whole_file_ranges(len))),
        Some(es) => {
            match merge_extents(es) {
                Ok(rs) => Ok(Plan::Ranges(rs)),
                Err(e) => Err(e),
            }
        },
    }
}

impl Plan {
    /// Whether the plan can be cut into blocks: every range it holds starts
    /// at or before its end.
    pub open spec fn well_formed(self) -> bool {
        self matches Plan::Ranges(rs) ==> ranges_well_formed(rs@)
    }

    /// Whether the plan can be cut into blocks.
    pub fn is_well_formed(&self) -> (ok: bool)
        ensures
            ok == self.well_formed(),
    {
        match self {
            Plan::Reflinked => true,
            Plan::Ranges(rs) => all_well_formed(rs),
        }
    }
}

/// Whether every range of `rs` starts at or before its end.
fn all_well_formed(rs: &Vec<ByteRange>) -> (ok: bool)
    ensures
        ok == ranges_well_formed(rs@),
{
    let mut k: usize = 0;
    while k < rs.len()
        invariant
            k <= rs.len(),
            forall|i: int| 0 <= i < k ==> (#[trigger] rs[i]).start <= rs[i].end,
        decreases rs.len() - k,
    {
        if rs[k].start > rs[k].end {
            assert(!(rs@[k as int].start <= rs@[k as int].end));
            return false;
        }
        k += 1;
    }
    true
}

/// The one range `[0, len)`.
fn whole_file_ranges(len: u64) -> (rs: Vec<ByteRange>)
    ensures
        rs@ == whole_file(len),
{
    let mut rs: Vec<ByteRange> = Vec::new();
    rs.push(ByteRange { start: 0, end: len });
    assert(rs@ =~= whole_file(len));
    rs
}

/// Cuts the ranges of a plan into block tasks, in the order of the ranges
/// and, within a range, in ascending offset order.
pub fn plan_blocks(ranges: &Vec<ByteRange>, block_size: u64) -> (blocks: Vec<Block>)
    requires
        block_size > 0,
        ranges_well_formed(ranges@),
    ensures
        blocks@ == spec_plan_blocks(ranges@, block_size as int),
{
    let mut blocks: Vec<Block> = Vec::new();
    let mut k: usize = 0;
    assert(ranges@.take(0) =~= Seq::<ByteRange>::empty());
    while k < ranges.len()
        invariant
            block_size > 0,
            ranges_well_formed(ranges@),
            k <= ranges.len(),
            blocks@ == spec_plan_blocks(ranges@.take(k as int), block_size as int),
        decreases ranges.len() - k,
    {
        let mut part = split_range(ranges[k], block_size);
        proof {
            let next = ranges@.take(k + 1);
            assert(next.drop_last() =~= ranges@.take(k as int));
            assert(next.last() == ranges[k as int]);
        }
        blocks.append(&mut part);
        k += 1;
    }
    assert(ranges@.take(k as int) =~= ranges@);
    blocks
}

/// What the dispatcher does with a file once its plan is made.
#[derive(Debug, Clone, PartialEq, Eq)]
pub enum Dispatch {
    /// Nothing is left to copy: send this update and go on to the next file.
    Report(StatusUpdate),
    /// Submit the block tasks that this cursor hands out to the pool, in the
    /// order in which it hands them out.
    Submit(BlockCursor),
}

/// Turns the plan of a file of `len` bytes into the dispatcher's action: a
/// cloned file is reported as `len` bytes copied; any other plan is cut into
/// its block tasks, which a cursor hands out one at a time.
pub fn dispatch_plan(plan: Plan, len: u64, block_size: u64) -> (d: Dispatch)
    requires
        block_size > 0,
        plan.well_formed(),
    ensures
        match plan {
            Plan::Reflinked => d == Dispatch::Report(StatusUpdate::Copied(len)),
            Plan::Ranges(rs) => {
                &&& d matches Dispatch::Submit(tasks)
                &&& tasks.well_formed()
                &&& tasks.remaining() == spec_plan_blocks(rs@, block_size as int)
            },
        },
{
    match plan {
        Plan::Reflinked => Dispatch::Report(StatusUpdate::Copied(len)),
        Plan::Ranges(rs) => Dispatch::Submit(BlockCursor::new(rs, block_size)),
    }
}

/// A canonical list of ranges is well formed, and so is the whole-file plan.
pub proof fn lemma_plans_well_formed(rs: Seq<ByteRange>, len: u64)
    ensures
        is_canonical(rs) ==> ranges_well_formed(rs),
        ranges_well_formed(whole_file(len)),
        total_len(whole_file(len)) == len,
{
    let w = whole_file(len);
    assert(w.drop_last() =~= Seq::<ByteRange>::empty());
    assert(total_len(w.drop_last()) == 0);
    assert(w.last() == ByteRange { start: 0, end: len });
}

/// The block tasks of a plan hold exactly the bytes of its ranges.
pub proof fn lemma_plan_blocks_total(rs: Seq<ByteRange>, bsize: int)
    requires
        ranges_well_formed(rs),
        0 < bsize,
    ensures
        total_bytes(spec_plan_blocks(rs, bsize)) == total_len(rs),
    decreases rs.len(),
{
    if rs.len() > 0 {
        let head = rs.drop_last();
        assert(ranges_well_formed(head)) by {
            assert forall|i: int| 0 <= i < head.len() implies (#[trigger] head[i]).start
                <= head[i].end by {
                assert(head[i] == rs[i]);
            }
        }
        lemma_plan_blocks_total(head, bsize);
        lemma_blocks_total(rs.last(), bsize);
        lemma_total_bytes_concat(spec_plan_blocks(head, bsize), spec_blocks(rs.last(), bsize));
    }
}

/// The block tasks of a plan cover exactly the offsets of its ranges.
pub proof fn lemma_plan_blocks_cover(rs: Seq<ByteRange>, bsize: int, x: int)
    requires
        ranges_well_formed(rs),
        0 < bsize,
    ensures
        blocks_cover(spec_plan_blocks(rs, bsize), x) <==> ranges_cover(rs, x),
    decreases rs.len(),
{
    if rs.len() == 0 {
        assert(spec_plan_blocks(rs, bsize).len() == 0);
    } else {
        let head = rs.drop_last();
        assert(ranges_well_formed(head)) by {
            assert forall|i: int| 0 <= i < head.len() implies (#[trigger] head[i]).start
                <= head[i].end by {
                assert(head[i] == rs[i]);
            }
        }
        lemma_plan_blocks_cover(head, bsize, x);
        lemma_blocks_cover_range(rs.last(), bsize, x);
        lemma_blocks_cover_concat(spec_plan_blocks(head, bsize), spec_blocks(rs.last(), bsize), x);
        if ranges_cover(head, x) {
            let i = choose|i: int| 0 <= i < head.len() && #[trigger] head[i].contains(x);
            assert(rs[i].contains(x));
        }
        if rs.last().contains(x) {
            assert(rs[rs.len() - 1].contains(x));
        }
        if ranges_cover(rs, x) {
            let i = choose|i: int| 0 <= i < rs.len() && #[trigger] rs[i].contains(x);
            if i < head.len() {
                assert(head[i].contains(x));
            }
        }
    }
}

/// The tasks of a sparse file's plan write the file's data and nothing
/// else: an offset is covered by some task exactly when it lies in one of the
/// extents that the plan was merged from, so no task writes into a hole.
pub proof fn lemma_sparse_plan_skips_holes(
    es: Seq<Extent>,
    rs: Seq<ByteRange>,
    bsize: int,
    x: int,
)
    requires
        is_merge_of(rs, es),
        0 < bsize,
    ensures
        blocks_cover(spec_plan_blocks(rs, bsize), x) <==> extents_cover(es, x),
{
    lemma_plans_well_formed(rs, 0);
    lemma_plan_blocks_cover(rs, bsize, x);
    assert(ranges_cover(rs, x) <==> extents_cover(es, x));
}

/// Every block task of a plan lies inside one of the plan's ranges and
/// holds between one and `bsize` bytes.
pub proof fn lemma_plan_block_origin(rs: Seq<ByteRange>, bsize: int, i: int) -> (j: int)
    requires
        ranges_well_formed(rs),
        0 < bsize,
        0 <= i < spec_plan_blocks(rs, bsize).len(),
    ensures
        0 <= j < rs.len(),
        rs[j].start <= spec_plan_blocks(rs, bsize)[i].offset,
        spec_plan_blocks(rs, bsize)[i].spec_end() <= rs[j].end,
        1 <= spec_plan_blocks(rs, bsize)[i].bytes <= bsize,
    decreases rs.len(),
{
    let head = rs.drop_last();
    let hb = spec_plan_blocks(head, bsize);
    if i < hb.len() {
        assert(ranges_well_formed(head)) by {
            assert forall|k: int| 0 <= k < head.len() implies (#[trigger] head[k]).start
                <= head[k].end by {
                assert(head[k] == rs[k]);
            }
        }
        let j = lemma_plan_block_origin(head, bsize, i);
        assert(head[j] == rs[j]);
        j
    } else {
        lemma_block_shape(rs.last(), bsize, i - hb.len());
        rs.len() - 1
    }
}

/// The block tasks of a canonical plan ascend and never overlap: an earlier
/// task ends at or before the offset at which a later one starts.
pub proof fn lemma_plan_blocks_ascending(rs: Seq<ByteRange>, bsize: int, i: int, j: int)
    requires
        is_canonical(rs),
        0 < bsize,
        0 <= i < j < spec_plan_blocks(rs, bsize).len(),
    ensures
        spec_plan_blocks(rs, bsize)[i].spec_end() <= spec_plan_blocks(rs, bsize)[j].offset,
    decreases rs.len(),
{
    let head = rs.drop_last();
    let hb = spec_plan_blocks(head, bsize);
    assert(is_canonical(head)) by {
        assert forall|k: int| 0 <= k < head.len() implies (#[trigger] head[k]).start
            < head[k].end by {
            assert(head[k] == rs[k]);
        }
        assert forall|k: int, m: int| 0 <= k < m < head.len() implies (#[trigger] head[k]).end < (
        #[trigger] head[m]).start by {
            assert(head[k] == rs[k]);
            assert(head[m] == rs[m]);
        }
    }
    if j < hb.len() {
        lemma_plan_blocks_ascending(head, bsize, i, j);
    } else if i < hb.len() {
        let k = lemma_plan_block_origin(head, bsize, i);
        assert(head[k] == rs[k]);
        assert(rs[k].end < rs[rs.len() - 1].start);
        lemma_block_shape(rs.last(), bsize, j - hb.len());
        assert(0 <= (j - hb.len()) * bsize) by (nonlinear_arith)
            requires
                0 <= j - hb.len(),
                0 < bsize,
        ;
    } else {
        lemma_blocks_ascending(rs.last(), bsize, i - hb.len(), j - hb.len());
    }
}

/// The updates that the tasks of `bs` send when each has copied its block
/// in full, in the order of the tasks.
pub open spec fn success_updates(bs: Seq<Block>) -> Seq<StatusUpdate> {
    Seq::new(bs.len(), |i: int| StatusUpdate::Copied(bs[i].bytes))
}

/// Tasks that all succeed report the bytes of their blocks.
proof fn lemma_success_total(bs: Seq<Block>)
    ensures
        copied_total(success_updates(bs)) == total_bytes(bs),
    decreases bs.len(),
{
    if bs.len() > 0 {
        lemma_success_total(bs.drop_last());
        assert(success_updates(bs).drop_last() =~= success_updates(bs.drop_last()));
    }
}

/// A plan whose ranges hold `len` bytes yields exactly `len` bytes of
/// `Copied` updates when every task succeeds, in whatever order the updates
/// arrive; draining them ends without an error and adds `len` to the bytes
/// copied.
pub proof fn lemma_plan_reports_len(
    rs: Seq<ByteRange>,
    bsize: int,
    len: int,
    arrived: Seq<StatusUpdate>,
    t: Tally,
)
    requires
        ranges_well_formed(rs),
        0 < bsize,
        total_len(rs) == len,
        arrived.to_multiset() == success_updates(spec_plan_blocks(rs, bsize)).to_multiset(),
    ensures
        copied_total(arrived) == len,
        drained(t, arrived).1 is None,
        drained(t, arrived).0.copied == saturating_sum(t.copied as int, len),
{
    let sent = success_updates(spec_plan_blocks(rs, bsize));
    lemma_plan_blocks_total(rs, bsize);
    lemma_success_total(spec_plan_blocks(rs, bsize));
    lemma_copied_total_any_order(arrived, sent);
    assert(all_succeeded(arrived)) by {
        assert forall|i: int| 0 <= i < arrived.len() implies !((#[trigger] arrived[i]) is Error) by {
            vstd::seq_lib::to_multiset_contains(arrived, arrived[i]);
            vstd::seq_lib::to_multiset_contains(sent, arrived[i]);
            assert(arrived.contains(arrived[i]));
            let j = choose|j: int| 0 <= j < sent.len() && sent[j] == arrived[i];
            assert(sent[j] is Copied);
        }
    }
    lemma_drained_copied(t, arrived);
}

} // verus!
