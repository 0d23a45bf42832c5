//! A model of the copy itself: files as sequences of bytes, and a block task
//! as the write of the source's bytes over the block's offsets. The laws
//! here say that the tasks of a plan, run in any order, reproduce the source.

use vstd::prelude::*;
use vstd::seq_lib::to_multiset_contains;
use crate::blocks::{blocks_cover, Block};
use crate::planner::{lemma_plan_blocks_cover, ranges_well_formed, spec_plan_blocks, whole_file};
use crate::ranges::{ranges_cover, ByteRange};

verus! {

/// The destination after the task of block `b` has run: within the block it
/// holds the source's bytes, elsewhere what it held before.
pub open spec fn write_block(dst: Seq<u8>, src: Seq<u8>, b: Block) -> Seq<u8> {
    Seq::new(
        dst.len(),
        |x: int|
            if b.contains(x) && x < src.len() {
                src[x]
            } else {
                dst[x]
            },
    )
}

/// The destination after the tasks of `sched` have run one after the other.
pub open spec fn run_schedule(dst: Seq<u8>, src: Seq<u8>, sched: Seq<Block>) -> Seq<u8>
    decreases sched.len(),
{
    if sched.len() == 0 {
        dst
    } else {
        write_block(run_schedule(dst, src, sched.drop_last()), src, sched.last())
    }
}

/// After a schedule has run, the destination is as long as before; at each
/// offset that some task covers it holds the source's byte, and at every
/// other offset the byte it held before.
pub proof fn lemma_schedule_bytes(dst: Seq<u8>, src: Seq<u8>, sched: Seq<Block>, x: int)
    requires
        src.len() == dst.len(),
        0 <= x < dst.len(),
    ensures
        run_schedule(dst, src, sched).len() == dst.len(),
        run_schedule(dst, src, sched)[x] == if blocks_cover(sched, x) {
            src[x]
        } else {
            dst[x]
        },
    decreases sched.len(),
{
    if sched.len() > 0 {
        let head = sched.drop_last();
        lemma_schedule_bytes(dst, src, head, x);
        if blocks_cover(head, x) {
            let i = choose|i: int| 0 <= i < head.len() && #[trigger] head[i].contains(x);
            assert(sched[i].contains(x));
        }
        if sched.last().contains(x) {
            assert(sched[sched.len() - 1].contains(x));
        }
        if blocks_cover(sched, x) {
            let i = choose|i: int| 0 <= i < sched.len() && #[trigger] sched[i].contains(x);
            if i < head.len() {
                assert(head[i].contains(x));
            }
        }
    }
}

/// Two schedules that hold the same tasks cover the same offsets.
proof fn lemma_same_tasks_same_cover(a: Seq<Block>, b: Seq<Block>, x: int)
    requires
        a.to_multiset() == b.to_multiset(),
    ensures
        blocks_cover(a, x) ==> blocks_cover(b, x),
{
    if blocks_cover(a, x) {
        let i = choose|i: int| 0 <= i < a.len() && #[trigger] a[i].contains(x);
        to_multiset_contains(a, a[i]);
        to_multiset_contains(b, a[i]);
        assert(a.contains(a[i]));
        let j = choose|j: int| 0 <= j < b.len() && b[j] == a[i];
        assert(b[j].contains(x));
    }
}

/// The tasks of a plan, run in any order, reproduce the source: when the
/// destination is as long as the source and agrees with it at every offset
/// outside the plan's ranges (the holes, which read as zero on both sides),
/// then after any schedule that holds exactly the plan's tasks the
/// destination equals the source.
pub proof fn lemma_plan_reproduces_source(
    src: Seq<u8>,
    dst: Seq<u8>,
    rs: Seq<ByteRange>,
    bsize: int,
    sched: Seq<Block>,
)
    requires
        src.len() == dst.len(),
        ranges_well_formed(rs),
        0 < bsize,
        sched.to_multiset() == spec_plan_blocks(rs, bsize).to_multiset(),
        forall|x: int| 0 <= x < src.len() && !ranges_cover(rs, x) ==> dst[x] == src[x],
    ensures
        run_schedule(dst, src, sched) == src,
{
    let out = run_schedule(dst, src, sched);
    let tasks = spec_plan_blocks(rs, bsize);
    if src.len() > 0 {
        lemma_schedule_bytes(dst, src, sched, 0);
    } else {
        lemma_schedule_length(dst, src, sched);
    }
    assert forall|x: int| 0 <= x < src.len() implies out[x] == src[x] by {
        lemma_schedule_bytes(dst, src, sched, x);
        lemma_plan_blocks_cover(rs, bsize, x);
        lemma_same_tasks_same_cover(sched, tasks, x);
        lemma_same_tasks_same_cover(tasks, sched, x);
    }
    assert(out =~= src);
}

/// A schedule leaves the destination's length as it was.
proof fn lemma_schedule_length(dst: Seq<u8>, src: Seq<u8>, sched: Seq<Block>)
    ensures
        run_schedule(dst, src, sched).len() == dst.len(),
    decreases sched.len(),
{
    if sched.len() > 0 {
        lemma_schedule_length(dst, src, sched.drop_last());
    }
}

/// A file that is copied whole is reproduced whatever the destination held:
/// after any schedule that holds exactly the tasks of the whole-file plan,
/// a destination of the source's length equals the source.
pub proof fn lemma_whole_file_reproduces_source(
    src: Seq<u8>,
    dst: Seq<u8>,
    bsize: int,
    sched: Seq<Block>,
)
    requires
        src.len() == dst.len(),
        src.len() <= u64::MAX,
        0 < bsize,
        sched.to_multiset() == spec_plan_blocks(whole_file(src.len() as u64), bsize).to_multiset(),
    ensures
        run_schedule(dst, src, sched) == src,
{
    let rs = whole_file(src.len() as u64);
    assert forall|x: int| 0 <= x < src.len() implies ranges_cover(rs, x) by {
        assert(rs[0].contains(x));
    }
    lemma_plan_reproduces_source(src, dst, rs, bsize, sched);
}

} // verus!
