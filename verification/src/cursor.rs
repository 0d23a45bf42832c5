//! A cursor over the block tasks of a plan, for a dispatcher that submits
//! them one at a time and never holds them all.

use vstd::prelude::*;
use crate::blocks::{block_at, block_count, spec_block_count, spec_blocks, Block};
use crate::planner::{ranges_well_formed, spec_plan_blocks};
use crate::ranges::ByteRange;

verus! {

/// The block tasks of the ranges `rs` from range `at` on, without the first
/// `k` tasks of that range.
spec fn blocks_from(rs: Seq<ByteRange>, bsize: int, at: int, k: int) -> Seq<Block>
    decreases rs.len() - at,
{
    if at < 0 || at >= rs.len() {
        Seq::empty()
    } else {
        spec_blocks(rs[at], bsize).skip(k) + blocks_from(rs, bsize, at + 1, 0)
    }
}

/// The tasks of a plan are the tasks of its first `at` ranges, then the
/// tasks from range `at` on.
proof fn lemma_blocks_split(rs: Seq<ByteRange>, bsize: int, at: int)
    requires
        0 <= at <= rs.len(),
    ensures
        spec_plan_blocks(rs, bsize) == spec_plan_blocks(rs.take(at), bsize) + blocks_from(
            rs,
            bsize,
            at,
            0,
        ),
    decreases rs.len() - at,
{
    if at == rs.len() {
        assert(rs.take(at) =~= rs);
        assert(spec_plan_blocks(rs, bsize) + Seq::<Block>::empty() =~= spec_plan_blocks(rs, bsize));
    } else {
        lemma_blocks_split(rs, bsize, at + 1);
        let next = rs.take(at + 1);
        assert(next.drop_last() =~= rs.take(at));
        assert(next.last() == rs[at]);
        let here = spec_blocks(rs[at], bsize);
        assert(here.skip(0) =~= here);
        assert((spec_plan_blocks(rs.take(at), bsize) + here) + blocks_from(rs, bsize, at + 1, 0)
            =~= spec_plan_blocks(rs.take(at), bsize) + (here + blocks_from(
            rs,
            bsize,
            at + 1,
            0,
        )));
    }
}

/// A position in the block tasks of a plan.
#[derive(Debug, Clone, PartialEq, Eq)]
pub struct BlockCursor {
    ranges: Vec<ByteRange>,
    block_size: u64,
    at: usize,
    k: u64,
}

impl BlockCursor {
    /// Whether the cursor stands at a position of its plan.
    pub closed spec fn well_formed(self) -> bool {
        &&& self.block_size > 0
        &&& ranges_well_formed(self.ranges@)
        &&& self.at <= self.ranges.len()
        &&& self.at < self.ranges.len() ==> self.k <= spec_block_count(
            self.ranges[self.at as int].spec_len(),
            self.block_size as int,
        )
    }

    /// The tasks that the cursor has yet to hand out, in order.
    pub closed spec fn remaining(self) -> Seq<Block> {
        blocks_from(self.ranges@, self.block_size as int, self.at as int, self.k as int)
    }

    /// A cursor before the first block task of the plan `ranges`.
    pub fn new(ranges: Vec<ByteRange>, block_size: u64) -> (c: BlockCursor)
        requires
            block_size > 0,
            ranges_well_formed(ranges@),
        ensures
            c.well_formed(),
            c.remaining() == spec_plan_blocks(ranges@, block_size as int),
    {
        proof {
            lemma_blocks_split(ranges@, block_size as int, 0);
            assert(ranges@.take(0) =~= Seq::<ByteRange>::empty());
            assert(Seq::<Block>::empty() + blocks_from(ranges@, block_size as int, 0, 0)
                =~= blocks_from(ranges@, block_size as int, 0, 0));
        }
        BlockCursor { ranges, block_size, at: 0, k: 0 }
    }

    /// Hands out the next block task, or `None` once every task was handed
    /// out.
    pub fn next_block(&mut self) -> (b: Option<Block>)
        requires
            old(self).well_formed(),
        ensures
            final(self).well_formed(),
            match b {
                Some(block) => {
                    &&& old(self).remaining().len() > 0
                    &&& block == old(self).remaining()[0]
                    &&& final(self).remaining() == old(self).remaining().drop_first()
                },
                None => {
                    &&& old(self).remaining().len() == 0
                    &&& final(self).remaining().len() == 0
                },
            },
    {
        while self.at < self.ranges.len()
            invariant
                self.well_formed(),
                self.remaining() == old(self).remaining(),
            decreases self.ranges.len() - self.at,
        {
            let r = self.ranges[self.at];
            let n: u64 = block_count(r, self.block_size);
            let ghost before = *self;
            let ghost here = spec_blocks(r, self.block_size as int);
            let ghost rest = blocks_from(
                self.ranges@,
                self.block_size as int,
                self.at + 1,
                0,
            );
            if self.k < n {
                let block = block_at(r, self.block_size, self.k);
                self.k = self.k + 1;
                proof {
                    assert((here.skip(before.k as int) + rest)[0] == here[before.k as int]);
                    assert((here.skip(before.k as int) + rest).drop_first() =~= here.skip(
                        before.k + 1,
                    ) + rest);
                }
                return Some(block);
            }
            self.at = self.at + 1;
            self.k = 0;
            proof {
                assert(here.skip(n as int) =~= Seq::<Block>::empty());
                assert(here.skip(n as int) + rest =~= rest);
            }
        }
        None
    }
}

} // verus!
