//! Cutting a byte range into block-sized copy tasks.

use vstd::prelude::*;
use vstd::arithmetic::div_mod::{lemma_fundamental_div_mod, lemma_mod_pos_bound};
use crate::ranges::ByteRange;

verus! {

/// One copy task: `bytes` bytes starting at `offset`.
#[derive(Debug, Clone, Copy, PartialEq, Eq, Structural)]
pub struct Block {
    pub offset: u64,
    pub bytes: u64,
}

impl Block {
    /// Whether offset `x` lies in the block.
    pub open spec fn contains(self, x: int) -> bool {
        self.offset <= x < self.offset + self.bytes
    }

    /// The first offset past the block.
    pub open spec fn spec_end(self) -> int {
        self.offset + self.bytes
    }
}

/// The number of blocks of `bsize` bytes that `len` bytes take: `len / bsize`
/// rounded up.
pub open spec fn spec_block_count(len: int, bsize: int) -> int {
    len / bsize + if len % bsize > 0 {
        1int
    } else {
        0int
    }
}

/// The `k`-th block of `range` cut at `bsize`: it starts `k * bsize` bytes
/// into the range and holds `bsize` bytes, or what is left of the range if
/// that is less.
pub open spec fn spec_block(range: ByteRange, bsize: int, k: int) -> Block {
    let left = range.spec_len() - k * bsize;
    Block {
        offset: (range.start + k * bsize) as u64,
        bytes: (if left < bsize {
            left
        } else {
            bsize
        }) as u64,
    }
}

/// The blocks of `range` cut at `bsize`, in ascending offset order.
pub open spec fn spec_blocks(range: ByteRange, bsize: int) -> Seq<Block> {
    Seq::new(
        spec_block_count(range.spec_len(), bsize) as nat,
        |k: int| spec_block(range, bsize, k),
    )
}

/// The bytes that a list of blocks holds in all.
pub open spec fn total_bytes(bs: Seq<Block>) -> int
    decreases bs.len(),
{
    if bs.len() == 0 {
        0
    } else {
        total_bytes(bs.drop_last()) + bs.last().bytes
    }
}

/// The block count is the least `n` with `n * bsize >= len`.
pub proof fn lemma_block_count_bounds(len: int, bsize: int)
    requires
        0 <= len,
        0 < bsize,
    ensures
        0 <= spec_block_count(len, bsize) <= len,
        spec_block_count(len, bsize) * bsize >= len,
        len > 0 ==> (spec_block_count(len, bsize) - 1) * bsize < len,
        len == 0 <==> spec_block_count(len, bsize) == 0,
{
    lemma_fundamental_div_mod(len, bsize);
    lemma_mod_pos_bound(len, bsize);
    let q = len / bsize;
    let r = len % bsize;
    assert(len == bsize * q + r);
    assert(bsize * q == q * bsize) by (nonlinear_arith);
    assert((q + 1) * bsize == q * bsize + bsize) by (nonlinear_arith);
    assert((q - 1) * bsize == q * bsize - bsize) by (nonlinear_arith);
    assert(0 <= q) by (nonlinear_arith)
        requires
            len == q * bsize + r,
            0 <= len,
            0 <= r < bsize,
            0 < bsize,
    ;
    assert(q <= q * bsize) by (nonlinear_arith)
        requires
            0 <= q,
            1 <= bsize,
    ;
}

/// Every block index below the count starts inside the range.
pub proof fn lemma_block_start(len: int, bsize: int, k: int)
    requires
        0 <= len,
        0 < bsize,
        0 <= k < spec_block_count(len, bsize),
    ensures
        0 <= k * bsize < len,
        k * bsize + bsize == (k + 1) * bsize,
{
    lemma_block_count_bounds(len, bsize);
    let n = spec_block_count(len, bsize);
    assert(k * bsize <= (n - 1) * bsize) by (nonlinear_arith)
        requires
            k <= n - 1,
            0 < bsize,
    ;
    assert(0 <= k * bsize) by (nonlinear_arith)
        requires
            0 <= k,
            0 < bsize,
    ;
    assert(k * bsize + bsize == (k + 1) * bsize) by (nonlinear_arith);
}

/// Whether some block of `bs` contains offset `x`.
pub open spec fn blocks_cover(bs: Seq<Block>, x: int) -> bool {
    exists|i: int| 0 <= i < bs.len() && #[trigger] bs[i].contains(x)
}

/// The `k`-th block of a range starts `k * bsize` bytes into it, holds
/// between one and `bsize` bytes, and ends inside the range; only the last
/// block may hold fewer than `bsize` bytes, and it ends where the range ends.
pub proof fn lemma_block_shape(range: ByteRange, bsize: int, k: int)
    requires
        range.start <= range.end,
        0 < bsize,
        0 <= k < spec_block_count(range.spec_len(), bsize),
    ensures
        spec_block(range, bsize, k).offset == range.start + k * bsize,
        1 <= spec_block(range, bsize, k).bytes <= bsize,
        spec_block(range, bsize, k).spec_end() <= range.end,
        k + 1 < spec_block_count(range.spec_len(), bsize) ==> spec_block(range, bsize, k).bytes
            == bsize,
        k + 1 == spec_block_count(range.spec_len(), bsize) ==> spec_block(
            range,
            bsize,
            k,
        ).spec_end() == range.end,
{
    let len = range.spec_len();
    let n = spec_block_count(len, bsize);
    lemma_block_start(len, bsize, k);
    lemma_block_count_bounds(len, bsize);
    if k + 1 < n {
        lemma_block_start(len, bsize, k + 1);
    } else {
        assert(n * bsize >= len);
    }
}

/// The blocks of a range tile it: the first starts where the range starts,
/// each next one starts where the one before ends, and the last ends where
/// the range ends.
pub proof fn lemma_blocks_tile(range: ByteRange, bsize: int)
    requires
        range.start <= range.end,
        0 < bsize,
    ensures
        spec_blocks(range, bsize).len() == spec_block_count(range.spec_len(), bsize),
        spec_blocks(range, bsize).len() > 0 ==> spec_blocks(range, bsize)[0].offset
            == range.start && spec_blocks(range, bsize).last().spec_end() == range.end,
        forall|k: int|
            0 <= k < spec_blocks(range, bsize).len() - 1 ==> (#[trigger] spec_blocks(
                range,
                bsize,
            )[k]).spec_end() == spec_blocks(range, bsize)[k + 1].offset,
        forall|k: int|
            0 <= k < spec_blocks(range, bsize).len() ==> 1 <= (#[trigger] spec_blocks(
                range,
                bsize,
            )[k]).bytes <= bsize,
{
    let bs = spec_blocks(range, bsize);
    let len = range.spec_len();
    lemma_block_count_bounds(len, bsize);
    if bs.len() > 0 {
        lemma_block_shape(range, bsize, 0);
        lemma_block_shape(range, bsize, bs.len() - 1);
        assert(0 * bsize == 0) by (nonlinear_arith);
    }
    assert forall|k: int| 0 <= k < bs.len() - 1 implies (#[trigger] bs[k]).spec_end() == bs[k
        + 1].offset by {
        lemma_block_shape(range, bsize, k);
        lemma_block_shape(range, bsize, k + 1);
        lemma_block_start(len, bsize, k);
    }
    assert forall|k: int| 0 <= k < bs.len() implies 1 <= (#[trigger] bs[k]).bytes <= bsize by {
        lemma_block_shape(range, bsize, k);
    }
}

/// The blocks of a range cover exactly the offsets of the range.
pub proof fn lemma_blocks_cover_range(range: ByteRange, bsize: int, x: int)
    requires
        range.start <= range.end,
        0 < bsize,
    ensures
        blocks_cover(spec_blocks(range, bsize), x) <==> range.contains(x),
{
    let bs = spec_blocks(range, bsize);
    let len = range.spec_len();
    let n = spec_block_count(len, bsize);
    lemma_block_count_bounds(len, bsize);
    if blocks_cover(bs, x) {
        let i = choose|i: int| 0 <= i < bs.len() && #[trigger] bs[i].contains(x);
        lemma_block_shape(range, bsize, i);
    }
    if range.contains(x) {
        let d = x - range.start;
        let k = d / bsize;
        lemma_fundamental_div_mod(d, bsize);
        lemma_mod_pos_bound(d, bsize);
        assert(bsize * k == k * bsize) by (nonlinear_arith);
        assert(0 <= k) by (nonlinear_arith)
            requires
                d == k * bsize + d % bsize,
                0 <= d,
                0 <= d % bsize < bsize,
                0 < bsize,
        ;
        assert(k < n) by (nonlinear_arith)
            requires
                k * bsize <= d,
                d < len,
                n * bsize >= len,
                0 < bsize,
        ;
        lemma_block_shape(range, bsize, k);
        lemma_block_start(len, bsize, k);
        assert(bs[k].contains(x));
    }
}

/// The first `n` blocks of a range hold `n * bsize` bytes, or the whole
/// range once they are all of its blocks.
proof fn lemma_prefix_total(range: ByteRange, bsize: int, n: int)
    requires
        range.start <= range.end,
        0 < bsize,
        0 <= n <= spec_block_count(range.spec_len(), bsize),
    ensures
        n < spec_block_count(range.spec_len(), bsize) ==> total_bytes(
            spec_blocks(range, bsize).take(n),
        ) == n * bsize,
        n == spec_block_count(range.spec_len(), bsize) ==> total_bytes(
            spec_blocks(range, bsize).take(n),
        ) == range.spec_len(),
    decreases n,
{
    let bs = spec_blocks(range, bsize);
    let len = range.spec_len();
    lemma_block_count_bounds(len, bsize);
    if n == 0 {
        assert(bs.take(0).len() == 0);
        assert(0 * bsize == 0) by (nonlinear_arith);
    } else {
        lemma_prefix_total(range, bsize, n - 1);
        let p = bs.take(n);
        assert(p.drop_last() =~= bs.take(n - 1));
        assert(p.last() == bs[n - 1]);
        lemma_block_shape(range, bsize, n - 1);
        lemma_block_start(len, bsize, n - 1);
    }
}

/// The blocks of a range hold exactly the bytes of the range.
pub proof fn lemma_blocks_total(range: ByteRange, bsize: int)
    requires
        range.start <= range.end,
        0 < bsize,
    ensures
        total_bytes(spec_blocks(range, bsize)) == range.spec_len(),
{
    let bs = spec_blocks(range, bsize);
    lemma_block_count_bounds(range.spec_len(), bsize);
    lemma_prefix_total(range, bsize, bs.len() as int);
    assert(bs.take(bs.len() as int) =~= bs);
}

/// Two lists of blocks, one after the other, hold the bytes of both.
pub proof fn lemma_total_bytes_concat(a: Seq<Block>, b: Seq<Block>)
    ensures
        total_bytes(a + b) == total_bytes(a) + total_bytes(b),
    decreases b.len(),
{
    if b.len() == 0 {
        assert(a + b =~= a);
    } else {
        lemma_total_bytes_concat(a, b.drop_last());
        assert((a + b).drop_last() =~= a + b.drop_last());
        assert((a + b).last() == b.last());
    }
}

/// Two lists of blocks, one after the other, cover what either covers.
pub proof fn lemma_blocks_cover_concat(a: Seq<Block>, b: Seq<Block>, x: int)
    ensures
        blocks_cover(a + b, x) <==> (blocks_cover(a, x) || blocks_cover(b, x)),
{
    let c = a + b;
    if blocks_cover(a, x) {
        let i = choose|i: int| 0 <= i < a.len() && #[trigger] a[i].contains(x);
        assert(c[i].contains(x));
    }
    if blocks_cover(b, x) {
        let i = choose|i: int| 0 <= i < b.len() && #[trigger] b[i].contains(x);
        assert(c[a.len() + i] == b[i]);
        assert(c[a.len() + i].contains(x));
    }
    if blocks_cover(c, x) {
        let i = choose|i: int| 0 <= i < c.len() && #[trigger] c[i].contains(x);
        if i < a.len() {
            assert(a[i].contains(x));
        } else {
            assert(b[i - a.len()].contains(x));
        }
    }
}

/// Within one range the blocks ascend: an earlier block ends at or before
/// the offset at which a later one starts.
pub proof fn lemma_blocks_ascending(range: ByteRange, bsize: int, i: int, j: int)
    requires
        range.start <= range.end,
        0 < bsize,
        0 <= i < j < spec_block_count(range.spec_len(), bsize),
    ensures
        spec_block(range, bsize, i).spec_end() <= spec_block(range, bsize, j).offset,
{
    lemma_block_shape(range, bsize, i);
    lemma_block_shape(range, bsize, j);
    assert((i + 1) * bsize <= j * bsize) by (nonlinear_arith)
        requires
            i + 1 <= j,
            0 < bsize,
    ;
    assert((i + 1) * bsize == i * bsize + bsize) by (nonlinear_arith);
}

impl ByteRange {
    /// The number of bytes in the range.
    pub fn len(&self) -> (n: u64)
        requires
            self.start <= self.end,
        ensures
            n == self.spec_len(),
    {
        self.end - self.start
    }
}

/// The number of block tasks that `range` takes at `block_size`.
pub fn block_count(range: ByteRange, block_size: u64) -> (n: u64)
    requires
        range.start <= range.end,
        block_size > 0,
    ensures
        n == spec_block_count(range.spec_len(), block_size as int),
{
    let len: u64 = range.end - range.start;
    proof {
        lemma_block_count_bounds(len as int, block_size as int);
    }
    let whole: u64 = len / block_size;
    if len % block_size > 0 {
        whole + 1
    } else {
        whole
    }
}

/// The `k`-th block task of `range` at `block_size`.
pub fn block_at(range: ByteRange, block_size: u64, k: u64) -> (b: Block)
    requires
        range.start <= range.end,
        block_size > 0,
        k < spec_block_count(range.spec_len(), block_size as int),
    ensures
        b == spec_block(range, block_size as int, k as int),
        range.start <= b.offset,
        b.offset + b.bytes <= range.end,
        1 <= b.bytes <= block_size,
{
    let len: u64 = range.end - range.start;
    proof {
        lemma_block_start(len as int, block_size as int, k as int);
    }
    let skipped: u64 = k * block_size;
    let left: u64 = len - skipped;
    let bytes: u64 = if left < block_size {
        left
    } else {
        block_size
    };
    Block { offset: range.start + skipped, bytes }
}

/// Cuts `range` into its block tasks, in ascending offset order.
pub fn split_range(range: ByteRange, block_size: u64) -> (blocks: Vec<Block>)
    requires
        range.start <= range.end,
        block_size > 0,
    ensures
        blocks@ == spec_blocks(range, block_size as int),
{
    let n: u64 = block_count(range, block_size);
    let mut blocks: Vec<Block> = Vec::new();
    let mut k: u64 = 0;
    while k < n
        invariant
            range.start <= range.end,
            block_size > 0,
            n == spec_block_count(range.spec_len(), block_size as int),
            k <= n,
            blocks.len() == k,
            forall|i: int| 0 <= i < k ==> blocks[i] == spec_block(range, block_size as int, i),
        decreases n - k,
    {
        let b = block_at(range, block_size, k);
        blocks.push(b);
        k += 1;
    }
    assert(blocks@ =~= spec_blocks(range, block_size as int));
    blocks
}

} // verus!
