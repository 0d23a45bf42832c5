//! Byte ranges, sparse extents, and the merge of extents into a canonical
//! list of ranges.

use vstd::prelude::*;
use crate::errors::XcpError;

verus! {

/// A half-open interval `[start, end)` of file offsets.
#[derive(Debug, Clone, Copy, PartialEq, Eq, Structural)]
pub struct ByteRange {
    pub start: u64,
    pub end: u64,
}

/// A data region of a sparse file, as the filesystem reports it.
#[derive(Debug, Clone, Copy, PartialEq, Eq, Structural)]
pub struct Extent {
    pub offset: u64,
    pub length: u64,
}

impl ByteRange {
    /// Whether offset `x` lies in the range.
    pub open spec fn contains(self, x: int) -> bool {
        self.start <= x < self.end
    }

    /// The number of bytes in the range.
    pub open spec fn spec_len(self) -> int {
        self.end - self.start
    }
}

impl Extent {
    /// The first offset past the extent.
    pub open spec fn spec_end(self) -> int {
        self.offset + self.length
    }

    /// Whether offset `x` lies in the extent.
    pub open spec fn contains(self, x: int) -> bool {
        self.offset <= x < self.offset + self.length
    }

    /// The extent that starts at `start` and ends before `end`; it is empty
    /// where `end` is not past `start`.
    pub fn spanning(start: u64, end: u64) -> (e: Extent)
        ensures
            e.offset == start,
            e.length == if end >= start {
                end - start
            } else {
                0
            },
            forall|x: int| e.contains(x) <==> start <= x < end,
    {
        let length: u64 = if end >= start {
            end - start
        } else {
            0
        };
        Extent { offset: start, length }
    }
}

/// Whether some range of `rs` contains offset `x`.
pub open spec fn ranges_cover(rs: Seq<ByteRange>, x: int) -> bool {
    exists|i: int| 0 <= i < rs.len() && #[trigger] rs[i].contains(x)
}

/// Whether some extent of `es` contains offset `x`.
pub open spec fn extents_cover(es: Seq<Extent>, x: int) -> bool {
    exists|i: int| 0 <= i < es.len() && #[trigger] es[i].contains(x)
}

/// A list of ranges is canonical when every range is non-empty and each
/// range ends strictly before the next begins, so that no two touch.
pub open spec fn is_canonical(rs: Seq<ByteRange>) -> bool {
    &&& forall|i: int| 0 <= i < rs.len() ==> (#[trigger] rs[i]).start < rs[i].end
    &&& forall|i: int, j: int| 0 <= i < j < rs.len() ==> (#[trigger] rs[i]).end < (#[trigger] rs[j]).start
}

/// Whether `rs` is the merge of `es`: canonical, and covering exactly the
/// offsets that the extents cover.
pub open spec fn is_merge_of(rs: Seq<ByteRange>, es: Seq<Extent>) -> bool {
    &&& is_canonical(rs)
    &&& forall|x: int| #[trigger] ranges_cover(rs, x) <==> extents_cover(es, x)
}

/// The ranges of `rs` written as extents, one for one.
pub open spec fn as_extents(rs: Seq<ByteRange>) -> Seq<Extent> {
    Seq::new(
        rs.len(),
        |i: int| Extent { offset: rs[i].start, length: (rs[i].end - rs[i].start) as u64 },
    )
}

/// Whether some range of `rs` at index `k` or later contains offset `x`.
spec fn ranges_cover_from(rs: Seq<ByteRange>, k: int, x: int) -> bool {
    exists|i: int| k <= i < rs.len() && #[trigger] rs[i].contains(x)
}

/// Whether some extent of `es` before index `k` contains offset `x`.
spec fn extents_cover_upto(es: Seq<Extent>, k: int, x: int) -> bool {
    exists|i: int| 0 <= i < k && #[trigger] es[i].contains(x)
}

/// Whether every extent of `es` ends at an offset that a `u64` can hold.
pub open spec fn extents_fit(es: Seq<Extent>) -> bool {
    forall|i: int| 0 <= i < es.len() ==> (#[trigger] es[i]).spec_end() <= u64::MAX
}

/// Pushing a range adds exactly its offsets to what a list covers.
proof fn lemma_cover_push(rs: Seq<ByteRange>, q: ByteRange, x: int)
    ensures
        ranges_cover(rs.push(q), x) <==> (ranges_cover(rs, x) || q.contains(x)),
{
    let rp = rs.push(q);
    if ranges_cover(rs, x) {
        let i = choose|i: int| 0 <= i < rs.len() && #[trigger] rs[i].contains(x);
        assert(rp[i].contains(x));
    }
    if q.contains(x) {
        assert(rp[rs.len() as int].contains(x));
    }
    if ranges_cover(rp, x) {
        let i = choose|i: int| 0 <= i < rp.len() && #[trigger] rp[i].contains(x);
        if i < rs.len() {
            assert(rs[i].contains(x));
        }
    }
}

/// What a list covers from index `k` on is the range at `k` and what it
/// covers from `k + 1` on.
proof fn lemma_cover_from_step(rs: Seq<ByteRange>, k: int, x: int)
    requires
        0 <= k < rs.len(),
    ensures
        ranges_cover_from(rs, k, x) <==> (rs[k].contains(x) || ranges_cover_from(rs, k + 1, x)),
{
    if ranges_cover_from(rs, k, x) {
        let i = choose|i: int| k <= i < rs.len() && #[trigger] rs[i].contains(x);
        if i > k {
            assert(k + 1 <= i < rs.len() && rs[i].contains(x));
        }
    }
    if ranges_cover_from(rs, k + 1, x) {
        let i = choose|i: int| k + 1 <= i < rs.len() && #[trigger] rs[i].contains(x);
        assert(k <= i < rs.len() && rs[i].contains(x));
    }
}

/// While a range `r` is being added to the canonical list `out`: what has
/// been written to `res`, the pending range `cur` unless it is `placed`, and
/// the ranges of `out` from index `k` on cover together what `out` and `r`
/// cover.
spec fn absorbing(
    res: Seq<ByteRange>,
    placed: bool,
    cur: ByteRange,
    out: Seq<ByteRange>,
    k: int,
    r: ByteRange,
    x: int,
) -> bool {
    (ranges_cover(res, x) || (!placed && cur.contains(x)) || ranges_cover_from(out, k, x)) <==> (
    ranges_cover(out, x) || r.contains(x))
}

/// Adds one non-empty range to a canonical list, joining it with every
/// range that it overlaps or touches. A range that starts at or after the
/// start of the list's last range is added at the end without a pass over
/// the list, so that extents which arrive in ascending order are merged in
/// one pass.
fn absorb(out: &mut Vec<ByteRange>, r: ByteRange)
    requires
        is_canonical(old(out)@),
        r.start < r.end,
    ensures
        is_canonical(final(out)@),
        forall|x: int| #[trigger]
            ranges_cover(final(out)@, x) <==> (ranges_cover(old(out)@, x) || r.contains(x)),
{
    let n = out.len();
    if n == 0 || out[n - 1].end < r.start {
        proof {
            assert forall|x: int| #[trigger]
                ranges_cover(out@.push(r), x) <==> (ranges_cover(out@, x) || r.contains(x)) by {
                lemma_cover_push(out@, r, x);
            }
        }
        out.push(r);
        return;
    }
    let last = out[n - 1];
    if last.start <= r.start {
        if r.end > last.end {
            let ghost before = out@;
            let ghost head = before.drop_last();
            let joined = ByteRange { start: last.start, end: r.end };
            out.pop();
            out.push(joined);
            proof {
                assert(out@ =~= head.push(joined));
                assert(before =~= head.push(last));
                assert forall|x: int| #[trigger]
                    ranges_cover(out@, x) <==> (ranges_cover(before, x) || r.contains(x)) by {
                    lemma_cover_push(head, joined, x);
                    lemma_cover_push(head, last, x);
                }
                assert forall|i: int, j: int| 0 <= i < j < out.len() implies (#[trigger] out[i]).end
                    < (#[trigger] out[j]).start by {
                    assert(out[i] == before[i]);
                    if j < n - 1 {
                        assert(out[j] == before[j]);
                    } else {
                        assert(before[i].end < before[n - 1].start);
                    }
                }
            }
        } else {
            proof {
                assert forall|x: int| r.contains(x) implies ranges_cover(out@, x) by {
                    assert(out[n - 1].contains(x));
                }
            }
        }
        return;
    }
    let merged = absorb_anywhere(out, r);
    *out = merged;
}

/// Adds one non-empty range to a canonical list in a pass over the list,
/// joining it with every range that it overlaps or touches.
fn absorb_anywhere(out: &Vec<ByteRange>, r: ByteRange) -> (res: Vec<ByteRange>)
    requires
        is_canonical(out@),
        r.start < r.end,
    ensures
        is_canonical(res@),
        forall|x: int| #[trigger] ranges_cover(res@, x) <==> (ranges_cover(out@, x) || r.contains(x)),
{
    let mut res: Vec<ByteRange> = Vec::new();
    let mut cur = r;
    let mut placed = false;
    let mut k: usize = 0;
    while k < out.len()
        invariant
            k <= out.len(),
            is_canonical(out@),
            is_canonical(res@),
            cur.start < cur.end,
            forall|i: int, j: int|
                0 <= i < res.len() && k <= j < out.len() ==> (#[trigger] res[i]).end < (
                #[trigger] out[j]).start,
            !placed ==> forall|i: int| 0 <= i < res.len() ==> (#[trigger] res[i]).end < cur.start,
            forall|x: int| #[trigger] absorbing(res@, placed, cur, out@, k as int, r, x),
        decreases out.len() - k,
    {
        let q = out[k];
        let ghost res0 = res@;
        let ghost cur0 = cur;
        let ghost placed0 = placed;
        if placed || q.end < cur.start {
            res.push(q);
        } else if cur.end < q.start {
            res.push(cur);
            res.push(q);
            placed = true;
        } else {
            let lo: u64 = if q.start < cur.start { q.start } else { cur.start };
            let hi: u64 = if q.end > cur.end { q.end } else { cur.end };
            cur = ByteRange { start: lo, end: hi };
        }
        proof {
            assert forall|x: int| #[trigger]
                absorbing(res@, placed, cur, out@, k + 1, r, x) by {
                assert(absorbing(res0, placed0, cur0, out@, k as int, r, x));
                lemma_cover_from_step(out@, k as int, x);
                if placed0 || q.end < cur0.start {
                    lemma_cover_push(res0, q, x);
                } else if cur0.end < q.start {
                    lemma_cover_push(res0, cur0, x);
                    lemma_cover_push(res0.push(cur0), q, x);
                }
            }
        }
        k += 1;
    }
    if !placed {
        proof {
            assert forall|x: int| #[trigger]
                ranges_cover(res@.push(cur), x) <==> (ranges_cover(out@, x) || r.contains(
                    x,
                )) by {
                lemma_cover_push(res@, cur, x);
                assert(absorbing(res@, placed, cur, out@, k as int, r, x));
                assert(!ranges_cover_from(out@, k as int, x));
            }
        }
        res.push(cur);
    } else {
        proof {
            assert forall|x: int| #[trigger]
                ranges_cover(res@, x) <==> (ranges_cover(out@, x) || r.contains(x)) by {
                assert(absorbing(res@, placed, cur, out@, k as int, r, x));
                assert(!ranges_cover_from(out@, k as int, x));
            }
        }
    }
    res
}

/// Merges the data extents of a file into the canonical list of byte ranges
/// that covers exactly the offsets the extents cover: sorted by offset, with
/// overlapping and touching extents joined and empty ones dropped.
///
/// Fails with `InvalidSource` exactly when some extent reaches past the
/// largest offset a `u64` can hold.
pub fn merge_extents(extents: Vec<Extent>) -> (res: Result<Vec<ByteRange>, XcpError>)
    ensures
        res is Ok <==> extents_fit(extents@),
        res matches Ok(rs) ==> is_merge_of(rs@, extents@),
        res matches Err(e) ==> (e matches XcpError::InvalidSource(text) && text@
            == unfit_extent_text()),
{
    let mut out: Vec<ByteRange> = Vec::new();
    let mut k: usize = 0;
    while k < extents.len()
        invariant
            k <= extents.len(),
            is_canonical(out@),
            forall|i: int| 0 <= i < k ==> (#[trigger] extents[i]).spec_end() <= u64::MAX,
            forall|x: int| #[trigger]
                ranges_cover(out@, x) <==> extents_cover_upto(extents@, k as int, x),
        decreases extents.len() - k,
    {
        let e = extents[k];
        let ghost out0 = out@;
        match e.offset.checked_add(e.length) {
            None => {
                assert(extents[k as int].spec_end() > u64::MAX);
                return Err(XcpError::InvalidSource(unfit_extent_message()));
            },
            Some(end) => {
                if e.length > 0 {
                    absorb(&mut out, ByteRange { start: e.offset, end });
                }
                proof {
                    assert forall|x: int| #[trigger]
                        ranges_cover(out@, x) <==> extents_cover_upto(
                            extents@,
                            k + 1,
                            x,
                        ) by {
                        assert(ranges_cover(out0, x) <==> extents_cover_upto(
                            extents@,
                            k as int,
                            x,
                        ));
                        if extents_cover_upto(extents@, k + 1, x) {
                            let i = choose|i: int|
                                0 <= i < k + 1 && #[trigger] extents[i].contains(x);
                            if i < k {
                                assert(extents_cover_upto(extents@, k as int, x));
                            }
                        }
                        if extents_cover_upto(extents@, k as int, x) {
                            let i = choose|i: int| 0 <= i < k && #[trigger] extents[i].contains(x);
                            assert(0 <= i < k + 1 && extents[i].contains(x));
                        }
                        if e.contains(x) {
                            assert(extents[k as int].contains(x));
                        }
                    }
                }
            },
        }
        k += 1;
    }
    proof {
        assert forall|x: int| #[trigger]
            ranges_cover(out@, x) <==> extents_cover(extents@, x) by {
            if extents_cover_upto(extents@, k as int, x) {
                let i = choose|i: int| 0 <= i < k && #[trigger] extents[i].contains(x);
                assert(0 <= i < extents.len() && extents[i].contains(x));
            }
            if extents_cover(extents@, x) {
                let i = choose|i: int| 0 <= i < extents.len() && #[trigger] extents[i].contains(x);
                assert(0 <= i < k && extents[i].contains(x));
            }
        }
    }
    Ok(out)
}

/// Without its first range a canonical list is still canonical, and covers
/// what the whole list covers from the end of that first range on.
proof fn lemma_canonical_tail(a: Seq<ByteRange>, x: int)
    requires
        is_canonical(a),
        a.len() > 0,
    ensures
        is_canonical(a.drop_first()),
        ranges_cover(a.drop_first(), x) <==> (ranges_cover(a, x) && x >= a[0].end),
{
    let t = a.drop_first();
    assert forall|i: int| 0 <= i < t.len() implies (#[trigger] t[i]).start < t[i].end by {
        assert(t[i] == a[i + 1]);
    }
    assert forall|i: int, j: int| 0 <= i < j < t.len() implies (#[trigger] t[i]).end < (
    #[trigger] t[j]).start by {
        assert(t[i] == a[i + 1]);
        assert(t[j] == a[j + 1]);
    }
    if ranges_cover(t, x) {
        let i = choose|i: int| 0 <= i < t.len() && #[trigger] t[i].contains(x);
        assert(t[i] == a[i + 1]);
        assert(a[i + 1].contains(x));
        assert(a[0].end < a[i + 1].start);
    }
    if ranges_cover(a, x) && x >= a[0].end {
        let i = choose|i: int| 0 <= i < a.len() && #[trigger] a[i].contains(x);
        assert(i > 0);
        assert(t[i - 1] == a[i]);
        assert(t[i - 1].contains(x));
    }
}

/// The first range of a canonical list starts at the least offset that the
/// list covers, and its end is the least offset from there on that the list
/// does not cover.
proof fn lemma_canonical_first(a: Seq<ByteRange>)
    requires
        is_canonical(a),
        a.len() > 0,
    ensures
        ranges_cover(a, a[0].start as int),
        !ranges_cover(a, a[0].end as int),
        forall|x: int| ranges_cover(a, x) ==> a[0].start <= x,
        forall|x: int| a[0].start <= x < a[0].end ==> ranges_cover(a, x),
{
    assert(a[0].contains(a[0].start as int));
    if ranges_cover(a, a[0].end as int) {
        let i = choose|i: int| 0 <= i < a.len() && #[trigger] a[i].contains(a[0].end as int);
        if i > 0 {
            assert(a[0].end < a[i].start);
        }
    }
    assert forall|x: int| ranges_cover(a, x) implies a[0].start <= x by {
        let i = choose|i: int| 0 <= i < a.len() && #[trigger] a[i].contains(x);
        if i > 0 {
            assert(a[0].end < a[i].start);
        }
    }
    assert forall|x: int| a[0].start <= x < a[0].end implies ranges_cover(a, x) by {
        assert(a[0].contains(x));
    }
}

/// A canonical list is sorted and its ranges are disjoint: of two ranges the
/// earlier starts first, and no offset lies in both.
pub proof fn lemma_canonical_sorted_disjoint(rs: Seq<ByteRange>, i: int, j: int)
    requires
        is_canonical(rs),
        0 <= i < j < rs.len(),
    ensures
        rs[i].start < rs[j].start,
        forall|x: int| !(rs[i].contains(x) && rs[j].contains(x)),
{
    assert(rs[i].start < rs[i].end);
    assert(rs[i].end < rs[j].start);
}

/// Two canonical lists that cover the same offsets are the same list.
pub proof fn lemma_canonical_unique(a: Seq<ByteRange>, b: Seq<ByteRange>)
    requires
        is_canonical(a),
        is_canonical(b),
        forall|x: int| ranges_cover(a, x) <==> ranges_cover(b, x),
    ensures
        a == b,
    decreases a.len(),
{
    if a.len() == 0 {
        if b.len() > 0 {
            lemma_canonical_first(b);
            let x = b[0].start as int;
            assert(ranges_cover(a, x));
        }
        assert(a =~= b);
    } else if b.len() == 0 {
        lemma_canonical_first(a);
        let x = a[0].start as int;
        assert(ranges_cover(b, x));
    } else {
        lemma_canonical_first(a);
        lemma_canonical_first(b);
        assert(a[0].start == b[0].start) by {
            assert(ranges_cover(b, a[0].start as int));
            assert(ranges_cover(a, b[0].start as int));
        }
        assert(a[0].end == b[0].end) by {
            if a[0].end < b[0].end {
                assert(ranges_cover(b, a[0].end as int));
            }
            if b[0].end < a[0].end {
                assert(ranges_cover(a, b[0].end as int));
            }
        }
        let ta = a.drop_first();
        let tb = b.drop_first();
        assert forall|x: int| ranges_cover(ta, x) <==> ranges_cover(tb, x) by {
            lemma_canonical_tail(a, x);
            lemma_canonical_tail(b, x);
        }
        lemma_canonical_tail(a, 0);
        lemma_canonical_tail(b, 0);
        lemma_canonical_unique(ta, tb);
        assert(a =~= b) by {
            assert forall|i: int| 0 <= i < a.len() implies a[i] == b[i] by {
                if i > 0 {
                    assert(ta[i - 1] == a[i]);
                    assert(tb[i - 1] == b[i]);
                }
            }
            assert(a.len() == ta.len() + 1);
            assert(b.len() == tb.len() + 1);
        }
    }
}

/// A list of extents has one merge only.
pub proof fn lemma_merge_unique(es: Seq<Extent>, a: Seq<ByteRange>, b: Seq<ByteRange>)
    requires
        is_merge_of(a, es),
        is_merge_of(b, es),
    ensures
        a == b,
{
    assert forall|x: int| ranges_cover(a, x) <==> ranges_cover(b, x) by {
        assert(ranges_cover(a, x) <==> extents_cover(es, x));
        assert(ranges_cover(b, x) <==> extents_cover(es, x));
    }
    lemma_canonical_unique(a, b);
}

/// A canonical list, written as extents, covers what it covered as ranges.
pub proof fn lemma_as_extents_cover(rs: Seq<ByteRange>, x: int)
    requires
        is_canonical(rs),
    ensures
        extents_cover(as_extents(rs), x) <==> ranges_cover(rs, x),
{
    let es = as_extents(rs);
    if extents_cover(es, x) {
        let i = choose|i: int| 0 <= i < es.len() && #[trigger] es[i].contains(x);
        assert(rs[i].contains(x));
    }
    if ranges_cover(rs, x) {
        let i = choose|i: int| 0 <= i < rs.len() && #[trigger] rs[i].contains(x);
        assert(es[i].contains(x));
    }
}

/// Merging is idempotent: when `once` is the merge of `es`, and `twice` is
/// the merge of `once` written as extents, `twice` is `once`.
pub proof fn lemma_merge_idempotent(es: Seq<Extent>, once: Seq<ByteRange>, twice: Seq<ByteRange>)
    requires
        is_merge_of(once, es),
        is_merge_of(twice, as_extents(once)),
    ensures
        twice == once,
{
    lemma_merge_of_canonical(once, twice);
}

/// The merge of a canonical list, written as extents, is that list.
pub proof fn lemma_merge_of_canonical(rs: Seq<ByteRange>, merged: Seq<ByteRange>)
    requires
        is_canonical(rs),
        is_merge_of(merged, as_extents(rs)),
    ensures
        merged == rs,
{
    assert forall|x: int| ranges_cover(merged, x) <==> ranges_cover(rs, x) by {
        lemma_as_extents_cover(rs, x);
        assert(ranges_cover(merged, x) <==> extents_cover(as_extents(rs), x));
    }
    lemma_canonical_unique(merged, rs);
}

/// The merge reaches no further than the extents do: when every extent ends
/// at or before `len`, so does every range of the merge.
pub proof fn lemma_merge_within(es: Seq<Extent>, rs: Seq<ByteRange>, len: int)
    requires
        is_merge_of(rs, es),
        forall|i: int| 0 <= i < es.len() ==> (#[trigger] es[i]).spec_end() <= len,
    ensures
        forall|j: int| 0 <= j < rs.len() ==> (#[trigger] rs[j]).end <= len,
{
    assert forall|j: int| 0 <= j < rs.len() implies (#[trigger] rs[j]).end <= len by {
        let x = rs[j].end - 1;
        assert(rs[j].contains(x));
        assert(ranges_cover(rs, x));
        assert(extents_cover(es, x));
        let i = choose|i: int| 0 <= i < es.len() && #[trigger] es[i].contains(x);
        assert(es[i].spec_end() <= len);
    }
}

/// The text of the error for an extent that reaches past the largest offset.
pub open spec fn unfit_extent_text() -> Seq<char> {
    "Extent reaches past the largest file offset."@
}

/// The text of the error for an extent that reaches past the largest offset.
fn unfit_extent_message() -> (text: String)
    ensures
        text@ == unfit_extent_text(),
{
    String::from_str("Extent reaches past the largest file offset.")
}

} // verus!
