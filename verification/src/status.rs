//! Status updates from the copy tasks, and their aggregation into totals.

use vstd::prelude::*;
use vstd::seq_lib::{to_multiset_contains, to_multiset_len, to_multiset_remove};
use crate::errors::XcpError;

verus! {

/// What a task, the walker or the dispatcher reports to the aggregator.
#[derive(Debug, Clone, PartialEq, Eq)]
pub enum StatusUpdate {
    /// So many bytes were copied.
    Copied(u64),
    /// The expected total grew by so many bytes.
    Size(u64),
    /// A copy failed.
    Error(XcpError),
}

/// The totals that the aggregator keeps: bytes copied, and bytes expected.
#[derive(Debug, Clone, Copy, PartialEq, Eq, Structural)]
pub struct Tally {
    pub copied: u64,
    pub size: u64,
}

/// The sum `a + b`, held at `u64::MAX` where it would pass it.
pub open spec fn saturating_sum(a: int, b: int) -> int {
    if a + b > u64::MAX {
        u64::MAX as int
    } else {
        a + b
    }
}

/// The totals after one update that is no error: `Copied` adds to the bytes
/// copied, `Size` to the bytes expected; each sum is held at `u64::MAX`.
pub open spec fn counted(t: Tally, u: StatusUpdate) -> Tally {
    match u {
        StatusUpdate::Copied(n) => Tally {
            copied: saturating_sum(t.copied as int, n as int) as u64,
            size: t.size,
        },
        StatusUpdate::Size(n) => Tally {
            copied: t.copied,
            size: saturating_sum(t.size as int, n as int) as u64,
        },
        StatusUpdate::Error(_) => t,
    }
}

/// The totals and the outcome after draining `us` in arrival order: updates
/// are counted up to the first error, which ends the drain and is returned.
pub open spec fn drained(t: Tally, us: Seq<StatusUpdate>) -> (Tally, Option<XcpError>)
    decreases us.len(),
{
    if us.len() == 0 {
        (t, None)
    } else {
        match us[0] {
            StatusUpdate::Error(e) => (t, Some(e)),
            u => drained(counted(t, u), us.drop_first()),
        }
    }
}

/// The bytes that one update reports as copied.
pub open spec fn copied_by(u: StatusUpdate) -> int {
    match u {
        StatusUpdate::Copied(n) => n as int,
        _ => 0int,
    }
}

/// The bytes that the `Copied` updates of `us` report in all.
pub open spec fn copied_total(us: Seq<StatusUpdate>) -> int
    decreases us.len(),
{
    if us.len() == 0 {
        0
    } else {
        copied_total(us.drop_last()) + copied_by(us.last())
    }
}

/// Whether no update of `us` is an error.
pub open spec fn all_succeeded(us: Seq<StatusUpdate>) -> bool {
    forall|i: int| 0 <= i < us.len() ==> !((#[trigger] us[i]) is Error)
}

/// Taking one update out of a list takes its bytes out of the total.
proof fn lemma_copied_total_remove(us: Seq<StatusUpdate>, i: int)
    requires
        0 <= i < us.len(),
    ensures
        copied_total(us) == copied_total(us.remove(i)) + copied_by(us[i]),
        copied_total(us) >= 0,
        copied_total(us.remove(i)) >= 0,
    decreases us.len(),
{
    if i == us.len() - 1 {
        assert(us.remove(i) =~= us.drop_last());
        lemma_copied_total_nonnegative(us.drop_last());
    } else {
        lemma_copied_total_remove(us.drop_last(), i);
        assert(us.remove(i).drop_last() =~= us.drop_last().remove(i));
        assert(us.remove(i).last() == us.last());
    }
}

/// A total of copied bytes is never negative.
proof fn lemma_copied_total_nonnegative(us: Seq<StatusUpdate>)
    ensures
        copied_total(us) >= 0,
    decreases us.len(),
{
    if us.len() > 0 {
        lemma_copied_total_nonnegative(us.drop_last());
    }
}

/// The total of copied bytes does not depend on the order in which the
/// updates arrive: two lists that hold the same updates, each as often as
/// the other, report the same total.
pub proof fn lemma_copied_total_any_order(a: Seq<StatusUpdate>, b: Seq<StatusUpdate>)
    requires
        a.to_multiset() == b.to_multiset(),
    ensures
        copied_total(a) == copied_total(b),
    decreases a.len(),
{
    to_multiset_len(a);
    to_multiset_len(b);
    if a.len() > 0 {
        let last = a.len() - 1;
        let x = a[last];
        to_multiset_contains(a, x);
        to_multiset_contains(b, x);
        assert(a.contains(x));
        let j = choose|j: int| 0 <= j < b.len() && b[j] == x;
        to_multiset_remove(a, last);
        to_multiset_remove(b, j);
        assert(a.remove(last) =~= a.drop_last());
        lemma_copied_total_any_order(a.drop_last(), b.remove(j));
        lemma_copied_total_remove(b, j);
    }
}

/// Draining updates of which none is an error ends without an error, and
/// adds to the bytes copied the total that the updates report, held at
/// `u64::MAX`.
pub proof fn lemma_drained_copied(t: Tally, us: Seq<StatusUpdate>)
    requires
        all_succeeded(us),
    ensures
        drained(t, us).1 is None,
        drained(t, us).0.copied == saturating_sum(t.copied as int, copied_total(us)),
    decreases us.len(),
{
    if us.len() == 0 {
    } else {
        let rest = us.drop_first();
        assert(!(us[0] is Error));
        assert(all_succeeded(rest)) by {
            assert forall|i: int| 0 <= i < rest.len() implies !((#[trigger] rest[i]) is Error) by {
                assert(rest[i] == us[i + 1]);
            }
        }
        lemma_drained_copied(counted(t, us[0]), rest);
        lemma_copied_total_remove(us, 0);
        assert(us.remove(0) =~= rest);
    }
}

/// The update that a block task sends when its copy has ended: the bytes it
/// wrote, or the failure as a `CopyError` with the failure's text.
pub fn task_status(outcome: Result<u64, String>) -> (u: StatusUpdate)
    ensures
        u == match outcome {
            Ok(bytes) => StatusUpdate::Copied(bytes),
            Err(text) => StatusUpdate::Error(XcpError::CopyError(text)),
        },
{
    match outcome {
        Ok(bytes) => StatusUpdate::Copied(bytes),
        Err(text) => StatusUpdate::Error(XcpError::CopyError(text)),
    }
}

impl Tally {
    /// Totals with nothing copied yet and `size` bytes expected.
    pub fn new(size: u64) -> (t: Tally)
        ensures
            t == (Tally { copied: 0, size }),
    {
        Tally { copied: 0, size }
    }

    /// Replaces the bytes expected.
    pub fn set_size(&mut self, size: u64)
        ensures
            *final(self) == (Tally { copied: old(self).copied, size }),
    {
        self.size = size;
    }

    /// Takes one update in. A `Copied` or `Size` update is counted; an
    /// `Error` leaves the totals as they are and is handed back, for the
    /// caller to stop draining.
    pub fn apply(&mut self, update: StatusUpdate) -> (r: Result<(), XcpError>)
        ensures
            update matches StatusUpdate::Error(e) ==> r == Err::<(), XcpError>(e) && *final(self)
                == *old(self),
            !(update is Error) ==> r is Ok && *final(self) == counted(*old(self), update),
    {
        match update {
            StatusUpdate::Copied(n) => {
                self.copied = self.copied.saturating_add(n);
                Ok(())
            },
            StatusUpdate::Size(n) => {
                self.size = self.size.saturating_add(n);
                Ok(())
            },
            StatusUpdate::Error(e) => Err(e),
        }
    }

    /// Drains `updates` in arrival order, stopping at the first error.
    pub fn drain(&mut self, updates: Vec<StatusUpdate>) -> (r: Result<(), XcpError>)
        ensures
            *final(self) == drained(*old(self), updates@).0,
            match drained(*old(self), updates@).1 {
                Some(e) => r == Err::<(), XcpError>(e),
                None => r is Ok,
            },
    {
        let ghost all = updates@;
        assert(all.skip(0) =~= all);
        for u in it: updates
            invariant
                it.seq() == all,
                drained(*old(self), all) == drained(*self, all.skip(it.index() as int)),
        {
            let ghost rest = all.skip(it.index() as int);
            assert(rest[0] == u);
            assert(rest.drop_first() =~= all.skip(it.index() + 1));
            match self.apply(u) {
                Ok(()) => {},
                Err(e) => {
                    return Err(e);
                },
            }
        }
        Ok(())
    }
}

} // verus!
