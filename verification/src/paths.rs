//! Paths as lists of component names.
//!
//! A path is the list of its components, outermost first, and a component is
//! the bytes of its name as the filesystem holds them. Joining two paths is
//! putting their lists one after the other.

use vstd::prelude::*;

verus! {

/// A path: the names of its components, outermost first.
pub type TreePath = Vec<Vec<u8>>;

/// The names of a path's components, each as a sequence of bytes.
pub open spec fn names(path: Seq<Vec<u8>>) -> Seq<Seq<u8>> {
    Seq::new(path.len(), |i: int| path[i]@)
}

/// Whether the path `prefix` leads the path `path`: `path` has at least the
/// components of `prefix`, and starts with them.
pub open spec fn leads(prefix: Seq<Seq<u8>>, path: Seq<Seq<u8>>) -> bool {
    &&& prefix.len() <= path.len()
    &&& forall|i: int| 0 <= i < prefix.len() ==> #[trigger] prefix[i] == path[i]
}

/// Whether two names are the same, byte for byte.
pub(crate) fn same_name(a: &Vec<u8>, b: &Vec<u8>) -> (same: bool)
    ensures
        same == (a@ == b@),
{
    if a.len() != b.len() {
        return false;
    }
    let mut k: usize = 0;
    while k < a.len()
        invariant
            a.len() == b.len(),
            k <= a.len(),
            forall|i: int| 0 <= i < k ==> a[i] == b[i],
        decreases a.len() - k,
    {
        if a[k] != b[k] {
            return false;
        }
        k += 1;
    }
    assert(a@ =~= b@);
    true
}

/// A copy of a name.
pub(crate) fn copy_name(name: &Vec<u8>) -> (out: Vec<u8>)
    ensures
        out@ == name@,
{
    let mut out: Vec<u8> = Vec::new();
    let mut k: usize = 0;
    while k < name.len()
        invariant
            k <= name.len(),
            out@ == name@.take(k as int),
        decreases name.len() - k,
    {
        out.push(name[k]);
        assert(out@ =~= name@.take(k + 1));
        k += 1;
    }
    assert(name@.take(k as int) =~= name@);
    out
}

/// A copy of the components of `path` from index `from` on.
pub(crate) fn copy_tail(path: &TreePath, from: usize) -> (out: TreePath)
    requires
        from <= path.len(),
    ensures
        names(out@) == names(path@).skip(from as int),
{
    let mut out: TreePath = Vec::new();
    let mut k: usize = from;
    while k < path.len()
        invariant
            from <= k <= path.len(),
            out.len() == k - from,
            forall|i: int| 0 <= i < out.len() ==> (#[trigger] out[i])@ == path[from + i]@,
        decreases path.len() - k,
    {
        let name = copy_name(&path[k]);
        out.push(name);
        k += 1;
    }
    assert(names(out@) =~= names(path@).skip(from as int));
    out
}

} // verus!
