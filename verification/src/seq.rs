use crate::region::Region;
use vstd::prelude::*;

verus! {

/// Represents something that corresponds to a sequence of items, such as a
/// `Vec`.
pub trait Sequence<T> {
    /// The mathematical sequence of items this value stands for;
    /// verified implementations say which.
    open spec fn sview(&self) -> Seq<T> {
        Seq::empty()
    }

    /// Get the length of the underlying sequence.
    fn len(&self) -> (n: usize)
        ensures
            n == self.sview().len(),
    ;

    /// Get the item at position `index` of the underlying sequence.
    fn get(&self, index: usize) -> (r: &T)
        requires
            index < self.sview().len(),
        ensures
            *r == self.sview()[index as int],
    ;
}

/// Default implementation of sequence for `Vec<T>`.
impl<T> Sequence<T> for Vec<T> {
    open spec fn sview(&self) -> Seq<T> {
        self@
    }

    fn len(&self) -> usize {
        Vec::len(self)
    }

    fn get(&self, index: usize) -> &T {
        &self[index]
    }
}

/// The sequence obtained from `s` by replacing the positions of `region`
/// with `data`.
pub open spec fn spec_splice<T>(s: Seq<T>, region: Region, data: Seq<T>) -> Seq<T> {
    s.take(region.offset as int) + data + s.skip(region.spec_end())
}

/// Replace the positions `region` of `v` with a copy of `data`.
pub fn splice<T: Copy>(v: &mut Vec<T>, region: Region, data: &[T])
    requires
        region.spec_end() <= old(v)@.len(),
    ensures
        final(v)@ == spec_splice(old(v)@, region, data@),
{
    let n = v.len();
    let mut out: Vec<T> = Vec::new();
    let mut i: usize = 0;
    while i < region.offset
        invariant
            i <= region.offset,
            region.spec_end() <= v@.len(),
            v@ == old(v)@,
            out@ == old(v)@.take(i as int),
        decreases region.offset - i,
    {
        out.push(v[i]);
        i = i + 1;
    }
    let mut j: usize = 0;
    while j < data.len()
        invariant
            j <= data@.len(),
            out@ == old(v)@.take(region.offset as int) + data@.take(j as int),
        decreases data@.len() - j,
    {
        out.push(data[j]);
        j = j + 1;
    }
    let mut k: usize = region.offset + region.length;
    while k < n
        invariant
            region.spec_end() <= k <= n == v@.len(),
            v@ == old(v)@,
            out@ == old(v)@.take(region.offset as int) + data@ + old(v)@.subrange(
                region.spec_end(),
                k as int,
            ),
        decreases n - k,
    {
        out.push(v[k]);
        k = k + 1;
    }
    proof {
        assert(out@ =~= spec_splice(old(v)@, region, data@));
    }
    *v = out;
}

} // verus!
