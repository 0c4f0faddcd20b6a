use super::{spec_applies, spec_apply, SliceRewrite, TransformError};
use super::rewrite::Rewrite;
use crate::region::Region;
use crate::seq::splice;
use vstd::prelude::*;
use vstd::slice::slice_subrange;

verus! {

/// A `VecDelta` is a sequence of zero (or more) rewrites that can be
/// generated from something resembling a sequence (e.g. a slice or `Vec`)
/// and applied to a `Vec` to generate another `Vec`.  Consider the
/// following:
///
/// ```txt
///  0 1 2 3 4 5 6 7 8 9 A B
/// +-+-+-+-+-+-+-+-+-+-+-+-+
/// |H|e|L|L|L|O| |W|o|r|l|d|
/// +-+-+-+-+-+-+-+-+-+-+-+-+
///     | : : : |    | |
///     +-------+    +-+
///         |        |
///        \|/      \|/
///     +-+-+-+-+-+-+-+
///  ...|l|l|o|...|O|R|...
///     +-+-+-+-+-+-+-+
///  0 1 2 3 4 5 6 7 8 9 A B
/// ```
///
/// Here, we have a sequence of two rewrites, stored in order of their
/// starting offsets.  The starting offset for each replacement is in
/// terms of the *final* array (reading left-to-right).  Thus, the above
/// is encoded internally as the sequence `(2;4;"llo"),(7;2;"OR")`.
#[derive(Clone, PartialEq, Debug)]
pub struct VecDelta<T> {
    /// Meta data describing rewrites.  For each element, the first region
    /// denotes the portion of the target sequence being rewritten, whilst
    /// the second denotes the subset of the `data` array being used for
    /// the rewrite.
    regions: Vec<(Region, Region)>,
    /// Items used within this delta.
    data: Vec<T>,
}

impl<T> View for VecDelta<T> {
    type V = Seq<(Region, Seq<T>)>;

    /// A delta is viewed as its ordered list of rewrites, each a target
    /// region paired with the payload that replaces it.
    closed spec fn view(&self) -> Seq<(Region, Seq<T>)> {
        Seq::new(
            self.regions@.len(),
            |i: int|
                (
                    self.regions@[i].0,
                    self.data@.subrange(
                        self.regions@[i].1.offset as int,
                        self.regions@[i].1.offset + self.regions@[i].1.length,
                    ),
                ),
        )
    }
}

impl<T> VecDelta<T> {
    /// The target region of each rewrite, in order.
    pub closed spec fn targets(&self) -> Seq<Region> {
        Seq::new(self.regions@.len(), |i: int| self.regions@[i].0)
    }

    /// The sub-range of the arena holding each rewrite's payload, in
    /// order.
    pub closed spec fn slices(&self) -> Seq<Region> {
        Seq::new(self.regions@.len(), |i: int| self.regions@[i].1)
    }

    /// The arena: all payloads, concatenated in rewrite order.
    pub closed spec fn arena(&self) -> Seq<T> {
        self.data@
    }

    /// Well-formedness: the payload slices partition the arena
    /// contiguously in rewrite order, target regions fit the machine, and
    /// their offsets strictly increase.  Every delta built through the
    /// public operations satisfies this.
    pub open spec fn wf(&self) -> bool {
        let n = self.slices().len();
        &&& forall|i: int|
            0 <= i < n ==> (#[trigger] self.slices()[i]).offset == if i == 0 {
                0int
            } else {
                self.slices()[i - 1].spec_end()
            }
        &&& forall|i: int| 0 <= i < n ==> (#[trigger] self.slices()[i]).spec_end() <= self.arena().len()
        &&& (n > 0 ==> self.slices()[n - 1].spec_end() == self.arena().len())
        &&& (n == 0 ==> self.arena().len() == 0)
        &&& forall|i: int|
            0 <= i < n - 1 ==> (#[trigger] self.targets()[i]).offset < self.targets()[i + 1].offset
    }

    /// The rewrites are pairwise non-overlapping and non-adjacent: each
    /// target region ends strictly before the next begins.  This holds of
    /// every delta grown by `push_raw` alone.
    pub open spec fn well_ordered(&self) -> bool {
        forall|i: int|
            0 <= i < self@.len() - 1 ==> (#[trigger] self@[i].0).spec_strictly_before(
                self@[i + 1].0,
            )
    }

    /// How the view relates to the delta's parts: entry `i` pairs target
    /// region `i` with the slice of the arena described by payload region
    /// `i`.
    pub proof fn lemma_view_entries(&self)
        ensures
            self@.len() == self.targets().len() == self.slices().len(),
            forall|i: int| 0 <= i < self@.len() ==> (#[trigger] self@[i]).0 == self.targets()[i],
            forall|i: int|
                0 <= i < self@.len() ==> (#[trigger] self@[i]).1 == self.arena().subrange(
                    self.slices()[i].offset as int,
                    self.slices()[i].spec_end(),
                ),
    {
    }

    /// Delta ordering: in a well-ordered delta the target regions of any
    /// two rewrites `i < j` are strictly disjoint, with a gap of at least
    /// one position between them.
    pub proof fn lemma_delta_ordering(&self)
        requires
            self.well_ordered(),
        ensures
            forall|i: int, j: int|
                0 <= i < j < self@.len() ==> (#[trigger] self@[i].0).spec_strictly_before(
                    #[trigger] self@[j].0,
                ),
    {
        let n = self@.len() as int;
        assert forall|i: int, j: int|
            0 <= i < j < n implies (#[trigger] self@[i].0).spec_strictly_before(
            #[trigger] self@[j].0,
        ) by {
            self.lemma_ordering_step(i, j);
        }
    }

    proof fn lemma_ordering_step(&self, i: int, j: int)
        requires
            self.well_ordered(),
            0 <= i < j < self@.len(),
        ensures
            self@[i].0.spec_strictly_before(self@[j].0),
        decreases j - i,
    {
        if j == i + 1 {
        } else {
            self.lemma_ordering_step(i, j - 1);
        }
    }

    /// The payload slices partition `[0, |arena|)` contiguously in
    /// rewrite order.
    pub proof fn lemma_arena_partition(&self)
        requires
            self.wf(),
        ensures
            self.slices().len() == self@.len(),
            forall|i: int|
                0 <= i < self@.len() ==> (#[trigger] self.slices()[i]).offset == if i == 0 {
                    0int
                } else {
                    self.slices()[i - 1].spec_end()
                },
            self@.len() > 0 ==> self.slices()[self@.len() - 1].spec_end() == self.arena().len(),
            self@.len() == 0 ==> self.arena().len() == 0,
    {
    }

    /// Construct an empty `VecDelta`.
    pub fn new() -> (r: Self)
        ensures
            r.wf(),
            r.well_ordered(),
            r@ == Seq::<(Region, Seq<T>)>::empty(),
    {
        let r = VecDelta { regions: Vec::new(), data: Vec::new() };
        proof {
            assert(r@ =~= Seq::<(Region, Seq<T>)>::empty());
        }
        r
    }

    /// Get the number of atomic rewrites represented by this delta.
    pub fn len(&self) -> (n: usize)
        ensures
            n == self@.len(),
    {
        self.regions.len()
    }

    /// Check whether this delta contains any rewrites or not.
    pub fn is_empty(&self) -> (r: bool)
        ensures
            r == (self@.len() == 0),
    {
        self.regions.len() == 0
    }

    /// Get the `ith` rewrite contained within this `VecDelta`.  This
    /// returns a `SliceRewrite` which refers to data held internally
    /// within this `VecDelta`; when `ith` is out of bounds, `None` is
    /// returned instead.
    #[verifier::rlimit(30)]
    pub fn get(&self, ith: usize) -> (r: Option<SliceRewrite<T>>)
        requires
            self.wf(),
        ensures
            r is Some <==> ith < self@.len(),
            r matches Some(rw) ==> rw.region == self@[ith as int].0 && rw.data@
                == self@[ith as int].1,
    {
        if ith < self.regions.len() {
            let (r1, r2) = self.regions[ith];
            let total = self.data.len();
            proof {
                assert(self.slices()[ith as int] == r2);
                assert(r2.spec_end() <= total);
                assert(self@[ith as int].0 == r1);
            }
            let data = slice_subrange(self.data.as_slice(), r2.offset, r2.offset + r2.length);
            Some(Rewrite::new(r1, data))
        } else {
            None
        }
    }
}

/// An iterator over the rewrites of a [`VecDelta`], yielding views in
/// order.  It borrows the delta alone, so a mutable target can be
/// rewritten while views are out, and iteration can be restarted by
/// asking for a fresh iterator.
pub struct DeltaIterator<'a, T> {
    /// The delta being iterated.
    delta: &'a VecDelta<T>,
    /// Position of the next rewrite.
    index: usize,
}

impl<'a, T> DeltaIterator<'a, T> {
    /// The delta being iterated.
    pub closed spec fn spec_delta(&self) -> VecDelta<T> {
        *self.delta
    }

    /// The position of the next rewrite to be yielded.
    pub closed spec fn spec_index(&self) -> int {
        self.index as int
    }

    /// Yield a view of the next rewrite, in order, or `None` once every
    /// rewrite has been seen.
    pub fn next(&mut self) -> (r: Option<SliceRewrite<'a, T>>)
        requires
            old(self).spec_delta().wf(),
        ensures
            final(self).spec_delta() == old(self).spec_delta(),
            r is Some <==> old(self).spec_index() < old(self).spec_delta()@.len(),
            r matches Some(rw) ==> {
                &&& rw.region == old(self).spec_delta()@[old(self).spec_index()].0
                &&& rw.data@ == old(self).spec_delta()@[old(self).spec_index()].1
                &&& final(self).spec_index() == old(self).spec_index() + 1
            },
            r is None ==> final(self).spec_index() == old(self).spec_index(),
    {
        let n = self.delta.len();
        match self.delta.get(self.index) {
            Some(rw) => {
                proof {
                    assert(self.index < n);
                }
                self.index = self.index + 1;
                Some(rw)
            },
            None => None,
        }
    }
}

impl<T> VecDelta<T> {
    /// Construct an iterator over the rewrites contained within this
    /// delta, in order.
    pub fn iter(&self) -> (r: DeltaIterator<T>)
        ensures
            r.spec_delta() == *self,
            r.spec_index() == 0,
    {
        DeltaIterator { delta: self, index: 0 }
    }
}

impl<T: Copy> VecDelta<T> {
    /// Append a rewrite whose target offset lies beyond every earlier
    /// one.  This is the internal grower: it keeps the delta well-formed,
    /// but leaves the stronger non-adjacency of `push_raw` to its caller.
    #[verifier::rlimit(60)]
    pub(crate) fn push_entry(&mut self, offset: usize, length: usize, data: &[T])
        requires
            old(self).wf(),
            old(self)@.len() > 0 ==> old(self)@[old(self)@.len() - 1].0.offset < offset,
        ensures
            final(self).wf(),
            final(self)@ == old(self)@.push((Region { offset, length }, data@)),
            old(self).well_ordered() && (old(self)@.len() > 0 ==> old(self)@[old(self)@.len()
                - 1].0.spec_end() < offset) ==> final(self).well_ordered(),
    {
        let region = Region::new(offset, length);
        let data_start = self.data.len();
        let mut i: usize = 0;
        while i < data.len()
            invariant
                i <= data@.len(),
                self.regions == old(self).regions,
                self.data@ == old(self).data@ + data@.take(i as int),
            decreases data@.len() - i,
        {
            self.data.push(data[i]);
            i = i + 1;
        }
        let ghost slice = Region { offset: data_start, length: data@.len() as usize };
        self.regions.push((region, Region::new(data_start, data.len())));
        proof {
            let n = old(self)@.len() as int;
            assert(data@.take(data@.len() as int) =~= data@);
            assert(self.arena() =~= old(self).arena() + data@);
            assert(self.slices() =~= old(self).slices().push(slice));
            assert(self.targets() =~= old(self).targets().push(region));
            assert(self@ =~= old(self)@.push((region, data@))) by {
                assert forall|j: int| 0 <= j < n implies self@[j] == old(self)@[j] by {
                    assert(self.regions@[j] == old(self).regions@[j]);
                    assert(old(self).slices()[j].spec_end() <= old(self).data@.len());
                    assert(self.data@.subrange(
                        self.regions@[j].1.offset as int,
                        self.regions@[j].1.offset + self.regions@[j].1.length,
                    ) =~= old(self).data@.subrange(
                        old(self).regions@[j].1.offset as int,
                        old(self).regions@[j].1.offset + old(self).regions@[j].1.length,
                    ));
                }
                assert(self@[n].1 =~= data@);
            }
            assert(self.wf()) by {
                assert forall|i: int| 0 <= i < n + 1 implies (#[trigger] self.slices()[i]).offset
                    == (if i == 0 { 0int } else { self.slices()[i - 1].spec_end() }) by {
                    if i < n {
                        assert(self.slices()[i] == old(self).slices()[i]);
                    } else {
                        assert(self.slices()[i] == slice);
                    }
                }
                assert(self.slices()[n].spec_end() == self.arena().len());
                assert forall|i: int| 0 <= i < n + 1 implies (#[trigger] self.slices()[i]).spec_end()
                    <= self.arena().len() by {
                    if i < n {
                        assert(old(self).slices()[i].spec_end() <= old(self).arena().len());
                    }
                }
            }
            if old(self).well_ordered() && (n > 0 ==> old(self)@[n - 1].0.spec_end()
                < region.offset) {
                assert forall|i: int| 0 <= i < self@.len() - 1 implies (
                #[trigger] self@[i].0).spec_strictly_before(self@[i + 1].0) by {
                    if i + 1 < n {
                        assert(old(self)@[i].0.spec_strictly_before(old(self)@[i + 1].0));
                    }
                }
            }
        }
    }

    /// Append a new rewrite onto the end of this delta.  This requires
    /// that the rewrite logically follows all other rewrites, and is
    /// strictly disjoint from them: its target range must begin beyond
    /// the end of the last rewrite's target region, with a gap of at
    /// least one position.
    pub fn push_raw(&mut self, range: core::ops::Range<usize>, data: &[T])
        requires
            old(self).wf(),
            old(self).well_ordered(),
            range.start <= range.end,
            old(self)@.len() > 0 ==> old(self)@[old(self)@.len() - 1].0.spec_end() < range.start,
        ensures
            final(self).wf(),
            final(self).well_ordered(),
            final(self)@ == old(self)@.push(
                (Region { offset: range.start, length: (range.end - range.start) as usize }, data@),
            ),
    {
        self.push_entry(range.start, range.end - range.start, data);
    }

    /// Apply this delta to a given `Vec`, thus transforming it.  The
    /// rewrites are applied in order; if one of them reaches past the end
    /// of the vector at its point of application, the rewrites before it
    /// remain applied and `MalformedDelta` is returned.
    pub fn transform(&self, vec: &mut Vec<T>) -> (r: Result<(), TransformError>)
        requires
            self.wf(),
        ensures
            final(vec)@ == spec_apply(self@, old(vec)@),
            r is Ok <==> spec_applies(self@, old(vec)@),
            r is Err ==> r == Err::<(), TransformError>(TransformError::MalformedDelta),
    {
        let n = self.regions.len();
        let mut i: usize = 0;
        while i < n
            invariant
                i <= n == self@.len(),
                self.wf(),
                spec_applies(self@.take(i as int), old(vec)@),
                vec@ == spec_apply(self@.take(i as int), old(vec)@),
            decreases n - i,
        {
            let (r1, r2) = self.regions[i];
            proof {
                assert(self.targets()[i as int] == r1);
                assert(self.slices()[i as int] == r2);
                assert(r2.spec_end() <= self.arena().len());
                assert(self@[i as int].0 == r1);
                assert(self@[i as int].1 == self.arena().subrange(
                    r2.offset as int,
                    r2.spec_end(),
                ));
                super::lemma_apply_push(self@.take(i as int), self@[i as int], old(vec)@);
                assert(self@.take(i as int).push(self@[i as int]) =~= self@.take(i + 1));
            }
            if r1.length > vec.len() || r1.offset > vec.len() - r1.length {
                proof {
                    super::lemma_apply_stuck(self@, old(vec)@, i as int);
                }
                return Err(TransformError::MalformedDelta);
            }
            let total = self.data.len();
            proof {
                assert(r2.spec_end() <= total);
            }
            let data = slice_subrange(self.data.as_slice(), r2.offset, r2.offset + r2.length);
            splice(vec, r1, data);
            i = i + 1;
        }
        proof {
            assert(self@.take(n as int) =~= self@);
        }
        Ok(())
    }
}

} // verus!
