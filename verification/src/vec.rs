use crate::diff::{
    lemma_applies_decompose, lemma_apply_push, lemma_apply_stuck, spec_applies, spec_apply,
    Transform, TransformError, TryTransform,
};
use crate::region::Region;
use crate::seq::splice;
use vstd::prelude::*;

verus! {

/// An atomic action applied to a `Vec<T>`, such as replacing one region
/// by another or inserting one or more items, etc.
#[derive(Clone, Debug)]
pub struct Rewrite<T> {
    /// Portion of `Vec<T>` being replaced.
    pub region: Region,
    /// Data being used for replacement.
    pub data: Vec<T>,
}

impl<T> View for Rewrite<T> {
    type V = (Region, Seq<T>);

    /// A rewrite is viewed as its target region paired with its payload.
    open spec fn view(&self) -> (Region, Seq<T>) {
        (self.region, self.data@)
    }
}

impl<T> Rewrite<T> {
    pub fn new(region: Region, data: Vec<T>) -> (r: Self)
        ensures
            r.region == region,
            r.data == data,
    {
        Rewrite { region, data }
    }

    /// Map this rewrite to another rewrite of a different type.  This is
    /// useful when applying rewrites to structures which include
    /// meta-data.
    pub fn map<S, F: Fn(&T) -> S>(&self, func: F) -> (r: Rewrite<S>)
        requires
            forall|i: int| 0 <= i < self.data@.len() ==> func.requires((&self.data@[i],)),
        ensures
            r.region == self.region,
            r.data@.len() == self.data@.len(),
            forall|i: int|
                0 <= i < self.data@.len() ==> func.ensures((&self.data@[i],), #[trigger] r.data@[i]),
    {
        let mut data: Vec<S> = Vec::new();
        let n = self.data.len();
        let mut i: usize = 0;
        while i < n
            invariant
                i <= n == self.data@.len(),
                forall|k: int| 0 <= k < self.data@.len() ==> func.requires((&self.data@[k],)),
                data@.len() == i,
                forall|k: int|
                    0 <= k < i ==> func.ensures((&self.data@[k],), #[trigger] data@[k]),
            decreases n - i,
        {
            data.push(func(&self.data[i]));
            i = i + 1;
        }
        Rewrite { region: self.region, data }
    }
}

/// A set of zero or more rewrites which can be applied atomically to
/// transform a vector.  The rewrites are applied in the order they were
/// added.
#[derive(Clone, Debug)]
pub struct Delta<T> {
    /// List of rewrites, in order of addition.
    rewrites: Vec<Rewrite<T>>,
}

impl<T> View for Delta<T> {
    type V = Seq<(Region, Seq<T>)>;

    /// A delta is viewed as its ordered list of rewrites, each a target
    /// region paired with the payload that replaces it.
    closed spec fn view(&self) -> Seq<(Region, Seq<T>)> {
        Seq::new(self.rewrites@.len(), |i: int| self.rewrites@[i]@)
    }
}

impl<T> Delta<T> {
    /// Add a further rewrite, replacing `range` with `data`, after every
    /// rewrite already present.
    pub fn and_replace(&mut self, range: core::ops::Range<usize>, data: Vec<T>)
        requires
            range.start <= range.end,
        ensures
            final(self)@ == old(self)@.push(
                (Region { offset: range.start, length: (range.end - range.start) as usize }, data@),
            ),
    {
        let region = Region::from_range(range);
        let ghost entry = (region, data@);
        self.rewrites.push(Rewrite::new(region, data));
        proof {
            assert(final(self)@ =~= old(self)@.push(entry));
        }
    }

    /// The rewrites contained within this delta, in application order.
    pub fn iter(&self) -> (r: &Vec<Rewrite<T>>)
        ensures
            r@.len() == self@.len(),
            forall|i: int| 0 <= i < self@.len() ==> (#[trigger] r@[i])@ == self@[i],
    {
        &self.rewrites
    }
}

/// Construct a delta which inserts a given range of elements at a given
/// point in the vector.
pub fn insert<T>(index: usize, data: Vec<T>) -> (d: Delta<T>)
    ensures
        d@ == seq![(Region { offset: index, length: 0 }, data@)],
{
    let ghost entry = (Region { offset: index, length: 0 }, data@);
    let rw = Rewrite::new(Region::new(index, 0), data);
    let d = Delta { rewrites: vec![rw] };
    proof {
        assert(d@ =~= seq![entry]);
    }
    d
}

/// Construct a delta which replaces a given range of elements with
/// another sequence of zero or more items.
pub fn replace<T>(range: core::ops::Range<usize>, data: Vec<T>) -> (d: Delta<T>)
    requires
        range.start <= range.end,
    ensures
        d@ == seq![
            (Region { offset: range.start, length: (range.end - range.start) as usize }, data@),
        ],
{
    let region = Region::from_range(range);
    let ghost entry = (region, data@);
    let rw = Rewrite::new(region, data);
    let d = Delta { rewrites: vec![rw] };
    proof {
        assert(d@ =~= seq![entry]);
    }
    d
}

/// Construct a delta which removes one or more elements from the vector.
pub fn remove<T>(range: core::ops::Range<usize>) -> (d: Delta<T>)
    requires
        range.start <= range.end,
    ensures
        d@ == seq![
            (
                Region { offset: range.start, length: (range.end - range.start) as usize },
                Seq::<T>::empty(),
            ),
        ],
{
    let region = Region::from_range(range);
    let rw = Rewrite::new(region, Vec::new());
    let d = Delta { rewrites: vec![rw] };
    proof {
        assert(d@ =~= seq![(region, Seq::<T>::empty())]);
    }
    d
}

impl<T: Copy> Transform for Vec<T> {
    type Delta = Delta<T>;

    /// Every rewrite must fit the vector at its point of application.
    open spec fn transform_pre(&self, d: &Delta<T>) -> bool {
        spec_applies(d@, self@)
    }

    fn transform(&mut self, d: &Delta<T>)
        ensures
            final(self)@ == spec_apply(d@, old(self)@),
    {
        let n = d.rewrites.len();
        let mut i: usize = 0;
        while i < n
            invariant
                i <= n == d@.len(),
                spec_applies(d@, old(self)@),
                spec_applies(d@.take(i as int), old(self)@),
                self@ == spec_apply(d@.take(i as int), old(self)@),
            decreases n - i,
        {
            let rw = &d.rewrites[i];
            proof {
                assert(rw@ == d@[i as int]);
                lemma_applies_decompose(d@, old(self)@, i as int);
                assert(d@.skip(i as int)[0] == d@[i as int]);
                lemma_apply_push(d@.take(i as int), d@[i as int], old(self)@);
                assert(d@.take(i as int).push(d@[i as int]) =~= d@.take(i + 1));
            }
            splice(self, rw.region, rw.data.as_slice());
            i = i + 1;
        }
        proof {
            assert(d@.take(n as int) =~= d@);
        }
    }
}

impl<T: Copy> TryTransform for Vec<T> {
    type Delta = Delta<T>;

    type Error = TransformError;

    /// Any delta may be attempted; one that does not fit is reported.
    open spec fn try_transform_pre(&self, d: &Delta<T>) -> bool {
        true
    }

    /// Apply `d`, checking each rewrite as it is met.  If one of them
    /// reaches past the end of the vector at its point of application,
    /// the rewrites before it remain applied and `OutOfRange` is
    /// returned.
    fn try_transform(&mut self, d: &Delta<T>) -> (r: Result<(), TransformError>)
        ensures
            final(self)@ == spec_apply(d@, old(self)@),
            r is Ok <==> spec_applies(d@, old(self)@),
            r is Err ==> r == Err::<(), TransformError>(TransformError::OutOfRange),
    {
        let n = d.rewrites.len();
        let mut i: usize = 0;
        while i < n
            invariant
                i <= n == d@.len(),
                spec_applies(d@.take(i as int), old(self)@),
                self@ == spec_apply(d@.take(i as int), old(self)@),
            decreases n - i,
        {
            let rw = &d.rewrites[i];
            proof {
                assert(rw@ == d@[i as int]);
                lemma_apply_push(d@.take(i as int), d@[i as int], old(self)@);
                assert(d@.take(i as int).push(d@[i as int]) =~= d@.take(i + 1));
            }
            if rw.region.length > self.len() || rw.region.offset > self.len() - rw.region.length {
                proof {
                    lemma_apply_stuck(d@, old(self)@, i as int);
                }
                return Err(TransformError::OutOfRange);
            }
            splice(self, rw.region, rw.data.as_slice());
            i = i + 1;
        }
        proof {
            assert(d@.take(n as int) =~= d@);
        }
        Ok(())
    }
}

} // verus!
