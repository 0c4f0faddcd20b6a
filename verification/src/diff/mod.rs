mod rewrite;
mod slice;
mod vec_delta;

pub use rewrite::{Rewrite, SliceRewrite, VecRewrite};
pub use slice::{
    diff, extract_spec, increasing_mapping, lcs_len, lcs_map, lemma_diff_apply_round_trip,
    lemma_lcs_len_bounds, lemma_lcs_map_props, lemma_self_diff_empty, longest_common_subsequence,
    spec_diff,
    valid_mapping,
};
pub use vec_delta::{DeltaIterator, VecDelta};

use crate::region::Region;
use crate::seq::spec_splice;
use vstd::prelude::*;

verus! {

/// Error returned when a delta is applied to a sequence it does not fit.
#[derive(Clone, Copy, PartialEq, Eq, Structural, Debug)]
pub enum TransformError {
    /// A rewrite of a [`VecDelta`] reached past the end of the target at
    /// the point of application.
    MalformedDelta,
    /// A rewrite region of a rewrite-list delta reached past the end of
    /// the target at the point of application.
    OutOfRange,
}

/// Every rewrite of `entries` (a target region paired with its replacement
/// payload), applied in order to `s`, fits the sequence it meets.
pub open spec fn spec_applies<T>(entries: Seq<(Region, Seq<T>)>, s: Seq<T>) -> bool
    decreases entries.len(),
{
    entries.len() == 0 || {
        &&& entries[0].0.spec_end() <= s.len()
        &&& spec_applies(entries.skip(1), spec_splice(s, entries[0].0, entries[0].1))
    }
}

/// Apply the rewrites of `entries` to `s` from left to right, stopping
/// before the first rewrite that does not fit.
pub open spec fn spec_apply<T>(entries: Seq<(Region, Seq<T>)>, s: Seq<T>) -> Seq<T>
    decreases entries.len(),
{
    if entries.len() == 0 {
        s
    } else if entries[0].0.spec_end() > s.len() {
        s
    } else {
        spec_apply(entries.skip(1), spec_splice(s, entries[0].0, entries[0].1))
    }
}

/// Appending a rewrite to a delta that fits `s` applies it last: the new
/// rewrite must fit the fully rewritten sequence, which it then splices.
pub proof fn lemma_apply_push<T>(entries: Seq<(Region, Seq<T>)>, e: (Region, Seq<T>), s: Seq<T>)
    requires
        spec_applies(entries, s),
    ensures
        spec_applies(entries.push(e), s) <==> e.0.spec_end() <= spec_apply(entries, s).len(),
        e.0.spec_end() <= spec_apply(entries, s).len() ==> spec_apply(entries.push(e), s)
            == spec_splice(spec_apply(entries, s), e.0, e.1),
    decreases entries.len(),
{
    if entries.len() == 0 {
        assert(entries.push(e)[0] == e);
        assert(entries.push(e).skip(1) =~= Seq::<(Region, Seq<T>)>::empty());
        assert(spec_apply(entries, s) == s);
        assert(spec_applies(entries.push(e).skip(1), spec_splice(s, e.0, e.1)));
        if e.0.spec_end() <= s.len() {
            assert(spec_apply(entries.push(e), s) == spec_apply(
                entries.push(e).skip(1),
                spec_splice(s, e.0, e.1),
            ));
            assert(spec_apply(entries.push(e).skip(1), spec_splice(s, e.0, e.1)) == spec_splice(
                s,
                e.0,
                e.1,
            ));
        }
    } else {
        let e0 = entries[0];
        let s1 = spec_splice(s, e0.0, e0.1);
        assert(entries.push(e)[0] == e0);
        assert(entries.push(e).skip(1) =~= entries.skip(1).push(e));
        assert(spec_applies(entries.skip(1), s1));
        lemma_apply_push(entries.skip(1), e, s1);
        assert(spec_apply(entries, s) == spec_apply(entries.skip(1), s1));
        assert(spec_applies(entries.push(e), s) <==> spec_applies(entries.skip(1).push(e), s1));
    }
}

/// A delta that fits `s` can be applied in two stages: first the rewrites
/// before position `i`, then the rest, picking up from the sequence the
/// first stage produced.
pub proof fn lemma_applies_decompose<T>(entries: Seq<(Region, Seq<T>)>, s: Seq<T>, i: int)
    requires
        0 <= i <= entries.len(),
        spec_applies(entries, s),
    ensures
        spec_applies(entries.take(i), s),
        spec_applies(entries.skip(i), spec_apply(entries.take(i), s)),
        spec_apply(entries, s) == spec_apply(entries.skip(i), spec_apply(entries.take(i), s)),
    decreases i,
{
    if i == 0 {
        assert(entries.take(0) =~= Seq::<(Region, Seq<T>)>::empty());
        assert(entries.skip(0) =~= entries);
    } else {
        let e0 = entries[0];
        let s1 = spec_splice(s, e0.0, e0.1);
        assert(entries.take(i)[0] == e0);
        assert(entries.take(i).skip(1) =~= entries.skip(1).take(i - 1));
        assert(entries.skip(i) =~= entries.skip(1).skip(i - 1));
        lemma_applies_decompose(entries.skip(1), s1, i - 1);
    }
}

/// When the rewrites before position `i` fit `s` but rewrite `i` reaches
/// past the end of the sequence they produce, application stops there:
/// the delta as a whole does not apply, and rewrites from `i` on change
/// nothing.
pub proof fn lemma_apply_stuck<T>(entries: Seq<(Region, Seq<T>)>, s: Seq<T>, i: int)
    requires
        0 <= i < entries.len(),
        spec_applies(entries.take(i), s),
        entries[i].0.spec_end() > spec_apply(entries.take(i), s).len(),
    ensures
        spec_apply(entries, s) == spec_apply(entries.take(i), s),
        !spec_applies(entries, s),
    decreases i,
{
    if i == 0 {
        assert(entries.take(0) =~= Seq::<(Region, Seq<T>)>::empty());
    } else {
        let e0 = entries[0];
        assert(entries.take(i)[0] == e0);
        let s1 = spec_splice(s, e0.0, e0.1);
        assert(entries.take(i).skip(1) =~= entries.skip(1).take(i - 1));
        assert(entries.skip(1)[i - 1] == entries[i]);
        lemma_apply_stuck(entries.skip(1), s1, i - 1);
    }
}

/// Two deltas with the same target regions and payload lengths apply in
/// step: they fit same-length sequences alike, and leave results of
/// equal length.
pub proof fn lemma_apply_parallel<A, B>(
    e1: Seq<(Region, Seq<A>)>,
    e2: Seq<(Region, Seq<B>)>,
    s1: Seq<A>,
    s2: Seq<B>,
)
    requires
        e1.len() == e2.len(),
        forall|i: int|
            0 <= i < e1.len() ==> (#[trigger] e1[i]).0 == (#[trigger] e2[i]).0 && e1[i].1.len()
                == e2[i].1.len(),
        s1.len() == s2.len(),
    ensures
        spec_applies(e1, s1) == spec_applies(e2, s2),
        spec_apply(e1, s1).len() == spec_apply(e2, s2).len(),
    decreases e1.len(),
{
    if e1.len() > 0 {
        assert(e1[0].0 == e2[0].0);
        if e1[0].0.spec_end() <= s1.len() {
            let t1 = spec_splice(s1, e1[0].0, e1[0].1);
            let t2 = spec_splice(s2, e2[0].0, e2[0].1);
            assert(t1.len() == t2.len());
            assert forall|i: int|
                0 <= i < e1.skip(1).len() implies (#[trigger] e1.skip(1)[i]).0 == (
            #[trigger] e2.skip(1)[i]).0 && e1.skip(1)[i].1.len() == e2.skip(1)[i].1.len() by {
                assert(e1.skip(1)[i] == e1[i + 1]);
                assert(e2.skip(1)[i] == e2[i + 1]);
            }
            lemma_apply_parallel(e1.skip(1), e2.skip(1), t1, t2);
        }
    }
}

/// A trait capturing the notion of a type where a _delta_ can be computed
/// between two of its items.  For example, given `a1 = [0, 1, 2]` and
/// `a2 = [1, 1, 2]`, we could compute a delta `d` such that `a1 == a2`
/// after `a1.transform(d)`.  Observe that the delta has an _orientation_:
/// it goes from _this_ item to the _other_.
pub trait Diff {
    /// Represents a delta computed by diffing two values of this type.
    type Delta;

    /// When a diff between `self` and `other` may be computed; verified
    /// implementations state their precondition here.
    open spec fn diff_pre(&self, other: &Self) -> bool {
        true
    }

    /// Compute a diff between this item and another, yielding a delta `d`
    /// such that `this.transform(d) == other` holds.
    fn diff(&self, other: &Self) -> Self::Delta
        requires
            self.diff_pre(other),
    ;
}

/// A trait describing something which can be _transformed_ in place by
/// applying a _delta_.  For example, an array `[0, 1, 2]` can be
/// transformed into another `[3, 1, 2]` by applying a delta which assigns
/// element `0` to `3`.  The receiver is modified in place.
pub trait Transform {
    /// Represents a delta between two values of this type.
    type Delta;

    /// When `d` may be applied to `self`; verified implementations state
    /// their precondition here.
    open spec fn transform_pre(&self, d: &Self::Delta) -> bool {
        true
    }

    /// Apply a given delta to this transformable item, yielding a
    /// potentially updated version of this item.
    fn transform(&mut self, d: &Self::Delta)
        requires
            old(self).transform_pre(d),
    ;
}

/// The fallible flavour of [`Transform`]: applying the delta may fail with
/// an error, for instance when a derived structure can no longer be kept
/// consistent with the rewritten sequence.
pub trait TryTransform: Sized {
    /// Represents a delta between two values of this type.
    type Delta;

    /// Represents an error arising if the transform fails.
    type Error;

    /// When `d` may be applied to `self`; verified implementations state
    /// their precondition here.
    open spec fn try_transform_pre(&self, d: &Self::Delta) -> bool {
        true
    }

    /// Apply a given delta to this transformable item, yielding a
    /// potentially updated version of this item.
    fn try_transform(&mut self, d: &Self::Delta) -> Result<(), Self::Error>
        requires
            old(self).try_transform_pre(d),
    ;
}

} // verus!
