use crate::region::Region;
use core::marker::PhantomData;
use vstd::prelude::*;

verus! {

/// Describes an _atomic rewrite_ of some source array (slice, `Vec`,
/// etc).  Specifically, a region in the source array is replaced by a new
/// sequence.  Observe that this region may be larger or smaller than the
/// original region.  The following illustrates:
///
/// ```txt
///  0 1 2 3 4 5 6 7 8 9 A B
/// +-+-+-+-+-+-+-+-+-+-+-+-+
/// |H|e|L|L|L|O| |W|o|r|l|d|
/// +-+-+-+-+-+-+-+-+-+-+-+-+
///     | : : : |
///     +-------+
///         |
///        \|/
///      +-+-+-+
///      |l|l|o|
///      +-+-+-+
/// ```
///
/// The above illustrates the region "LLLO" from the original sequence
/// being replaced by "llo".  Thus, after applying the rewrite, we have
/// "Hello World".  This replacement is denoted as the triple
/// `(2;4;"llo")` which indicates the replacement begins at position `2`
/// and replaces `4` items from the original array with a given sequence
/// of zero or more items.
#[derive(PartialEq, Debug)]
pub struct Rewrite<S, T> {
    /// Portion of the target sequence being replaced.
    pub region: Region,
    /// Data being used for replacement.
    pub data: T,
    /// Zero-sized marker binding the item type `S`.
    pub dummy: PhantomData<S>,
}

impl<S, T> Rewrite<S, T> {
    pub fn new(region: Region, data: T) -> (r: Self)
        ensures
            r.region == region,
            r.data == data,
    {
        Rewrite { region, data, dummy: PhantomData }
    }
}

/// A rewrite which contains its data internally as a `Vec<T>`.
pub type VecRewrite<T> = Rewrite<T, Vec<T>>;

/// A rewrite which contains its data internally as a slice `&[T]`.  This
/// is useful when rewrites are encoded within an external data structure
/// (e.g. `VecDelta`) and we want temporary access to them (e.g. to
/// iterate over them).
pub type SliceRewrite<'a, T> = Rewrite<T, &'a [T]>;

} // verus!
