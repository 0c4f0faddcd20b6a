use vstd::prelude::*;

verus! {

/// Associates a given item with a linear region of some sequence.
#[derive(Debug)]
pub struct Span<T> {
    /// The item being associated by this span.
    pub item: T,
    /// Identifies the (half open) region in the sequence.
    pub region: core::ops::Range<usize>,
}

/// A data structure which provides a linearisation of an _underlying
/// sequence_.  For example, we can divide a sequence (e.g. characters)
/// up into non-overlapping segments (e.g. lines).
pub struct Linear<T> {
    /// Internal vector which stores concrete items.
    items: Vec<Span<T>>,
}

/// The spans are laid out left to right: each covers a well-formed
/// region, and no region reaches into the one after it.
pub open spec fn spans_ordered<T>(spans: Seq<Span<T>>) -> bool {
    &&& forall|i: int|
        0 <= i < spans.len() ==> (#[trigger] spans[i]).region.start <= spans[i].region.end
    &&& forall|i: int|
        0 <= i < spans.len() - 1 ==> (#[trigger] spans[i]).region.end <= spans[i + 1].region.start
}

impl<T> Linear<T> {
    /// The spans of this linearisation, in order.
    pub closed spec fn spans(&self) -> Seq<Span<T>> {
        self.items@
    }

    /// Every linearisation is built over ordered spans.
    pub open spec fn wf(&self) -> bool {
        spans_ordered(self.spans())
    }

    /// Construct a linearisation from spans laid out left to right.
    pub fn new(items: Vec<Span<T>>) -> (r: Self)
        requires
            spans_ordered(items@),
        ensures
            r.wf(),
            r.spans() == items@,
    {
        Linear { items }
    }

    /// The number of spans in this linearisation.
    pub fn len(&self) -> (n: usize)
        ensures
            n == self.spans().len(),
    {
        self.items.len()
    }

    /// Get the span at a given position in this linearisation.
    pub fn get(&self, index: usize) -> (r: &Span<T>)
        requires
            index < self.spans().len(),
        ensures
            *r == self.spans()[index as int],
    {
        &self.items[index]
    }

    /// Spans at a distance stay ordered: an earlier span ends at or
    /// before a later span starts.
    proof fn lemma_span_order(&self, i: int, j: int)
        requires
            self.wf(),
            0 <= i < j < self.spans().len(),
        ensures
            self.spans()[i].region.end <= self.spans()[j].region.start,
        decreases j - i,
    {
        if j > i + 1 {
            self.lemma_span_order(i, j - 1);
        }
    }

    /// Get the span enclosing a given index in the underlying sequence
    /// (or none if nothing encloses that position).
    pub fn get_enclosing(&self, index: usize) -> (r: Option<&Span<T>>)
        requires
            self.wf(),
        ensures
            r matches Some(s) ==> {
                &&& exists|i: int| 0 <= i < self.spans().len() && *s == self.spans()[i]
                &&& s.region.start <= index < s.region.end
            },
            r is None ==> forall|i: int|
                0 <= i < self.spans().len() ==> !((#[trigger] self.spans()[i]).region.start <= index
                    < self.spans()[i].region.end),
    {
        // Binary search, basically.
        let n = self.items.len();
        let mut lo: usize = 0;
        let mut hi: usize = n;
        while lo < hi
            invariant
                self.wf(),
                n == self.spans().len(),
                lo <= hi <= n,
                forall|i: int| 0 <= i < lo ==> (#[trigger] self.spans()[i]).region.end <= index,
                forall|i: int| hi <= i < n ==> index < (#[trigger] self.spans()[i]).region.start,
            decreases hi - lo,
        {
            let mid = lo + (hi - lo) / 2;
            let s = &self.items[mid];
            if s.region.end <= index {
                proof {
                    assert forall|i: int| 0 <= i < mid + 1 implies (
                    #[trigger] self.spans()[i]).region.end <= index by {
                        if i < mid {
                            self.lemma_span_order(i, mid as int);
                        }
                    }
                }
                lo = mid + 1;
            } else if index < s.region.start {
                proof {
                    assert forall|i: int| mid <= i < n implies index < (
                    #[trigger] self.spans()[i]).region.start by {
                        if i > mid {
                            self.lemma_span_order(mid as int, i);
                        }
                    }
                }
                hi = mid;
            } else {
                proof {
                    let ms = self.spans()[mid as int];
                    assert(ms.region.start <= index < ms.region.end);
                }
                return Some(s);
            }
        }
        None
    }
}

} // verus!
