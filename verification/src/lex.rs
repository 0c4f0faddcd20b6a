use crate::diff::{lemma_apply_parallel, spec_applies, spec_apply, TryTransform, VecDelta};
use crate::region::Region;
use vstd::prelude::*;

verus! {

/// An abstract notion of a token which groups one or more items in an
/// underlying sequence together.
pub trait Span {
    /// The starting index of this token, as a mathematical value;
    /// verified implementations say which.
    open spec fn spec_start(&self) -> int {
        0
    }

    /// The last index of this token, as a mathematical value; verified
    /// implementations say which.
    open spec fn spec_end(&self) -> int {
        0
    }

    /// Get the starting index of this token in the underlying sequence.
    fn start(&self) -> (r: usize)
        ensures
            r == self.spec_start(),
    ;

    /// Get the last index of this token in the underlying sequence.
    /// Observe that tokens cannot be "zero sized", hence `start == end`
    /// represents a token of size one.
    fn end(&self) -> (r: usize)
        ensures
            r == self.spec_end(),
    ;
}

/// Represents something which maps one (or more) items from an
/// _underlying sequence_ to a given _token_ (or an error).  In essence,
/// we are "folding" one or more items into a single token (which, for
/// example, is a useful characterisation for lexers).
///
/// The challenge is that we don't know ahead of time how many items are
/// required for each token.  As such, the folding "consumes" some number
/// of items from the stream.  A tokeniser is a pure function of the
/// sequence and the index: `scan_spec` fixes what every scan returns.
pub trait Tokeniser: Sized {
    /// The type of items in the underlying sequence.
    type Input;

    /// The type of tokens produced by this tokeniser.
    type Output: Span;

    /// Identifies the kind of error which can arise during tokenisation.
    type Error;

    /// Which token, if any, begins at `index` of `seq`: `Some(end)`
    /// gives the last index of the token recognised there, `None` stands
    /// for an error.  Verified implementations say which; the contract
    /// of `scan` holds every implementation to it.
    open spec fn scan_spec(&self, seq: Seq<Self::Input>, index: int) -> Option<int> {
        None
    }

    /// Get the token starting at a given `index` in an underlying
    /// sequence.
    fn scan(&self, seq: &[Self::Input], index: usize) -> (r: Result<Self::Output, Self::Error>)
        requires
            index < seq@.len(),
        ensures
            r is Ok <==> self.scan_spec(seq@, index as int) is Some,
            r matches Ok(t) ==> {
                &&& t.spec_start() == index
                &&& self.scan_spec(seq@, index as int) == Some(t.spec_end())
                &&& index <= t.spec_end() < seq@.len()
            },
    ;
}

/// The token-start bitmap that scanning `items` from position `p`
/// onwards yields — `true` exactly at the positions where tokens begin —
/// or `None` when the tokeniser errs somewhere along the way.
pub open spec fn spec_run<T: Tokeniser>(t: &T, items: Seq<T::Input>, p: int) -> Option<Seq<bool>>
    decreases items.len() - p,
{
    if p >= items.len() {
        Some(Seq::empty())
    } else {
        match t.scan_spec(items, p) {
            None => None,
            Some(end) => if p <= end < items.len() {
                match spec_run(t, items, end + 1) {
                    None => None,
                    Some(rest) => Some(
                        seq![true] + Seq::new((end - p) as nat, |k: int| false) + rest,
                    ),
                }
            } else {
                None
            },
        }
    }
}

/// Position `q` begins a token when scanning forward from position `p`:
/// either it is `p` itself, or it lies beyond the token scanned at `p`
/// and begins one of the tokens after it.
pub open spec fn spec_token_start_from<T: Tokeniser>(
    t: &T,
    items: Seq<T::Input>,
    p: int,
    q: int,
) -> bool
    decreases q - p,
{
    if p == q {
        true
    } else if p > q {
        false
    } else {
        match t.scan_spec(items, p) {
            None => false,
            Some(end) => if p <= end && end + 1 <= q {
                spec_token_start_from(t, items, end + 1, q)
            } else {
                false
            },
        }
    }
}

/// In a bitmap scanned from `p`, position `q` is marked exactly when a
/// token begins there.
proof fn lemma_spec_run_marks_starts<T: Tokeniser>(t: &T, items: Seq<T::Input>, p: int, q: int)
    requires
        0 <= p <= q < items.len(),
        spec_run(t, items, p) is Some,
    ensures
        spec_run(t, items, p).unwrap()[q - p] == spec_token_start_from(t, items, p, q),
    decreases q - p,
{
    let s = spec_run(t, items, p).unwrap();
    let end = t.scan_spec(items, p).unwrap();
    let rest = spec_run(t, items, end + 1).unwrap();
    assert(s == seq![true] + Seq::new((end - p) as nat, |k: int| false) + rest);
    if q == p {
        assert(s[0]);
    } else if q <= end {
        assert(s[q - p] == Seq::new((end - p) as nat, |k: int| false)[q - p - 1]);
        assert(!s[q - p]);
    } else {
        lemma_spec_run_len(t, items, end + 1);
        assert(s[q - p] == rest[q - (end + 1)]);
        lemma_spec_run_marks_starts(t, items, end + 1, q);
    }
}

/// In a consistent run, every token start can itself be scanned: an
/// iteration that walks from token to token never meets an error
/// before the end of the sequence.
proof fn lemma_spec_run_covers<T: Tokeniser>(t: &T, items: Seq<T::Input>, p: int, q: int)
    requires
        0 <= p <= q < items.len(),
        spec_run(t, items, p) is Some,
        spec_token_start_from(t, items, p, q),
    ensures
        t.scan_spec(items, q) is Some,
    decreases q - p,
{
    if p < q {
        let end = t.scan_spec(items, p).unwrap();
        lemma_spec_run_covers(t, items, end + 1, q);
    }
}

/// A bitmap scanned from position `p` covers the positions `[p, |items|)`.
proof fn lemma_spec_run_len<T: Tokeniser>(t: &T, items: Seq<T::Input>, p: int)
    requires
        0 <= p <= items.len(),
        spec_run(t, items, p) is Some,
    ensures
        spec_run(t, items, p).unwrap().len() == items.len() - p,
    decreases items.len() - p,
{
    if p < items.len() {
        let end = t.scan_spec(items, p).unwrap();
        lemma_spec_run_len(t, items, end + 1);
    }
}

/// An iterator over the tokens of a sequence, scanning forward from
/// position zero with a tokeniser.
pub struct TokenIterator<'a, T: Tokeniser> {
    /// Slice of items to tokenise.
    items: &'a [T::Input],
    /// Current position within the slice.
    index: usize,
    /// Function responsible for tokenisation.
    tokeniser: &'a T,
}

impl<'a, T: Tokeniser> TokenIterator<'a, T> {
    /// The items being tokenised.
    pub closed spec fn spec_items(&self) -> Seq<T::Input> {
        self.items@
    }

    /// The position the next scan starts from.
    pub closed spec fn spec_index(&self) -> int {
        self.index as int
    }

    /// The tokeniser driving the iteration.
    pub closed spec fn spec_tokeniser(&self) -> T {
        *self.tokeniser
    }

    pub fn new(items: &'a [T::Input], tokeniser: &'a T) -> (r: TokenIterator<'a, T>)
        ensures
            r.spec_items() == items@,
            r.spec_index() == 0,
            r.spec_tokeniser() == *tokeniser,
    {
        TokenIterator { items, index: 0, tokeniser }
    }

    /// Scan the next token from the input sequence.  Tokens are
    /// contiguous: each one starts where the previous one ended, plus
    /// one.  A tokeniser error (or the end of the sequence) ends the
    /// iteration.
    pub fn next(&mut self) -> (r: Option<T::Output>)
        ensures
            final(self).spec_items() == old(self).spec_items(),
            final(self).spec_tokeniser() == old(self).spec_tokeniser(),
            r is Some <==> old(self).spec_index() < old(self).spec_items().len() && old(
                self,
            ).spec_tokeniser().scan_spec(old(self).spec_items(), old(self).spec_index()) is Some,
            r matches Some(t) ==> {
                &&& t.spec_start() == old(self).spec_index()
                &&& old(self).spec_tokeniser().scan_spec(
                    old(self).spec_items(),
                    old(self).spec_index(),
                ) == Some(t.spec_end())
                &&& old(self).spec_index() <= t.spec_end() < old(self).spec_items().len()
                &&& final(self).spec_index() == t.spec_end() + 1
            },
            r is None ==> final(self).spec_index() == old(self).spec_index(),
    {
        if self.index >= self.items.len() {
            return None;
        }
        match self.tokeniser.scan(self.items, self.index) {
            Ok(t) => {
                self.index = t.end() + 1;
                Some(t)
            },
            Err(_) => None,
        }
    }
}

/// Represents the results of a _lexical analysis_ of a sequence of items
/// (henceforth, the _underlying sequence_) into a sequence of _tokens_.
/// This is characterised as a _data structure_ (i.e. rather than a
/// _function_, which would be more common) to facilitate incremental
/// updates.  Since tokens can span multiple items in the underlying
/// sequence, managing incremental updates is non-trivial.  Furthermore,
/// there is a built-in assumption that tokenisation can fail (i.e. there
/// are sequences of items which do not map to any tokens).
///
/// For example, let's consider the common case of turning character
/// sequences into tokens (i.e. _lexing_ as performed by a compiler).
/// Suppose tokens are either _identifiers_ (i.e. sequences of alphabetic
/// characters), _numbers_ (i.e. sequences of numeric characters) or
/// _operators_ (e.g. braces).  Furthermore, not all characters map to
/// tokens, and thus lexing can fail with an error.  To manage
/// incremental updates efficiently the tokeniser internally maintains
/// meta-data which identifies token boundaries:
///
/// ```text
///         0 1 2 3 4 5 6 7 8 9
///         +-+-+-+-+-+-+-+-+-+-+
/// bytes:  |(|1|2|3|)|h|e|l|l|o|
///         +-+-+-+-+-+-+-+-+-+-+
///          | |     | |
///          | |     | |
///         +-+-+-+-+-+-+-+-+-+-+
/// starts: |*|*| | |*|*| | | | |
///         +-+-+-+-+-+-+-+-+-+-+
/// ```
///
/// Here we see the starting boundaries of each token identified by `*`
/// (which corresponds with `true`).
pub struct Tokenisation<T: Tokeniser> {
    /// The underlying sequence being (incrementally) tokenised.
    items: Vec<T::Input>,
    /// The underlying tokeniser which is responsible for turning inputs
    /// into outputs.
    tokeniser: T,
    /// Meta-data which identifies token boundaries.  More specifically,
    /// `true` indicates the corresponding item (in the underlying
    /// sequence) is the start of a token.
    starts: Vec<bool>,
}

impl<T: Tokeniser> Tokenisation<T> {
    /// The underlying sequence.
    pub closed spec fn spec_items(&self) -> Seq<T::Input> {
        self.items@
    }

    /// The tokeniser.
    pub closed spec fn spec_tokeniser(&self) -> T {
        self.tokeniser
    }

    /// The token-boundary bitmap.
    pub closed spec fn spec_starts(&self) -> Seq<bool> {
        self.starts@
    }

    /// Tokenisation consistency: the stored bitmap is exactly what
    /// scanning the stored sequence from scratch yields.
    pub open spec fn well_formed(&self) -> bool {
        spec_run(&self.spec_tokeniser(), self.spec_items(), 0) == Some(self.spec_starts())
    }

    /// Boundary meta-data reading: in a consistent tokenisation,
    /// `starts[i]` is true exactly when a token begins at position `i`
    /// of the underlying sequence, and every such position can be
    /// scanned — iterating from position zero yields tokens that cover
    /// `[0, |items|)` contiguously.
    pub proof fn lemma_starts_mark_token_starts(&self)
        requires
            self.well_formed(),
        ensures
            self.spec_starts().len() == self.spec_items().len(),
            forall|i: int|
                0 <= i < self.spec_items().len() ==> self.spec_starts()[i]
                    == spec_token_start_from(&self.spec_tokeniser(), self.spec_items(), 0, i),
            forall|i: int|
                0 <= i < self.spec_items().len() && self.spec_starts()[i]
                    ==> (#[trigger] self.spec_tokeniser().scan_spec(self.spec_items(), i)) is Some,
    {
        lemma_spec_run_len(&self.spec_tokeniser(), self.spec_items(), 0);
        assert forall|i: int| 0 <= i < self.spec_items().len() implies self.spec_starts()[i]
            == spec_token_start_from(&self.spec_tokeniser(), self.spec_items(), 0, i) by {
            lemma_spec_run_marks_starts(&self.spec_tokeniser(), self.spec_items(), 0, i);
        }
        assert forall|i: int|
            0 <= i < self.spec_items().len() && self.spec_starts()[i] implies (
        #[trigger] self.spec_tokeniser().scan_spec(self.spec_items(), i)) is Some by {
            lemma_spec_run_covers(&self.spec_tokeniser(), self.spec_items(), 0, i);
        }
    }

    /// Generate meta-data (i.e. `starts`) for this tokeniser from
    /// scratch.
    fn generate_starts(items: &Vec<T::Input>, tokeniser: &T) -> (r: Result<Vec<bool>, T::Error>)
        ensures
            r is Ok <==> spec_run(tokeniser, items@, 0) is Some,
            r matches Ok(s) ==> Some(s@) == spec_run(tokeniser, items@, 0),
    {
        let n = items.len();
        let mut starts: Vec<bool> = Vec::new();
        let mut k: usize = 0;
        while k < n
            invariant
                k <= n,
                starts@.len() == k,
                forall|t: int| 0 <= t < k ==> !(#[trigger] starts@[t]),
            decreases n - k,
        {
            starts.push(false);
            k = k + 1;
        }
        // Perform the tokenisation.
        let mut i: usize = 0;
        while i < n
            invariant
                n == items@.len(),
                starts@.len() == n,
                i <= n,
                forall|t: int| i <= t < n ==> !(#[trigger] starts@[t]),
                spec_run(tokeniser, items@, i as int) is Some ==> spec_run(tokeniser, items@, 0)
                    == Some(
                    starts@.take(i as int) + spec_run(tokeniser, items@, i as int).unwrap(),
                ),
                spec_run(tokeniser, items@, i as int) is None ==> spec_run(
                    tokeniser,
                    items@,
                    0,
                ) is None,
            decreases n - i,
        {
            let ghost pre_starts = starts@;
            // Start of token.
            starts.set(i, true);
            // Scan it.
            match tokeniser.scan(items.as_slice(), i) {
                Ok(t) => {
                    let e = t.end();
                    proof {
                        assert(tokeniser.scan_spec(items@, i as int) == Some(t.spec_end()));
                        if spec_run(tokeniser, items@, e + 1) is Some {
                            let rest = spec_run(tokeniser, items@, e + 1).unwrap();
                            assert(spec_run(tokeniser, items@, i as int) == Some(
                                seq![true] + Seq::new((e - i) as nat, |k: int| false) + rest,
                            ));
                            assert(starts@.take(e + 1) =~= pre_starts.take(i as int) + (
                            seq![true] + Seq::new((e - i) as nat, |k: int| false)));
                            assert(pre_starts.take(i as int) + (seq![true] + Seq::new(
                                (e - i) as nat,
                                |k: int| false,
                            ) + rest) =~= starts@.take(e + 1) + rest);
                        }
                    }
                    // Move on.
                    i = e + 1;
                },
                Err(err) => {
                    proof {
                        assert(spec_run(tokeniser, items@, i as int) is None);
                    }
                    return Err(err);
                },
            }
        }
        proof {
            assert(spec_run(tokeniser, items@, i as int) == Some(Seq::<bool>::empty()));
            assert(starts@.take(i as int) + Seq::<bool>::empty() =~= starts@);
        }
        Ok(starts)
    }

    /// Construct an incremental lexer from a tokeniser.  This
    /// immediately tokenises the stream and, hence, can fail with an
    /// error (e.g. if an unknown sequence is encountered).  On success,
    /// the tokenisation is consistent: `validate` succeeds on it.
    pub fn new(items: Vec<T::Input>, tokeniser: T) -> (r: Result<Tokenisation<T>, T::Error>)
        ensures
            r is Ok <==> spec_run(&tokeniser, items@, 0) is Some,
            r matches Ok(tk) ==> {
                &&& tk.well_formed()
                &&& tk.spec_items() == items@
                &&& tk.spec_tokeniser() == tokeniser
            },
    {
        // Construct meta-data from scratch.
        let starts = match Self::generate_starts(&items, &tokeniser) {
            Ok(s) => s,
            Err(e) => {
                return Err(e);
            },
        };
        // Done
        Ok(Tokenisation { items, tokeniser, starts })
    }

    /// Construct an iterator over the tokens of this tokenisation.
    pub fn iter(&self) -> (r: TokenIterator<T>)
        ensures
            r.spec_items() == self.spec_items(),
            r.spec_index() == 0,
            r.spec_tokeniser() == self.spec_tokeniser(),
    {
        TokenIterator::new(self.items.as_slice(), &self.tokeniser)
    }

    /// Validate that the meta-data is up-to-date with the underlying
    /// sequence.  This is, in essence, a safety check which can be run
    /// after a transformation has been applied to check everything still
    /// makes sense: on a consistent tokenisation it always succeeds.
    pub fn validate(&self) -> (r: Result<(), T::Error>)
        requires
            self.well_formed(),
        ensures
            r is Ok,
    {
        // Regenerate meta-data from scratch.
        match Self::generate_starts(&self.items, &self.tokeniser) {
            Ok(nstarts) => {
                // Check it is the same.
                proof {
                    assert(nstarts@ == self.starts@);
                }
                Ok(())
            },
            Err(e) => {
                proof {
                    assert(false);
                }
                Err(e)
            },
        }
    }
}

/// The rewrites of `entries` with each payload replaced by `false`s of
/// the same length.
pub open spec fn spec_bitmap<I>(entries: Seq<(Region, Seq<I>)>) -> Seq<(Region, Seq<bool>)> {
    Seq::new(
        entries.len(),
        |i: int| (entries[i].0, Seq::new(entries[i].1.len(), |k: int| false)),
    )
}

/// The delta that keeps a boolean bitmap aligned with a sequence
/// rewritten by `d`: the same rewrites, with each payload replaced by
/// `false`s of the same length.
fn bitmap_delta<I: Copy>(d: &VecDelta<I>) -> (r: VecDelta<bool>)
    requires
        d.wf(),
    ensures
        r.wf(),
        r@ == spec_bitmap(d@),
{
    let mut r: VecDelta<bool> = VecDelta::new();
    let n = d.len();
    let mut i: usize = 0;
    while i < n
        invariant
            d.wf(),
            n == d@.len(),
            i <= n,
            r.wf(),
            r@.len() == i,
            forall|t: int|
                0 <= t < i ==> (#[trigger] r@[t]).0 == (#[trigger] d@[t]).0 && r@[t].1.len()
                    == d@[t].1.len() && r@[t].1 == Seq::new(d@[t].1.len(), |k: int| false),
        decreases n - i,
    {
        let rw = d.get(i).unwrap();
        let mut falses: Vec<bool> = Vec::new();
        let len = rw.data.len();
        let mut k: usize = 0;
        while k < len
            invariant
                k <= len,
                falses@.len() == k,
                forall|t: int| 0 <= t < k ==> !(#[trigger] falses@[t]),
            decreases len - k,
        {
            falses.push(false);
            k = k + 1;
        }
        proof {
            d.lemma_view_entries();
            if i > 0 {
                assert(r@[i - 1].0 == d@[i - 1].0);
                assert(d.targets()[i - 1].offset < d.targets()[i as int].offset);
            }
            assert(falses@ =~= Seq::new(d@[i as int].1.len(), |k: int| false));
        }
        r.push_entry(rw.region.offset, rw.region.length, falses.as_slice());
        i = i + 1;
    }
    proof {
        assert(r@ =~= spec_bitmap(d@));
    }
    r
}

impl<T: Tokeniser> Tokenisation<T> where T::Input: Copy {
    /// Incrementally update this tokenisation by transforming the
    /// underlying sequence with `d`.  The boundary meta-data is first
    /// realigned with a derived bitmap delta, then refreshed by
    /// rescanning; if the tokeniser errs on the rewritten sequence, the
    /// error surfaces and the tokenisation is left structurally sound
    /// but stale — the caller must discard it.
    pub fn transform(&mut self, d: &VecDelta<T::Input>) -> (r: Result<(), T::Error>)
        requires
            old(self).well_formed(),
            d.wf(),
            spec_applies(d@, old(self).spec_items()),
        ensures
            final(self).spec_items() == spec_apply(d@, old(self).spec_items()),
            final(self).spec_tokeniser() == old(self).spec_tokeniser(),
            final(self).spec_starts().len() == final(self).spec_items().len(),
            r is Ok <==> spec_run(
                &old(self).spec_tokeniser(),
                spec_apply(d@, old(self).spec_items()),
                0,
            ) is Some,
            r is Ok ==> final(self).well_formed(),
            r is Err ==> final(self).spec_starts() == spec_apply(
                spec_bitmap(d@),
                old(self).spec_starts(),
            ),
    {
        proof {
            lemma_spec_run_len(&self.tokeniser, self.items@, 0);
        }
        // Transform the underlying items.
        let _ = d.transform(&mut self.items);
        // Construct and apply the starts delta, restoring the size
        // alignment between the bitmap and the items.
        let sd = bitmap_delta(d);
        proof {
            lemma_apply_parallel(d@, sd@, old(self).spec_items(), old(self).spec_starts());
        }
        let _ = sd.transform(&mut self.starts);
        // Transform starts by rescanning from scratch.
        match Self::generate_starts(&self.items, &self.tokeniser) {
            Ok(nstarts) => {
                self.starts = nstarts;
                proof {
                    lemma_spec_run_len(&self.tokeniser, self.items@, 0);
                }
                Ok(())
            },
            Err(e) => Err(e),
        }
    }
}

/// Allow a tokenisation to be incrementally updated through a
/// _transformation_ on the underlying sequence.
impl<T: Tokeniser> TryTransform for Tokenisation<T> where T::Input: Copy {
    /// A tokenisation delta corresponds to a delta on the underlying
    /// input sequence.  The key is that applying this delta to the
    /// tokenisation requires that it _incrementally updates_ the
    /// associated meta-data.
    type Delta = VecDelta<T::Input>;

    /// Define the type of errors which can arise from an invalid
    /// transformation.
    type Error = T::Error;

    /// The tokenisation must be consistent and the delta must fit its
    /// sequence.
    open spec fn try_transform_pre(&self, d: &VecDelta<T::Input>) -> bool {
        &&& self.well_formed()
        &&& d.wf()
        &&& spec_applies(d@, self.spec_items())
    }

    /// Transform a tokenisation in place.
    fn try_transform(&mut self, d: &VecDelta<T::Input>) -> (r: Result<(), T::Error>)
        ensures
            final(self).spec_items() == spec_apply(d@, old(self).spec_items()),
            final(self).spec_tokeniser() == old(self).spec_tokeniser(),
            final(self).spec_starts().len() == final(self).spec_items().len(),
            r is Ok ==> final(self).well_formed(),
    {
        self.transform(d)
    }
}

} // verus!
