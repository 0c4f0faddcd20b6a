use super::{spec_applies, spec_apply, Diff, VecDelta};
use vstd::slice::slice_subrange;
use crate::region::Region;
use crate::seq::spec_splice;
use vstd::laws_eq::obeys_concrete_eq;
use vstd::prelude::*;

verus! {

/// Length of the longest common subsequence of `a.take(i)` and
/// `b.take(j)`, by the classical recurrence.
pub open spec fn lcs_len<T>(a: Seq<T>, b: Seq<T>, i: int, j: int) -> int
    decreases i + j,
{
    if i <= 0 || j <= 0 {
        0
    } else if a[i - 1] == b[j - 1] {
        lcs_len(a, b, i - 1, j - 1) + 1
    } else if lcs_len(a, b, i - 1, j) >= lcs_len(a, b, i, j - 1) {
        lcs_len(a, b, i - 1, j)
    } else {
        lcs_len(a, b, i, j - 1)
    }
}

/// A common subsequence never exceeds either prefix.
pub proof fn lemma_lcs_len_bounds<T>(a: Seq<T>, b: Seq<T>, i: int, j: int)
    requires
        0 <= i,
        0 <= j,
    ensures
        0 <= lcs_len(a, b, i, j),
        lcs_len(a, b, i, j) <= i,
        lcs_len(a, b, i, j) <= j,
    decreases i + j,
{
    if i > 0 && j > 0 {
        lemma_lcs_len_bounds(a, b, i - 1, j - 1);
        lemma_lcs_len_bounds(a, b, i - 1, j);
        lemma_lcs_len_bounds(a, b, i, j - 1);
    }
}

/// The mapping chosen when one longest common subsequence is extracted
/// from the table: position `k` of `a.take(i)` is either unmatched
/// (`None`) or matched to position `v` of `b.take(j)` (`Some(v)`).  The
/// tie-break — walk up before walking left — is part of the definition.
pub open spec fn lcs_map<T>(a: Seq<T>, b: Seq<T>, i: int, j: int) -> Seq<Option<usize>>
    decreases i + j,
{
    if i <= 0 {
        Seq::empty()
    } else if j <= 0 {
        Seq::new(i as nat, |k: int| None)
    } else if lcs_len(a, b, i, j) == lcs_len(a, b, i - 1, j) {
        lcs_map(a, b, i - 1, j).push(None)
    } else if lcs_len(a, b, i, j) == lcs_len(a, b, i, j - 1) {
        lcs_map(a, b, i, j - 1)
    } else {
        lcs_map(a, b, i - 1, j - 1).push(Some((j - 1) as usize))
    }
}

/// `map` is a plausible match of `a` against `b`: one entry per position
/// of `a`, and each match points at an equal item of `b`.
pub open spec fn valid_mapping<T>(map: Seq<Option<usize>>, a: Seq<T>, b: Seq<T>) -> bool {
    &&& map.len() == a.len()
    &&& forall|k: int|
        0 <= k < map.len() && map[k] is Some ==> (map[k].unwrap() as int) < b.len() && a[k] == b[(
        #[trigger] map[k]).unwrap() as int]
}

/// The matched positions of an extracted mapping strictly increase.
pub open spec fn increasing_mapping(map: Seq<Option<usize>>) -> bool {
    forall|k1: int, k2: int|
        0 <= k1 < k2 < map.len() && map[k1] is Some && #[trigger] map[k2] is Some
            ==> (#[trigger] map[k1]).unwrap() < map[k2].unwrap()
}

/// Shape of the extracted mapping: it is a valid match of `a.take(i)`
/// against `b.take(j)`, and its matched positions strictly increase.
pub proof fn lemma_lcs_map_props<T>(a: Seq<T>, b: Seq<T>, i: int, j: int)
    requires
        0 <= i <= a.len(),
        0 <= j <= b.len(),
        b.len() <= usize::MAX,
    ensures
        lcs_map(a, b, i, j).len() == i,
        valid_mapping(lcs_map(a, b, i, j), a.take(i), b),
        increasing_mapping(lcs_map(a, b, i, j)),
        forall|k: int|
            0 <= k < i && (#[trigger] lcs_map(a, b, i, j)[k]) is Some ==> (lcs_map(
                a,
                b,
                i,
                j,
            )[k].unwrap() as int) < j,
    decreases i + j,
{
    let m = lcs_map(a, b, i, j);
    if i <= 0 {
    } else if j <= 0 {
    } else if lcs_len(a, b, i, j) == lcs_len(a, b, i - 1, j) {
        let inner = lcs_map(a, b, i - 1, j);
        lemma_lcs_map_props(a, b, i - 1, j);
        assert(m == inner.push(None));
        assert(m[i - 1] is None);
        assert forall|k: int| 0 <= k < i && (#[trigger] m[k]) is Some implies {
            &&& (m[k].unwrap() as int) < b.len()
            &&& (m[k].unwrap() as int) < j
            &&& a.take(i)[k] == b[m[k].unwrap() as int]
        } by {
            assert(k < i - 1);
            assert(m[k] == inner[k]);
            assert(a.take(i - 1)[k] == a.take(i)[k]);
        }
        assert forall|k1: int, k2: int|
            0 <= k1 < k2 < i && m[k1] is Some && #[trigger] m[k2] is Some implies (
        #[trigger] m[k1]).unwrap() < m[k2].unwrap() by {
            assert(k2 < i - 1);
            assert(m[k1] == inner[k1] && m[k2] == inner[k2]);
        }
    } else if lcs_len(a, b, i, j) == lcs_len(a, b, i, j - 1) {
        let inner = lcs_map(a, b, i, j - 1);
        lemma_lcs_map_props(a, b, i, j - 1);
        assert(m == inner);
        assert forall|k: int| 0 <= k < i && (#[trigger] m[k]) is Some implies (
        m[k].unwrap() as int) < j by {
            assert(inner[k] is Some);
        }
    } else {
        let inner = lcs_map(a, b, i - 1, j - 1);
        lemma_lcs_map_props(a, b, i - 1, j - 1);
        assert(a[i - 1] == b[j - 1]) by {
            if a[i - 1] != b[j - 1] {
                assert(lcs_len(a, b, i, j) == if lcs_len(a, b, i - 1, j) >= lcs_len(
                    a,
                    b,
                    i,
                    j - 1,
                ) {
                    lcs_len(a, b, i - 1, j)
                } else {
                    lcs_len(a, b, i, j - 1)
                });
            }
        }
        assert(m == inner.push(Some((j - 1) as usize)));
        assert(m[i - 1] == Some((j - 1) as usize));
        assert((m[i - 1].unwrap() as int) == j - 1);
        assert forall|k: int| 0 <= k < i && (#[trigger] m[k]) is Some implies {
            &&& (m[k].unwrap() as int) < b.len()
            &&& (m[k].unwrap() as int) < j
            &&& a.take(i)[k] == b[m[k].unwrap() as int]
        } by {
            if k < i - 1 {
                assert(m[k] == inner[k]);
                assert(a.take(i - 1)[k] == a.take(i)[k]);
            } else {
                assert(a.take(i)[k] == a[i - 1]);
            }
        }
        assert forall|k1: int, k2: int|
            0 <= k1 < k2 < i && m[k1] is Some && #[trigger] m[k2] is Some implies (
        #[trigger] m[k1]).unwrap() < m[k2].unwrap() by {
            if k2 < i - 1 {
                assert(m[k1] == inner[k1] && m[k2] == inner[k2]);
            } else {
                assert(m[k1] == inner[k1]);
                assert((inner[k1].unwrap() as int) < j - 1);
            }
        }
    }
}

/// Determine the longest common subsequence of two slices.  For example,
/// suppose `lhs = [a,b,b,c,b,c,d]` and `rhs = [b,b,e,c,d,e]`; then a
/// *common subsequence* is `[b,b]` and another is `[b,c,d]`.  However,
/// the *longest common subsequence* is `[b,b,c,d]`.
///
/// This algorithm produces a mapping from elements in `lhs` to elements
/// in `rhs`.  For the above example, it produces
/// `[None, Some(0), Some(1), Some(3), None, None, Some(4)]`.  Here,
/// `None` indicates the element in `lhs` does not match an element in
/// `rhs`.  Otherwise, values are the matching indices in `rhs`.
///
/// **NOTE:** Whilst the above example had only one longest common
/// subsequence, it's not always the case that there is only one.  This
/// algorithm returns the one described by [`lcs_map`], whose tie-break
/// is fixed.
pub fn longest_common_subsequence<T: PartialEq>(lhs: &[T], rhs: &[T]) -> (res: Vec<Option<usize>>)
    requires
        obeys_concrete_eq::<T>(),
    ensures
        res@ == lcs_map(lhs@, rhs@, lhs@.len() as int, rhs@.len() as int),
        res@.len() == lhs@.len(),
{
    let m = lhs.len();
    let n = rhs.len();
    let ghost a = lhs@;
    let ghost b = rhs@;
    // Build the (m+1) x (n+1) table of subsequence lengths.
    let mut c: Vec<Vec<usize>> = Vec::new();
    let mut row0: Vec<usize> = Vec::new();
    row0.push(0);
    let mut j: usize = 0;
    while j < n
        invariant
            j <= n,
            row0@.len() == j + 1,
            forall|q: int| 0 <= q <= j ==> row0@[q] == lcs_len(a, b, 0, q),
        decreases n - j,
    {
        row0.push(0);
        j = j + 1;
    }
    c.push(row0);
    let mut i: usize = 0;
    while i < m
        invariant
            obeys_concrete_eq::<T>(),
            a == lhs@ && b == rhs@ && m == a.len() && n == b.len(),
            i <= m,
            c@.len() == i + 1,
            forall|p: int| 0 <= p <= i ==> (#[trigger] c@[p])@.len() == n + 1,
            forall|p: int, q: int|
                0 <= p <= i && 0 <= q <= n ==> (#[trigger] c@[p]@[q]) == lcs_len(a, b, p, q),
        decreases m - i,
    {
        let mut row: Vec<usize> = Vec::new();
        row.push(0);
        let mut j: usize = 0;
        while j < n
            invariant
                obeys_concrete_eq::<T>(),
                a == lhs@ && b == rhs@ && m == a.len() && n == b.len(),
                i < m,
                j <= n,
                c@.len() == i + 1,
                forall|p: int| 0 <= p <= i ==> (#[trigger] c@[p])@.len() == n + 1,
                forall|p: int, q: int|
                    0 <= p <= i && 0 <= q <= n ==> (#[trigger] c@[p]@[q]) == lcs_len(a, b, p, q),
                row@.len() == j + 1,
                forall|q: int| 0 <= q <= j ==> (#[trigger] row@[q]) == lcs_len(a, b, i + 1, q),
            decreases n - j,
        {
            proof {
                lemma_lcs_len_bounds(a, b, i as int, j as int);
                lemma_lcs_len_bounds(a, b, i as int, j + 1);
                lemma_lcs_len_bounds(a, b, i + 1, j as int);
            }
            let prev = &c[i];
            let eq = lhs[i] == rhs[j];
            proof {
                reveal(vstd::laws_eq::obeys_concrete_eq);
                assert(eq == (a[i as int] == b[j as int]));
            }
            let v: usize = if eq {
                prev[j] + 1
            } else {
                let x = prev[j + 1];
                let y = row[j];
                if x >= y {
                    x
                } else {
                    y
                }
            };
            proof {
                assert(v == lcs_len(a, b, i + 1, j + 1));
            }
            row.push(v);
            j = j + 1;
        }
        c.push(row);
        i = i + 1;
    }
    // Extract the chosen mapping by walking the table backwards.
    let mut res: Vec<Option<usize>> = Vec::new();
    let mut k: usize = 0;
    while k < m
        invariant
            k <= m,
            res@.len() == k,
            forall|t: int| 0 <= t < k ==> (#[trigger] res@[t]) is None,
        decreases m - k,
    {
        res.push(None);
        k = k + 1;
    }
    extract_subsequence::<T>(&c, &mut res, m, n, Ghost(a), Ghost(b));
    proof {
        assert(res@.take(m as int) =~= res@);
        lemma_lcs_map_props(a, b, m as int, n as int);
    }
    res
}

/// The rewrites still to be extracted from a mapping, given the cursor
/// state of the extraction walk: `b_start`/`b_pos` move over the before
/// sequence (i.e. over `map`), `a_start`/`a_pos` over `after`.  Whenever
/// the walk meets an anchor — a position matched to the current `after`
/// position — the positions consumed since the last anchor become one
/// rewrite, with its target region in after-side coordinates.
pub open spec fn extract_spec<T>(
    map: Seq<Option<usize>>,
    after: Seq<T>,
    b_start: int,
    b_pos: int,
    a_start: int,
    a_pos: int,
) -> Seq<(Region, Seq<T>)>
    decreases map.len() - b_pos + (after.len() - a_pos),
{
    if 0 <= b_pos < map.len() && 0 <= a_pos < after.len() {
        match map[b_pos] {
            None => extract_spec(map, after, b_start, b_pos + 1, a_start, a_pos),
            Some(v) => {
                if (v as int) < a_pos {
                    extract_spec(map, after, b_start, b_pos + 1, a_start, a_pos)
                } else if (v as int) > a_pos {
                    if (v as int) <= after.len() {
                        extract_spec(map, after, b_start, b_pos, a_start, v as int)
                    } else {
                        Seq::empty()
                    }
                } else {
                    let rest = extract_spec(map, after, b_pos + 1, b_pos + 1, a_pos + 1, a_pos + 1);
                    if b_start < b_pos || a_start < a_pos {
                        seq![
                            (
                                Region {
                                    offset: a_start as usize,
                                    length: (b_pos - b_start) as usize,
                                },
                                after.subrange(a_start, a_pos),
                            ),
                        ] + rest
                    } else {
                        rest
                    }
                }
            },
        }
    } else if b_start < map.len() || a_start < after.len() {
        seq![
            (
                Region { offset: a_start as usize, length: (map.len() - b_start) as usize },
                after.subrange(a_start, after.len() as int),
            ),
        ]
    } else {
        Seq::empty()
    }
}

/// The rewrites extracted from any cursor state of a valid mapping
/// complete the partly rewritten sequence to `after`: the positions
/// before `a_start` are already rewritten, those from `b_start` on are
/// still to be consumed.
proof fn lemma_extract_applies<T>(
    map: Seq<Option<usize>>,
    a: Seq<T>,
    after: Seq<T>,
    b_start: int,
    b_pos: int,
    a_start: int,
    a_pos: int,
)
    requires
        valid_mapping(map, a, after),
        a.len() <= usize::MAX,
        after.len() <= usize::MAX,
        0 <= b_start <= b_pos <= map.len(),
        0 <= a_start <= a_pos <= after.len(),
    ensures
        spec_applies(
            extract_spec(map, after, b_start, b_pos, a_start, a_pos),
            after.take(a_start) + a.skip(b_start),
        ),
        spec_apply(
            extract_spec(map, after, b_start, b_pos, a_start, a_pos),
            after.take(a_start) + a.skip(b_start),
        ) == after,
    decreases map.len() - b_pos + (after.len() - a_pos),
{
    let s = after.take(a_start) + a.skip(b_start);
    let e = extract_spec(map, after, b_start, b_pos, a_start, a_pos);
    if 0 <= b_pos < map.len() && 0 <= a_pos < after.len() {
        match map[b_pos] {
            None => {
                lemma_extract_applies(map, a, after, b_start, b_pos + 1, a_start, a_pos);
                assert(e == extract_spec(map, after, b_start, b_pos + 1, a_start, a_pos));
            },
            Some(v) => {
                if (v as int) < a_pos {
                    lemma_extract_applies(map, a, after, b_start, b_pos + 1, a_start, a_pos);
                    assert(e == extract_spec(map, after, b_start, b_pos + 1, a_start, a_pos));
                } else if (v as int) > a_pos {
                    assert((v as int) < after.len());
                    lemma_extract_applies(map, a, after, b_start, b_pos, a_start, v as int);
                    assert(e == extract_spec(map, after, b_start, b_pos, a_start, v as int));
                } else {
                    assert(a[b_pos] == after[a_pos]);
                    let rest = extract_spec(map, after, b_pos + 1, b_pos + 1, a_pos + 1, a_pos + 1);
                    let s2 = after.take(a_pos + 1) + a.skip(b_pos + 1);
                    lemma_extract_applies(
                        map,
                        a,
                        after,
                        b_pos + 1,
                        b_pos + 1,
                        a_pos + 1,
                        a_pos + 1,
                    );
                    if b_start < b_pos || a_start < a_pos {
                        let entry = (
                            Region { offset: a_start as usize, length: (b_pos - b_start) as usize },
                            after.subrange(a_start, a_pos),
                        );
                        assert(e == seq![entry] + rest);
                        assert(e[0] == entry);
                        assert(e.skip(1) =~= rest);
                        assert(entry.0.spec_end() == a_start + (b_pos - b_start));
                        assert(entry.0.spec_end() <= s.len());
                        assert(spec_splice(s, entry.0, entry.1) =~= s2);
                        assert(spec_applies(e.skip(1), spec_splice(s, e[0].0, e[0].1)));
                        assert(spec_applies(e, s));
                        assert(spec_apply(e, s) == spec_apply(
                            e.skip(1),
                            spec_splice(s, e[0].0, e[0].1),
                        ));
                        assert(spec_apply(e, s) == after);
                    } else {
                        assert(s =~= s2);
                        assert(e == rest);
                        assert(spec_applies(e, s));
                        assert(spec_apply(e, s) == after);
                    }
                }
            },
        }
    } else if b_start < map.len() || a_start < after.len() {
        let entry = (
            Region { offset: a_start as usize, length: (map.len() - b_start) as usize },
            after.subrange(a_start, after.len() as int),
        );
        assert(e == seq![entry]);
        assert(e[0] == entry);
        assert(e.skip(1) =~= Seq::<(Region, Seq<T>)>::empty());
        assert(entry.0.spec_end() == s.len());
        assert(spec_splice(s, entry.0, entry.1) =~= after);
        assert(spec_applies(e.skip(1), spec_splice(s, e[0].0, e[0].1)));
        assert(spec_applies(e, s));
        assert(spec_apply(e, s) == spec_apply(e.skip(1), spec_splice(s, e[0].0, e[0].1)));
        assert(spec_apply(e, s) == after);
    } else {
        assert(s =~= after);
        assert(e == Seq::<(Region, Seq<T>)>::empty());
        assert(spec_applies(e, s));
        assert(spec_apply(e, s) == after);
    }
}

/// Extract a delta from a given mapping of the before sequence into the
/// after sequence, as generated by the longest-common-subsequence
/// algorithm.  For example:
///
/// ```txt
///  0 1 2
/// +-+-+-+-+-+
/// |a|b|c|d|e| (before)
/// +-+-+-+-+-+
///    | |
///   / /
///  | |
/// +-+-+-+-+
/// |b|c|f|g| (after)
/// +-+-+-+-+
/// ```
///
/// In this case, the mapping would be `[None, Some(0), Some(1), None,
/// None]`, which indicates positions `0`, `3` and `4` are removed whilst
/// positions `1` and `2` correspond to positions `0` and `1` in the
/// final sequence.
///
/// The extraction can generate lots of small rewrites when a single
/// large one would be more sensible; that is semantically correct but
/// not minimal.
fn extract_delta<T: Copy>(mapping: &Vec<Option<usize>>, after: &[T], Ghost(a): Ghost<Seq<T>>) -> (d:
    VecDelta<T>)
    requires
        valid_mapping(mapping@, a, after@),
    ensures
        d.wf(),
        d@ == extract_spec(mapping@, after@, 0, 0, 0, 0),
{
    let mut delta: VecDelta<T> = VecDelta::new();
    let m = mapping.len();
    let n = after.len();
    let mut b_start: usize = 0;
    let mut b_pos: usize = 0;
    let mut a_start: usize = 0;
    let mut a_pos: usize = 0;
    proof {
        assert(delta@ + extract_spec(mapping@, after@, 0, 0, 0, 0) =~= extract_spec(
            mapping@,
            after@,
            0,
            0,
            0,
            0,
        ));
    }
    while b_pos < m && a_pos < n
        invariant
            valid_mapping(mapping@, a, after@),
            m == mapping@.len() && n == after@.len(),
            b_start <= b_pos <= m,
            a_start <= a_pos <= n,
            delta.wf(),
            delta@.len() > 0 ==> delta@[delta@.len() - 1].0.offset < a_start,
            delta@ + extract_spec(
                mapping@,
                after@,
                b_start as int,
                b_pos as int,
                a_start as int,
                a_pos as int,
            ) == extract_spec(mapping@, after@, 0, 0, 0, 0),
        decreases (m - b_pos) + (n - a_pos),
    {
        let ghost pre = extract_spec(
            mapping@,
            after@,
            b_start as int,
            b_pos as int,
            a_start as int,
            a_pos as int,
        );
        match mapping[b_pos] {
            None => {
                b_pos = b_pos + 1;
            },
            Some(v) => {
                if v < a_pos {
                    b_pos = b_pos + 1;
                } else if v > a_pos {
                    proof {
                        assert(mapping@[b_pos as int] is Some);
                        assert((mapping@[b_pos as int].unwrap() as int) < after@.len());
                    }
                    a_pos = v;
                } else {
                    if b_start < b_pos || a_start < a_pos {
                        let len = b_pos - b_start;
                        let payload = slice_subrange(after, a_start, a_pos);
                        let ghost entry = (
                            Region { offset: a_start as usize, length: len },
                            after@.subrange(a_start as int, a_pos as int),
                        );
                        let ghost rest = extract_spec(
                            mapping@,
                            after@,
                            b_pos + 1,
                            b_pos + 1,
                            a_pos + 1,
                            a_pos + 1,
                        );
                        proof {
                            assert(pre == seq![entry] + rest);
                            assert(pre[0] == entry);
                        }
                        delta.push_entry(a_start, len, payload);
                        proof {
                            assert(delta@ + rest =~= extract_spec(mapping@, after@, 0, 0, 0, 0));
                        }
                    }
                    a_pos = a_pos + 1;
                    b_pos = b_pos + 1;
                    a_start = a_pos;
                    b_start = b_pos;
                }
            },
        }
    }
    if b_start < m || a_start < n {
        let len = m - b_start;
        let payload = slice_subrange(after, a_start, n);
        let ghost entry = (
            Region { offset: a_start as usize, length: len },
            after@.subrange(a_start as int, n as int),
        );
        proof {
            assert(extract_spec(
                mapping@,
                after@,
                b_start as int,
                b_pos as int,
                a_start as int,
                a_pos as int,
            ) == seq![entry]);
        }
        delta.push_entry(a_start, len, payload);
        proof {
            assert(delta@ =~= extract_spec(mapping@, after@, 0, 0, 0, 0));
        }
    } else {
        proof {
            assert(delta@ + Seq::<(Region, Seq<T>)>::empty() =~= delta@);
        }
    }
    delta
}

/// The delta taking `a` to `b`: the chosen longest-common-subsequence
/// mapping, extracted into rewrites.
pub open spec fn spec_diff<T>(a: Seq<T>, b: Seq<T>) -> Seq<(Region, Seq<T>)> {
    extract_spec(lcs_map(a, b, a.len() as int, b.len() as int), b, 0, 0, 0, 0)
}

/// Diff-apply round trip: for any two sequences, the extracted delta
/// applies to the first and yields the second.
pub proof fn lemma_diff_apply_round_trip<T>(a: Seq<T>, b: Seq<T>)
    requires
        a.len() <= usize::MAX,
        b.len() <= usize::MAX,
    ensures
        spec_applies(spec_diff(a, b), a),
        spec_apply(spec_diff(a, b), a) == b,
{
    let map = lcs_map(a, b, a.len() as int, b.len() as int);
    lemma_lcs_map_props(a, b, a.len() as int, b.len() as int);
    assert(a.take(a.len() as int) =~= a);
    lemma_extract_applies(map, a, b, 0, 0, 0, 0);
    assert(b.take(0) + a.skip(0) =~= a);
}

proof fn lemma_lcs_len_self<T>(a: Seq<T>, i: int)
    requires
        0 <= i <= a.len(),
    ensures
        lcs_len(a, a, i, i) == i,
    decreases i,
{
    if i > 0 {
        lemma_lcs_len_self(a, i - 1);
    }
}

proof fn lemma_lcs_map_self<T>(a: Seq<T>, i: int)
    requires
        0 <= i <= a.len(),
        a.len() <= usize::MAX,
    ensures
        lcs_map(a, a, i, i).len() == i,
        forall|k: int| 0 <= k < i ==> lcs_map(a, a, i, i)[k] == Some(k as usize),
    decreases i,
{
    if i > 0 {
        lemma_lcs_len_self(a, i);
        lemma_lcs_len_self(a, i - 1);
        lemma_lcs_len_bounds(a, a, i - 1, i);
        lemma_lcs_len_bounds(a, a, i, i - 1);
        lemma_lcs_map_self(a, i - 1);
        lemma_lcs_map_props(a, a, i, i);
        let inner = lcs_map(a, a, i - 1, i - 1);
        assert(lcs_map(a, a, i, i) == inner.push(Some((i - 1) as usize)));
        assert forall|k: int| 0 <= k < i implies lcs_map(a, a, i, i)[k] == Some(k as usize) by {
            if k < i - 1 {
                assert(lcs_map(a, a, i, i)[k] == inner[k]);
            }
        }
    }
}

proof fn lemma_extract_identity<T>(map: Seq<Option<usize>>, after: Seq<T>, p: int)
    requires
        map.len() == after.len() <= usize::MAX,
        0 <= p <= map.len(),
        forall|k: int| p <= k < map.len() ==> map[k] == Some(k as usize),
    ensures
        extract_spec(map, after, p, p, p, p) == Seq::<(Region, Seq<T>)>::empty(),
    decreases map.len() - p,
{
    if p < map.len() {
        assert(map[p] == Some(p as usize));
        lemma_extract_identity(map, after, p + 1);
    }
}

/// Empty self-diff: diffing a sequence against itself yields a delta
/// with no rewrites, and applying it changes nothing.
pub proof fn lemma_self_diff_empty<T>(a: Seq<T>)
    requires
        a.len() <= usize::MAX,
    ensures
        spec_diff(a, a).len() == 0,
        spec_apply(spec_diff(a, a), a) == a,
{
    let map = lcs_map(a, a, a.len() as int, a.len() as int);
    lemma_lcs_map_self(a, a.len() as int);
    lemma_extract_identity(map, a, 0);
}

/// Compute a delta between `lhs` and `rhs` using the longest common
/// subsequence: applying the result to `lhs` yields `rhs`.
pub fn diff<T: PartialEq + Copy>(lhs: &[T], rhs: &[T]) -> (d: VecDelta<T>)
    requires
        obeys_concrete_eq::<T>(),
    ensures
        d.wf(),
        d@ == spec_diff(lhs@, rhs@),
        spec_applies(d@, lhs@),
        spec_apply(d@, lhs@) == rhs@,
{
    let m = lhs.len();
    let n = rhs.len();
    let mapping = longest_common_subsequence(lhs, rhs);
    proof {
        lemma_lcs_map_props(lhs@, rhs@, m as int, n as int);
        assert(lhs@.take(m as int) =~= lhs@);
        lemma_diff_apply_round_trip(lhs@, rhs@);
    }
    extract_delta(&mapping, rhs, Ghost(lhs@))
}

/// An implementation of the `Diff` trait for arbitrary slices, using the
/// longest-common-subsequence algorithm.
impl<T: PartialEq + Copy> Diff for [T] {
    type Delta = VecDelta<T>;

    /// Equality on `T` must mean what it says, so that matched items
    /// really are equal.
    open spec fn diff_pre(&self, other: &Self) -> bool {
        obeys_concrete_eq::<T>()
    }

    fn diff(&self, other: &Self) -> (d: VecDelta<T>)
        ensures
            d.wf(),
            d@ == spec_diff(self@, other@),
            spec_applies(d@, self@),
            spec_apply(d@, self@) == other@,
    {
        diff(self, other)
    }
}

/// Walk the table backwards from `(i, j)`, filling in the mapping for
/// positions `[0, i)` of `a`.  Positions from `i` on are left untouched.
fn extract_subsequence<T>(
    c: &Vec<Vec<usize>>,
    res: &mut Vec<Option<usize>>,
    i: usize,
    j: usize,
    Ghost(a): Ghost<Seq<T>>,
    Ghost(b): Ghost<Seq<T>>,
)
    requires
        c@.len() == a.len() + 1,
        forall|p: int| 0 <= p <= a.len() ==> (#[trigger] c@[p])@.len() == b.len() + 1,
        forall|p: int, q: int|
            0 <= p <= a.len() && 0 <= q <= b.len() ==> (#[trigger] c@[p]@[q]) == lcs_len(a, b, p, q),
        i <= a.len(),
        j <= b.len(),
        old(res)@.len() >= i,
        forall|k: int| 0 <= k < i ==> (#[trigger] old(res)@[k]) is None,
    ensures
        final(res)@.len() == old(res)@.len(),
        forall|k: int| i <= k < old(res)@.len() ==> (#[trigger] final(res)@[k]) == old(res)@[k],
        final(res)@.take(i as int) == lcs_map(a, b, i as int, j as int),
    decreases i + j,
{
    if i > 0 && j > 0 {
        let c_ij = c[i][j];
        let c_im1j = c[i - 1][j];
        let c_ijm1 = c[i][j - 1];
        if c_ij == c_im1j {
            res.set(i - 1, None);
            extract_subsequence::<T>(c, res, i - 1, j, Ghost(a), Ghost(b));
            proof {
                assert(res@.take(i as int) =~= res@.take((i - 1) as int).push(None));
            }
        } else if c_ij == c_ijm1 {
            res.set(i - 1, None);
            extract_subsequence::<T>(c, res, i, j - 1, Ghost(a), Ghost(b));
        } else {
            extract_subsequence::<T>(c, res, i - 1, j - 1, Ghost(a), Ghost(b));
            res.set(i - 1, Some(j - 1));
            proof {
                assert(res@.take(i as int) =~= res@.take((i - 1) as int).push(
                    Some((j - 1) as usize),
                ));
            }
        }
    } else {
        proof {
            if i == 0 {
                assert(res@.take(0) =~= lcs_map(a, b, 0, j as int));
            } else {
                assert(res@.take(i as int) =~= lcs_map(a, b, i as int, 0));
            }
        }
    }
}

} // verus!
