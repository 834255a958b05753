//! The tree builder: carves a text span into nested sub-spans wherever a
//! level's probability curve crosses the threshold.
//!
//! A boundary is declared at a position when its probability exceeds the
//! threshold and no boundary was declared on the immediately preceding
//! position (so runs of high-probability positions cannot produce empty
//! spans). Boundary characters stay attached to the end of the sub-span
//! they terminate. A hidden level adds no nesting depth: its marked
//! positions only pull trailing separator bytes after a visible cut into
//! the preceding sub-span, the named boundary adjustment below.

use vstd::prelude::*;
use crate::tree::{Split, full_text, leaf_concat, leaf_concat_list, wf, depth, depth_list};
use crate::level::visible_count_from;

verus! {

broadcast use vstd::std_specs::vec::group_vec_axioms, vstd::seq::group_seq_axioms;

/// The probability curve as a sequence of rows, one per byte position;
/// each row holds one fixed-point probability per level.
pub open spec fn cview(c: Seq<Vec<u32>>) -> Seq<Seq<u32>> {
    c.map_values(|r: Vec<u32>| r@)
}

/// A sequence of byte offsets as mathematical integers.
pub open spec fn iview(s: Seq<usize>) -> Seq<int> {
    s.map_values(|x: usize| x as int)
}

/// Whether position `i` of channel `l` lies strictly above the threshold.
pub open spec fn above(curve: Seq<Seq<u32>>, l: int, thr: u32, i: int) -> bool {
    curve[i][l] > thr
}

/// The boundary state machine of one level, scanned from span start `a`:
/// a boundary is declared at `i` when the probability is above the
/// threshold and the immediately preceding position declared none.
pub open spec fn declared(curve: Seq<Seq<u32>>, l: int, thr: u32, a: int, i: int) -> bool
    decreases i - a,
{
    if i < a {
        false
    } else {
        above(curve, l, thr, i) && (i == a || !declared(curve, l, thr, a, i - 1))
    }
}

/// The declared boundary positions of `[a, i)`, in increasing order.
pub open spec fn spec_bounds(curve: Seq<Seq<u32>>, l: int, thr: u32, a: int, i: int) -> Seq<int>
    decreases i - a,
{
    if i <= a {
        Seq::empty()
    } else {
        spec_bounds(curve, l, thr, a, i - 1) + (if declared(curve, l, thr, a, i - 1) {
            seq![i - 1]
        } else {
            Seq::empty()
        })
    }
}

/// The cut offsets that partition `[a, b)` at one level: each declared
/// boundary ends the preceding sub-span, so the cut falls one past it; a
/// cut that would coincide with the span end is no cut at all.
pub open spec fn spec_cuts(curve: Seq<Seq<u32>>, l: int, thr: u32, a: int, b: int) -> Seq<int> {
    spec_bounds(curve, l, thr, a, b - 1).map_values(|p: int| p + 1)
}

/// Cut offsets that lie strictly inside `(lo, hi)` and strictly increase.
pub open spec fn sorted_in(cuts: Seq<int>, lo: int, hi: int) -> bool {
    &&& forall|k: int| 0 <= k < cuts.len() ==> lo < #[trigger] cuts[k] < hi
    &&& forall|k: int| 0 <= k < cuts.len() - 1 ==> #[trigger] cuts[k] < cuts[k + 1]
}

/// Walks right from `c` over positions a hidden level marks above the
/// threshold, never beyond `cap`.
pub open spec fn spec_extend(curve: Seq<Seq<u32>>, h: int, thr: u32, c: int, cap: int) -> int
    decreases cap - c,
{
    if c < cap && above(curve, h, thr, c) {
        spec_extend(curve, h, thr, c + 1, cap)
    } else {
        c
    }
}

/// The boundary adjustment of a hidden level: every cut moves right over
/// the run of positions the hidden level marks, so trailing separator
/// bytes stay with the sub-span they terminate; a cut that reaches the
/// next cut (or the span end) is swallowed by it.
pub open spec fn spec_adjust(curve: Seq<Seq<u32>>, h: int, thr: u32, cuts: Seq<int>, b: int) -> Seq<
    int,
>
    decreases cuts.len(),
{
    if cuts.len() == 0 {
        Seq::empty()
    } else {
        let cap = if cuts.len() > 1 {
            cuts[1]
        } else {
            b
        };
        let e = spec_extend(curve, h, thr, cuts[0], cap);
        (if e < cap {
            seq![e]
        } else {
            Seq::empty()
        }) + spec_adjust(curve, h, thr, cuts.drop_first(), b)
    }
}

/// The first non-hidden level at or after `i`, or the sequence length.
pub open spec fn spec_skip_hidden(hidden: Seq<bool>, i: int) -> int
    decreases hidden.len() - i,
{
    if 0 <= i < hidden.len() && hidden[i] {
        spec_skip_hidden(hidden, i + 1)
    } else {
        i
    }
}

/// The cuts of visible level `v` over `[a, b)` after the adjustments of
/// the hidden levels `v + 1 .. j`, applied in order.
pub open spec fn spec_adjusted_cuts(
    curve: Seq<Seq<u32>>,
    thr: u32,
    a: int,
    b: int,
    v: int,
    j: int,
) -> Seq<int>
    decreases j - v,
{
    if j <= v + 1 {
        spec_cuts(curve, v, thr, a, b)
    } else {
        spec_adjust(curve, j - 1, thr, spec_adjusted_cuts(curve, thr, a, b, v, j - 1), b)
    }
}

/// The start of the `m`-th sub-span of `[a, b)` under `cuts`.
pub open spec fn span_lo(cuts: Seq<int>, a: int, m: int) -> int {
    if m == 0 {
        a
    } else {
        cuts[m - 1]
    }
}

/// The end of the `m`-th sub-span of `[a, b)` under `cuts`.
pub open spec fn span_hi(cuts: Seq<int>, b: int, m: int) -> int {
    if m == cuts.len() {
        b
    } else {
        cuts[m]
    }
}

/// The exact shape of the tree the builder produces for the span
/// `[a, b)` of `text`, starting at level `i`: leading hidden levels are
/// skipped; with no visible level left the span is a leaf; otherwise the
/// first visible level's cuts, refined by the hidden levels that follow
/// it, partition the span, and each sub-span is built at the next
/// non-hidden level.
pub open spec fn tree_matches(
    s: Split,
    text: Seq<u8>,
    curve: Seq<Seq<u32>>,
    hidden: Seq<bool>,
    thr: u32,
    a: int,
    b: int,
    i: int,
) -> bool
    decreases hidden.len() - i,
    via tree_matches_decreases
{
    let v = spec_skip_hidden(hidden, i);
    if v >= hidden.len() {
        s matches Split::Text(t) && t@ == text.subrange(a, b)
    } else {
        let j = spec_skip_hidden(hidden, v + 1);
        let cuts = spec_adjusted_cuts(curve, thr, a, b, v, j);
        match s {
            Split::Text(_) => false,
            Split::Split(t, parts) => {
                &&& t@ == text.subrange(a, b)
                &&& parts@.len() == cuts.len() + 1
                &&& forall|m: int|
                    0 <= m < parts@.len() ==> tree_matches(
                        #[trigger] parts@[m],
                        text,
                        curve,
                        hidden,
                        thr,
                        span_lo(cuts, a, m),
                        span_hi(cuts, b, m),
                        j,
                    )
            },
        }
    }
}

#[via_fn]
proof fn tree_matches_decreases(
    s: Split,
    text: Seq<u8>,
    curve: Seq<Seq<u32>>,
    hidden: Seq<bool>,
    thr: u32,
    a: int,
    b: int,
    i: int,
) {
    lemma_skip_hidden_ge(hidden, i);
    lemma_skip_hidden_ge(hidden, spec_skip_hidden(hidden, i) + 1);
}

/// Skipping hidden levels never moves left.
pub proof fn lemma_skip_hidden_ge(hidden: Seq<bool>, i: int)
    ensures
        spec_skip_hidden(hidden, i) >= i,
        i <= hidden.len() ==> spec_skip_hidden(hidden, i) <= hidden.len(),
        (i >= 0 && spec_skip_hidden(hidden, i) < hidden.len()) ==> !hidden[spec_skip_hidden(
            hidden,
            i,
        )],
    decreases hidden.len() - i,
{
    if 0 <= i < hidden.len() && hidden[i] {
        lemma_skip_hidden_ge(hidden, i + 1);
    }
}

/// Declared boundaries lie in `[a, i)` and strictly increase.
pub proof fn lemma_bounds_props(curve: Seq<Seq<u32>>, l: int, thr: u32, a: int, i: int)
    ensures
        ({
            let s = spec_bounds(curve, l, thr, a, i);
            &&& forall|k: int| 0 <= k < s.len() ==> a <= #[trigger] s[k] < i
            &&& forall|k: int| 0 <= k < s.len() - 1 ==> #[trigger] s[k] < s[k + 1]
        }),
    decreases i - a,
{
    if i > a {
        lemma_bounds_props(curve, l, thr, a, i - 1);
        let pre = spec_bounds(curve, l, thr, a, i - 1);
        let s = spec_bounds(curve, l, thr, a, i);
        if declared(curve, l, thr, a, i - 1) {
            assert(s =~= pre.push(i - 1));
            assert forall|k: int| 0 <= k < s.len() - 1 implies #[trigger] s[k] < s[k + 1] by {
                if k + 1 < pre.len() {
                    assert(s[k] == pre[k] && s[k + 1] == pre[k + 1]);
                } else {
                    assert(s[k] == pre[k] && s[k + 1] == i - 1);
                }
            }
        } else {
            assert(s =~= pre);
        }
    }
}

/// Strictly increasing cuts inside a span are fewer than the span is long.
proof fn lemma_sorted_lower(cuts: Seq<int>, a: int, b: int, k: int)
    requires
        sorted_in(cuts, a, b),
        0 <= k < cuts.len(),
    ensures
        cuts[k] >= a + 1 + k,
    decreases k,
{
    if k > 0 {
        lemma_sorted_lower(cuts, a, b, k - 1);
    }
}

/// The cuts of a level lie strictly inside the span and strictly increase.
pub proof fn lemma_cuts_sorted(curve: Seq<Seq<u32>>, l: int, thr: u32, a: int, b: int)
    ensures
        sorted_in(spec_cuts(curve, l, thr, a, b), a, b),
{
    lemma_bounds_props(curve, l, thr, a, b - 1);
}

/// Extension stays between its start and its cap.
pub proof fn lemma_extend_bounds(curve: Seq<Seq<u32>>, h: int, thr: u32, c: int, cap: int)
    requires
        c <= cap,
    ensures
        c <= spec_extend(curve, h, thr, c, cap) <= cap,
    decreases cap - c,
{
    if c < cap && above(curve, h, thr, c) {
        lemma_extend_bounds(curve, h, thr, c + 1, cap);
    }
}

/// Adjustment keeps the cuts strictly increasing and strictly inside the
/// span, and never moves a cut left.
pub proof fn lemma_adjust_sorted(
    curve: Seq<Seq<u32>>,
    h: int,
    thr: u32,
    cuts: Seq<int>,
    a: int,
    b: int,
)
    requires
        sorted_in(cuts, a, b),
    ensures
        sorted_in(spec_adjust(curve, h, thr, cuts, b), a, b),
        cuts.len() > 0 ==> forall|k: int|
            0 <= k < spec_adjust(curve, h, thr, cuts, b).len() ==> #[trigger] spec_adjust(
                curve,
                h,
                thr,
                cuts,
                b,
            )[k] >= cuts[0],
    decreases cuts.len(),
{
    if cuts.len() > 0 {
        let cap = if cuts.len() > 1 {
            cuts[1]
        } else {
            b
        };
        let e = spec_extend(curve, h, thr, cuts[0], cap);
        lemma_extend_bounds(curve, h, thr, cuts[0], cap);
        let tail = cuts.drop_first();
        assert(forall|k: int| 0 <= k < tail.len() ==> #[trigger] tail[k] == cuts[k + 1]);
        lemma_adjust_sorted(curve, h, thr, tail, a, b);
    }
}

/// Computes the cut offsets of channel `l` over the span `[a, b)`.
fn compute_cuts(curve: &Vec<Vec<u32>>, l: usize, thr: u32, a: usize, b: usize) -> (cuts: Vec<usize>)
    requires
        a <= b <= curve@.len(),
        forall|p: int| 0 <= p < curve@.len() ==> l < (#[trigger] curve@[p])@.len(),
    ensures
        iview(cuts@) == spec_cuts(cview(curve@), l as int, thr, a as int, b as int),
{
    let ghost cv = cview(curve@);
    let mut cuts: Vec<usize> = Vec::new();
    if b - a <= 1 {
        proof {
            assert(iview(cuts@) =~= spec_cuts(cv, l as int, thr, a as int, b as int));
        }
        return cuts;
    }
    let mut i: usize = a;
    let mut prev: bool = false;
    while i < b - 1
        invariant
            a <= i <= b - 1,
            b <= curve@.len(),
            forall|p: int| 0 <= p < curve@.len() ==> l < (#[trigger] curve@[p])@.len(),
            cv == cview(curve@),
            prev == (i > a && declared(cv, l as int, thr, a as int, i - 1)),
            iview(cuts@) == spec_bounds(cv, l as int, thr, a as int, i as int).map_values(
                |p: int| p + 1,
            ),
        decreases b - 1 - i,
    {
        let is_above = curve[i][l] > thr;
        let is_boundary = is_above && !prev;
        let ghost pre = spec_bounds(cv, l as int, thr, a as int, i as int);
        let ghost cuts_pre = cuts@;
        if is_boundary {
            cuts.push(i + 1);
        }
        proof {
            assert(cv[i as int] == curve@[i as int]@);
            assert(is_above == above(cv, l as int, thr, i as int));
            assert(is_boundary == declared(cv, l as int, thr, a as int, i as int));
            let post = spec_bounds(cv, l as int, thr, a as int, i + 1);
            if is_boundary {
                assert(post =~= pre.push(i as int));
                pre.lemma_push_map_commute(|p: int| p + 1, i as int);
                cuts_pre.lemma_push_map_commute(|x: usize| x as int, (i + 1) as usize);
                assert(iview(cuts@) =~= post.map_values(|p: int| p + 1));
            } else {
                assert(post =~= pre);
            }
        }
        i = i + 1;
        prev = is_boundary;
    }
    proof {
        assert(iview(cuts@) =~= spec_cuts(cv, l as int, thr, a as int, b as int));
    }
    cuts
}

/// Applies the boundary adjustment of hidden channel `h` to the cuts of a
/// span ending at `b`.
fn adjust_cuts(curve: &Vec<Vec<u32>>, h: usize, thr: u32, cuts: &Vec<usize>, a: usize, b: usize) -> (out: Vec<
    usize,
>)
    requires
        a <= b <= curve@.len(),
        forall|p: int| 0 <= p < curve@.len() ==> h < (#[trigger] curve@[p])@.len(),
        sorted_in(iview(cuts@), a as int, b as int),
    ensures
        iview(out@) == spec_adjust(cview(curve@), h as int, thr, iview(cuts@), b as int),
{
    let ghost cv = cview(curve@);
    let ghost full = iview(cuts@);
    let mut out: Vec<usize> = Vec::new();
    proof {
        assert(full.skip(0) =~= full);
        assert(iview(out@) =~= Seq::<int>::empty());
        assert(iview(out@) + spec_adjust(cv, h as int, thr, full, b as int) =~= spec_adjust(
            cv,
            h as int,
            thr,
            full,
            b as int,
        ));
    }
    let mut m: usize = 0;
    while m < cuts.len()
        invariant
            m <= cuts@.len(),
            a <= b <= curve@.len(),
            forall|p: int| 0 <= p < curve@.len() ==> h < (#[trigger] curve@[p])@.len(),
            cv == cview(curve@),
            full == iview(cuts@),
            sorted_in(full, a as int, b as int),
            iview(out@) + spec_adjust(cv, h as int, thr, full.skip(m as int), b as int)
                == spec_adjust(cv, h as int, thr, full, b as int),
        decreases cuts@.len() - m,
    {
        let cap: usize = if m + 1 < cuts.len() {
            cuts[m + 1]
        } else {
            b
        };
        let ghost suffix = full.skip(m as int);
        proof {
            assert(suffix[0] == full[m as int]);
            if m + 1 < cuts@.len() {
                assert(suffix[1] == full[m + 1]);
            }
            assert(cuts@[m as int] as int == full[m as int]);
            assert(full[m as int] <= cap as int) by {
                if m + 1 < cuts@.len() {
                    assert(full[m as int] < full[m + 1]);
                } else {
                    assert(full[m as int] < b as int);
                }
            }
        }
        let mut c: usize = cuts[m];
        while c < cap && curve[c][h] > thr
            invariant
                cuts@[m as int] <= c <= cap,
                cap <= b <= curve@.len(),
                forall|p: int| 0 <= p < curve@.len() ==> h < (#[trigger] curve@[p])@.len(),
                cv == cview(curve@),
                spec_extend(cv, h as int, thr, c as int, cap as int) == spec_extend(
                    cv,
                    h as int,
                    thr,
                    cuts@[m as int] as int,
                    cap as int,
                ),
            decreases cap - c,
        {
            proof {
                assert(cv[c as int] == curve@[c as int]@);
            }
            c = c + 1;
        }
        proof {
            assert(c < cap ==> cv[c as int] == curve@[c as int]@);
            assert(c as int == spec_extend(cv, h as int, thr, cuts@[m as int] as int, cap as int));
        }
        let ghost out_pre = iview(out@);
        if c < cap {
            out.push(c);
        }
        proof {
            let scap: int = if suffix.len() > 1 {
                suffix[1]
            } else {
                b as int
            };
            assert(scap == cap as int);
            let e = spec_extend(cv, h as int, thr, suffix[0], scap);
            assert(e == c as int);
            assert(suffix.drop_first() =~= full.skip(m + 1));
            assert(spec_adjust(cv, h as int, thr, suffix, b as int) == (if e < scap {
                seq![e]
            } else {
                Seq::<int>::empty()
            }) + spec_adjust(cv, h as int, thr, full.skip(m + 1), b as int));
            if c < cap {
                assert(iview(out@) =~= out_pre + seq![c as int]);
                assert(iview(out@) + spec_adjust(cv, h as int, thr, full.skip(m + 1), b as int)
                    =~= spec_adjust(cv, h as int, thr, full, b as int));
            } else {
                assert(iview(out@) + spec_adjust(cv, h as int, thr, full.skip(m + 1), b as int)
                    =~= spec_adjust(cv, h as int, thr, full, b as int));
            }
        }
        m = m + 1;
    }
    proof {
        assert(full.skip(cuts@.len() as int) =~= Seq::<int>::empty());
        assert(iview(out@) =~= spec_adjust(cv, h as int, thr, full, b as int));
    }
    out
}

/// Builds the split tree of the span `[a, b)` of `text`, starting at
/// level `i` of the hierarchy, from the probability curve of the whole
/// text. The tree it returns is well formed, spans exactly the given
/// range, and has the shape `tree_matches` describes.
pub fn build_split(
    text: &Vec<u8>,
    curve: &Vec<Vec<u32>>,
    hidden: &Vec<bool>,
    thr: u32,
    a: usize,
    b: usize,
    i: usize,
) -> (r: Split)
    requires
        a <= b <= text@.len(),
        curve@.len() == text@.len(),
        forall|p: int| 0 <= p < curve@.len() ==> (#[trigger] curve@[p])@.len() == hidden@.len(),
        i <= hidden@.len(),
    ensures
        tree_matches(r, text@, cview(curve@), hidden@, thr, a as int, b as int, i as int),
        wf(r),
        full_text(r) == text@.subrange(a as int, b as int),
        leaf_concat(r) == text@.subrange(a as int, b as int),
    decreases hidden@.len() - i,
{
    let ghost cv = cview(curve@);
    let mut v: usize = i;
    while v < hidden.len() && hidden[v]
        invariant
            i <= v <= hidden@.len(),
            spec_skip_hidden(hidden@, i as int) == spec_skip_hidden(hidden@, v as int),
        decreases hidden@.len() - v,
    {
        v = v + 1;
    }
    proof {
        assert(spec_skip_hidden(hidden@, v as int) == v as int);
        assert(spec_skip_hidden(hidden@, i as int) == v as int);
    }
    if v >= hidden.len() {
        let t = crate::tree::copy_range(text, a, b);
        let r = Split::Text(t);
        proof {
            assert(tree_matches(r, text@, cv, hidden@, thr, a as int, b as int, i as int));
        }
        return r;
    }
    let mut cuts = compute_cuts(curve, v, thr, a, b);
    proof {
        lemma_cuts_sorted(cv, v as int, thr, a as int, b as int);
    }
    let mut j: usize = v + 1;
    while j < hidden.len() && hidden[j]
        invariant
            v + 1 <= j <= hidden@.len(),
            v < hidden@.len(),
            a <= b <= text@.len(),
            curve@.len() == text@.len(),
            forall|p: int| 0 <= p < curve@.len() ==> (#[trigger] curve@[p])@.len()
                == hidden@.len(),
            cv == cview(curve@),
            spec_skip_hidden(hidden@, (v + 1) as int) == spec_skip_hidden(hidden@, j as int),
            iview(cuts@) == spec_adjusted_cuts(cv, thr, a as int, b as int, v as int, j as int),
            sorted_in(iview(cuts@), a as int, b as int),
        decreases hidden@.len() - j,
    {
        let ghost pre_cuts = iview(cuts@);
        cuts = adjust_cuts(curve, j, thr, &cuts, a, b);
        proof {
            lemma_adjust_sorted(cv, j as int, thr, pre_cuts, a as int, b as int);
            assert(spec_adjusted_cuts(cv, thr, a as int, b as int, v as int, j + 1)
                == spec_adjust(cv, j as int, thr, pre_cuts, b as int));
        }
        j = j + 1;
    }
    proof {
        assert(spec_skip_hidden(hidden@, j as int) == j as int);
        assert(spec_skip_hidden(hidden@, (v + 1) as int) == j as int);
    }
    let ghost gcuts = iview(cuts@);
    proof {
        if gcuts.len() > 0 {
            lemma_sorted_lower(gcuts, a as int, b as int, gcuts.len() - 1);
        }
    }
    let n_spans: usize = cuts.len() + 1;
    let mut parts: Vec<Split> = Vec::new();
    proof {
        assert(leaf_concat_list(parts@) =~= text@.subrange(a as int, a as int));
    }
    let mut m: usize = 0;
    while m < n_spans
        invariant
            n_spans == cuts@.len() + 1,
            m <= n_spans,
            parts@.len() == m,
            a <= b <= text@.len(),
            curve@.len() == text@.len(),
            forall|p: int| 0 <= p < curve@.len() ==> (#[trigger] curve@[p])@.len()
                == hidden@.len(),
            cv == cview(curve@),
            v < j <= hidden@.len(),
            i <= v,
            gcuts == iview(cuts@),
            sorted_in(gcuts, a as int, b as int),
            forall|k: int|
                0 <= k < m as int ==> tree_matches(
                    #[trigger] parts@[k],
                    text@,
                    cv,
                    hidden@,
                    thr,
                    span_lo(gcuts, a as int, k),
                    span_hi(gcuts, b as int, k),
                    j as int,
                ),
            forall|k: int| 0 <= k < m as int ==> wf(#[trigger] parts@[k]),
            leaf_concat_list(parts@) == text@.subrange(
                a as int,
                (if m == 0 {
                    a as int
                } else {
                    span_hi(gcuts, b as int, m - 1)
                }),
            ),
        decreases n_spans - m,
    {
        let lo: usize = if m == 0 {
            a
        } else {
            cuts[m - 1]
        };
        let hi: usize = if m == cuts.len() {
            b
        } else {
            cuts[m]
        };
        proof {
            assert(lo as int == span_lo(gcuts, a as int, m as int));
            assert(hi as int == span_hi(gcuts, b as int, m as int));
            assert(lo <= hi) by {
                if 0 < m && m < gcuts.len() {
                    assert(gcuts[m - 1] < gcuts[m as int]);
                }
            }
            assert(hi <= b);
        }
        let ghost lcl_pre = leaf_concat_list(parts@);
        let ghost parts_pre = parts@;
        let child = build_split(text, curve, hidden, thr, lo, hi, j);
        parts.push(child);
        proof {
            assert(parts@.drop_last() =~= parts_pre);
            assert(parts@.last() == child);
            assert(leaf_concat_list(parts@) == lcl_pre + leaf_concat(child));
            assert(text@.subrange(a as int, lo as int) + text@.subrange(lo as int, hi as int)
                =~= text@.subrange(a as int, hi as int));
            assert(leaf_concat_list(parts@) == text@.subrange(a as int, hi as int));
            if m + 1 < n_spans {
                assert(span_lo(gcuts, a as int, m + 1) == gcuts[m as int]);
                assert(hi as int == gcuts[m as int]);
            }
        }
        m = m + 1;
    }
    let t = crate::tree::copy_range(text, a, b);
    let r = Split::Split(t, parts);
    proof {
        assert(leaf_concat_list(parts@) == text@.subrange(a as int, b as int));
        assert(full_text(r) == text@.subrange(a as int, b as int));
        assert(wf(r));
        assert(spec_adjusted_cuts(cv, thr, a as int, b as int, v as int, j as int) == gcuts);
        assert(tree_matches(r, text@, cv, hidden@, thr, a as int, b as int, i as int));
    }
    r
}


/// Hidden levels contribute nothing to the visible count.
pub proof fn lemma_vc_skip(hidden: Seq<bool>, i: int)
    requires
        0 <= i <= hidden.len(),
    ensures
        visible_count_from(hidden, i) == visible_count_from(hidden, spec_skip_hidden(hidden, i)),
    decreases hidden.len() - i,
{
    if i < hidden.len() && hidden[i] {
        lemma_vc_skip(hidden, i + 1);
    }
}

/// The visible count is never negative.
pub proof fn lemma_vc_nonneg(hidden: Seq<bool>, i: int)
    ensures
        visible_count_from(hidden, i) >= 0,
    decreases hidden.len() - i,
{
    if 0 <= i < hidden.len() {
        lemma_vc_nonneg(hidden, i + 1);
    }
}

/// A forest of equal-depth trees has that depth.
proof fn lemma_depth_list_const(ps: Seq<Split>, d: int)
    requires
        ps.len() >= 1,
        d >= 0,
        forall|m: int| 0 <= m < ps.len() ==> depth(#[trigger] ps[m]) == d,
    ensures
        depth_list(ps) == d,
    decreases ps.len(),
{
    assert(ps.last() == ps[ps.len() - 1]);
    assert(depth(ps.last()) == d);
    if ps.len() == 1 {
        assert(ps.drop_last().len() == 0);
        assert(depth_list(ps.drop_last()) == 0);
        assert(depth_list(ps) == d);
    }
    if ps.len() > 1 {
        assert(forall|m: int|
            0 <= m < ps.drop_last().len() ==> depth(#[trigger] ps.drop_last()[m]) == d);
        lemma_depth_list_const(ps.drop_last(), d);
    }
}

/// Hierarchy consistency: the nesting depth of a built tree equals the
/// number of visible levels that remain in the hierarchy — hidden levels
/// never materialize as a tree depth.
pub proof fn lemma_tree_depth(
    s: Split,
    text: Seq<u8>,
    curve: Seq<Seq<u32>>,
    hidden: Seq<bool>,
    thr: u32,
    a: int,
    b: int,
    i: int,
)
    requires
        0 <= i <= hidden.len(),
        tree_matches(s, text, curve, hidden, thr, a, b, i),
    ensures
        depth(s) == visible_count_from(hidden, i),
    decreases hidden.len() - i,
{
    let v = spec_skip_hidden(hidden, i);
    lemma_skip_hidden_ge(hidden, i);
    lemma_vc_skip(hidden, i);
    if v < hidden.len() {
        let j = spec_skip_hidden(hidden, v + 1);
        lemma_skip_hidden_ge(hidden, v + 1);
        lemma_vc_skip(hidden, v + 1);
        lemma_vc_nonneg(hidden, j);
        let cuts = spec_adjusted_cuts(curve, thr, a, b, v, j);
        match s {
            Split::Text(_) => {
                assert(false);
            },
            Split::Split(t0, parts) => {
                assert forall|m: int| 0 <= m < parts@.len() implies depth(#[trigger] parts@[m])
                    == visible_count_from(hidden, j) by {
                    lemma_tree_depth(
                        parts@[m],
                        text,
                        curve,
                        hidden,
                        thr,
                        span_lo(cuts, a, m),
                        span_hi(cuts, b, m),
                        j,
                    );
                }
                lemma_depth_list_const(parts@, visible_count_from(hidden, j));
                assert(visible_count_from(hidden, v) == 1 + visible_count_from(hidden, v + 1));
            },
        }
    }
}

} // verus!
