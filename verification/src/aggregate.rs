//! The aggregator: folds per-window, per-level predictions back into one
//! probability curve per text by averaging over overlapping windows, then
//! strips the outer padding so the curve aligns with the original bytes.

use vstd::prelude::*;
use crate::options::{NNSplitOptions, MAX_PADDED_LEN};
use crate::window::{
    Window, WinModel, wview, tviews, fits, spec_padded_len, spec_num_windows, spec_all_windows,
    windows_for_text, lemma_num_windows_pos,
};
use crate::builder::cview;
use crate::PROB_ONE;

verus! {

broadcast use vstd::std_specs::vec::group_vec_axioms, vstd::seq::group_seq_axioms;

/// Upper bound on how many windows one call may aggregate (a machine
/// limit: it keeps every sum buffer inside `u64`).
pub const MAX_WINDOWS: usize = 0x4000_0000;

/// The view of a prediction tensor: per window, per position, per level.
pub open spec fn pview(preds: Seq<Vec<Vec<u32>>>) -> Seq<Seq<Seq<u32>>> {
    preds.map_values(|w: Vec<Vec<u32>>| cview(w@))
}

/// Whether a window of text `t` starting at `off` covers absolute
/// position `pos` of that text's padded sequence.
pub open spec fn covers(w: WinModel, t: int, pos: int, ml: int) -> bool {
    w.text_id == t && w.offset <= pos < w.offset + ml
}

/// How many of the first `k` windows cover position `pos` of text `t`.
pub open spec fn spec_count_upto(ws: Seq<WinModel>, t: int, pos: int, ml: int, k: int) -> int
    decreases k,
{
    if k <= 0 {
        0
    } else {
        spec_count_upto(ws, t, pos, ml, k - 1) + (if covers(ws[k - 1], t, pos, ml) {
            1int
        } else {
            0int
        })
    }
}

/// The summed predictions of the first `k` windows at position `pos` of
/// text `t`, level `l`.
pub open spec fn spec_sum_upto(
    ws: Seq<WinModel>,
    preds: Seq<Seq<Seq<u32>>>,
    t: int,
    pos: int,
    ml: int,
    l: int,
    k: int,
) -> int
    decreases k,
{
    if k <= 0 {
        0
    } else {
        spec_sum_upto(ws, preds, t, pos, ml, l, k - 1) + (if covers(ws[k - 1], t, pos, ml) {
            preds[k - 1][pos - ws[k - 1].offset][l] as int
        } else {
            0int
        })
    }
}

/// The averaged probability at position `pos` of text `t`, level `l`:
/// the plain mean of every window prediction that covers the position,
/// rounded down.
pub open spec fn spec_avg(
    ws: Seq<WinModel>,
    preds: Seq<Seq<Seq<u32>>>,
    t: int,
    pos: int,
    ml: int,
    l: int,
) -> int {
    spec_sum_upto(ws, preds, t, pos, ml, l, ws.len() as int) / spec_count_upto(
        ws,
        t,
        pos,
        ml,
        ws.len() as int,
    )
}

/// The reconstructed probability curve of one text: one row per original
/// byte position (padding stripped), one averaged probability per level.
pub open spec fn spec_curve(
    ws: Seq<WinModel>,
    preds: Seq<Seq<Seq<u32>>>,
    text: Seq<u8>,
    opts: NNSplitOptions,
    t: int,
    n_levels: int,
) -> Seq<Seq<u32>> {
    Seq::new(
        text.len(),
        |p: int|
            Seq::new(
                n_levels as nat,
                |l: int|
                    spec_avg(ws, preds, t, p + opts.padding, opts.max_length as int, l) as u32,
            ),
    )
}

/// Coverage: whatever the stride, the window length and the text length
/// — texts longer than a window and empty texts included — the
/// reconstructed curve holds exactly one value per original byte
/// position per level.
pub proof fn lemma_curve_coverage(
    ws: Seq<WinModel>,
    preds: Seq<Seq<Seq<u32>>>,
    text: Seq<u8>,
    opts: NNSplitOptions,
    t: int,
    n_levels: int,
)
    requires
        n_levels >= 0,
    ensures
        spec_curve(ws, preds, text, opts, t, n_levels).len() == text.len(),
        forall|p: int|
            0 <= p < text.len() ==> #[trigger] spec_curve(
                ws,
                preds,
                text,
                opts,
                t,
                n_levels,
            )[p].len() == n_levels,
{
}

/// The shape the prediction tensor must have for a window list: one row
/// of `max_length` positions per window, one value per level, every
/// value a probability of at most `PROB_ONE`.
pub open spec fn preds_wf(
    preds: Seq<Seq<Seq<u32>>>,
    n_windows: int,
    ml: int,
    n_levels: int,
) -> bool {
    &&& preds.len() == n_windows
    &&& forall|k: int| 0 <= k < preds.len() ==> (#[trigger] preds[k]).len() == ml
    &&& forall|k: int, p: int|
        0 <= k < preds.len() && 0 <= p < ml ==> (#[trigger] preds[k][p]).len() == n_levels
    &&& forall|k: int, p: int, l: int|
        0 <= k < preds.len() && 0 <= p < ml && 0 <= l < n_levels ==> (#[trigger] preds[k][p][l])
            <= PROB_ONE
}

/// Window counts never shrink as more windows are folded in.
proof fn lemma_count_mono(ws: Seq<WinModel>, t: int, pos: int, ml: int, k1: int, k2: int)
    requires
        k1 <= k2,
    ensures
        spec_count_upto(ws, t, pos, ml, k1) <= spec_count_upto(ws, t, pos, ml, k2),
    decreases k2,
{
    if k2 > 0 && k1 < k2 {
        lemma_count_mono(ws, t, pos, ml, k1, k2 - 1);
    }
}

/// A position some window covers is counted at least once.
proof fn lemma_count_at_least_one(ws: Seq<WinModel>, t: int, pos: int, ml: int, g: int, k: int)
    requires
        0 <= g < k <= ws.len(),
        covers(ws[g], t, pos, ml),
    ensures
        spec_count_upto(ws, t, pos, ml, k) >= 1,
    decreases k,
{
    lemma_count_mono(ws, t, pos, ml, 0, g);
    lemma_count_mono(ws, t, pos, ml, g + 1, k);
}

/// Within one text, every padded position below the padded length is
/// covered by some window: window starts advance by at most a window
/// length and the last window reaches the end.
proof fn lemma_window_covering(l: int, ml: int, s: int, pos: int)
    requires
        1 <= s <= ml,
        0 <= pos < l,
    ensures
        exists|k: int|
            0 <= k < spec_num_windows(l, ml, s) && #[trigger] (k * s) <= pos < k * s + ml,
    decreases l,
{
    if l <= ml || pos < ml {
        assert(0 * s <= pos < 0 * s + ml);
        lemma_num_windows_pos(l, ml, s);
    } else {
        lemma_window_covering(l - s, ml, s, pos - s);
        let k0 = choose|k: int|
            0 <= k < spec_num_windows(l - s, ml, s) && #[trigger] (k * s) <= pos - s < k * s + ml;
        assert((k0 + 1) * s == k0 * s + s) by (nonlinear_arith);
        assert((k0 + 1) * s <= pos < (k0 + 1) * s + ml);
    }
}

/// The flat window list holds, for every text and every window index of
/// that text, a window with that text id and offset.
proof fn lemma_all_windows_contains(texts: Seq<Seq<u8>>, opts: NNSplitOptions, t: int, kk: int)
    requires
        0 <= t < texts.len(),
        0 <= kk < spec_num_windows(
            spec_padded_len(texts[t].len() as int, opts),
            opts.max_length as int,
            opts.stride as int,
        ),
    ensures
        exists|g: int|
            0 <= g < spec_all_windows(texts, opts).len() && #[trigger] spec_all_windows(
                texts,
                opts,
            )[g] == windows_for_text(texts[t], t, opts)[kk],
    decreases texts.len(),
{
    let saw = spec_all_windows(texts, opts);
    let prefix = spec_all_windows(texts.drop_last(), opts);
    let wft = windows_for_text(texts.last(), texts.len() - 1, opts);
    lemma_num_windows_pos(
        spec_padded_len(texts[t].len() as int, opts),
        opts.max_length as int,
        opts.stride as int,
    );
    lemma_num_windows_pos(
        spec_padded_len(texts.last().len() as int, opts),
        opts.max_length as int,
        opts.stride as int,
    );
    if t == texts.len() - 1 {
        let g = prefix.len() + kk;
        assert(saw[g as int] == wft[kk]);
    } else {
        assert(texts.drop_last()[t] == texts[t]);
        lemma_all_windows_contains(texts.drop_last(), opts, t, kk);
        let g0 = choose|g: int|
            0 <= g < prefix.len() && #[trigger] prefix[g] == windows_for_text(
                texts.drop_last()[t],
                t,
                opts,
            )[kk];
        assert(saw[g0] == prefix[g0]);
    }
}

/// Every original byte position of every text is covered by at least one
/// window of the full window list.
pub proof fn lemma_coverage(
    texts: Seq<Seq<u8>>,
    opts: NNSplitOptions,
    ws: Seq<WinModel>,
    t: int,
    pos: int,
)
    requires
        opts.valid(),
        ws == spec_all_windows(texts, opts),
        0 <= t < texts.len(),
        0 <= pos < spec_padded_len(texts[t].len() as int, opts),
    ensures
        spec_count_upto(ws, t, pos, opts.max_length as int, ws.len() as int) >= 1,
{
    let pl = spec_padded_len(texts[t].len() as int, opts);
    let ml = opts.max_length as int;
    let s = opts.stride as int;
    lemma_window_covering(pl, ml, s, pos);
    let kk = choose|k: int|
        0 <= k < spec_num_windows(pl, ml, s) && #[trigger] (k * s) <= pos < k * s + ml;
    lemma_all_windows_contains(texts, opts, t, kk);
    let g = choose|g: int|
        0 <= g < ws.len() && #[trigger] ws[g] == windows_for_text(texts[t], t, opts)[kk];
    assert(ws[g].text_id == t && ws[g].offset == kk * s);
    assert(covers(ws[g], t, pos, ml));
    lemma_count_at_least_one(ws, t, pos, ml, g, ws.len() as int);
}

/// Reconstructs one probability curve per text from the raw prediction
/// tensor: at every original byte position and level, the value is the
/// plain mean of the predictions of all windows that cover the position
/// (the padded positions at both ends are stripped).
pub fn reconstruct(
    texts: &Vec<Vec<u8>>,
    windows: &Vec<Window>,
    preds: &Vec<Vec<Vec<u32>>>,
    opts: &NNSplitOptions,
    n_levels: usize,
) -> (r: Vec<Vec<Vec<u32>>>)
    requires
        opts.valid(),
        fits(tviews(texts@), *opts),
        windows@.map_values(|w: Window| wview(w)) == spec_all_windows(tviews(texts@), *opts),
        windows@.len() <= MAX_WINDOWS,
        preds_wf(
            pview(preds@),
            windows@.len() as int,
            opts.max_length as int,
            n_levels as int,
        ),
    ensures
        r@.len() == texts@.len(),
        forall|t: int| 0 <= t < texts@.len() ==> (#[trigger] r@[t])@.len() == texts@[t]@.len(),
        forall|t: int, p: int|
            0 <= t < texts@.len() && 0 <= p < texts@[t]@.len() ==> (#[trigger] r@[t]@[p])@.len()
                == n_levels,
        forall|t: int, p: int, l: int|
            0 <= t < texts@.len() && 0 <= p < texts@[t]@.len() && 0 <= l < n_levels
                ==> (#[trigger] r@[t]@[p]@[l]) as int == spec_avg(
                windows@.map_values(|w: Window| wview(w)),
                pview(preds@),
                t,
                p + opts.padding,
                opts.max_length as int,
                l,
            ),
{
    let ghost tv = tviews(texts@);
    let ghost ws = windows@.map_values(|w: Window| wview(w));
    let ghost pv = pview(preds@);
    let ml = opts.max_length;
    let mut r: Vec<Vec<Vec<u32>>> = Vec::new();
    let mut t: usize = 0;
    while t < texts.len()
        invariant
            t <= texts@.len(),
            opts.valid(),
            fits(tv, *opts),
            tv == tviews(texts@),
            ws == windows@.map_values(|w: Window| wview(w)),
            pv == pview(preds@),
            ws == spec_all_windows(tv, *opts),
            windows@.len() <= MAX_WINDOWS,
            ml == opts.max_length,
            preds_wf(pv, windows@.len() as int, ml as int, n_levels as int),
            r@.len() == t,
            forall|tt: int| 0 <= tt < t as int ==> (#[trigger] r@[tt])@.len() == texts@[tt]@.len(),
            forall|tt: int, p: int|
                0 <= tt < t as int && 0 <= p < texts@[tt]@.len() ==> (#[trigger] r@[tt]@[p])@.len()
                    == n_levels,
            forall|tt: int, p: int, l: int|
                0 <= tt < t as int && 0 <= p < texts@[tt]@.len() && 0 <= l < n_levels
                    ==> (#[trigger] r@[tt]@[p]@[l]) as int == spec_avg(
                    ws,
                    pv,
                    tt,
                    p + opts.padding,
                    ml as int,
                    l,
                ),
        decreases texts@.len() - t,
    {
        let n = texts[t].len();
        proof {
            assert(tv[t as int] == texts@[t as int]@);
            assert(n + 2 * opts.padding + opts.length_divisor <= MAX_PADDED_LEN);
        }
        let mut curve: Vec<Vec<u32>> = Vec::new();
        let mut p: usize = 0;
        while p < n
            invariant
                p <= n,
                t < texts@.len(),
                n == texts@[t as int]@.len(),
                n + 2 * opts.padding + opts.length_divisor <= MAX_PADDED_LEN,
                opts.valid(),
                fits(tv, *opts),
                tv == tviews(texts@),
                ws == windows@.map_values(|w: Window| wview(w)),
                pv == pview(preds@),
                ws == spec_all_windows(tv, *opts),
                windows@.len() <= MAX_WINDOWS,
                ml == opts.max_length,
                preds_wf(pv, windows@.len() as int, ml as int, n_levels as int),
                curve@.len() == p,
                forall|pp: int|
                    0 <= pp < p as int ==> (#[trigger] curve@[pp])@.len() == n_levels,
                forall|pp: int, l: int|
                    0 <= pp < p as int && 0 <= l < n_levels ==> (#[trigger] curve@[pp]@[l]) as int
                        == spec_avg(ws, pv, t as int, pp + opts.padding, ml as int, l),
            decreases n - p,
        {
            let pos = opts.padding + p;
            let mut row: Vec<u32> = Vec::new();
            let mut l: usize = 0;
            while l < n_levels
                invariant
                    l <= n_levels,
                    p < n,
                    t < texts@.len(),
                    n == texts@[t as int]@.len(),
                    n + 2 * opts.padding + opts.length_divisor <= MAX_PADDED_LEN,
                    pos == opts.padding + p,
                    opts.valid(),
                    fits(tv, *opts),
                    tv == tviews(texts@),
                    ws == windows@.map_values(|w: Window| wview(w)),
                    pv == pview(preds@),
                    ws == spec_all_windows(tv, *opts),
                    windows@.len() <= MAX_WINDOWS,
                    ml == opts.max_length,
                    preds_wf(pv, windows@.len() as int, ml as int, n_levels as int),
                    row@.len() == l,
                    forall|ll: int|
                        0 <= ll < l as int ==> (#[trigger] row@[ll]) as int == spec_avg(
                            ws,
                            pv,
                            t as int,
                            pos as int,
                            ml as int,
                            ll,
                        ),
                decreases n_levels - l,
            {
                let mut sum: u64 = 0;
                let mut cnt: u64 = 0;
                let mut k: usize = 0;
                while k < windows.len()
                    invariant
                        k <= windows@.len(),
                        t < texts@.len(),
                        l < n_levels,
                        pos == opts.padding + p,
                        opts.valid(),
                        ws == windows@.map_values(|w: Window| wview(w)),
                        pv == pview(preds@),
                        windows@.len() <= MAX_WINDOWS,
                        ml == opts.max_length,
                        preds_wf(pv, windows@.len() as int, ml as int, n_levels as int),
                        cnt as int == spec_count_upto(ws, t as int, pos as int, ml as int, k as int),
                        sum as int == spec_sum_upto(
                            ws,
                            pv,
                            t as int,
                            pos as int,
                            ml as int,
                            l as int,
                            k as int,
                        ),
                        cnt <= k,
                        sum <= cnt * (PROB_ONE as u64),
                    decreases windows@.len() - k,
                {
                    let w = &windows[k];
                    proof {
                        assert(ws[k as int] == wview(windows@[k as int]));
                    }
                    if w.text_id == t && w.offset <= pos && pos - w.offset < ml {
                        proof {
                            assert(covers(ws[k as int], t as int, pos as int, ml as int));
                            assert(pv[k as int] == cview(preds@[k as int]@));
                            assert(pv[k as int][pos - w.offset]
                                == preds@[k as int]@[pos - w.offset]@);
                            assert(pv[k as int][pos - w.offset][l as int] <= PROB_ONE);
                            assert(cnt as int + 1 <= k as int + 1);
                            assert((cnt as int + 1) * (PROB_ONE as int) == cnt as int * (
                            PROB_ONE as int) + PROB_ONE as int) by (nonlinear_arith);
                            assert(cnt as int * (PROB_ONE as int) <= (MAX_WINDOWS as int) * (
                            PROB_ONE as int)) by (nonlinear_arith)
                                requires
                                    0 <= cnt as int <= MAX_WINDOWS as int,
                            ;
                        }
                        sum = sum + (preds[k][pos - w.offset][l] as u64);
                        cnt = cnt + 1;
                    }
                    k = k + 1;
                }
                proof {
                    let x = n as int + 2 * (opts.padding as int);
                    let di = opts.length_divisor as int;
                    assert(((x + di - 1) / di) * di >= x) by (nonlinear_arith)
                        requires
                            di >= 1,
                            x >= 0,
                    ;
                    assert(spec_padded_len(n as int, *opts) >= x);
                    assert(pos < spec_padded_len(texts@[t as int]@.len() as int, *opts));
                    lemma_coverage(tv, *opts, ws, t as int, pos as int);
                    assert(cnt >= 1);
                    assert((sum as int) / (cnt as int) <= PROB_ONE as int) by (nonlinear_arith)
                        requires
                            cnt >= 1,
                            sum <= cnt * (PROB_ONE as u64),
                            sum >= 0,
                    ;
                }
                let avg = sum / cnt;
                row.push(avg as u32);
                l = l + 1;
            }
            curve.push(row);
            p = p + 1;
        }
        r.push(curve);
        t = t + 1;
    }
    r
}

} // verus!
