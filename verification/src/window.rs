//! The windower: slices byte-encoded texts into overlapping fixed-length
//! windows with zero padding, recording for every window its source text
//! and its absolute offset within the padded sequence.

use vstd::prelude::*;
use crate::options::{NNSplitOptions, MAX_PADDED_LEN};

verus! {

broadcast use vstd::std_specs::vec::group_vec_axioms, vstd::seq::group_seq_axioms;

/// One fixed-length window handed to the inference backend.
pub struct Window {
    /// Index of the text this window was cut from.
    pub text_id: usize,
    /// Absolute offset of the window's first byte within the padded
    /// byte sequence of its text.
    pub offset: usize,
    /// The window's bytes, exactly `max_length` of them.
    pub bytes: Vec<u8>,
}

/// The mathematical shadow of a window.
pub struct WinModel {
    /// Index of the source text.
    pub text_id: int,
    /// Absolute offset within the padded sequence.
    pub offset: int,
    /// The window's bytes.
    pub bytes: Seq<u8>,
}

/// The mathematical view of a window.
pub open spec fn wview(w: Window) -> WinModel {
    WinModel { text_id: w.text_id as int, offset: w.offset as int, bytes: w.bytes@ }
}

/// The views of a list of texts.
pub open spec fn tviews(texts: Seq<Vec<u8>>) -> Seq<Seq<u8>> {
    texts.map_values(|t: Vec<u8>| t@)
}

/// The least multiple of `d` that is at least `x`.
pub open spec fn spec_round_up(x: int, d: int) -> int {
    ((x + d - 1) / d) * d
}

/// The padded length of a text of `n` bytes: `padding` zero bytes on both
/// ends, then right-padded to a multiple of `length_divisor`.
pub open spec fn spec_padded_len(n: int, opts: NNSplitOptions) -> int {
    spec_round_up(n + 2 * opts.padding, opts.length_divisor as int)
}

/// The byte at absolute position `i` of the padded sequence: a byte of
/// the text where one lies, a zero pad byte everywhere else.
pub open spec fn spec_padded_byte(text: Seq<u8>, padding: int, i: int) -> u8 {
    if padding <= i < padding + text.len() {
        text[i - padding]
    } else {
        0
    }
}

/// How many windows cover a padded sequence of length `l`: one if a
/// single window suffices, else one more than cover the sequence shorter
/// by one stride. Even an empty text yields one (fully padded) window.
pub open spec fn spec_num_windows(l: int, max_length: int, stride: int) -> int
    decreases l,
{
    if 1 <= stride <= max_length && l > max_length {
        1 + spec_num_windows(l - stride, max_length, stride)
    } else {
        1
    }
}

/// Every padded sequence needs at least one window.
pub proof fn lemma_num_windows_pos(l: int, max_length: int, stride: int)
    ensures
        spec_num_windows(l, max_length, stride) >= 1,
    decreases l,
{
    if 1 <= stride <= max_length && l > max_length {
        lemma_num_windows_pos(l - stride, max_length, stride);
    }
}

/// The bytes of the window starting at absolute offset `off`.
pub open spec fn spec_window_bytes(text: Seq<u8>, opts: NNSplitOptions, off: int) -> Seq<u8> {
    Seq::new(opts.max_length as nat, |j: int| spec_padded_byte(text, opts.padding as int, off + j))
}

/// All windows of one text, in offset order; window `k` starts at
/// `k * stride`.
pub open spec fn windows_for_text(text: Seq<u8>, id: int, opts: NNSplitOptions) -> Seq<WinModel> {
    let l = spec_padded_len(text.len() as int, opts);
    Seq::new(
        spec_num_windows(l, opts.max_length as int, opts.stride as int) as nat,
        |k: int|
            WinModel {
                text_id: id,
                offset: k * opts.stride,
                bytes: spec_window_bytes(text, opts, k * opts.stride),
            },
    )
}

/// The windows of all texts, text by text, each text's windows in offset
/// order.
pub open spec fn spec_all_windows(texts: Seq<Seq<u8>>, opts: NNSplitOptions) -> Seq<WinModel>
    decreases texts.len(),
{
    if texts.len() == 0 {
        Seq::empty()
    } else {
        spec_all_windows(texts.drop_last(), opts) + windows_for_text(
            texts.last(),
            texts.len() - 1,
            opts,
        )
    }
}

/// The machine limit on text sizes: every padded length stays below
/// `MAX_PADDED_LEN`, so offsets and buffer sums fit their types.
pub open spec fn fits(texts: Seq<Seq<u8>>, opts: NNSplitOptions) -> bool {
    forall|t: int|
        0 <= t < texts.len() ==> (#[trigger] texts[t]).len() + 2 * opts.padding
            + opts.length_divisor <= MAX_PADDED_LEN
}

/// Windowing is a function of the text and the options alone: any two
/// window lists built from them are the same, window for window, offsets
/// and bytes included.
pub proof fn lemma_windowing_deterministic(
    texts: Seq<Seq<u8>>,
    opts: NNSplitOptions,
    w1: Seq<WinModel>,
    w2: Seq<WinModel>,
)
    requires
        w1 == spec_all_windows(texts, opts),
        w2 == spec_all_windows(texts, opts),
    ensures
        w1 == w2,
        w1.len() == w2.len(),
        forall|k: int| 0 <= k < w1.len() ==> #[trigger] w1[k].offset == w2[k].offset,
{
}

/// Builds the bytes of one window: text bytes where the window overlaps
/// the text, zero bytes over the outer padding and past the end.
fn window_bytes(text: &Vec<u8>, padding: usize, off: usize, max_length: usize) -> (r: Vec<u8>)
    requires
        off <= 2 * MAX_PADDED_LEN,
        max_length <= MAX_PADDED_LEN,
        padding <= MAX_PADDED_LEN,
        text@.len() <= MAX_PADDED_LEN,
    ensures
        r@ == Seq::new(max_length as nat, |j: int| spec_padded_byte(text@, padding as int, off + j)),
{
    let mut r: Vec<u8> = Vec::new();
    let mut j: usize = 0;
    while j < max_length
        invariant
            j <= max_length,
            off <= 2 * MAX_PADDED_LEN,
            max_length <= MAX_PADDED_LEN,
            padding <= MAX_PADDED_LEN,
            text@.len() <= MAX_PADDED_LEN,
            r@.len() == j,
            forall|jj: int|
                0 <= jj < j as int ==> r@[jj] == spec_padded_byte(text@, padding as int, off + jj),
        decreases max_length - j,
    {
        let abs = off + j;
        let byte: u8 = if abs >= padding && abs - padding < text.len() {
            text[abs - padding]
        } else {
            0
        };
        r.push(byte);
        j = j + 1;
    }
    proof {
        assert(r@ =~= Seq::new(
            max_length as nat,
            |jj: int| spec_padded_byte(text@, padding as int, off + jj),
        ));
    }
    r
}

/// Encodes every text into its overlapping windows: `padding` zero bytes
/// on both ends, total length rounded up to a multiple of
/// `length_divisor`, windows of `max_length` bytes advancing by `stride`
/// until the padded sequence is exhausted, the last window zero-padded on
/// the right. Purely deterministic; an empty text still yields one window.
pub fn encode_windows(texts: &Vec<Vec<u8>>, opts: &NNSplitOptions) -> (r: Vec<Window>)
    requires
        opts.valid(),
        fits(tviews(texts@), *opts),
    ensures
        r@.map_values(|w: Window| wview(w)) == spec_all_windows(tviews(texts@), *opts),
{
    let ghost tv = tviews(texts@);
    let mut r: Vec<Window> = Vec::new();
    proof {
        assert(r@.map_values(|w: Window| wview(w)) =~= spec_all_windows(tv.take(0), *opts));
    }
    let mut t: usize = 0;
    while t < texts.len()
        invariant
            t <= texts@.len(),
            opts.valid(),
            fits(tv, *opts),
            tv == tviews(texts@),
            r@.map_values(|w: Window| wview(w)) == spec_all_windows(tv.take(t as int), *opts),
        decreases texts@.len() - t,
    {
        let ghost r_pre = r@.map_values(|w: Window| wview(w));
        let text = &texts[t];
        let n = text.len();
        proof {
            assert(tv[t as int] == texts@[t as int]@);
            assert(n + 2 * opts.padding + opts.length_divisor <= MAX_PADDED_LEN);
        }
        let base = n + 2 * opts.padding;
        let d = opts.length_divisor;
        proof {
            let bi = base as int;
            let di = d as int;
            assert(((bi + di - 1) / di) * di <= bi + di - 1) by (nonlinear_arith)
                requires
                    di >= 1,
                    bi >= 0,
            ;
            assert(((bi + di - 1) / di) * di >= bi) by (nonlinear_arith)
                requires
                    di >= 1,
                    bi >= 0,
            ;
        }
        let pl = ((base + d - 1) / d) * d;
        proof {
            assert(pl as int == spec_padded_len(n as int, *opts));
            assert(pl <= MAX_PADDED_LEN);
        }
        let ghost nw = spec_num_windows(pl as int, opts.max_length as int, opts.stride as int);
        let ghost wft = windows_for_text(tv[t as int], t as int, *opts);
        proof {
            lemma_num_windows_pos(pl as int, opts.max_length as int, opts.stride as int);
        }
        let mut k: usize = 0;
        let mut rem: usize = pl;
        while rem > opts.max_length
            invariant
                opts.valid(),
                tv == tviews(texts@),
                t < texts@.len(),
                tv[t as int] == texts@[t as int]@,
                text == &texts@[t as int],
                n == text@.len(),
                pl as int == spec_padded_len(n as int, *opts),
                pl <= MAX_PADDED_LEN,
                n + 2 * opts.padding <= MAX_PADDED_LEN,
                rem + k * opts.stride == pl,
                nw == spec_num_windows(pl as int, opts.max_length as int, opts.stride as int),
                nw == k + spec_num_windows(
                    rem as int,
                    opts.max_length as int,
                    opts.stride as int,
                ),
                wft == windows_for_text(tv[t as int], t as int, *opts),
                k <= nw,
                r@.map_values(|w: Window| wview(w)) == spec_all_windows(tv.take(t as int), *opts)
                    + wft.take(k as int),
            decreases rem,
        {
            let off = k * opts.stride;
            proof {
                assert(off + opts.max_length <= pl + opts.max_length);
            }
            let bytes = window_bytes(text, opts.padding, off, opts.max_length);
            let ghost rm_pre = r@.map_values(|w: Window| wview(w));
            let ghost w_pre = r@;
            let w = Window { text_id: t, offset: off, bytes };
            r.push(w);
            proof {
                w_pre.lemma_push_map_commute(|x: Window| wview(x), w);
                lemma_num_windows_pos(
                    rem - opts.stride,
                    opts.max_length as int,
                    opts.stride as int,
                );
                assert(spec_num_windows(rem as int, opts.max_length as int, opts.stride as int)
                    == 1 + spec_num_windows(
                    rem - opts.stride,
                    opts.max_length as int,
                    opts.stride as int,
                ));
                assert(k < nw);
                assert(wft[k as int] == wview(w));
                assert(wft.take(k + 1) =~= wft.take(k as int).push(wft[k as int]));
                assert(r@.map_values(|x: Window| wview(x)) =~= spec_all_windows(
                    tv.take(t as int),
                    *opts,
                ) + wft.take(k + 1));
            }
            proof {
                assert(k * opts.stride >= k) by (nonlinear_arith)
                    requires
                        opts.stride >= 1,
                        k >= 0,
                ;
                assert((k + 1) * (opts.stride as int) == k * (opts.stride as int) + (
                opts.stride as int)) by (nonlinear_arith);
            }
            rem = rem - opts.stride;
            k = k + 1;
        }
        // the final window, zero-padded on the right where it runs past
        // the padded sequence
        let off = k * opts.stride;
        let bytes = window_bytes(text, opts.padding, off, opts.max_length);
        let ghost w_pre = r@;
        let w = Window { text_id: t, offset: off, bytes };
        r.push(w);
        proof {
            assert(spec_num_windows(rem as int, opts.max_length as int, opts.stride as int) == 1);
            assert(nw == k + 1);
            w_pre.lemma_push_map_commute(|x: Window| wview(x), w);
            assert(wft[k as int] == wview(w));
            assert(wft.take(k + 1) =~= wft.take(k as int).push(wft[k as int]));
            assert(wft.take(nw as int) =~= wft);
            assert(r@.map_values(|x: Window| wview(x)) =~= spec_all_windows(
                tv.take(t as int),
                *opts,
            ) + wft);
        }
        t = t + 1;
        proof {
            let post = tv.take(t as int);
            assert(post.drop_last() =~= tv.take(t - 1));
            assert(post.last() == tv[t - 1]);
            assert(r@.map_values(|x: Window| wview(x)) =~= spec_all_windows(post, *opts));
        }
    }
    proof {
        assert(tv.take(tv.len() as int) =~= tv);
    }
    r
}

} // verus!
