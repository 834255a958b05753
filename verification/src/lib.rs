//! Hierarchical text segmentation driven by per-character probabilities.
//!
//! The engine turns raw text into fixed-size overlapping byte windows for a
//! sequence-labeling model, folds the per-window predictions back into one
//! probability curve per hierarchy level, and carves the text into a nested
//! tree of spans wherever a level's probability crosses a threshold.
//! Probabilities are fixed-point integers: `PROB_ONE` stands for 1.0. The
//! inference backend itself, model loading and any I/O live outside this
//! crate; the engine is pure data transformation over in-memory buffers.

use vstd::prelude::*;

pub mod aggregate;
pub mod builder;
mod error;
pub mod level;
mod options;
pub mod tree;
pub mod window;

pub use aggregate::reconstruct;
pub use error::SplitError;
pub use level::{Level, SplitSequence};
pub use options::{NNSplitOptions, MAX_PADDED_LEN};
pub use tree::Split;
pub use window::{encode_windows, Window};

use crate::aggregate::{pview, preds_wf, spec_curve, MAX_WINDOWS};
use crate::builder::tree_matches;
use crate::level::{hidden_flags, visible_names};
use crate::tree::{full_text, leaf_concat};
use crate::window::{fits, spec_all_windows, tviews, wview};

verus! {

/// Fixed-point scale: a probability of 1.0 is stored as `PROB_ONE`.
pub const PROB_ONE: u32 = 1_000_000;

/// The splitting engine proper: immutable options and level hierarchy,
/// loaded once per model and shared read-only by every call.
pub struct NNSplitLogic {
    /// The windowing and thresholding options.
    pub options: NNSplitOptions,
    /// The ordered level hierarchy declared by the model metadata.
    pub split_sequence: SplitSequence,
}

impl NNSplitLogic {
    /// Valid options, and a hierarchy whose hidden flags agree with the
    /// marker prefix of its names.
    pub open spec fn wf(self) -> bool {
        self.options.valid() && self.split_sequence.wf()
    }

    /// Builds the engine from validated options and a level hierarchy.
    pub fn new(options: NNSplitOptions, split_sequence: SplitSequence) -> (r: NNSplitLogic)
        requires
            options.valid(),
            split_sequence.wf(),
        ensures
            r.wf(),
            r.options == options,
            r.split_sequence == split_sequence,
    {
        NNSplitLogic { options, split_sequence }
    }

    /// The options this engine was built with.
    pub fn options(&self) -> (r: &NNSplitOptions)
        ensures
            *r == self.options,
    {
        &self.options
    }

    /// The level hierarchy this engine was built with.
    pub fn split_sequence(&self) -> (r: &SplitSequence)
        ensures
            *r == self.split_sequence,
    {
        &self.split_sequence
    }

    /// The names of the visible levels, in the exact order the model
    /// metadata declared them; hidden levels are left out.
    pub fn get_levels(&self) -> (r: Vec<String>)
        ensures
            r@.map_values(|s: String| s@) == visible_names(self.split_sequence.levels@),
    {
        self.split_sequence.get_levels()
    }

    /// Encodes the texts into the fixed-length overlapping windows handed
    /// to the inference backend; every window records its source text and
    /// its byte offset, so predictions can be scattered back.
    pub fn get_inputs_and_indices(&self, texts: &Vec<Vec<u8>>) -> (r: Vec<Window>)
        requires
            self.wf(),
            fits(tviews(texts@), self.options),
        ensures
            r@.map_values(|w: Window| wview(w)) == spec_all_windows(tviews(texts@), self.options),
    {
        window::encode_windows(texts, &self.options)
    }

    /// Splits the texts: reconstructs one probability curve per text by
    /// averaging the backend's per-window predictions, then carves every
    /// text into its nested split tree. Every returned tree is well
    /// formed, spans its whole text, its leaves concatenate back to the
    /// text byte for byte, and its shape is exactly the one the curve and
    /// the hierarchy dictate.
    pub fn split(
        &self,
        texts: &Vec<Vec<u8>>,
        windows: &Vec<Window>,
        preds: &Vec<Vec<Vec<u32>>>,
    ) -> (r: Vec<Split>)
        requires
            self.wf(),
            fits(tviews(texts@), self.options),
            windows@.map_values(|w: Window| wview(w)) == spec_all_windows(
                tviews(texts@),
                self.options,
            ),
            windows@.len() <= MAX_WINDOWS,
            preds_wf(
                pview(preds@),
                windows@.len() as int,
                self.options.max_length as int,
                self.split_sequence.levels@.len() as int,
            ),
        ensures
            r@.len() == texts@.len(),
            forall|t: int| 0 <= t < texts@.len() ==> crate::tree::wf(#[trigger] r@[t]),
            forall|t: int| 0 <= t < texts@.len() ==> full_text(#[trigger] r@[t]) == texts@[t]@,
            forall|t: int| 0 <= t < texts@.len() ==> leaf_concat(#[trigger] r@[t]) == texts@[t]@,
            forall|t: int|
                0 <= t < texts@.len() ==> tree_matches(
                    #[trigger] r@[t],
                    texts@[t]@,
                    spec_curve(
                        windows@.map_values(|w: Window| wview(w)),
                        pview(preds@),
                        texts@[t]@,
                        self.options,
                        t,
                        self.split_sequence.levels@.len() as int,
                    ),
                    hidden_flags(self.split_sequence.levels@),
                    self.options.threshold,
                    0,
                    texts@[t]@.len() as int,
                    0,
                ),
    {
        let n_levels = self.split_sequence.channel_count();
        let curves = aggregate::reconstruct(texts, windows, preds, &self.options, n_levels);
        let hv = self.split_sequence.hidden_flags_vec();
        let ghost ws = windows@.map_values(|w: Window| wview(w));
        let ghost pv = pview(preds@);
        let mut out: Vec<Split> = Vec::new();
        let mut t: usize = 0;
        while t < texts.len()
            invariant
                t <= texts@.len(),
                self.wf(),
                n_levels == self.split_sequence.levels@.len(),
                hv@ == hidden_flags(self.split_sequence.levels@),
                hv@.len() == n_levels,
                ws == windows@.map_values(|w: Window| wview(w)),
                pv == pview(preds@),
                curves@.len() == texts@.len(),
                forall|tt: int|
                    0 <= tt < texts@.len() ==> (#[trigger] curves@[tt])@.len()
                        == texts@[tt]@.len(),
                forall|tt: int, p: int|
                    0 <= tt < texts@.len() && 0 <= p < texts@[tt]@.len()
                        ==> (#[trigger] curves@[tt]@[p])@.len() == n_levels,
                forall|tt: int, p: int, l: int|
                    0 <= tt < texts@.len() && 0 <= p < texts@[tt]@.len() && 0 <= l < n_levels
                        ==> (#[trigger] curves@[tt]@[p]@[l]) as int == crate::aggregate::spec_avg(
                        ws,
                        pv,
                        tt,
                        p + self.options.padding,
                        self.options.max_length as int,
                        l,
                    ),
                out@.len() == t,
                forall|k: int| 0 <= k < t as int ==> crate::tree::wf(#[trigger] out@[k]),
                forall|k: int| 0 <= k < t as int ==> full_text(#[trigger] out@[k]) == texts@[k]@,
                forall|k: int| 0 <= k < t as int ==> leaf_concat(#[trigger] out@[k]) == texts@[k]@,
                forall|k: int|
                    0 <= k < t as int ==> tree_matches(
                        #[trigger] out@[k],
                        texts@[k]@,
                        spec_curve(ws, pv, texts@[k]@, self.options, k, n_levels as int),
                        hidden_flags(self.split_sequence.levels@),
                        self.options.threshold,
                        0,
                        texts@[k]@.len() as int,
                        0,
                    ),
            decreases texts@.len() - t,
        {
            let text = &texts[t];
            let ghost sc = spec_curve(ws, pv, text@, self.options, t as int, n_levels as int);
            proof {
                assert forall|p: int|
                    0 <= p < text@.len() implies crate::builder::cview(curves@[t as int]@)[p]
                    == sc[p] by {
                    assert(crate::builder::cview(curves@[t as int]@)[p] == curves@[t as int]@[p]@);
                    assert forall|l: int|
                        0 <= l < n_levels implies curves@[t as int]@[p]@[l] == sc[p][l] by {
                        assert(curves@[t as int]@[p]@[l] as int == crate::aggregate::spec_avg(
                            ws,
                            pv,
                            t as int,
                            p + self.options.padding,
                            self.options.max_length as int,
                            l,
                        ));
                    }
                    assert(curves@[t as int]@[p]@ =~= sc[p]);
                }
                assert(crate::builder::cview(curves@[t as int]@) =~= sc);
            }
            let s = crate::builder::build_split(
                text,
                &curves[t],
                &hv,
                self.options.threshold,
                0,
                text.len(),
                0,
            );
            out.push(s);
            t = t + 1;
        }
        out
    }
}

} // verus!
