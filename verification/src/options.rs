//! Configuration for windowing and tree building.

use vstd::prelude::*;
use crate::error::SplitError;
use crate::PROB_ONE;

verus! {

/// Upper bound on the padded length of a single text (a machine limit: it
/// keeps every sum and every index of the engine inside `u64` and `usize`).
pub const MAX_PADDED_LEN: usize = 0x4000_0000;

/// Options shared by the windower, the aggregator and the tree builder.
///
/// `threshold` is a fixed-point probability (`PROB_ONE` stands for 1.0).
/// A valid value lies strictly between 0 and `PROB_ONE`; `stride`,
/// `max_length`, `batch_size` and `length_divisor` are positive and the
/// stride never exceeds the window length.
#[derive(Clone, Copy, Debug, PartialEq, Eq, Structural)]
pub struct NNSplitOptions {
    /// Probability cutoff above which a position counts as a boundary.
    pub threshold: u32,
    /// Advance step between consecutive window start offsets.
    pub stride: usize,
    /// Length of each window handed to the model.
    pub max_length: usize,
    /// Number of zero bytes conceptually added on both ends of a text.
    pub padding: usize,
    /// Number of windows per inference batch.
    pub batch_size: usize,
    /// The total padded length is rounded up to a multiple of this.
    pub length_divisor: usize,
}

impl NNSplitOptions {
    /// The invariant every constructed option set satisfies.
    pub open spec fn valid(self) -> bool {
        &&& 0 < self.threshold < PROB_ONE
        &&& 1 <= self.stride <= self.max_length
        &&& 1 <= self.length_divisor
        &&& 1 <= self.batch_size
        &&& self.max_length <= MAX_PADDED_LEN
        &&& self.padding <= MAX_PADDED_LEN
        &&& self.length_divisor <= MAX_PADDED_LEN
    }

    /// Builds an option set, rejecting invalid values eagerly so that
    /// splitting itself can never fail on account of the configuration.
    pub fn new(
        threshold: u32,
        stride: usize,
        max_length: usize,
        padding: usize,
        batch_size: usize,
        length_divisor: usize,
    ) -> (r: Result<NNSplitOptions, SplitError>)
        ensures
            ({
                let o = NNSplitOptions {
                    threshold,
                    stride,
                    max_length,
                    padding,
                    batch_size,
                    length_divisor,
                };
                &&& r is Ok <==> o.valid()
                &&& r matches Ok(v) ==> v == o
                &&& r matches Err(e) ==> e == SplitError::InvalidOptions
            }),
    {
        let o = NNSplitOptions { threshold, stride, max_length, padding, batch_size, length_divisor };
        if 0 < threshold && threshold < PROB_ONE
            && 1 <= stride && stride <= max_length
            && 1 <= length_divisor && 1 <= batch_size
            && max_length <= MAX_PADDED_LEN
            && padding <= MAX_PADDED_LEN
            && length_divisor <= MAX_PADDED_LEN
        {
            Ok(o)
        } else {
            Err(SplitError::InvalidOptions)
        }
    }
}

impl Default for NNSplitOptions {
    /// A window of 500 bytes advanced by half its length, 5 bytes of outer
    /// padding, and a boundary cutoff of one half.
    fn default() -> (r: Self)
        ensures
            r.valid(),
            r == (NNSplitOptions {
                threshold: 500_000u32,
                stride: 250usize,
                max_length: 500usize,
                padding: 5usize,
                batch_size: 32usize,
                length_divisor: 2usize,
            }),
    {
        NNSplitOptions {
            threshold: 500_000,
            stride: 250,
            max_length: 500,
            padding: 5,
            batch_size: 32,
            length_divisor: 2,
        }
    }
}

} // verus!
