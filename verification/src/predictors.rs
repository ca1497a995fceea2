//! Leaf predictors on tabular samples.

use vstd::prelude::*;
use crate::categorical::{is_mode, labels, tally, total_of, CatCount};
use crate::datasets::{collect_targets, targets_of, TupleSample};
use crate::{LeafPredictor, OutcomeVariable};

verus! {

/// Class counts predict their most frequent class, whatever the sample.
impl LeafPredictor for CatCount {
    type X = [TupleSample<u8>];

    type Y = [TupleSample<u8>];

    /// Something has been counted, and no class beyond those that a label
    /// can name.
    open spec fn decided(&self) -> bool {
        total_of(self@) > 0 && self@.len() <= 256
    }

    /// The most frequent class, the smallest among equals.
    open spec fn value(&self) -> u8 {
        choose|c: u8| is_mode(self@, c as int)
    }

    /// The counts are those of the labels.
    open spec fn fitted_to(&self, y: Seq<u8>) -> bool {
        self@ == tally(labels(y))
    }

    fn predict(&self, x: &TupleSample<u8>) -> (y: u8) {
        match self.most_frequent() {
            Ok(c) => {
                let class = c as u8;
                proof {
                    assert(is_mode(self@, class as int));
                    let other = choose|c: u8| is_mode(self@, c as int);
                    assert(is_mode(self@, other as int));
                    if (other as int) < (class as int) {
                        assert(self@[other as int] < self@[class as int]);
                    }
                    if (class as int) < (other as int) {
                        assert(self@[class as int] < self@[other as int]);
                    }
                }
                class
            },
            Err(_) => 0,
        }
    }

    fn fit(x: &[TupleSample<u8>], y: &[TupleSample<u8>]) -> (predictor: CatCount) {
        let targets = collect_targets(y);
        CatCount::tally_of(targets.as_slice())
    }
}

} // verus!
