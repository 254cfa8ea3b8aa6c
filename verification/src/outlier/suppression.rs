//! Outlier suppression over the grid's cell counters.

use vstd::prelude::*;

verus! {

use crate::ErrorKind;

/// How the grid's cell counters are post-processed before clustering.
///
/// The set of variants is closed. Only `Removing` has defined
/// semantics; selecting any other variant fails loudly with
/// [`ErrorKind::UnsupportedStrategy`] instead of silently doing
/// nothing.
#[derive(Clone, Copy, PartialEq, Eq, Structural, Debug)]
pub enum SuppressionStrategy {
    Thresholding,
    Clipping,
    LogarithmicScaling,
    Removing(RemoveConfig),
}

/// Configuration of the `Removing` strategy: every counter strictly
/// greater than `threshold` is reset to zero.
#[derive(Clone, Copy, PartialEq, Eq, Structural, Debug)]
pub struct RemoveConfig {
    pub threshold: usize,
}

/// The counters after the `Removing` pass: entries above the threshold
/// are zeroed, all others are untouched, and the length is preserved.
pub open spec fn spec_remove_suppressed(cells: Seq<usize>, threshold: usize) -> Seq<usize> {
    Seq::new(
        cells.len(),
        |i: int| if cells[i] > threshold {
            0usize
        } else {
            cells[i]
        },
    )
}

/// An in-place pass over the grid's cell counters.
pub trait OutlierSuppression {
    /// What the pass does to the counters, or the error it fails with.
    spec fn spec_suppress(&self, cells: Seq<usize>) -> Result<Seq<usize>, ErrorKind>;

    /// Rewrites `cells` in place according to [`Self::spec_suppress`].
    fn suppress(&self, cells: &mut Vec<usize>) -> (r: Result<(), ErrorKind>)
        ensures
            match self.spec_suppress(old(cells)@) {
                Ok(s) => r is Ok && final(cells)@ == s,
                Err(e) => r == Err::<(), ErrorKind>(e) && final(cells)@ == old(cells)@,
            },
    ;
}

impl OutlierSuppression for RemoveConfig {
    open spec fn spec_suppress(&self, cells: Seq<usize>) -> Result<Seq<usize>, ErrorKind> {
        Ok(spec_remove_suppressed(cells, self.threshold))
    }

    fn suppress(&self, cells: &mut Vec<usize>) -> (r: Result<(), ErrorKind>) {
        // Entries are zeroed, never deleted: dropping an entry would
        // shift every later cell and corrupt the coordinate-to-index
        // mapping of the grid.
        let n = cells.len();
        let mut i: usize = 0;
        while i < n
            invariant
                i <= n,
                cells@.len() == n,
                n == old(cells)@.len(),
                forall|j: int|
                    0 <= j < i ==> cells@[j] == (if old(cells)@[j] > self.threshold {
                        0usize
                    } else {
                        old(cells)@[j]
                    }),
                forall|j: int| i <= j < n ==> cells@[j] == old(cells)@[j],
            decreases n - i,
        {
            if cells[i] > self.threshold {
                cells[i] = 0;
            }
            i = i + 1;
        }
        proof {
            assert(cells@ =~= spec_remove_suppressed(old(cells)@, self.threshold));
        }
        Ok(())
    }
}

} // verus!
