use crate::predictor::{saturating_count, Prediction};
use crate::types::BufferKey;
use vstd::prelude::*;

verus! {

/// The predictions of a locality window over a history: the last `window`
/// keys, newest first, the newest weighted `window`, the next `window - 1`,
/// and so on, each out of `window` (both parts capped at 16 bits).
pub open spec fn recent_predictions(window: nat, history: Seq<BufferKey>) -> Seq<Prediction> {
    let n = if history.len() < window {
        history.len()
    } else {
        window
    };
    Seq::new(
        n,
        |i: int|
            Prediction {
                key: history[history.len() - 1 - i],
                weight: crate::tracker::capped((window - i) as nat),
                total: crate::tracker::capped(window),
            },
    )
}

/// What the locality predictions of a window over a non-empty history are:
/// the `min(window, history length)` newest keys, newest first; the newest
/// has full confidence; every confidence has the same denominator, which
/// depends on the window alone and not on the history; and below the 16-bit
/// cap the weights fall by one per step back from the window.
pub proof fn law_locality_predictions(
    window: nat,
    history: Seq<BufferKey>,
    other: Seq<BufferKey>,
)
    requires
        window > 0,
        history.len() > 0,
        other.len() > 0,
    ensures
        recent_predictions(window, history).len() == if history.len() < window {
            history.len()
        } else {
            window
        },
        forall|i: int|
            0 <= i < recent_predictions(window, history).len() ==> (#[trigger] recent_predictions(
                window,
                history,
            )[i]).key == history[history.len() - 1 - i],
        recent_predictions(window, history)[0].weight == recent_predictions(window, history)[0].total,
        forall|i: int, j: int|
            0 <= i < recent_predictions(window, history).len() && 0 <= j < recent_predictions(
                window,
                other,
            ).len() ==> #[trigger] recent_predictions(window, history)[i].total
                == #[trigger] recent_predictions(window, other)[j].total,
        window <= u16::MAX ==> forall|i: int|
            0 <= i < recent_predictions(window, history).len() ==> (#[trigger] recent_predictions(
                window,
                history,
            )[i]).weight + i == window && recent_predictions(window, history)[i].total == window,
{
}

/// Locality predictor that returns the last `window` accessed keys.
#[derive(Clone, Debug)]
pub struct LocalityPredictor {
    window: usize,
}

impl LocalityPredictor {
    /// The number of recent keys this predictor returns at most.
    pub closed spec fn window(&self) -> nat {
        self.window as nat
    }

    /// Creates a predictor that returns at most `window` recent keys.
    pub fn new(window: usize) -> (res: LocalityPredictor)
        ensures
            res.window() == window,
    {
        LocalityPredictor { window }
    }

    /// Predicts the next keys: the most recent keys of the history, newest
    /// first, with confidence falling linearly from one over the window.
    pub fn predict_next(&self, history: &[BufferKey]) -> (res: Vec<Prediction>)
        ensures
            res@ == recent_predictions(self.window(), history@),
            forall|i: int|
                0 <= i < res@.len() ==> 0 < (#[trigger] res@[i]).total && res@[i].weight
                    <= res@[i].total,
    {
        let mut res: Vec<Prediction> = Vec::new();
        if self.window == 0 || history.len() == 0 {
            proof {
                assert(res@ =~= recent_predictions(self.window(), history@));
            }
            return res;
        }
        let len = history.len();
        let n = if len < self.window {
            len
        } else {
            self.window
        };
        let total = saturating_count(self.window as u64);
        let mut i: usize = 0;
        while i < n
            invariant
                n <= len,
                len == history@.len(),
                n <= self.window,
                n == (if history@.len() < self.window() {
                    history@.len()
                } else {
                    self.window()
                }),
                total == crate::tracker::capped(self.window()),
                i <= n,
                res@.len() == i,
                forall|j: int|
                    0 <= j < i ==> #[trigger] res@[j] == recent_predictions(
                        self.window(),
                        history@,
                    )[j],
            decreases n - i,
        {
            let weight = saturating_count((self.window - i) as u64);
            res.push(Prediction { key: history[len - 1 - i], weight, total });
            i = i + 1;
        }
        proof {
            assert(res@ =~= recent_predictions(self.window(), history@));
        }
        res
    }
}

} // verus!
