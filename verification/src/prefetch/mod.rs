//! Prefetch orchestration.

use crate::tier::model::{self, TiersView};
use crate::tier::TierManager;
use crate::types::{BufferKey, TierError, TierLevel};
use vstd::prelude::*;

verus! {

/// The outcome of prefetching from the `i`-th prediction on, with the
/// positions in `issued` already promoted: the tiers afterwards and the
/// positions of every prediction promoted into VRAM, or the first error.
///
/// Once `max` promotions were issued the rest is ignored. A prediction that
/// is not eligible is skipped, and so is one whose key already sits in VRAM;
/// a key in no tier is an error.
pub open spec fn prefetch_from(
    t: TiersView,
    preds: Seq<(BufferKey, bool)>,
    i: int,
    max: nat,
    issued: Seq<usize>,
) -> (TiersView, Result<Seq<usize>, TierError>)
    decreases preds.len() - i,
{
    if i < 0 || i >= preds.len() || issued.len() == max {
        (t, Ok(issued))
    } else if !preds[i].1 {
        prefetch_from(t, preds, i + 1, max, issued)
    } else {
        match t.tier_of(preds[i].0.0) {
            None => (t, Err(TierError::MissingKey(preds[i].0))),
            Some(TierLevel::Vram) => prefetch_from(t, preds, i + 1, max, issued),
            Some(_) => {
                let (t2, r) = t.promote(preds[i].0.0, TierLevel::Vram);
                match r {
                    Err(e) => (t2, Err(e)),
                    Ok(_) => prefetch_from(t2, preds, i + 1, max, issued.push(i as usize)),
                }
            },
        }
    }
}

/// The outcome of prefetching over all predictions.
pub open spec fn prefetch(t: TiersView, preds: Seq<(BufferKey, bool)>, max: nat) -> (
    TiersView,
    Result<Seq<usize>, TierError>,
) {
    prefetch_from(t, preds, 0, max, Seq::empty())
}

/// The positions a prefetch issued, as a sequence.
pub open spec fn issued_view(r: Result<Vec<usize>, TierError>) -> Result<Seq<usize>, TierError> {
    match r {
        Ok(v) => Ok(v@),
        Err(e) => Err(e),
    }
}

/// Promotes predicted buffers into VRAM, in the order of the predictions.
///
/// Each prediction carries whether it is eligible (its confidence met the
/// threshold). At most `max_requests` promotions are issued; eligible keys
/// already in VRAM are skipped. Returns the positions of the predictions
/// that were promoted, or the first error: a key in no tier, or a promotion
/// that failed.
pub fn issue_prefetches(
    tiers: &mut TierManager,
    predictions: &[(BufferKey, bool)],
    max_requests: usize,
) -> (res: Result<Vec<usize>, TierError>)
    ensures
        final(tiers).well_formed(),
        (final(tiers)@, issued_view(res)) == prefetch(
            old(tiers)@,
            predictions@,
            max_requests as nat,
        ),
{
    proof {
        use_type_invariant(&*tiers);
    }
    let ghost start = tiers@;
    let mut issued: Vec<usize> = Vec::new();
    let mut i: usize = 0;
    while i < predictions.len()
        invariant
            i <= predictions@.len(),
            start == old(tiers)@,
            tiers.well_formed(),
            prefetch_from(tiers@, predictions@, i as int, max_requests as nat, issued@)
                == prefetch(start, predictions@, max_requests as nat),
        decreases predictions.len() - i,
    {
        if issued.len() == max_requests {
            return Ok(issued);
        }
        let (key, eligible) = predictions[i];
        if eligible {
            match tiers.tier_of(key) {
                Some(TierLevel::Vram) => {},
                Some(_) => {
                    match tiers.promote(key, TierLevel::Vram) {
                        Ok(()) => {
                            issued.push(i);
                        },
                        Err(e) => {
                            return Err(e);
                        },
                    }
                },
                None => {
                    return Err(TierError::MissingKey(key));
                },
            }
        }
        i = i + 1;
    }
    Ok(issued)
}

/// Issued positions lie below `bound`, rise strictly, and each names an
/// eligible prediction.
pub open spec fn issued_well(preds: Seq<(BufferKey, bool)>, issued: Seq<usize>, bound: int) -> bool {
    &&& forall|j: int| 0 <= j < issued.len() ==> #[trigger] issued[j] < bound && preds[issued[j] as int].1
    &&& forall|a: int, b: int| 0 <= a < b < issued.len() ==> issued[a] < issued[b]
}

/// Prefetching never alters or invents a buffer nor changes a capacity; on
/// success it issued at most `max` promotions, in prediction order, each of
/// an eligible prediction.
pub proof fn law_prefetch(t: TiersView, preds: Seq<(BufferKey, bool)>, max: nat)
    requires
        t.well_formed(),
        preds.len() <= usize::MAX,
    ensures
        ({
            let (r, res) = prefetch(t, preds, max);
            &&& r.well_formed()
            &&& model::keeps_data(t, r)
            &&& model::same_capacities(t, r)
            &&& res is Ok ==> res->Ok_0.len() <= max && issued_well(
                preds,
                res->Ok_0,
                preds.len() as int,
            )
        }),
{
    lemma_prefetch_from(t, preds, 0, max, Seq::empty());
}

/// The inductive form of the prefetch law, from any position on.
proof fn lemma_prefetch_from(
    t: TiersView,
    preds: Seq<(BufferKey, bool)>,
    i: int,
    max: nat,
    issued: Seq<usize>,
)
    requires
        t.well_formed(),
        preds.len() <= usize::MAX,
        0 <= i <= preds.len(),
        issued.len() <= max,
        issued_well(preds, issued, i),
    ensures
        ({
            let (r, res) = prefetch_from(t, preds, i, max, issued);
            &&& r.well_formed()
            &&& model::keeps_data(t, r)
            &&& model::same_capacities(t, r)
            &&& res is Ok ==> res->Ok_0.len() <= max && issued_well(
                preds,
                res->Ok_0,
                preds.len() as int,
            )
        }),
    decreases preds.len() - i,
{
    if i >= preds.len() || issued.len() == max {
        assert(issued_well(preds, issued, preds.len() as int));
    } else if !preds[i].1 {
        lemma_prefetch_from(t, preds, i + 1, max, issued);
    } else {
        match t.tier_of(preds[i].0.0) {
            None => {},
            Some(TierLevel::Vram) => {
                lemma_prefetch_from(t, preds, i + 1, max, issued);
            },
            Some(_) => {
                crate::tier::laws::law_promote(t, preds[i].0.0, TierLevel::Vram);
                let (t2, r) = t.promote(preds[i].0.0, TierLevel::Vram);
                if r is Ok {
                    let next = issued.push(i as usize);
                    assert(issued_well(preds, next, i + 1)) by {
                        assert(next[issued.len() as int] == i);
                        assert forall|j: int| 0 <= j < next.len() implies #[trigger] next[j] < i + 1
                            && preds[next[j] as int].1 by {
                            if j < issued.len() {
                                assert(next[j] == issued[j]);
                            }
                        }
                        assert forall|a: int, b: int| 0 <= a < b < next.len() implies next[a]
                            < next[b] by {
                            assert(next[a] == issued[a]);
                            if b < issued.len() {
                                assert(next[b] == issued[b]);
                            }
                        }
                    }
                    lemma_prefetch_from(t2, preds, i + 1, max, next);
                }
            },
        }
    }
}

/// The limit counts issued promotions only. A prefetch that failed, or that
/// succeeded with fewer than `max` promotions issued, never reached its limit,
/// so any larger limit gives exactly the same tiers and result: every
/// prediction was looked at, whatever its key's tier.
pub proof fn law_prefetch_limit(t: TiersView, preds: Seq<(BufferKey, bool)>, max: nat, larger: nat)
    requires
        max <= larger,
        prefetch(t, preds, max).1 is Err || prefetch(t, preds, max).1->Ok_0.len() < max,
    ensures
        prefetch(t, preds, larger) == prefetch(t, preds, max),
{
    lemma_prefetch_limit(t, preds, 0, max, larger, Seq::empty());
}

/// The inductive form of the limit law, from any position on.
proof fn lemma_prefetch_limit(
    t: TiersView,
    preds: Seq<(BufferKey, bool)>,
    i: int,
    max: nat,
    larger: nat,
    issued: Seq<usize>,
)
    requires
        max <= larger,
        issued.len() <= max,
        prefetch_from(t, preds, i, max, issued).1 is Err || prefetch_from(
            t,
            preds,
            i,
            max,
            issued,
        ).1->Ok_0.len() < max,
    ensures
        prefetch_from(t, preds, i, larger, issued) == prefetch_from(t, preds, i, max, issued),
    decreases preds.len() - i,
{
    if i < 0 || i >= preds.len() || issued.len() == max {
    } else if !preds[i].1 {
        lemma_prefetch_limit(t, preds, i + 1, max, larger, issued);
    } else {
        match t.tier_of(preds[i].0.0) {
            None => {},
            Some(TierLevel::Vram) => {
                lemma_prefetch_limit(t, preds, i + 1, max, larger, issued);
            },
            Some(_) => {
                let (t2, r) = t.promote(preds[i].0.0, TierLevel::Vram);
                if r is Ok {
                    lemma_prefetch_limit(t2, preds, i + 1, max, larger, issued.push(i as usize));
                }
            },
        }
    }
}

} // verus!
