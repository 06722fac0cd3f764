use spill::predictor::markov::MarkovPredictor;
use spill::prefetch::issue_prefetches;
use spill::{BufferKey, TierError, TierLevel, TierManager};

#[test]
fn controller_promotes_predicted_host_buffer_to_vram() {
    let mut predictor = MarkovPredictor::new();
    predictor.record_transition(BufferKey(1), BufferKey(2));
    let min_confidence = 0.5_f32;
    let mut tiers = TierManager::new(2, 4, 8);
    tiers
        .insert(BufferKey(1), vec![1, 1])
        .expect("Fix: setup VRAM insert must fit");
    tiers
        .insert(BufferKey(2), vec![2, 2])
        .expect("Fix: setup host insert must fit");

    let predictions: Vec<(BufferKey, bool)> = predictor
        .predict_next(&[BufferKey(1)])
        .iter()
        .map(|p| {
            let confidence = f32::from(p.weight) / f32::from(p.total);
            (p.key, confidence >= min_confidence)
        })
        .collect();
    let issued = issue_prefetches(&mut tiers, &predictions, 4)
        .expect("Fix: predicted existing key must prefetch successfully");

    assert_eq!(
        issued.len(),
        1,
        "Fix: controller must issue exactly one prefetch for the known prediction."
    );
    assert_eq!(
        predictions[issued[0]].0,
        BufferKey(2),
        "Fix: issued request must reference the predicted key."
    );
    assert_eq!(
        tiers.tier_of(BufferKey(2)),
        Some(TierLevel::Vram),
        "Fix: prefetch must promote the predicted buffer into VRAM."
    );
}

fn three_tiers() -> TierManager {
    let mut tiers = TierManager::new(8, 8, 8);
    tiers.insert(BufferKey(1), vec![1]).unwrap();
    tiers.promote(BufferKey(1), TierLevel::Vram).unwrap();
    tiers.insert(BufferKey(2), vec![2]).unwrap();
    tiers.demote(BufferKey(2)).unwrap();
    tiers.insert(BufferKey(3), vec![3]).unwrap();
    tiers.demote(BufferKey(3)).unwrap();
    tiers.insert(BufferKey(4), vec![4]).unwrap();
    tiers.demote(BufferKey(4)).unwrap();
    tiers.demote(BufferKey(4)).unwrap();
    tiers
}

#[test]
fn prefetch_skips_ineligible_and_resident_keys() {
    let mut tiers = three_tiers();
    let predictions = [
        (BufferKey(1), true),
        (BufferKey(2), false),
        (BufferKey(3), true),
        (BufferKey(4), true),
    ];
    let issued = issue_prefetches(&mut tiers, &predictions, 10).unwrap();
    assert_eq!(issued, vec![2, 3]);
    assert_eq!(tiers.tier_of(BufferKey(2)), Some(TierLevel::Host));
    assert_eq!(tiers.tier_of(BufferKey(3)), Some(TierLevel::Vram));
    assert_eq!(tiers.tier_of(BufferKey(4)), Some(TierLevel::Vram));
}

#[test]
fn prefetch_stops_at_the_request_limit() {
    let mut tiers = three_tiers();
    let predictions = [(BufferKey(3), true), (BufferKey(4), true), (BufferKey(99), true)];
    let issued = issue_prefetches(&mut tiers, &predictions, 1).unwrap();
    assert_eq!(issued, vec![0]);
    assert_eq!(tiers.tier_of(BufferKey(4)), Some(TierLevel::Storage));
    let none = issue_prefetches(&mut tiers, &predictions, 0).unwrap();
    assert!(none.is_empty());
}

#[test]
fn prefetch_of_unknown_key_is_an_error() {
    let mut tiers = three_tiers();
    let predictions = [(BufferKey(3), true), (BufferKey(99), true), (BufferKey(4), true)];
    let error = issue_prefetches(&mut tiers, &predictions, 10).unwrap_err();
    assert!(matches!(error, TierError::MissingKey(BufferKey(99))));
    assert_eq!(tiers.tier_of(BufferKey(3)), Some(TierLevel::Vram));
    assert_eq!(tiers.tier_of(BufferKey(4)), Some(TierLevel::Storage));
}

#[test]
fn ineligible_unknown_key_is_ignored() {
    let mut tiers = three_tiers();
    let issued = issue_prefetches(&mut tiers, &[(BufferKey(99), false)], 10).unwrap();
    assert!(issued.is_empty());
}
