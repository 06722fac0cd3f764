use spill::predictor::locality::LocalityPredictor;
use spill::predictor::markov::MarkovPredictor;
use spill::predictor::{saturating_count, Prediction};
use spill::BufferKey;

fn confidence(prediction: &Prediction) -> f32 {
    f32::from(prediction.weight) / f32::from(prediction.total)
}

#[test]
fn markov_predictor_ranks_known_transition_by_frequency() {
    let mut predictor = MarkovPredictor::new();
    predictor.record_history(&[
        BufferKey(1),
        BufferKey(2),
        BufferKey(1),
        BufferKey(2),
        BufferKey(1),
        BufferKey(3),
    ]);

    let predictions = predictor.predict_next(&[BufferKey(1)]);

    assert_eq!(
        predictions[0].key,
        BufferKey(2),
        "Fix: Markov predictor must rank the most common outgoing transition first."
    );
    assert!(
        confidence(&predictions[0]) > confidence(&predictions[1]),
        "Fix: transition confidence must reflect observed transition counts."
    );
}

#[test]
fn locality_predictor_returns_last_n_keys_most_recent_first() {
    let predictor = LocalityPredictor::new(3);
    let predictions = predictor.predict_next(&[
        BufferKey(1),
        BufferKey(2),
        BufferKey(3),
        BufferKey(4),
    ]);

    assert_eq!(
        predictions
            .iter()
            .map(|prediction| prediction.key)
            .collect::<Vec<_>>(),
        vec![BufferKey(4), BufferKey(3), BufferKey(2)],
        "Fix: locality predictor must return the last N keys in newest-first order."
    );
}

#[test]
fn locality_confidence_falls_linearly() {
    let predictor = LocalityPredictor::new(4);
    let predictions = predictor.predict_next(&[BufferKey(7), BufferKey(8)]);
    assert_eq!(
        predictions,
        vec![
            Prediction { key: BufferKey(8), weight: 4, total: 4 },
            Prediction { key: BufferKey(7), weight: 3, total: 4 },
        ]
    );
}

#[test]
fn locality_with_empty_window_or_history_predicts_nothing() {
    assert!(LocalityPredictor::new(0).predict_next(&[BufferKey(1)]).is_empty());
    assert!(LocalityPredictor::new(5).predict_next(&[]).is_empty());
}

#[test]
fn locality_caps_large_windows() {
    let predictor = LocalityPredictor::new(70_000);
    let predictions = predictor.predict_next(&[BufferKey(1), BufferKey(2)]);
    assert_eq!(predictions[0], Prediction { key: BufferKey(2), weight: u16::MAX, total: u16::MAX });
    assert_eq!(predictions[1], Prediction { key: BufferKey(1), weight: u16::MAX, total: u16::MAX });
}

#[test]
fn markov_weights_are_counts_out_of_the_total() {
    let mut predictor = MarkovPredictor::new();
    predictor.record_history(&[
        BufferKey(1),
        BufferKey(2),
        BufferKey(1),
        BufferKey(2),
        BufferKey(1),
        BufferKey(3),
    ]);
    assert_eq!(predictor.outgoing_total(BufferKey(1)), Some(3));
    assert_eq!(predictor.outgoing_total(BufferKey(2)), Some(2));
    assert_eq!(predictor.outgoing_total(BufferKey(3)), Some(0));
    assert_eq!(
        predictor.predict_next(&[BufferKey(9), BufferKey(1)]),
        vec![
            Prediction { key: BufferKey(2), weight: 2, total: 3 },
            Prediction { key: BufferKey(3), weight: 1, total: 3 },
        ]
    );
    assert_eq!(
        predictor.predict_next(&[BufferKey(2)]),
        vec![Prediction { key: BufferKey(1), weight: 2, total: 2 }]
    );
}

#[test]
fn markov_ties_go_to_the_smaller_key() {
    let mut predictor = MarkovPredictor::new();
    predictor.record_transition(BufferKey(5), BufferKey(9));
    predictor.record_transition(BufferKey(5), BufferKey(4));
    predictor.record_transition(BufferKey(5), BufferKey(6));
    let keys: Vec<BufferKey> = predictor
        .predict_next(&[BufferKey(5)])
        .iter()
        .map(|prediction| prediction.key)
        .collect();
    assert_eq!(keys, vec![BufferKey(4), BufferKey(6), BufferKey(9)]);
}

#[test]
fn markov_predicts_nothing_for_unseen_or_empty_history() {
    let mut predictor = MarkovPredictor::new();
    predictor.record_history(&[BufferKey(1)]);
    assert!(predictor.predict_next(&[]).is_empty());
    assert!(predictor.predict_next(&[BufferKey(1)]).is_empty());
    predictor.record_transition(BufferKey(1), BufferKey(2));
    assert!(predictor.predict_next(&[BufferKey(2)]).is_empty());
}

#[test]
fn saturating_count_caps_values() {
    assert_eq!(saturating_count(3), 3);
    assert_eq!(saturating_count(65_535), 65_535);
    assert_eq!(saturating_count(1 << 40), u16::MAX);
}

#[test]
fn recording_a_history_equals_recording_its_transitions() {
    let history = [BufferKey(1), BufferKey(2), BufferKey(1), BufferKey(3), BufferKey(1), BufferKey(2)];
    let mut whole = MarkovPredictor::new();
    whole.record_transition(BufferKey(2), BufferKey(9));
    let mut stepwise = whole.clone();
    whole.record_history(&history);
    for pair in history.windows(2) {
        stepwise.record_transition(pair[0], pair[1]);
    }
    for key in [1u64, 2, 3, 9] {
        assert_eq!(whole.predict_next(&[BufferKey(key)]), stepwise.predict_next(&[BufferKey(key)]));
        assert_eq!(whole.outgoing_total(BufferKey(key)), stepwise.outgoing_total(BufferKey(key)));
    }
    let before = whole.predict_next(&[BufferKey(1)]);
    whole.record_history(&[BufferKey(1)]);
    whole.record_history(&[]);
    assert_eq!(whole.predict_next(&[BufferKey(1)]), before);
}

#[test]
fn every_prediction_has_been_seen() {
    let mut predictor = MarkovPredictor::new();
    predictor.record_history(&[BufferKey(4), BufferKey(5), BufferKey(4), BufferKey(6), BufferKey(4), BufferKey(5)]);
    for prediction in predictor.predict_next(&[BufferKey(4)]) {
        assert!(prediction.weight >= 1 && prediction.weight <= prediction.total);
    }
}
