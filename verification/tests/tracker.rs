use spill::tracker::frequency::FrequencyTracker;
use spill::tracker::recency::RecencyTracker;
use spill::tracker::saturating_score;
use spill::BufferKey;

#[test]
fn frequency_tracker_counts_repeated_accesses() {
    let mut tracker = FrequencyTracker::new();
    tracker.record_access(BufferKey(1));
    tracker.record_access(BufferKey(1));
    tracker.record_access(BufferKey(2));

    assert_eq!(
        tracker.count(BufferKey(1)),
        2,
        "Fix: repeated accesses to the same key must increment its frequency."
    );
    assert_eq!(
        tracker.ranked()[0].0,
        BufferKey(1),
        "Fix: frequency ranking must place the most-accessed key first."
    );
}

#[test]
fn recency_tracker_moves_reaccessed_key_to_most_recent() {
    let mut tracker = RecencyTracker::new();
    tracker.record_access(BufferKey(1));
    tracker.record_access(BufferKey(2));
    tracker.record_access(BufferKey(1));

    assert_eq!(
        tracker.lru_order(),
        vec![BufferKey(2), BufferKey(1)],
        "Fix: LRU order must remove stale duplicates before appending reaccessed keys."
    );
    assert!(
        tracker.score(BufferKey(1)) > tracker.score(BufferKey(2)),
        "Fix: most recent keys must receive higher recency scores."
    );
}

#[test]
fn frequency_of_unseen_key_is_zero() {
    let tracker = FrequencyTracker::new();
    assert_eq!(tracker.count(BufferKey(3)), 0);
    assert_eq!(tracker.score(BufferKey(3)), 0);
    assert!(tracker.ranked().is_empty());
}

#[test]
fn frequency_ranking_breaks_ties_by_smaller_key() {
    let mut tracker = FrequencyTracker::default();
    for key in [5u64, 3, 9, 3, 9, 7] {
        tracker.record_access(BufferKey(key));
    }
    assert_eq!(
        tracker.ranked(),
        vec![
            (BufferKey(3), 2),
            (BufferKey(9), 2),
            (BufferKey(5), 1),
            (BufferKey(7), 1)
        ]
    );
}

#[test]
fn frequency_score_caps_at_sixteen_bits() {
    let mut tracker = FrequencyTracker::new();
    for _ in 0..70_000 {
        tracker.record_access(BufferKey(1));
    }
    assert_eq!(tracker.count(BufferKey(1)), 70_000);
    assert_eq!(tracker.score(BufferKey(1)), u16::MAX);
    assert_eq!(tracker.ranked(), vec![(BufferKey(1), u16::MAX)]);
}

#[test]
fn saturating_score_caps_values() {
    assert_eq!(saturating_score(0), 0);
    assert_eq!(saturating_score(65_535), 65_535);
    assert_eq!(saturating_score(65_536), u16::MAX);
    assert_eq!(saturating_score(u64::MAX), u16::MAX);
}

#[test]
fn recency_scores_count_places_from_the_least_recent() {
    let mut tracker = RecencyTracker::new();
    for key in [4u64, 5, 6] {
        tracker.record_access(BufferKey(key));
    }
    assert_eq!(tracker.score(BufferKey(4)), 1);
    assert_eq!(tracker.score(BufferKey(5)), 2);
    assert_eq!(tracker.score(BufferKey(6)), 3);
    assert_eq!(tracker.score(BufferKey(99)), 0);
}

#[test]
fn recency_ranking_lists_newest_first() {
    let mut tracker = RecencyTracker::new();
    for key in [1u64, 2, 3, 1] {
        tracker.record_access(BufferKey(key));
    }
    assert_eq!(
        tracker.ranked(),
        vec![(BufferKey(1), 3), (BufferKey(3), 2), (BufferKey(2), 1)]
    );
    assert_eq!(
        tracker.lru_order(),
        vec![BufferKey(2), BufferKey(3), BufferKey(1)]
    );
}

#[test]
fn reaccessing_the_newest_key_keeps_the_order() {
    let mut tracker = RecencyTracker::new();
    tracker.record_access(BufferKey(1));
    tracker.record_access(BufferKey(2));
    tracker.record_access(BufferKey(2));
    assert_eq!(tracker.lru_order(), vec![BufferKey(1), BufferKey(2)]);
}
