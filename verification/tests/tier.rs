use spill::{BufferKey, TierError, TierLevel, TierManager};

#[test]
fn insert_places_buffers_in_hottest_available_tier() {
    let mut tiers = TierManager::new(4, 8, 16);
    let tier = tiers
        .insert(BufferKey(1), vec![1, 2, 3, 4])
        .expect("Fix: a buffer exactly matching VRAM capacity must fit");

    assert_eq!(
        tier,
        TierLevel::Vram,
        "Fix: insert must choose VRAM before colder tiers when capacity is available."
    );
    assert_eq!(
        tiers.get(BufferKey(1)).expect("Fix: inserted key must be readable"),
        vec![1, 2, 3, 4],
        "Fix: tier storage must preserve buffer bytes exactly."
    );
}

#[test]
fn evict_removes_buffer_from_current_tier() {
    let mut tiers = TierManager::new(4, 4, 4);
    tiers
        .insert(BufferKey(7), vec![9, 8])
        .expect("Fix: setup insert must fit");

    let removed = tiers
        .evict(BufferKey(7))
        .expect("Fix: evicting an existing key must return its bytes");

    assert_eq!(removed, vec![9, 8], "Fix: eviction must return exact bytes.");
    assert_eq!(
        tiers.tier_of(BufferKey(7)),
        None,
        "Fix: evicted keys must not remain addressable in any tier."
    );
}

#[test]
fn promote_moves_cold_buffer_to_vram_and_demotes_victim() {
    let mut tiers = TierManager::new(2, 4, 8);
    tiers
        .insert(BufferKey(1), vec![1, 1])
        .expect("Fix: first buffer must fit VRAM");
    tiers
        .insert(BufferKey(2), vec![2, 2])
        .expect("Fix: overflow buffer must fit host");

    tiers
        .promote(BufferKey(2), TierLevel::Vram)
        .expect("Fix: promotion must demote existing VRAM victim when host has room");

    assert_eq!(
        tiers.tier_of(BufferKey(2)),
        Some(TierLevel::Vram),
        "Fix: promoted key must land in VRAM."
    );
    assert_eq!(
        tiers.tier_of(BufferKey(1)),
        Some(TierLevel::Host),
        "Fix: VRAM victim must be demoted, not lost."
    );
}

#[test]
fn demote_moves_buffer_one_tier_colder() {
    let mut tiers = TierManager::new(4, 4, 4);
    tiers
        .insert(BufferKey(3), vec![3])
        .expect("Fix: setup insert must fit");

    let target = tiers
        .demote(BufferKey(3))
        .expect("Fix: VRAM buffer must demote to host");

    assert_eq!(target, TierLevel::Host, "Fix: demote must move one tier colder.");
    assert_eq!(
        tiers.tier_of(BufferKey(3)),
        Some(TierLevel::Host),
        "Fix: demoted buffer must be readable from the target tier."
    );
}

#[test]
fn capacity_overflow_errors_when_buffer_exceeds_all_tiers() {
    let mut tiers = TierManager::new(2, 2, 2);
    let error = tiers
        .insert(BufferKey(9), vec![0; 3])
        .expect_err("Fix: oversized buffers must return a typed capacity error");

    assert!(
        error.to_string().contains("Fix:"),
        "Fix: capacity errors must include an actionable repair hint."
    );
}

#[test]
fn capacity_error_reports_request_and_storage_room() {
    let mut tiers = TierManager::new(2, 2, 2);
    assert_eq!(tiers.insert(BufferKey(1), vec![1, 1]).unwrap(), TierLevel::Vram);
    assert_eq!(tiers.insert(BufferKey(2), vec![2, 2]).unwrap(), TierLevel::Host);
    assert_eq!(tiers.insert(BufferKey(3), vec![3]).unwrap(), TierLevel::Storage);
    let error = tiers.insert(BufferKey(4), vec![4, 4]).unwrap_err();
    assert!(matches!(
        error,
        TierError::CapacityExceeded { requested: 2, available: 1 }
    ));
    assert_eq!(
        error.to_string(),
        "capacity exceeded: requested 2 bytes, available 1. Fix: increase tier capacity or evict colder buffers."
    );
}

#[test]
fn insert_falls_through_to_colder_tiers() {
    let mut tiers = TierManager::new(2, 3, 4);
    assert_eq!(tiers.insert(BufferKey(1), vec![1, 1]).unwrap(), TierLevel::Vram);
    assert_eq!(tiers.insert(BufferKey(2), vec![2, 2, 2]).unwrap(), TierLevel::Host);
    assert_eq!(tiers.insert(BufferKey(3), vec![3]).unwrap(), TierLevel::Storage);
    assert_eq!(tiers.used_bytes(TierLevel::Vram), 2);
    assert_eq!(tiers.used_bytes(TierLevel::Host), 3);
    assert_eq!(tiers.used_bytes(TierLevel::Storage), 1);
}

#[test]
fn duplicate_insert_is_refused_and_changes_nothing() {
    let mut tiers = TierManager::new(4, 4, 4);
    tiers.insert(BufferKey(5), vec![1, 2]).unwrap();
    let error = tiers.insert(BufferKey(5), vec![9]).unwrap_err();
    assert!(matches!(error, TierError::DuplicateKey(BufferKey(5))));
    assert_eq!(
        error.to_string(),
        "buffer key BufferKey(5) already exists. Fix: evict it before reinserting."
    );
    assert_eq!(tiers.get(BufferKey(5)).unwrap(), vec![1, 2]);
    assert_eq!(tiers.used_bytes(TierLevel::Vram), 2);
}

#[test]
fn missing_keys_are_reported_by_every_operation() {
    let mut tiers = TierManager::new(4, 4, 4);
    let error = tiers.get(BufferKey(42)).unwrap_err();
    assert_eq!(
        error.to_string(),
        "buffer key BufferKey(42) is missing. Fix: insert it first."
    );
    assert!(matches!(tiers.evict(BufferKey(42)), Err(TierError::MissingKey(BufferKey(42)))));
    assert!(matches!(tiers.demote(BufferKey(42)), Err(TierError::MissingKey(BufferKey(42)))));
    assert!(matches!(
        tiers.promote(BufferKey(42), TierLevel::Vram),
        Err(TierError::MissingKey(BufferKey(42)))
    ));
    assert_eq!(tiers.tier_of(BufferKey(42)), None);
}

#[test]
fn demote_from_storage_is_invalid_input() {
    let mut tiers = TierManager::new(0, 0, 4);
    assert_eq!(tiers.insert(BufferKey(1), vec![1]).unwrap(), TierLevel::Storage);
    let error = tiers.demote(BufferKey(1)).unwrap_err();
    assert!(matches!(error, TierError::InvalidInput(_)));
    assert_eq!(
        error.to_string(),
        "cannot demote a buffer already in storage. Fix: pass a valid value."
    );
    assert_eq!(tiers.tier_of(BufferKey(1)), Some(TierLevel::Storage));
}

#[test]
fn promote_to_current_tier_changes_nothing() {
    let mut tiers = TierManager::new(4, 4, 4);
    tiers.insert(BufferKey(1), vec![1, 2]).unwrap();
    tiers.promote(BufferKey(1), TierLevel::Vram).unwrap();
    assert_eq!(tiers.tier_of(BufferKey(1)), Some(TierLevel::Vram));
    assert_eq!(tiers.keys(TierLevel::Vram), vec![BufferKey(1)]);
}

#[test]
fn promote_oversized_buffer_is_refused_and_kept_in_place() {
    let mut tiers = TierManager::new(2, 8, 8);
    tiers.insert(BufferKey(1), vec![0; 5]).unwrap();
    assert_eq!(tiers.tier_of(BufferKey(1)), Some(TierLevel::Host));
    let error = tiers.promote(BufferKey(1), TierLevel::Vram).unwrap_err();
    assert!(matches!(
        error,
        TierError::CapacityExceeded { requested: 5, available: 2 }
    ));
    assert_eq!(tiers.tier_of(BufferKey(1)), Some(TierLevel::Host));
    assert_eq!(tiers.get(BufferKey(1)).unwrap(), vec![0; 5]);
}

#[test]
fn storage_victims_are_dropped_when_making_room() {
    let mut tiers = TierManager::new(1, 1, 2);
    tiers.insert(BufferKey(1), vec![1]).unwrap();
    tiers.insert(BufferKey(2), vec![2]).unwrap();
    tiers.insert(BufferKey(3), vec![3, 3]).unwrap();
    assert_eq!(tiers.tier_of(BufferKey(3)), Some(TierLevel::Storage));
    tiers.demote(BufferKey(2)).unwrap();
    assert_eq!(tiers.tier_of(BufferKey(2)), Some(TierLevel::Storage));
    assert_eq!(tiers.tier_of(BufferKey(3)), None);
    assert_eq!(tiers.get(BufferKey(2)).unwrap(), vec![2]);
}

#[test]
fn keys_are_listed_in_ascending_order() {
    let mut tiers = TierManager::new(8, 8, 8);
    tiers.insert(BufferKey(30), vec![1]).unwrap();
    tiers.insert(BufferKey(10), vec![1]).unwrap();
    tiers.insert(BufferKey(20), vec![1]).unwrap();
    assert_eq!(
        tiers.keys(TierLevel::Vram),
        vec![BufferKey(10), BufferKey(20), BufferKey(30)]
    );
    assert_eq!(tiers.keys(TierLevel::Host), Vec::<BufferKey>::new());
}

#[test]
fn insert_then_evict_restores_the_tiers() {
    let mut tiers = TierManager::new(4, 4, 4);
    tiers.insert(BufferKey(1), vec![1]).unwrap();
    let before_used = tiers.used_bytes(TierLevel::Vram);
    let before_keys = tiers.keys(TierLevel::Vram);
    tiers.insert(BufferKey(2), vec![2, 2]).unwrap();
    assert_eq!(tiers.evict(BufferKey(2)).unwrap(), vec![2, 2]);
    assert_eq!(tiers.used_bytes(TierLevel::Vram), before_used);
    assert_eq!(tiers.keys(TierLevel::Vram), before_keys);
}

#[test]
fn failed_demote_leaves_the_buffer_in_place() {
    let mut tiers = TierManager::new(4, 2, 8);
    assert_eq!(tiers.insert(BufferKey(1), vec![1, 1, 1]).unwrap(), TierLevel::Vram);
    let error = tiers.demote(BufferKey(1)).unwrap_err();
    assert!(matches!(
        error,
        TierError::CapacityExceeded { requested: 3, available: 2 }
    ));
    assert_eq!(tiers.tier_of(BufferKey(1)), Some(TierLevel::Vram));
    assert_eq!(tiers.get(BufferKey(1)).unwrap(), vec![1, 1, 1]);
    assert_eq!(tiers.used_bytes(TierLevel::Vram), 3);
}

#[test]
fn failed_promote_loses_no_buffer() {
    let mut tiers = TierManager::new(4, 2, 8);
    assert_eq!(tiers.insert(BufferKey(1), vec![1, 1, 1]).unwrap(), TierLevel::Vram);
    assert_eq!(tiers.insert(BufferKey(2), vec![2, 2]).unwrap(), TierLevel::Host);
    assert_eq!(tiers.insert(BufferKey(3), vec![3, 3]).unwrap(), TierLevel::Storage);
    let error = tiers.promote(BufferKey(3), TierLevel::Vram).unwrap_err();
    assert!(matches!(error, TierError::CapacityExceeded { .. }));
    assert_eq!(tiers.tier_of(BufferKey(1)), Some(TierLevel::Vram));
    assert_eq!(tiers.tier_of(BufferKey(2)), Some(TierLevel::Host));
    assert_eq!(tiers.tier_of(BufferKey(3)), Some(TierLevel::Storage));
    assert_eq!(tiers.get(BufferKey(1)).unwrap(), vec![1, 1, 1]);
    assert_eq!(tiers.get(BufferKey(3)).unwrap(), vec![3, 3]);
    assert_eq!(tiers.used_bytes(TierLevel::Vram), 3);
    assert_eq!(tiers.used_bytes(TierLevel::Host), 2);
    assert_eq!(tiers.used_bytes(TierLevel::Storage), 2);
}

#[test]
fn failed_promote_restores_buffers_dropped_from_storage() {
    let mut tiers = TierManager::new(3, 3, 1);
    assert_eq!(tiers.insert(BufferKey(1), vec![1, 1, 1]).unwrap(), TierLevel::Vram);
    assert_eq!(tiers.insert(BufferKey(5), vec![5]).unwrap(), TierLevel::Host);
    assert_eq!(tiers.insert(BufferKey(6), vec![6, 6]).unwrap(), TierLevel::Host);
    assert_eq!(tiers.insert(BufferKey(7), vec![7]).unwrap(), TierLevel::Storage);
    let error = tiers.promote(BufferKey(1), TierLevel::Host).unwrap_err();
    assert!(matches!(
        error,
        TierError::CapacityExceeded { requested: 2, available: 1 }
    ));
    assert_eq!(tiers.tier_of(BufferKey(1)), Some(TierLevel::Vram));
    assert_eq!(tiers.tier_of(BufferKey(5)), Some(TierLevel::Host));
    assert_eq!(tiers.tier_of(BufferKey(6)), Some(TierLevel::Host));
    assert_eq!(tiers.tier_of(BufferKey(7)), Some(TierLevel::Storage));
    assert_eq!(tiers.get(BufferKey(7)).unwrap(), vec![7]);
}

#[test]
fn any_call_sequence_keeps_tiers_disjoint_and_within_capacity() {
    let (v, h, s) = (4usize, 5usize, 6usize);
    let mut tiers = TierManager::new(v, h, s);
    for round in 0u64..40 {
        let key = BufferKey(round % 7);
        let len = (round % 4) as usize + 1;
        let _ = match round % 5 {
            0 | 1 => tiers.insert(key, vec![round as u8; len]).map(|_| ()),
            2 => tiers.promote(key, TierLevel::Vram),
            3 => tiers.demote(key).map(|_| ()),
            _ => tiers.evict(key).map(|_| ()),
        };
        let vram = tiers.keys(TierLevel::Vram);
        let host = tiers.keys(TierLevel::Host);
        let storage = tiers.keys(TierLevel::Storage);
        for k in &vram {
            assert!(!host.contains(k) && !storage.contains(k));
        }
        for k in &host {
            assert!(!storage.contains(k));
        }
        assert!(tiers.used_bytes(TierLevel::Vram) <= v);
        assert!(tiers.used_bytes(TierLevel::Host) <= h);
        assert!(tiers.used_bytes(TierLevel::Storage) <= s);
    }
}
