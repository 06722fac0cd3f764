use spill::profile::tier_name;
use spill::{AccessStats, BufferKey, TierError, TierLevel};
use std::io::{Error, ErrorKind};

#[test]
fn colder_walks_down_the_tiers() {
    assert_eq!(TierLevel::Vram.colder(), Some(TierLevel::Host));
    assert_eq!(TierLevel::Host.colder(), Some(TierLevel::Storage));
    assert_eq!(TierLevel::Storage.colder(), None);
}

#[test]
fn access_stats_start_at_zero() {
    let stats = AccessStats::new(4096);
    assert_eq!(stats.access_count, 0);
    assert_eq!(stats.last_access_tick, 0);
    assert_eq!(stats.bytes, 4096);
}

#[test]
fn tier_names_match_the_profile_format() {
    assert_eq!(tier_name(TierLevel::Vram), "Vram");
    assert_eq!(tier_name(TierLevel::Host), "Host");
    assert_eq!(tier_name(TierLevel::Storage), "Storage");
}

#[test]
fn io_errors_keep_their_text_and_add_a_hint() {
    let error = TierError::from(Error::new(ErrorKind::NotFound, "profile file gone"));
    assert!(matches!(error, TierError::Io(_)));
    assert_eq!(
        error.to_string(),
        "profile file gone. Fix: verify the profile path and permissions."
    );
}

#[test]
fn every_error_message_ends_with_a_fix() {
    let errors = [
        TierError::DuplicateKey(BufferKey(1)),
        TierError::MissingKey(BufferKey(2)),
        TierError::CapacityExceeded { requested: 10, available: 3 },
        TierError::InvalidInput("window must be positive".to_owned()),
        TierError::Parse("bad profile".to_owned()),
    ];
    let texts: Vec<String> = errors.iter().map(|e| e.to_string()).collect();
    assert_eq!(texts[0], "buffer key BufferKey(1) already exists. Fix: evict it before reinserting.");
    assert_eq!(texts[1], "buffer key BufferKey(2) is missing. Fix: insert it first.");
    assert_eq!(
        texts[2],
        "capacity exceeded: requested 10 bytes, available 3. Fix: increase tier capacity or evict colder buffers."
    );
    assert_eq!(texts[3], "window must be positive. Fix: pass a valid value.");
    assert_eq!(texts[4], "bad profile. Fix: load a valid helix profile JSON.");
}

#[test]
fn key_text_uses_full_decimal() {
    let error = TierError::MissingKey(BufferKey(u64::MAX));
    assert_eq!(
        error.to_string(),
        "buffer key BufferKey(18446744073709551615) is missing. Fix: insert it first."
    );
}
