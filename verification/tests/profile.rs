use spill::{BufferKey, Profile, TierError, TierLevel};
use std::collections::BTreeMap;

fn parse_message(error: TierError) -> String {
    match error {
        TierError::Parse(message) => message,
        other => panic!("expected a parse error, got {other:?}"),
    }
}

#[test]
fn profile_rejects_corrupt_json() {
    let error = Profile::from_json("{\"version\":1,\"hot_keys\":[1],")
        .expect_err("Fix: truncated profile JSON must return an error");

    assert!(
        error.to_string().contains("Fix:"),
        "Fix: parse errors must include an actionable repair hint."
    );
}

#[test]
fn profile_json_roundtrips_hot_keys_and_assignments() {
    let mut assignments = BTreeMap::new();
    assignments.insert(1u64, TierLevel::Vram);
    assignments.insert(2u64, TierLevel::Host);
    let profile = Profile::new(vec![BufferKey(1), BufferKey(2)], assignments);
    let loaded = Profile::from_json(&profile.to_json()).expect("saved profile JSON must load");
    assert_eq!(loaded, profile);
}

#[test]
fn profile_json_is_deterministic() {
    let mut assignments = BTreeMap::new();
    assignments.insert(9u64, TierLevel::Storage);
    assignments.insert(2u64, TierLevel::Host);
    let profile = Profile::new(vec![BufferKey(3), BufferKey(1)], assignments);
    assert_eq!(
        profile.to_json(),
        "{\"version\":1,\"hot_keys\":[3,1],\"tier_assignment\":[{\"key\":2,\"tier\":\"Host\"},{\"key\":9,\"tier\":\"Storage\"}]}"
    );
}

#[test]
fn empty_profile_serializes_and_parses() {
    let profile = Profile::new(Vec::new(), BTreeMap::new());
    let json = profile.to_json();
    assert_eq!(json, "{\"version\":1,\"hot_keys\":[],\"tier_assignment\":[]}");
    assert_eq!(Profile::from_json(&json).unwrap(), profile);
}

#[test]
fn whitespace_is_ignored_when_parsing() {
    let json = " {\n \"version\" : 1 ,\t\"hot_keys\" : [ 7 , 8 ] ,\n \"tier_assignment\" : [ { \"key\" : 7 , \"tier\" : \"Vram\" } ] } ";
    let profile = Profile::from_json(json).unwrap();
    assert_eq!(profile.hot_keys, vec![BufferKey(7), BufferKey(8)]);
    assert_eq!(profile.tier_assignment.get(&7), Some(&TierLevel::Vram));
    assert_eq!(profile.tier_assignment.len(), 1);
}

#[test]
fn not_an_object_is_a_parse_error() {
    let error = Profile::from_json("[1,2]").unwrap_err();
    assert_eq!(
        error.to_string(),
        "profile must be a JSON object. Fix: load a valid helix profile JSON."
    );
}

#[test]
fn unsupported_version_is_a_parse_error() {
    let error = Profile::from_json("{\"version\":2,\"hot_keys\":[],\"tier_assignment\":[]}").unwrap_err();
    assert_eq!(parse_message(error), "profile version is missing or unsupported");
}

#[test]
fn missing_field_names_the_prefix() {
    let error = Profile::from_json("{\"version\":1,\"tier_assignment\":[]}").unwrap_err();
    assert_eq!(parse_message(error), "missing JSON field prefix \"hot_keys\":[");
}

#[test]
fn unterminated_list_names_the_suffix() {
    let error = Profile::from_json("{\"version\":1,\"hot_keys\":[1,2}").unwrap_err();
    assert_eq!(parse_message(error), "missing JSON field suffix ]");
}

#[test]
fn bad_hot_key_is_a_parse_error() {
    let error =
        Profile::from_json("{\"version\":1,\"hot_keys\":[1,x],\"tier_assignment\":[]}").unwrap_err();
    assert_eq!(parse_message(error), "hot key must be an unsigned integer");
}

#[test]
fn hot_key_overflow_is_a_parse_error() {
    let error = Profile::from_json(
        "{\"version\":1,\"hot_keys\":[18446744073709551616],\"tier_assignment\":[]}",
    )
    .unwrap_err();
    assert_eq!(parse_message(error), "hot key must be an unsigned integer");
    let largest = Profile::from_json(
        "{\"version\":1,\"hot_keys\":[18446744073709551615],\"tier_assignment\":[]}",
    )
    .unwrap();
    assert_eq!(largest.hot_keys, vec![BufferKey(u64::MAX)]);
}

#[test]
fn plus_sign_is_accepted_as_integer_parse_does() {
    let profile =
        Profile::from_json("{\"version\":1,\"hot_keys\":[+5],\"tier_assignment\":[]}").unwrap();
    assert_eq!(profile.hot_keys, vec![BufferKey(5)]);
}

#[test]
fn unknown_tier_is_a_parse_error() {
    let error = Profile::from_json(
        "{\"version\":1,\"hot_keys\":[],\"tier_assignment\":[{\"key\":1,\"tier\":\"Disk\"}]}",
    )
    .unwrap_err();
    assert_eq!(parse_message(error), "tier must be Vram, Host, or Storage");
}

#[test]
fn bad_assignment_key_is_a_parse_error() {
    let error = Profile::from_json(
        "{\"version\":1,\"hot_keys\":[],\"tier_assignment\":[{\"key\":-1,\"tier\":\"Host\"}]}",
    )
    .unwrap_err();
    assert_eq!(parse_message(error), "assignment key must be an unsigned integer");
}

#[test]
fn empty_assignment_object_is_a_parse_error() {
    let error = Profile::from_json(
        "{\"version\":1,\"hot_keys\":[],\"tier_assignment\":[{\"key\":1,\"tier\":\"Host\"},{}]}",
    )
    .unwrap_err();
    assert_eq!(parse_message(error), "empty tier assignment object");
}

#[test]
fn later_assignment_of_a_key_wins() {
    let profile = Profile::from_json(
        "{\"version\":1,\"hot_keys\":[],\"tier_assignment\":[{\"key\":4,\"tier\":\"Host\"},{\"key\":4,\"tier\":\"Vram\"}]}",
    )
    .unwrap();
    assert_eq!(profile.tier_assignment.len(), 1);
    assert_eq!(profile.tier_assignment.get(&4), Some(&TierLevel::Vram));
}

#[test]
fn only_version_one_is_accepted() {
    let error =
        Profile::from_json("{\"version\":10,\"hot_keys\":[],\"tier_assignment\":[]}").unwrap_err();
    assert_eq!(parse_message(error), "profile version is missing or unsupported");
    let last = Profile::from_json("{\"hot_keys\":[4],\"tier_assignment\":[],\"version\":1}").unwrap();
    assert_eq!(last.hot_keys, vec![BufferKey(4)]);
}

#[test]
fn tier_names_parse_back_and_other_names_are_refused() {
    for tier in [TierLevel::Vram, TierLevel::Host, TierLevel::Storage] {
        let json = format!(
            "{{\"version\":1,\"hot_keys\":[],\"tier_assignment\":[{{\"key\":1,\"tier\":\"{}\"}}]}}",
            spill::profile::tier_name(tier)
        );
        assert_eq!(Profile::from_json(&json).unwrap().tier_assignment.get(&1), Some(&tier));
    }
    for name in ["vram", "", "HOST"] {
        let json = format!(
            "{{\"version\":1,\"hot_keys\":[],\"tier_assignment\":[{{\"key\":1,\"tier\":\"{name}\"}}]}}"
        );
        assert_eq!(
            parse_message(Profile::from_json(&json).unwrap_err()),
            "tier must be Vram, Host, or Storage"
        );
    }
}
