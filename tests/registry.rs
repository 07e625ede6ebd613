use detect_core::registry::{
    KeywordEntry, KeywordRegistry, RegisterError, ReleaseError, SIGMATCH_INFO_STICKY_BUFFER,
    SIGMATCH_NOOPT, SIGMATCH_OPTIONAL_OPT,
};

fn entry(name: &str, flags: u16) -> KeywordEntry {
    KeywordEntry { name: name.to_string(), desc: "d".to_string(), url: "u".to_string(), flags }
}

#[test]
fn each_registration_released_exactly_once() {
    let mut reg = KeywordRegistry::new();
    assert_eq!(reg.register_sticky_buffer("a".to_string(), "d".to_string(), "u".to_string()), Ok(0));
    assert_eq!(reg.register(entry("b", 0)), Ok(1));
    reg.freeze();
    assert!(!reg.all_released());
    assert_eq!(reg.release(0), Ok(()));
    assert!(!reg.all_released());
    assert_eq!(reg.release(1), Ok(()));
    assert!(reg.all_released());
    assert_eq!(reg.release(0), Err(ReleaseError::AlreadyReleased));
    assert_eq!(reg.release(2), Err(ReleaseError::UnknownKeyword));
}

#[test]
fn registration_errors() {
    let mut reg = KeywordRegistry::new();
    assert_eq!(reg.register(entry("a", SIGMATCH_NOOPT | SIGMATCH_OPTIONAL_OPT)), Err(RegisterError::ConflictingFlags));
    assert_eq!(reg.len(), 0);
    assert_eq!(reg.register(entry("a", SIGMATCH_NOOPT | SIGMATCH_INFO_STICKY_BUFFER)), Ok(0));
    assert_eq!(reg.register(entry("a", 0)), Err(RegisterError::NameTaken));
    assert_eq!(reg.len(), 1);
    assert!(!reg.is_frozen());
    reg.freeze();
    assert!(reg.is_frozen());
    assert_eq!(reg.register(entry("b", 0)), Err(RegisterError::Frozen));
}
