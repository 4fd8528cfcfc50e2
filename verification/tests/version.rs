use gadv::version::{full, short};

#[test]
fn short_has_v_prefix() {
    assert!(short().starts_with('v'));
}

#[test]
fn full_starts_with_short_in_both_profiles() {
    assert!(full(true).starts_with(&short()));
    assert!(full(false).starts_with(&short()));
}

#[test]
fn version_strings_are_exact() {
    assert_eq!(short(), "v0.0.1");
    assert_eq!(full(true), "v0.0.1-dev");
    assert_eq!(full(false), "v0.0.1");
}
