use bad_apple::regen::needs_regen;

#[test]
fn missing_file_is_made() {
    assert!(needs_regen(false, Some(1), Some(2)));
    assert!(needs_regen(false, None, None));
}

#[test]
fn unknown_times_make_the_file_again() {
    assert!(needs_regen(true, None, Some(2)));
    assert!(needs_regen(true, Some(1), None));
    assert!(needs_regen(true, None, None));
}

#[test]
fn newer_source_makes_the_file_again() {
    assert!(needs_regen(true, Some(3), Some(2)));
    assert!(needs_regen(true, Some(-5), Some(-6)));
    assert!(needs_regen(true, Some(1_700_000_000_000_000_001), Some(1_700_000_000_000_000_000)));
}

#[test]
fn file_as_new_as_its_source_is_kept() {
    assert!(!needs_regen(true, Some(2), Some(2)));
    assert!(!needs_regen(true, Some(2), Some(3)));
    assert!(!needs_regen(true, Some(-6), Some(-5)));
}
