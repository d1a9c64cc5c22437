use adr::init::{absolute_from, marker_value_for, path_to_portable_string, status_content, InitError};

#[test]
fn marker_value_is_relative_for_nested_path() {
    let value = marker_value_for("/repo", "/repo/docs/adr").expect("marker value");
    assert_eq!(value, "docs/adr");
}

#[test]
fn marker_value_is_relative_for_parent_path() {
    let value = marker_value_for("/repo/subdir", "/repo/docs/adr").expect("marker value");
    assert_eq!(value, "../docs/adr");
}

#[test]
fn marker_value_fails_for_relative_path_against_absolute_base() {
    match marker_value_for("/repo", "docs/adr") {
        Err(InitError::RelativePath) => {}
        other => panic!("unexpected result: {other:?}"),
    }
}

#[test]
fn status_content_has_exact_values_and_order() {
    assert_eq!(
        status_content(),
        "DRAFT\nPROPOSED\nACCEPTED\nADOPTED\nSUPERSEDED\nEXPIRED\n"
    );
}

#[test]
fn absolute_from_keeps_absolute_path() {
    let absolute = absolute_from("/repo", "/tmp/adrs");
    assert_eq!(absolute, "/tmp/adrs");
}

#[test]
fn absolute_from_joins_relative_path() {
    assert_eq!(absolute_from("/repo", "docs/adr"), "/repo/docs/adr");
}

#[test]
fn portable_string_uses_forward_slashes() {
    assert_eq!(path_to_portable_string("docs\\adr\\x"), "docs/adr/x");
    assert_eq!(path_to_portable_string("docs/adr"), "docs/adr");
}
