use miasma::new_version_available;

#[test]
fn differing_versions_are_announced() {
    assert!(new_version_available("0.3.1", "0.4.0"));
    assert!(new_version_available("0.3.1", "0.3.10"));
    assert!(new_version_available("1.0.0", ""));
}

#[test]
fn same_version_is_quiet() {
    assert!(!new_version_available("0.3.1", "0.3.1"));
    assert!(!new_version_available("", ""));
}
