use tfenv_rs::constraint::{extract_specifier, latest_allowed_to_requested, min_required};

#[test]
fn test_extract_specifier_quoted() {
    let text = "terraform {\n  required_version = \">= 1.2.0\"\n}\n";
    assert_eq!(extract_specifier(text).as_deref(), Some(">= 1.2.0"));
}

#[test]
fn test_extract_specifier_first_wins() {
    let text = "required_version = \"~> 1.0\"\nrequired_version = \"~> 2.0\"\n";
    assert_eq!(extract_specifier(text).as_deref(), Some("~> 1.0"));
}

#[test]
fn test_extract_specifier_skips_commented() {
    let text = "# required_version = \"1.0.0\"\nrequired_version = \"2.0.0\"\n";
    assert_eq!(extract_specifier(text).as_deref(), Some("2.0.0"));
}

#[test]
fn test_extract_specifier_unquoted() {
    let text = "required_version: >= 1.2.0\n";
    assert_eq!(extract_specifier(text).as_deref(), Some(">= 1.2.0"));
}

#[test]
fn test_extract_specifier_none() {
    assert!(extract_specifier("resource \"x\" \"y\" {}\n").is_none());
    assert!(extract_specifier("").is_none());
}

#[test]
fn test_min_required_exact() {
    let text = "required_version = \">= 1.2.0\"\n";
    assert_eq!(min_required(text).as_deref(), Some("1.2.0"));
}

#[test]
fn test_min_required_pads_components() {
    assert_eq!(
        min_required("required_version = \"~> 1.2\"\n").as_deref(),
        Some("1.2.0")
    );
    assert_eq!(
        min_required("required_version = \">= 1\"\n").as_deref(),
        Some("1.0.0")
    );
}

#[test]
fn test_min_required_prerelease_suffix() {
    assert_eq!(
        min_required("required_version = \"= 0.11.15-oci2\"\n").as_deref(),
        Some("0.11.15-oci2")
    );
}

#[test]
fn test_min_required_not_equal_is_none() {
    // a version to avoid is not a minimum
    assert!(min_required("required_version = \"!= 1.3.0\"\n").is_none());
}

#[test]
fn test_min_required_no_token() {
    assert!(min_required("required_version = \"latest\"\n").is_none());
    assert!(min_required("nothing here\n").is_none());
}

#[test]
fn test_latest_allowed_greater_is_latest() {
    assert_eq!(
        latest_allowed_to_requested("required_version = \"> 1.0\"\n").as_deref(),
        Some("latest")
    );
    assert_eq!(
        latest_allowed_to_requested("required_version = \">= 0.13\"\n").as_deref(),
        Some("latest")
    );
}

#[test]
fn test_latest_allowed_less_pins() {
    assert_eq!(
        latest_allowed_to_requested("required_version = \"<= 0.13.6\"\n").as_deref(),
        Some("0.13.6")
    );
    assert_eq!(
        latest_allowed_to_requested("required_version = \"< 1.0.0\"\n").as_deref(),
        Some("1.0.0")
    );
}

#[test]
fn test_latest_allowed_tilde_drops_rightmost() {
    // `~> 1.2` maps to latest filtered by the escaped prefix `1\.`
    assert_eq!(
        latest_allowed_to_requested("required_version = \"~> 1.2\"\n").as_deref(),
        Some("latest:^1\\.")
    );
    assert_eq!(
        latest_allowed_to_requested("required_version = \"~> 1.2.3\"\n").as_deref(),
        Some("latest:^1\\.2\\.")
    );
}

#[test]
fn test_latest_allowed_unmappable() {
    // a single-component `~>` range has no rightmost component to drop
    assert!(latest_allowed_to_requested("required_version = \"~> 1\"\n").is_none());
    assert!(latest_allowed_to_requested("required_version = \"= 1.2.3\"\n").is_none());
    assert!(latest_allowed_to_requested("no declaration\n").is_none());
}
