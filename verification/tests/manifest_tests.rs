use version_bump::BumpRequest;
use version_bump::SemanticVersion;
use version_bump::VersionError;
use version_bump::get_version;
use version_bump::update_version;

fn v(major: u64, minor: u64, patch: u64) -> SemanticVersion {
    SemanticVersion { major, minor, patch }
}

#[test]
fn get_version_reads_root_value() {
    let text = "name = \"demo\"\nversion = \"1.2.3\"\n";
    assert_eq!(get_version(text).unwrap(), v(1, 2, 3));
}

#[test]
fn get_version_ignores_spacing() {
    let text = "\tversion\t=   \"4.0.7\"\n";
    assert_eq!(get_version(text).unwrap(), v(4, 0, 7));
    let text = "version=\"4.0.7\"";
    assert_eq!(get_version(text).unwrap(), v(4, 0, 7));
}

#[test]
fn get_version_missing_field() {
    let text = "name = \"demo\"\nedition = \"2021\"\n";
    assert_eq!(
        get_version(text).unwrap_err(),
        VersionError::MissingVersionField
    );
}

#[test]
fn get_version_stops_at_table_header() {
    let text = "name = \"demo\"\n[dependencies]\nversion = \"1.2.3\"\n";
    assert_eq!(
        get_version(text).unwrap_err(),
        VersionError::MissingVersionField
    );
}

#[test]
fn get_version_invalid_value() {
    let text = "version = \"not-a-version\"\n";
    assert_eq!(
        get_version(text).unwrap_err(),
        VersionError::InvalidVersionFormat
    );
}

#[test]
fn update_patches_only_the_value() {
    let text = "# a demo project\nname = \"demo\"\nversion = \"0.1.0\" # keep me\n\n[dependencies]\nlib = { version = \"9.9.9\" }\n";
    let expected = "# a demo project\nname = \"demo\"\nversion = \"0.1.1\" # keep me\n\n[dependencies]\nlib = { version = \"9.9.9\" }\n";
    let out = update_version(text, &BumpRequest::Patch).unwrap();
    assert_eq!(out, expected);
}

#[test]
fn update_leaves_nested_version_line_alone() {
    let text = "version = \"2.0.0\"\n[other]\nversion = \"5.5.5\"\n";
    let expected = "version = \"2.1.0\"\n[other]\nversion = \"5.5.5\"\n";
    let out = update_version(text, &BumpRequest::Minor).unwrap();
    assert_eq!(out, expected);
}

#[test]
fn update_with_explicit_version() {
    let text = "version = \"1.0.0\"\n";
    let req = BumpRequest::Explicit(String::from("7.8.9"));
    assert_eq!(update_version(text, &req).unwrap(), "version = \"7.8.9\"\n");
}

#[test]
fn update_missing_field() {
    let text = "name = \"demo\"\n";
    assert_eq!(
        update_version(text, &BumpRequest::Patch).unwrap_err(),
        VersionError::MissingVersionField
    );
}

#[test]
fn update_invalid_current_value() {
    let text = "version = \"one.two.three\"\n";
    assert_eq!(
        update_version(text, &BumpRequest::Patch).unwrap_err(),
        VersionError::InvalidVersionFormat
    );
}

#[test]
fn update_invalid_explicit_text() {
    let text = "version = \"1.0.0\"\n";
    let req = BumpRequest::Explicit(String::from("bogus"));
    assert_eq!(
        update_version(text, &req).unwrap_err(),
        VersionError::InvalidVersionFormat
    );
}

#[test]
fn major_bump_end_to_end() {
    let text = "name = \"demo\"\nversion = \"2.4.9\"\n\n[dependencies]\nlib = { version = \"0.0.1\" }\n";
    let out = update_version(text, &BumpRequest::Major).unwrap();
    assert!(out.contains("version = \"3.0.0\""));
    assert_eq!(get_version(&out).unwrap(), v(3, 0, 0));
}

#[test]
fn update_keeps_value_spacing_around_quotes() {
    let text = "version   =\t\"0.0.9\"  # spaced\n";
    let expected = "version   =\t\"0.0.10\"  # spaced\n";
    assert_eq!(
        update_version(text, &BumpRequest::Patch).unwrap(),
        expected
    );
}

#[test]
fn version_on_first_line() {
    let text = "version = \"1.1.1\"\nname = \"demo\"\n";
    assert_eq!(get_version(text).unwrap(), v(1, 1, 1));
}

#[test]
fn array_value_line_does_not_end_root_scope() {
    let text = "flags = [1, 2]\nversion = \"1.0.0\"\n";
    assert_eq!(get_version(text).unwrap(), v(1, 0, 0));
}

#[test]
fn indented_table_header_ends_root_scope() {
    let text = "  [dependencies]\nversion = \"1.0.0\"\n";
    assert_eq!(
        get_version(text).unwrap_err(),
        VersionError::MissingVersionField
    );
}

#[test]
fn version_key_with_suffix_is_not_the_field() {
    let text = "versions = \"1.0.0\"\nversion = \"2.0.0\"\n";
    assert_eq!(get_version(text).unwrap(), v(2, 0, 0));
}

#[test]
fn update_text_without_trailing_newline() {
    let text = "version = \"0.9.9\"";
    assert_eq!(
        update_version(text, &BumpRequest::Patch).unwrap(),
        "version = \"0.9.10\""
    );
}
