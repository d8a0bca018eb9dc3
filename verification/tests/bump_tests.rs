use version_bump::BumpRequest;
use version_bump::SemanticVersion;
use version_bump::VersionError;
use version_bump::bump_request_from_text;
use version_bump::resolve_bump;

fn v(major: u64, minor: u64, patch: u64) -> SemanticVersion {
    SemanticVersion { major, minor, patch }
}

#[test]
fn patch_bump_increments_patch() {
    assert_eq!(
        resolve_bump(&v(1, 2, 3), &BumpRequest::Patch).unwrap(),
        v(1, 2, 4)
    );
}

#[test]
fn minor_bump_resets_patch() {
    assert_eq!(
        resolve_bump(&v(1, 2, 3), &BumpRequest::Minor).unwrap(),
        v(1, 3, 0)
    );
}

#[test]
fn major_bump_resets_minor_and_patch() {
    assert_eq!(
        resolve_bump(&v(1, 2, 3), &BumpRequest::Major).unwrap(),
        v(2, 0, 0)
    );
}

#[test]
fn explicit_bump_takes_text_verbatim() {
    let req = BumpRequest::Explicit(String::from("9.9.9"));
    assert_eq!(resolve_bump(&v(1, 2, 3), &req).unwrap(), v(9, 9, 9));
}

#[test]
fn explicit_bump_may_regress() {
    let req = BumpRequest::Explicit(String::from("0.0.1"));
    assert_eq!(resolve_bump(&v(5, 0, 0), &req).unwrap(), v(0, 0, 1));
}

#[test]
fn explicit_bump_rejects_bad_text() {
    let req = BumpRequest::Explicit(String::from("bogus"));
    assert_eq!(
        resolve_bump(&v(1, 2, 3), &req).unwrap_err(),
        VersionError::InvalidVersionFormat
    );
}

#[test]
fn keyword_patch_maps_to_patch() {
    assert!(matches!(bump_request_from_text("patch"), BumpRequest::Patch));
}

#[test]
fn keyword_minor_maps_to_minor() {
    assert!(matches!(bump_request_from_text("minor"), BumpRequest::Minor));
}

#[test]
fn keyword_major_maps_to_major() {
    assert!(matches!(bump_request_from_text("major"), BumpRequest::Major));
}

#[test]
fn other_keyword_becomes_explicit() {
    match bump_request_from_text("4.5.6") {
        BumpRequest::Explicit(t) => assert_eq!(t, "4.5.6"),
        other => panic!("expected an explicit request, got {:?}", other),
    }
}

#[test]
fn capitalized_keyword_becomes_explicit() {
    match bump_request_from_text("Patch") {
        BumpRequest::Explicit(t) => assert_eq!(t, "Patch"),
        other => panic!("expected an explicit request, got {:?}", other),
    }
}
