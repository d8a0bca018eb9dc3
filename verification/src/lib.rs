//! Verified version-bump library: a semantic-version model, a bump
//! resolver, and an in-place patcher for the `version = "..."` field of a
//! manifest's root scope.

pub mod bump;
pub mod manifest;
pub mod version;

pub use bump::BumpRequest;
pub use bump::bump_request_from_text;
pub use bump::resolve_bump;
pub use manifest::get_version;
pub use manifest::update_version;
pub use version::SemanticVersion;
pub use version::VersionError;
pub use version::format_version;
pub use version::parse_version;
