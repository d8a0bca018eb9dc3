//! The bump resolver: a request names how the next version is derived from
//! the current one — step the patch, minor or major component, or take an
//! explicit version text verbatim.

use vstd::prelude::*;

use crate::version::SemanticVersion;
use crate::version::VersionError;
use crate::version::parse_version;
use crate::version::parses_to_version;
use crate::version::parses_within_u64;

verus! {

/// A request for how to derive the next version.
///
/// Any keyword other than `patch`, `minor` or `major` is deliberately read
/// as an explicit target version text, not rejected; see
/// [`bump_request_from_text`].
#[derive(Clone, Debug)]
pub enum BumpRequest {
    /// Increment the patch component, keep major and minor.
    Patch,
    /// Increment the minor component, reset patch to zero.
    Minor,
    /// Increment the major component, reset minor and patch to zero.
    Major,
    /// Use the given version text verbatim; it is only checked to parse.
    /// No ordering check against the current version is made: an explicit
    /// version may regress the current one by design.
    Explicit(String),
}

/// The next version `v` is what `req` derives from `cur`.
pub open spec fn resolves_to(cur: SemanticVersion, req: BumpRequest, v: SemanticVersion) -> bool {
    match req {
        BumpRequest::Patch => v.major == cur.major && v.minor == cur.minor && v.patch == cur.patch
            + 1,
        BumpRequest::Minor => v.major == cur.major && v.minor == cur.minor + 1 && v.patch == 0,
        BumpRequest::Major => v.major == cur.major + 1 && v.minor == 0 && v.patch == 0,
        BumpRequest::Explicit(t) => parses_to_version(t@, v),
    }
}

/// The stepped component has room left in a `u64` (a machine bound, not a
/// rule of the version model).
pub open spec fn bump_in_range(cur: SemanticVersion, req: BumpRequest) -> bool {
    match req {
        BumpRequest::Patch => cur.patch < u64::MAX,
        BumpRequest::Minor => cur.minor < u64::MAX,
        BumpRequest::Major => cur.major < u64::MAX,
        BumpRequest::Explicit(_) => true,
    }
}

/// `req` yields a next version from `cur`: always, except for an explicit
/// text that does not parse as a version.
pub open spec fn resolvable(cur: SemanticVersion, req: BumpRequest) -> bool {
    match req {
        BumpRequest::Explicit(t) => parses_within_u64(t@),
        _ => true,
    }
}

/// Computes the next version from the current one and a request.
///
/// Fails with `InvalidVersionFormat` exactly when the request carries an
/// explicit version text that does not parse.
pub fn resolve_bump(current: &SemanticVersion, request: &BumpRequest) -> (r: Result<
    SemanticVersion,
    VersionError,
>)
    requires
        bump_in_range(*current, *request),
    ensures
        r is Ok <==> resolvable(*current, *request),
        r matches Ok(v) ==> resolves_to(*current, *request, v),
        r matches Err(e) ==> e == VersionError::InvalidVersionFormat,
{
    match request {
        BumpRequest::Patch => Ok(
            SemanticVersion {
                major: current.major,
                minor: current.minor,
                patch: current.patch + 1,
            },
        ),
        BumpRequest::Minor => Ok(
            SemanticVersion { major: current.major, minor: current.minor + 1, patch: 0 },
        ),
        BumpRequest::Major => Ok(SemanticVersion { major: current.major + 1, minor: 0, patch: 0 }),
        BumpRequest::Explicit(t) => parse_version(t.as_str()),
    }
}

/// Character-for-character string equality.
fn str_eq(a: &str, b: &str) -> (r: bool)
    ensures
        r == (a@ == b@),
{
    let n = a.unicode_len();
    let m = b.unicode_len();
    if n != m {
        return false;
    }
    let mut i: usize = 0;
    while i < n
        invariant
            i <= n,
            n == a@.len(),
            n == b@.len(),
            forall|q: int| 0 <= q < i ==> a@[q] == b@[q],
        decreases n - i,
    {
        if a.get_char(i) != b.get_char(i) {
            return false;
        }
        i = i + 1;
    }
    proof {
        assert(a@ =~= b@);
    }
    true
}

/// Maps a caller-supplied keyword to a request: `patch`, `minor` and
/// `major` name the three stepping bumps, and any other text is read as an
/// explicit target version — a deliberate convenience, kept as observable
/// behaviour.
pub fn bump_request_from_text(text: &str) -> (r: BumpRequest)
    ensures
        text@ == "patch"@ ==> r is Patch,
        text@ == "minor"@ ==> r is Minor,
        text@ == "major"@ ==> r is Major,
        text@ != "patch"@ && text@ != "minor"@ && text@ != "major"@ ==> (r matches
        BumpRequest::Explicit(t) && t@ == text@),
{
    proof {
        reveal_strlit("patch");
        reveal_strlit("minor");
        reveal_strlit("major");
        assert("patch"@[0] != "minor"@[0]);
        assert("patch"@[0] != "major"@[0]);
        assert("minor"@[1] != "major"@[1]);
    }
    if str_eq(text, "patch") {
        BumpRequest::Patch
    } else if str_eq(text, "minor") {
        BumpRequest::Minor
    } else if str_eq(text, "major") {
        BumpRequest::Major
    } else {
        BumpRequest::Explicit(text.to_owned())
    }
}

} // verus!
