//! The manifest patcher: finds the one `version = "..."` assignment line in
//! the root scope of a manifest text — before any `[...]` table header —
//! and rewrites only the quoted value, leaving every other character of the
//! document untouched.

use vstd::prelude::*;

use crate::bump::BumpRequest;
use crate::bump::bump_in_range;
use crate::bump::resolve_bump;
use crate::bump::resolves_to;
use crate::version::SemanticVersion;
use crate::version::VersionError;
use crate::version::format_version;
use crate::version::parse_version;
use crate::version::parses_to_version;
use crate::version::parses_within_u64;
use crate::version::version_text_of;

verus! {

/// Line-level whitespace: spaces and tabs.
pub open spec fn is_ws_char(c: char) -> bool {
    c == ' ' || c == '\t'
}

/// The first position at or after `p` that is not a space or tab (never
/// crossing a newline, which is not line-level whitespace).
pub open spec fn skip_ws_from(s: Seq<char>, p: int) -> int
    decreases s.len() - p,
{
    if p < 0 || p >= s.len() {
        p
    } else if is_ws_char(s[p]) {
        skip_ws_from(s, p + 1)
    } else {
        p
    }
}

/// The first position at or after `p` holding a closing quote, a newline,
/// or the end of the text: where the quoted value starting at `p` ends.
pub open spec fn scan_value_end(s: Seq<char>, p: int) -> int
    decreases s.len() - p,
{
    if p < 0 || p >= s.len() {
        p
    } else if s[p] == '"' || s[p] == '\n' {
        p
    } else {
        scan_value_end(s, p + 1)
    }
}

/// Skipping whitespace never moves backwards or past the end of the text.
proof fn lemma_skip_ws_bounds(s: Seq<char>, p: int)
    requires
        0 <= p <= s.len(),
    ensures
        p <= skip_ws_from(s, p) <= s.len(),
    decreases s.len() - p,
{
    if p < s.len() && is_ws_char(s[p]) {
        lemma_skip_ws_bounds(s, p + 1);
    }
}

/// Scanning for the value's end never moves backwards or past the end of
/// the text.
proof fn lemma_scan_value_end_bounds(s: Seq<char>, p: int)
    requires
        0 <= p <= s.len(),
    ensures
        p <= scan_value_end(s, p) <= s.len(),
    decreases s.len() - p,
{
    if p < s.len() && s[p] != '"' && s[p] != '\n' {
        lemma_scan_value_end_bounds(s, p + 1);
    }
}

/// `p` begins a line: the start of the text, or the position after a
/// newline.
pub open spec fn is_line_start(s: Seq<char>, p: int) -> bool {
    0 <= p <= s.len() && (p == 0 || s[p - 1] == '\n')
}

/// The seven characters of the key `version` stand at position `a`.
pub open spec fn has_version_word_at(s: Seq<char>, a: int) -> bool {
    &&& 0 <= a
    &&& a + 7 <= s.len()
    &&& s[a] == 'v'
    &&& s[a + 1] == 'e'
    &&& s[a + 2] == 'r'
    &&& s[a + 3] == 's'
    &&& s[a + 4] == 'i'
    &&& s[a + 5] == 'o'
    &&& s[a + 6] == 'n'
}

/// The line starting at `l` opens a table: its first non-blank character
/// is `[`.
pub open spec fn header_line_at(s: Seq<char>, l: int) -> bool {
    is_line_start(s, l) && {
        let a = skip_ws_from(s, l);
        a < s.len() && s[a] == '['
    }
}

/// The line starting at `l` is a version-assignment line: optional blanks,
/// the key `version`, optional blanks, `=`, optional blanks, then a quoted
/// value closed before the end of the line.
pub open spec fn version_line_at(s: Seq<char>, l: int) -> bool {
    is_line_start(s, l) && {
        let a = skip_ws_from(s, l);
        has_version_word_at(s, a) && {
            let b = a + 7;
            b < s.len() && (is_ws_char(s[b]) || s[b] == '=') && {
                let c = skip_ws_from(s, b);
                c < s.len() && s[c] == '=' && {
                    let d = skip_ws_from(s, c + 1);
                    d < s.len() && s[d] == '"' && {
                        let e = scan_value_end(s, d + 1);
                        e < s.len() && s[e] == '"'
                    }
                }
            }
        }
    }
}

/// The position just after the opening quote of the value on the version
/// line starting at `l` (meaningful when `version_line_at(s, l)`).
pub open spec fn value_start_at(s: Seq<char>, l: int) -> int {
    let a = skip_ws_from(s, l);
    let c = skip_ws_from(s, a + 7);
    let d = skip_ws_from(s, c + 1);
    d + 1
}

/// The position of the closing quote of the value on the version line
/// starting at `l` (meaningful when `version_line_at(s, l)`).
pub open spec fn value_end_at(s: Seq<char>, l: int) -> int {
    scan_value_end(s, value_start_at(s, l))
}

/// The quoted value text on the version line starting at `l`.
pub open spec fn value_text_at(s: Seq<char>, l: int) -> Seq<char> {
    s.subrange(value_start_at(s, l), value_end_at(s, l))
}

/// `l` starts the authoritative root-scope version line: a version line
/// with no version line and no table header on any earlier line. A version
/// line below a header belongs to a nested table (a dependency's own
/// version, say) and is never touched.
pub open spec fn root_version_line(s: Seq<char>, l: int) -> bool {
    &&& version_line_at(s, l)
    &&& forall|p: int|
        0 <= p < l && #[trigger] is_line_start(s, p) ==> !version_line_at(s, p)
            && !header_line_at(s, p)
}

/// The manifest has a root-scope version line.
pub open spec fn has_root_version_line(s: Seq<char>) -> bool {
    exists|l: int| #[trigger] root_version_line(s, l)
}

/// At most one line is the authoritative root-scope version line.
pub proof fn lemma_root_version_line_unique(s: Seq<char>, l1: int, l2: int)
    requires
        root_version_line(s, l1),
        root_version_line(s, l2),
    ensures
        l1 == l2,
{
    if l1 < l2 {
        assert(is_line_start(s, l1));
    } else if l2 < l1 {
        assert(is_line_start(s, l2));
    }
}

/// Advances over spaces and tabs from `from`.
fn skip_ws_exec(text: &str, from: usize) -> (r: usize)
    requires
        from <= text@.len(),
    ensures
        r == skip_ws_from(text@, from as int),
        from <= r <= text@.len(),
{
    let n = text.unicode_len();
    let mut p = from;
    while p < n
        invariant
            from <= p <= n,
            n == text@.len(),
            skip_ws_from(text@, from as int) == skip_ws_from(text@, p as int),
        decreases n - p,
    {
        let c = text.get_char(p);
        if c == ' ' || c == '\t' {
            proof {
                assert(skip_ws_from(text@, p as int) == skip_ws_from(text@, p + 1));
            }
            p = p + 1;
        } else {
            proof {
                assert(skip_ws_from(text@, p as int) == p as int);
            }
            return p;
        }
    }
    proof {
        assert(skip_ws_from(text@, p as int) == p as int);
    }
    p
}

/// Advances from `from` to the closing quote, a newline, or the end of the
/// text.
fn scan_value_end_exec(text: &str, from: usize) -> (r: usize)
    requires
        from <= text@.len(),
    ensures
        r == scan_value_end(text@, from as int),
        from <= r <= text@.len(),
{
    let n = text.unicode_len();
    let mut p = from;
    while p < n
        invariant
            from <= p <= n,
            n == text@.len(),
            scan_value_end(text@, from as int) == scan_value_end(text@, p as int),
        decreases n - p,
    {
        let c = text.get_char(p);
        if c == '"' || c == '\n' {
            proof {
                assert(scan_value_end(text@, p as int) == p as int);
            }
            return p;
        }
        proof {
            assert(scan_value_end(text@, p as int) == scan_value_end(text@, p + 1));
        }
        p = p + 1;
    }
    proof {
        assert(scan_value_end(text@, p as int) == p as int);
    }
    p
}

/// Decides whether the line starting at `l` is a version-assignment line,
/// and if so returns the value span: the positions after the opening quote
/// and of the closing quote.
fn match_version_line(text: &str, l: usize) -> (r: Option<(usize, usize)>)
    requires
        is_line_start(text@, l as int),
    ensures
        match r {
            Some(p) => version_line_at(text@, l as int) && p.0 == value_start_at(text@, l as int)
                && p.1 == value_end_at(text@, l as int) && p.0 <= p.1 < text@.len(),
            None => !version_line_at(text@, l as int),
        },
{
    let n = text.unicode_len();
    let a = skip_ws_exec(text, l);
    if n - a < 7 {
        return None;
    }
    if text.get_char(a) != 'v' || text.get_char(a + 1) != 'e' || text.get_char(a + 2) != 'r'
        || text.get_char(a + 3) != 's' || text.get_char(a + 4) != 'i' || text.get_char(a + 5) != 'o'
        || text.get_char(a + 6) != 'n' {
        return None;
    }
    let b = a + 7;
    if b >= n {
        return None;
    }
    let cb = text.get_char(b);
    if !(cb == ' ' || cb == '\t' || cb == '=') {
        return None;
    }
    let c = skip_ws_exec(text, b);
    if c >= n {
        return None;
    }
    if text.get_char(c) != '=' {
        return None;
    }
    let d = skip_ws_exec(text, c + 1);
    if d >= n {
        return None;
    }
    if text.get_char(d) != '"' {
        return None;
    }
    let e = scan_value_end_exec(text, d + 1);
    if e >= n {
        return None;
    }
    if text.get_char(e) != '"' {
        return None;
    }
    Some((d + 1, e))
}

/// Finds the start of the line after the one starting at `l`, if any line
/// follows.
fn next_line_start(text: &str, l: usize) -> (r: Option<usize>)
    requires
        l <= text@.len(),
    ensures
        match r {
            Some(nl) => l < nl <= text@.len() && is_line_start(text@, nl as int) && forall|p: int|
                l < p < nl ==> !is_line_start(text@, p),
            None => forall|p: int| l < p <= text@.len() ==> !is_line_start(text@, p),
        },
{
    let n = text.unicode_len();
    let mut q = l;
    while q < n
        invariant
            l <= q <= n,
            n == text@.len(),
            forall|p: int| l <= p < q ==> text@[p] != '\n',
        decreases n - q,
    {
        let c = text.get_char(q);
        if c == '\n' {
            return Some(q + 1);
        }
        q = q + 1;
    }
    None
}

/// Finds the value span of the authoritative root-scope version line: the
/// positions after its opening quote and of its closing quote.
fn find_root_version_span(text: &str) -> (r: Option<(usize, usize)>)
    ensures
        match r {
            Some(p) => exists|l: int|
                #[trigger] root_version_line(text@, l) && p.0 == value_start_at(text@, l) && p.1
                    == value_end_at(text@, l) && p.0 <= p.1 < text@.len(),
            None => !has_root_version_line(text@),
        },
{
    let n = text.unicode_len();
    let mut l: usize = 0;
    loop
        invariant
            l <= n,
            n == text@.len(),
            is_line_start(text@, l as int),
            forall|p: int|
                0 <= p < l && #[trigger] is_line_start(text@, p) ==> !version_line_at(text@, p)
                    && !header_line_at(text@, p),
        decreases n - l,
    {
        let a = skip_ws_exec(text, l);
        if a < n && text.get_char(a) == '[' {
            proof {
                assert(header_line_at(text@, l as int));
                assert forall|l2: int| !(#[trigger] root_version_line(text@, l2)) by {
                    if root_version_line(text@, l2) {
                        if l2 < l {
                            assert(is_line_start(text@, l2));
                        } else if l2 > l {
                            assert(is_line_start(text@, l as int));
                        }
                    }
                }
            }
            return None;
        }
        match match_version_line(text, l) {
            Some(span) => {
                proof {
                    assert(root_version_line(text@, l as int));
                }
                return Some(span);
            },
            None => {},
        }
        match next_line_start(text, l) {
            Some(nl) => {
                proof {
                    assert forall|p: int|
                        0 <= p < nl && #[trigger] is_line_start(text@, p) implies !version_line_at(
                        text@,
                        p,
                    ) && !header_line_at(text@, p) by {
                        if p == l {
                            assert(!version_line_at(text@, p));
                            assert(text@[skip_ws_from(text@, l as int)] != '[' || skip_ws_from(
                                text@,
                                l as int,
                            ) >= text@.len());
                        }
                    }
                }
                l = nl;
            },
            None => {
                proof {
                    assert forall|l2: int| !(#[trigger] root_version_line(text@, l2)) by {
                        if root_version_line(text@, l2) {
                            assert(is_line_start(text@, l2));
                            if l2 < l {
                            } else if l2 == l {
                                assert(!version_line_at(text@, l2));
                            }
                        }
                    }
                }
                return None;
            },
        }
    }
}

/// The root-scope version line of `s` carries a text that reads as `v`.
pub open spec fn root_version_parses_to(s: Seq<char>, v: SemanticVersion) -> bool {
    exists|l: int|
        #[trigger] root_version_line(s, l) && parses_to_version(value_text_at(s, l), v)
}

/// The root-scope version line of `s` carries a text that does not read as
/// a version.
pub open spec fn root_version_invalid(s: Seq<char>) -> bool {
    exists|l: int|
        #[trigger] root_version_line(s, l) && !parses_within_u64(value_text_at(s, l))
}

/// Reads the current version out of a manifest text.
///
/// `MissingVersionField` when no root-scope version line exists;
/// `InvalidVersionFormat` when the line exists but its quoted value does
/// not parse as a semantic version.
pub fn get_version(text: &str) -> (r: Result<SemanticVersion, VersionError>)
    ensures
        match r {
            Ok(v) => root_version_parses_to(text@, v),
            Err(VersionError::MissingVersionField) => !has_root_version_line(text@),
            Err(VersionError::InvalidVersionFormat) => root_version_invalid(text@),
        },
{
    match find_root_version_span(text) {
        None => Err(VersionError::MissingVersionField),
        Some((vs, ve)) => {
            let ghost l = choose|l: int|
                #[trigger] root_version_line(text@, l) && vs == value_start_at(text@, l) && ve
                    == value_end_at(text@, l);
            let value = text.substring_char(vs, ve);
            proof {
                assert(value@ == value_text_at(text@, l));
            }
            match parse_version(value) {
                Ok(v) => Ok(v),
                Err(_) => Err(VersionError::InvalidVersionFormat),
            }
        },
    }
}

/// The version `cur` read from the root line of `s` resolves under `req`
/// to some version whose canonical text replaces the old quoted value in
/// `out`, all other characters unchanged.
pub open spec fn update_with(
    s: Seq<char>,
    l: int,
    cur: SemanticVersion,
    req: BumpRequest,
    out: Seq<char>,
) -> bool {
    exists|newv: SemanticVersion|
        #[trigger] resolves_to(cur, req, newv) && out == s.subrange(0, value_start_at(s, l))
            + version_text_of(newv) + s.subrange(value_end_at(s, l), s.len() as int)
}

/// The root line at `l` of `s` was patched under `req` into `out`.
pub open spec fn update_at(s: Seq<char>, l: int, req: BumpRequest, out: Seq<char>) -> bool {
    exists|cur: SemanticVersion|
        #[trigger] parses_to_version(value_text_at(s, l), cur) && update_with(s, l, cur, req, out)
}

/// `out` is `s` with only the quoted value of its root-scope version line
/// replaced by the resolved next version.
pub open spec fn manifest_updated(s: Seq<char>, req: BumpRequest, out: Seq<char>) -> bool {
    exists|l: int| #[trigger] root_version_line(s, l) && update_at(s, l, req, out)
}

/// The update was refused: the root line's value does not parse, or an
/// explicit request carries a text that does not parse.
pub open spec fn update_rejected(s: Seq<char>, req: BumpRequest) -> bool {
    exists|l: int|
        #[trigger] root_version_line(s, l) && (!parses_within_u64(value_text_at(s, l)) || (req
            matches BumpRequest::Explicit(t) && !parses_within_u64(t@)))
}

/// The version on the root line of `s` (if any) leaves room for the bump
/// `req` asks for: a machine bound on the stepped `u64` component.
pub open spec fn update_in_range(s: Seq<char>, req: BumpRequest) -> bool {
    forall|l: int, cur: SemanticVersion|
        #![trigger root_version_line(s, l), parses_to_version(value_text_at(s, l), cur)]
        root_version_line(s, l) && parses_to_version(value_text_at(s, l), cur) ==> bump_in_range(
            cur,
            req,
        )
}

/// Preservation law: an update rewrites only the quoted value span of the
/// root-scope version line. Every character before the opening quote keeps
/// its place, and every character from the closing quote on is carried
/// over at the same distance from the end of the text.
pub proof fn lemma_update_preserves_unrelated(
    s: Seq<char>,
    req: BumpRequest,
    out: Seq<char>,
    l: int,
)
    requires
        root_version_line(s, l),
        manifest_updated(s, req, out),
    ensures
        out.len() >= value_start_at(s, l),
        forall|q: int| 0 <= q < value_start_at(s, l) ==> out[q] == s[q],
        forall|q: int|
            value_end_at(s, l) <= q < s.len() ==> out[out.len() - (s.len() - q)] == s[q],
{
    let l2 = choose|l2: int| #[trigger] root_version_line(s, l2) && update_at(s, l2, req, out);
    lemma_root_version_line_unique(s, l, l2);
    let cur = choose|cur: SemanticVersion|
        #[trigger] parses_to_version(value_text_at(s, l), cur) && update_with(s, l, cur, req, out);
    let newv = choose|newv: SemanticVersion|
        #[trigger] resolves_to(cur, req, newv) && out == s.subrange(0, value_start_at(s, l))
            + version_text_of(newv) + s.subrange(value_end_at(s, l), s.len() as int);
    let vs = value_start_at(s, l);
    let ve = value_end_at(s, l);
    let a = skip_ws_from(s, l);
    let c = skip_ws_from(s, a + 7);
    let d = skip_ws_from(s, c + 1);
    lemma_skip_ws_bounds(s, l);
    lemma_skip_ws_bounds(s, a + 7);
    lemma_skip_ws_bounds(s, c + 1);
    lemma_scan_value_end_bounds(s, d + 1);
    assert(0 <= vs <= ve < s.len());
    let mid = version_text_of(newv);
    assert(out.len() == vs + mid.len() + (s.len() - ve));
    assert forall|q: int| 0 <= q < vs implies out[q] == s[q] by {
        assert(out[q] == s.subrange(0, vs)[q]);
    }
    assert forall|q: int| ve <= q < s.len() implies out[out.len() - (s.len() - q)] == s[q] by {
        let i = out.len() - (s.len() - q);
        assert(i == vs + mid.len() + (q - ve));
        assert(out[i] == s.subrange(ve, s.len() as int)[q - ve]);
    }
}

/// Rewrites the quoted value of the root-scope version line to the version
/// that `request` resolves to, preserving every other character of the
/// manifest text.
///
/// `MissingVersionField` when no root-scope version line exists;
/// `InvalidVersionFormat` when the current value or an explicit request
/// text does not parse. A failed update returns no partial text.
pub fn update_version(text: &str, request: &BumpRequest) -> (r: Result<String, VersionError>)
    requires
        update_in_range(text@, *request),
    ensures
        match r {
            Ok(out) => manifest_updated(text@, *request, out@),
            Err(VersionError::MissingVersionField) => !has_root_version_line(text@),
            Err(VersionError::InvalidVersionFormat) => update_rejected(text@, *request),
        },
{
    match find_root_version_span(text) {
        None => Err(VersionError::MissingVersionField),
        Some((vs, ve)) => {
            let ghost l = choose|l: int|
                #[trigger] root_version_line(text@, l) && vs == value_start_at(text@, l) && ve
                    == value_end_at(text@, l);
            let value = text.substring_char(vs, ve);
            proof {
                assert(value@ == value_text_at(text@, l));
            }
            match parse_version(value) {
                Err(_) => {
                    proof {
                        assert(root_version_line(text@, l));
                    }
                    Err(VersionError::InvalidVersionFormat)
                },
                Ok(cur) => {
                    proof {
                        assert(parses_to_version(value_text_at(text@, l), cur));
                    }
                    match resolve_bump(&cur, request) {
                        Err(_) => {
                            proof {
                                assert(root_version_line(text@, l));
                            }
                            Err(VersionError::InvalidVersionFormat)
                        },
                        Ok(newv) => {
                            let n = text.unicode_len();
                            let new_text = format_version(&newv);
                            let mut out = text.substring_char(0, vs).to_owned();
                            out.append(new_text.as_str());
                            out.append(text.substring_char(ve, n));
                            proof {
                                assert(resolves_to(cur, *request, newv));
                                assert(out@ == text@.subrange(0, vs as int) + version_text_of(newv)
                                    + text@.subrange(ve as int, text@.len() as int));
                                assert(update_with(text@, l, cur, *request, out@));
                                assert(update_at(text@, l, *request, out@));
                            }
                            Ok(out)
                        },
                    }
                },
            }
        },
    }
}

} // verus!
