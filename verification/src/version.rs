//! The semantic-version model: the `SemanticVersion` triple, parsing from
//! text of the form `<digits>.<digits>.<digits>`, formatting back to that
//! form, and the round-trip law connecting the two.

use vstd::prelude::*;

verus! {

/// A semantic version: the ordered triple major.minor.patch, each component
/// a non-negative integer.
#[derive(Clone, Copy, Debug, PartialEq, Eq, Structural)]
pub struct SemanticVersion {
    pub major: u64,
    pub minor: u64,
    pub patch: u64,
}

/// The ways a version or manifest operation can fail.
#[derive(Clone, Copy, Debug, PartialEq, Eq, Structural)]
pub enum VersionError {
    /// The version text does not consist of three dot-separated runs of
    /// decimal digits (or a component does not fit in a machine word).
    InvalidVersionFormat,
    /// No root-scope `version = "..."` assignment line was found in the
    /// manifest text.
    MissingVersionField,
}

/// Decimal digit characters are exactly `'0'` through `'9'`.
pub open spec fn is_digit_char(c: char) -> bool {
    48 <= c as u32 <= 57
}

/// The numeric value of a single decimal digit character.
pub open spec fn digit_val(c: char) -> nat {
    (c as u32 - 48) as nat
}

/// A non-empty run of decimal digit characters.
pub open spec fn is_digits(s: Seq<char>) -> bool {
    s.len() > 0 && forall|i: int| 0 <= i < s.len() ==> is_digit_char(#[trigger] s[i])
}

/// The number denoted by a run of decimal digit characters, most
/// significant first.
pub open spec fn digits_num(s: Seq<char>) -> nat
    decreases s.len(),
{
    if s.len() == 0 {
        0
    } else {
        digits_num(s.drop_last()) * 10 + digit_val(s.last())
    }
}

/// `i` and `j` are the positions of the two dots of a well-formed version
/// text: the three segments they delimit are non-empty digit runs.
pub open spec fn version_split(s: Seq<char>, i: int, j: int) -> bool {
    &&& 0 <= i < j < s.len()
    &&& s[i] == '.'
    &&& s[j] == '.'
    &&& is_digits(s.subrange(0, i))
    &&& is_digits(s.subrange(i + 1, j))
    &&& is_digits(s.subrange(j + 1, s.len() as int))
}

/// `s` reads as the version `a.b.c`.
pub open spec fn parses_to(s: Seq<char>, a: nat, b: nat, c: nat) -> bool {
    exists|i: int, j: int|
        #[trigger] version_split(s, i, j) && a == digits_num(s.subrange(0, i)) && b == digits_num(
            s.subrange(i + 1, j),
        ) && c == digits_num(s.subrange(j + 1, s.len() as int))
}

/// `s` reads as the version `v`.
pub open spec fn parses_to_version(s: Seq<char>, v: SemanticVersion) -> bool {
    parses_to(s, v.major as nat, v.minor as nat, v.patch as nat)
}

/// `s` is a well-formed version text whose three components all fit in a
/// `u64` (the machine bound on each component).
pub open spec fn parses_within_u64(s: Seq<char>) -> bool {
    exists|a: nat, b: nat, c: nat|
        #[trigger] parses_to(s, a, b, c) && a <= u64::MAX && b <= u64::MAX && c <= u64::MAX
}

/// In a well-formed version text, every dot is one of the two split
/// positions: the digit segments contain no dots.
proof fn lemma_split_dots_only(s: Seq<char>, i: int, j: int)
    requires
        version_split(s, i, j),
    ensures
        forall|q: int| 0 <= q < s.len() && s[q] == '.' ==> q == i || q == j,
{
    assert forall|q: int| 0 <= q < s.len() && s[q] == '.' implies q == i || q == j by {
        if q != i && q != j {
            if q < i {
                assert(is_digit_char(s.subrange(0, i)[q]));
            } else if q < j {
                assert(is_digit_char(s.subrange(i + 1, j)[q - (i + 1)]));
            } else {
                assert(is_digit_char(s.subrange(j + 1, s.len() as int)[q - (j + 1)]));
            }
        }
    }
}

/// The split positions of a well-formed version text are unique.
proof fn lemma_split_unique(s: Seq<char>, i1: int, j1: int, i2: int, j2: int)
    requires
        version_split(s, i1, j1),
        version_split(s, i2, j2),
    ensures
        i1 == i2,
        j1 == j2,
{
    lemma_split_dots_only(s, i1, j1);
    lemma_split_dots_only(s, i2, j2);
}

/// A text reads as at most one version value.
pub proof fn lemma_parses_to_version_unique(s: Seq<char>, v1: SemanticVersion, v2: SemanticVersion)
    requires
        parses_to_version(s, v1),
        parses_to_version(s, v2),
    ensures
        v1 == v2,
{
    let (i1, j1) = choose|i: int, j: int|
        #[trigger] version_split(s, i, j) && v1.major as nat == digits_num(s.subrange(0, i))
            && v1.minor as nat == digits_num(s.subrange(i + 1, j)) && v1.patch as nat == digits_num(
            s.subrange(j + 1, s.len() as int),
        );
    let (i2, j2) = choose|i: int, j: int|
        #[trigger] version_split(s, i, j) && v2.major as nat == digits_num(s.subrange(0, i))
            && v2.minor as nat == digits_num(s.subrange(i + 1, j)) && v2.patch as nat == digits_num(
            s.subrange(j + 1, s.len() as int),
        );
    lemma_split_unique(s, i1, j1, i2, j2);
}

/// If no dot split exists, no version can be read from the text.
proof fn lemma_no_split_not_parses(s: Seq<char>)
    requires
        forall|i: int, j: int| !(#[trigger] version_split(s, i, j)),
    ensures
        forall|a: nat, b: nat, c: nat| !(#[trigger] parses_to(s, a, b, c)),
        !parses_within_u64(s),
{
    assert forall|a: nat, b: nat, c: nat| !(#[trigger] parses_to(s, a, b, c)) by {
        if parses_to(s, a, b, c) {
            let (i, j) = choose|i: int, j: int|
                #[trigger] version_split(s, i, j) && a == digits_num(s.subrange(0, i)) && b
                    == digits_num(s.subrange(i + 1, j)) && c == digits_num(
                    s.subrange(j + 1, s.len() as int),
                );
            assert(false);
        }
    }
    if parses_within_u64(s) {
        let (a, b, c) = choose|a: nat, b: nat, c: nat|
            #[trigger] parses_to(s, a, b, c) && a <= u64::MAX && b <= u64::MAX && c <= u64::MAX;
        assert(false);
    }
}

/// The value of a digit run is at least the value of any of its prefixes.
proof fn lemma_digits_num_prefix(s: Seq<char>, k: int)
    requires
        0 <= k <= s.len(),
    ensures
        digits_num(s) >= digits_num(s.subrange(0, k)),
    decreases s.len(),
{
    if k == s.len() {
        assert(s.subrange(0, k) =~= s);
    } else {
        assert(s.drop_last().subrange(0, k) =~= s.subrange(0, k));
        lemma_digits_num_prefix(s.drop_last(), k);
    }
}

/// Reads the digit run `text[start..end]` as a `u64`. `None` when the range
/// is not a non-empty digit run, or its value exceeds `u64::MAX`.
fn parse_component(text: &str, start: usize, end: usize) -> (r: Option<u64>)
    requires
        start <= end <= text@.len(),
    ensures
        ({
            let seg = text@.subrange(start as int, end as int);
            match r {
                Some(v) => is_digits(seg) && v as nat == digits_num(seg),
                None => !is_digits(seg) || digits_num(seg) > u64::MAX,
            }
        }),
{
    let ghost seg = text@.subrange(start as int, end as int);
    if start == end {
        return None;
    }
    let mut acc: u64 = 0;
    let mut k: usize = start;
    while k < end
        invariant
            start <= k <= end <= text@.len(),
            seg == text@.subrange(start as int, end as int),
            forall|q: int| start <= q < k ==> is_digit_char(#[trigger] text@[q]),
            acc as nat == digits_num(text@.subrange(start as int, k as int)),
        decreases end - k,
    {
        let c = text.get_char(k);
        let code = c as u32;
        if code < 48 || code > 57 {
            proof {
                assert(seg[k - start] == text@[k as int]);
                assert(!is_digit_char(seg[k - start]));
            }
            return None;
        }
        let d = (code - 48) as u64;
        let widened = acc.checked_mul(10);
        let next = match widened {
            Some(w) => w.checked_add(d),
            None => None,
        };
        match next {
            Some(v) => {
                acc = v;
            },
            None => {
                proof {
                    lemma_digits_num_grow(text@, start as int, k as int);
                    assert(digits_num(text@.subrange(start as int, k + 1)) == acc as nat * 10
                        + digit_val(text@[k as int]));
                    lemma_digits_num_prefix_from(text@, start as int, k + 1, end as int);
                }
                return None;
            },
        }
        proof {
            lemma_digits_num_grow(text@, start as int, k as int);
        }
        k = k + 1;
    }
    proof {
        assert(seg =~= text@.subrange(start as int, k as int));
        assert forall|q: int| 0 <= q < seg.len() implies is_digit_char(#[trigger] seg[q]) by {
            assert(seg[q] == text@[start + q]);
        }
    }
    Some(acc)
}

/// Extending the digit run `text[start..k]` by `text[k]` multiplies its
/// value by ten and adds the digit.
proof fn lemma_digits_num_grow(s: Seq<char>, start: int, k: int)
    requires
        0 <= start <= k < s.len(),
    ensures
        digits_num(s.subrange(start, k + 1)) == digits_num(s.subrange(start, k)) * 10 + digit_val(
            s[k],
        ),
{
    let t = s.subrange(start, k + 1);
    assert(t.drop_last() =~= s.subrange(start, k));
    assert(t.last() == s[k]);
}

/// The value of `text[start..end]` is at least the value of its prefix
/// `text[start..k]`.
proof fn lemma_digits_num_prefix_from(s: Seq<char>, start: int, k: int, end: int)
    requires
        0 <= start <= k <= end <= s.len(),
    ensures
        digits_num(s.subrange(start, end)) >= digits_num(s.subrange(start, k)),
{
    lemma_digits_num_prefix(s.subrange(start, end), k - start);
    assert(s.subrange(start, end).subrange(0, k - start) =~= s.subrange(start, k));
}

/// When the only dots of `s` are `d1` and `d2`, any well-formed split of
/// `s` uses exactly those two positions.
proof fn lemma_two_dots_pin_split(s: Seq<char>, d1: int, d2: int)
    requires
        0 <= d1 < d2 < s.len(),
        s[d1] == '.',
        s[d2] == '.',
        forall|q: int| 0 <= q < s.len() && s[q] == '.' ==> q == d1 || q == d2,
    ensures
        forall|i: int, j: int| #[trigger] version_split(s, i, j) ==> i == d1 && j == d2,
{
}

/// Parses `text` as a semantic version `<digits>.<digits>.<digits>`.
///
/// Returns `Ok` exactly when the text splits into three dot-separated
/// non-empty digit runs whose values fit in a `u64`; any other text yields
/// `InvalidVersionFormat`.
pub fn parse_version(text: &str) -> (r: Result<SemanticVersion, VersionError>)
    ensures
        match r {
            Ok(v) => parses_to_version(text@, v),
            Err(e) => e == VersionError::InvalidVersionFormat && !parses_within_u64(text@),
        },
{
    let n = text.unicode_len();
    let mut d1: usize = 0;
    let mut d2: usize = 0;
    let mut ndots: usize = 0;
    let mut p: usize = 0;
    while p < n
        invariant
            p <= n,
            n == text@.len(),
            ndots <= 2,
            ndots >= 1 ==> d1 < p && text@[d1 as int] == '.',
            ndots >= 2 ==> d1 < d2 < p && text@[d2 as int] == '.',
            forall|q: int|
                0 <= q < p && text@[q] == '.' ==> (ndots >= 1 && q == d1) || (ndots >= 2 && q
                    == d2),
        decreases n - p,
    {
        let c = text.get_char(p);
        if c == '.' {
            if ndots == 0 {
                d1 = p;
                ndots = 1;
            } else if ndots == 1 {
                d2 = p;
                ndots = 2;
            } else {
                proof {
                    assert forall|i: int, j: int| !(#[trigger] version_split(text@, i, j)) by {
                        if version_split(text@, i, j) {
                            lemma_split_dots_only(text@, i, j);
                        }
                    }
                    lemma_no_split_not_parses(text@);
                }
                return Err(VersionError::InvalidVersionFormat);
            }
        }
        p = p + 1;
    }
    if ndots < 2 {
        proof {
            assert forall|i: int, j: int| !(#[trigger] version_split(text@, i, j)) by {
                if version_split(text@, i, j) {
                    lemma_split_dots_only(text@, i, j);
                }
            }
            lemma_no_split_not_parses(text@);
        }
        return Err(VersionError::InvalidVersionFormat);
    }
    proof {
        lemma_two_dots_pin_split(text@, d1 as int, d2 as int);
    }
    let ra = parse_component(text, 0, d1);
    let rb = parse_component(text, d1 + 1, d2);
    let rc = parse_component(text, d2 + 1, n);
    match (ra, rb, rc) {
        (Some(major), Some(minor), Some(patch)) => {
            let v = SemanticVersion { major, minor, patch };
            proof {
                assert(version_split(text@, d1 as int, d2 as int));
            }
            Ok(v)
        },
        _ => {
            proof {
                assert forall|a: nat, b: nat, c: nat|
                    #[trigger] parses_to(text@, a, b, c) implies a > u64::MAX || b > u64::MAX || c
                    > u64::MAX by {
                    let (i, j) = choose|i: int, j: int|
                        #[trigger] version_split(text@, i, j) && a == digits_num(
                            text@.subrange(0, i),
                        ) && b == digits_num(text@.subrange(i + 1, j)) && c == digits_num(
                            text@.subrange(j + 1, text@.len() as int),
                        );
                    assert(i == d1 && j == d2);
                }
                if parses_within_u64(text@) {
                    let (a, b, c) = choose|a: nat, b: nat, c: nat|
                        #[trigger] parses_to(text@, a, b, c) && a <= u64::MAX && b <= u64::MAX && c
                            <= u64::MAX;
                    assert(false);
                }
            }
            Err(VersionError::InvalidVersionFormat)
        },
    }
}

/// The digit character denoting the value `d`.
pub open spec fn dec_digit_char(d: nat) -> char {
    if d == 0 {
        '0'
    } else if d == 1 {
        '1'
    } else if d == 2 {
        '2'
    } else if d == 3 {
        '3'
    } else if d == 4 {
        '4'
    } else if d == 5 {
        '5'
    } else if d == 6 {
        '6'
    } else if d == 7 {
        '7'
    } else if d == 8 {
        '8'
    } else {
        '9'
    }
}

/// The decimal rendering of `n`, most significant digit first, with no
/// leading zero except for a bare `0`.
pub open spec fn dec_digits(n: nat) -> Seq<char>
    decreases n,
{
    if n < 10 {
        seq![dec_digit_char(n)]
    } else {
        dec_digits(n / 10).push(dec_digit_char(n % 10))
    }
}

/// The canonical text of a version: the three components rendered in
/// decimal and joined by dots.
pub open spec fn version_text_of(v: SemanticVersion) -> Seq<char> {
    dec_digits(v.major as nat) + seq!['.'] + dec_digits(v.minor as nat) + seq!['.'] + dec_digits(
        v.patch as nat,
    )
}

/// The decimal rendering of `n` is a digit run denoting `n` itself.
pub proof fn lemma_dec_digits_ok(n: nat)
    ensures
        is_digits(dec_digits(n)),
        digits_num(dec_digits(n)) == n,
    decreases n,
{
    if n < 10 {
        let t = dec_digits(n);
        assert(t.drop_last() =~= Seq::<char>::empty());
        assert(digits_num(Seq::<char>::empty()) == 0);
        assert(t.last() == dec_digit_char(n));
        assert(digits_num(t) == digit_val(dec_digit_char(n)));
    } else {
        assert(n / 10 < n) by (nonlinear_arith)
            requires
                n >= 10,
        ;
        lemma_dec_digits_ok(n / 10);
        let t = dec_digits(n / 10).push(dec_digit_char(n % 10));
        assert(t.drop_last() =~= dec_digits(n / 10));
        assert(digits_num(t) == (n / 10) * 10 + (n % 10));
        assert((n / 10) * 10 + (n % 10) == n) by (nonlinear_arith);
        assert forall|i: int| 0 <= i < t.len() implies is_digit_char(#[trigger] t[i]) by {
            if i < t.len() - 1 {
                assert(t[i] == dec_digits(n / 10)[i]);
            }
        }
    }
}

/// A one-character string holding the digit character of value `d`.
fn digit_str(d: u64) -> (r: &'static str)
    requires
        d < 10,
    ensures
        r@ == seq![dec_digit_char(d as nat)],
{
    let r: &'static str = if d == 0 {
        "0"
    } else if d == 1 {
        "1"
    } else if d == 2 {
        "2"
    } else if d == 3 {
        "3"
    } else if d == 4 {
        "4"
    } else if d == 5 {
        "5"
    } else if d == 6 {
        "6"
    } else if d == 7 {
        "7"
    } else if d == 8 {
        "8"
    } else {
        "9"
    };
    proof {
        reveal_strlit("0");
        reveal_strlit("1");
        reveal_strlit("2");
        reveal_strlit("3");
        reveal_strlit("4");
        reveal_strlit("5");
        reveal_strlit("6");
        reveal_strlit("7");
        reveal_strlit("8");
        reveal_strlit("9");
        assert(r@ =~= seq![dec_digit_char(d as nat)]);
    }
    r
}

/// Renders `n` in decimal.
fn u64_to_string(n: u64) -> (r: String)
    ensures
        r@ == dec_digits(n as nat),
    decreases n,
{
    if n < 10 {
        digit_str(n).to_owned()
    } else {
        proof {
            assert(n / 10 < n) by (nonlinear_arith)
                requires
                    n >= 10,
            ;
        }
        let mut r = u64_to_string(n / 10);
        r.append(digit_str(n % 10));
        proof {
            assert(dec_digits((n / 10) as nat) + seq![dec_digit_char((n % 10) as nat)] =~= dec_digits(
                (n / 10) as nat,
            ).push(dec_digit_char((n % 10) as nat)));
        }
        r
    }
}

/// Renders a version as its canonical text `<major>.<minor>.<patch>`.
pub fn format_version(v: &SemanticVersion) -> (r: String)
    ensures
        r@ == version_text_of(*v),
{
    let mut r = u64_to_string(v.major);
    r.append(".");
    let minor = u64_to_string(v.minor);
    r.append(minor.as_str());
    r.append(".");
    let patch = u64_to_string(v.patch);
    r.append(patch.as_str());
    proof {
        reveal_strlit(".");
        assert("."@ =~= seq!['.']);
        assert(r@ =~= version_text_of(*v));
    }
    r
}

/// Round-trip law: the canonical text of any version reads back as exactly
/// that version, and as no other.
pub proof fn lemma_format_parse_round_trip(v: SemanticVersion)
    ensures
        parses_to_version(version_text_of(v), v),
        forall|w: SemanticVersion| parses_to_version(version_text_of(v), w) ==> w == v,
{
    let a = dec_digits(v.major as nat);
    let b = dec_digits(v.minor as nat);
    let c = dec_digits(v.patch as nat);
    let t = version_text_of(v);
    lemma_dec_digits_ok(v.major as nat);
    lemma_dec_digits_ok(v.minor as nat);
    lemma_dec_digits_ok(v.patch as nat);
    let i = a.len() as int;
    let j = (a.len() + 1 + b.len()) as int;
    assert(t.subrange(0, i) =~= a);
    assert(t.subrange(i + 1, j) =~= b);
    assert(t.subrange(j + 1, t.len() as int) =~= c);
    assert(t[i] == '.');
    assert(t[j] == '.');
    assert(version_split(t, i, j));
    assert(parses_to_version(t, v));
    assert forall|w: SemanticVersion| parses_to_version(t, w) implies w == v by {
        lemma_parses_to_version_unique(t, w, v);
    }
}

} // verus!
