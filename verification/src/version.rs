//! Version numbers found in container image tags.
//!
//! A tag such as `v1.29.0-alpine-slim` is read as a prefix (`v`), a dotted
//! run of numbers (`1.29.0`) and a suffix (`-alpine-slim`). The dotted run is
//! the leftmost place in the tag where at least two groups of `\d` digits
//! (decimal digits of any script) are joined by single dots, extended as far
//! to the right as such groups go. Its first three groups (a missing third one
//! reads as `0`) form a SemVer version, which only ASCII digits can. A tag
//! with a line break holds no version.
use vstd::prelude::*;
use crate::text::{
    char_is_pattern_digit, chars_of, is_digit, is_pattern_digit, push_char, push_chars, string_of,
};

verus! {

broadcast use vstd::string::group_string_axioms;

/// A semantic version without pre-release or build metadata.
#[derive(Clone, Copy, Debug, PartialEq, Eq, Structural)]
pub struct Version {
    pub major: u64,
    pub minor: u64,
    pub patch: u64,
}

/// SemVer precedence between two versions without pre-release or build
/// metadata: the lexicographic order of (major, minor, patch).
pub open spec fn version_lt(a: Version, b: Version) -> bool {
    ||| a.major < b.major
    ||| (a.major == b.major && a.minor < b.minor)
    ||| (a.major == b.major && a.minor == b.minor && a.patch < b.patch)
}

/// `a` sorts at or below `b`.
pub open spec fn version_le(a: Version, b: Version) -> bool {
    version_lt(a, b) || a == b
}

/// The release line of a version, its (major, minor) pair.
pub open spec fn line_lt(a: Version, b: Version) -> bool {
    a.major < b.major || (a.major == b.major && a.minor < b.minor)
}

/// The character for a digit value below ten.
pub open spec fn digit_char(d: nat) -> char {
    (d + '0' as nat) as char
}

/// The decimal spelling of `n`, without leading zeros.
pub open spec fn decimal_string(n: nat) -> Seq<char>
    decreases n,
{
    if n < 10 {
        seq![digit_char(n)]
    } else {
        decimal_string(n / 10).push(digit_char(n % 10))
    }
}

/// The spelling of a version: `major.minor.patch`.
pub open spec fn version_string(v: Version) -> Seq<char> {
    decimal_string(v.major as nat) + seq!['.'] + decimal_string(v.minor as nat) + seq!['.']
        + decimal_string(v.patch as nat)
}

/// The decimal value of a string of ASCII digits.
pub open spec fn decimal_value(s: Seq<char>) -> nat
    decreases s.len(),
{
    if s.len() == 0 {
        0
    } else {
        decimal_value(s.drop_last()) * 10 + ((s.last() as int) - ('0' as int)) as nat
    }
}

/// A non-empty string of ASCII digits.
pub open spec fn numeric_piece(s: Seq<char>) -> bool {
    s.len() > 0 && forall|i: int| 0 <= i < s.len() ==> is_digit(#[trigger] s[i])
}

/// A numeric SemVer component: no leading zero and a value that fits in `u64`.
pub open spec fn semver_component_ok(s: Seq<char>) -> bool {
    &&& numeric_piece(s)
    &&& (s.len() == 1 || s[0] != '0')
    &&& decimal_value(s) <= u64::MAX
}

/// A non-empty group of ASCII digits and characters beyond ASCII.
pub open spec fn wide_piece(s: Seq<char>) -> bool {
    s.len() > 0 && forall|i: int| 0 <= i < s.len() ==> is_digit(#[trigger] s[i]) || s[i] > '\x7f'
}

/// Three numeric pieces joined by dots.
pub open spec fn joined3(a: Seq<char>, b: Seq<char>, c: Seq<char>) -> Seq<char> {
    a + seq!['.'] + b + seq!['.'] + c
}

/// What SemVer makes of `a.b.c` when each piece is a string of digits.
pub open spec fn semver_triple(a: Seq<char>, b: Seq<char>, c: Seq<char>) -> Option<Version> {
    if semver_component_ok(a) && semver_component_ok(b) && semver_component_ok(c) {
        Some(
            Version {
                major: decimal_value(a) as u64,
                minor: decimal_value(b) as u64,
                patch: decimal_value(c) as u64,
            },
        )
    } else {
        None
    }
}

/// Calls `semver::Version::parse` on three dot-separated groups of ASCII
/// digits and characters beyond ASCII. The crate reads each group as a `u64`
/// of ASCII digits, refusing a group with a leading zero, one that overflows
/// and one with any other character, and, with nothing after the third
/// group, leaves the pre-release and build metadata empty; the contract
/// states exactly that.
#[verifier::external_body]
fn semver_parse(text: &str) -> (r: Option<(u64, u64, u64)>)
    requires
        exists|a: Seq<char>, b: Seq<char>, c: Seq<char>|
            wide_piece(a) && wide_piece(b) && wide_piece(c) && text@ == #[trigger] joined3(
                a,
                b,
                c,
            ),
    ensures
        forall|a: Seq<char>, b: Seq<char>, c: Seq<char>|
            wide_piece(a) && wide_piece(b) && wide_piece(c) && text@ == #[trigger] joined3(
                a,
                b,
                c,
            ) ==> match semver_triple(a, b, c) {
                Some(v) => r == Some((v.major, v.minor, v.patch)),
                None => r is None,
            },
{
    match semver::Version::parse(text) {
        Ok(v) => Some((v.major, v.minor, v.patch)),
        Err(_) => None,
    }
}

/// The end of the run of `\d` digits that starts at `i`.
pub open spec fn run_end(s: Seq<char>, i: int) -> int
    decreases s.len() - i,
{
    if 0 <= i < s.len() && is_pattern_digit(s[i]) {
        run_end(s, i + 1)
    } else {
        i
    }
}

/// A run of digits ends at `q` and another one follows after a single dot.
pub open spec fn continues_at(s: Seq<char>, q: int) -> bool {
    0 <= q && q + 1 < s.len() && s[q] == '.' && is_pattern_digit(s[q + 1])
}

/// A dotted run of at least two digit groups starts at `p`.
pub open spec fn version_at(s: Seq<char>, p: int) -> bool {
    0 <= p < s.len() && is_pattern_digit(s[p]) && continues_at(s, run_end(s, p))
}

/// The leftmost position at or after `i` where a dotted run starts.
pub open spec fn first_version_start(s: Seq<char>, i: int) -> Option<int>
    decreases s.len() - i,
{
    if i < 0 || i >= s.len() {
        None
    } else if version_at(s, i) {
        Some(i)
    } else {
        first_version_start(s, i + 1)
    }
}

pub proof fn lemma_run_end(s: Seq<char>, i: int)
    requires
        0 <= i <= s.len(),
    ensures
        i <= run_end(s, i) <= s.len(),
        forall|k: int| i <= k < run_end(s, i) ==> is_pattern_digit(#[trigger] s[k]),
        run_end(s, i) < s.len() ==> !is_pattern_digit(s[run_end(s, i)]),
    decreases s.len() - i,
{
    if i < s.len() && is_pattern_digit(s[i]) {
        lemma_run_end(s, i + 1);
    }
}

pub proof fn lemma_first_version_start(s: Seq<char>, i: int)
    requires
        0 <= i,
    ensures
        first_version_start(s, i) matches Some(p) ==> i <= p && version_at(s, p) && forall|
            k: int,
        | i <= k < p ==> !version_at(s, k),
        first_version_start(s, i) is None ==> forall|k: int| i <= k ==> !version_at(s, k),
    decreases s.len() - i,
{
    if 0 <= i < s.len() && !version_at(s, i) {
        lemma_first_version_start(s, i + 1);
    }
}

/// Where the dotted run whose group ends at `q` ends: groups keep being added
/// while a dot and a digit follow.
pub open spec fn version_end(s: Seq<char>, q: int) -> int
    decreases s.len() - q,
{
    if continues_at(s, q) {
        proof {
            lemma_run_end(s, q + 1);
        }
        version_end(s, run_end(s, q + 1))
    } else {
        q
    }
}

/// The parts that a tag splits into, as the crate reads it.
pub struct VersionInfoView {
    pub version: Version,
    pub prefix: Option<Seq<char>>,
    pub suffix: Option<Seq<char>>,
    pub original: Seq<char>,
}

/// Whether `s` holds a line break.
pub open spec fn has_newline(s: Seq<char>) -> bool {
    exists|k: int| 0 <= k < s.len() && s[k] == '\n'
}

/// The version information of a tag, or `None` where the tag holds a line
/// break or no dotted run of digits, or its first three groups are not a
/// SemVer version.
pub open spec fn tag_version(s: Seq<char>) -> Option<VersionInfoView> {
    if has_newline(s) {
        None
    } else {
    match first_version_start(s, 0) {
        None => None,
        Some(p) => {
            let q1 = run_end(s, p);
            let q2 = run_end(s, q1 + 1);
            let c1 = s.subrange(p, q1);
            let c2 = s.subrange(q1 + 1, q2);
            let c3 = if continues_at(s, q2) {
                s.subrange(q2 + 1, run_end(s, q2 + 1))
            } else {
                seq!['0']
            };
            let e = version_end(s, q1);
            match semver_triple(c1, c2, c3) {
                None => None,
                Some(v) => Some(
                    VersionInfoView {
                        version: v,
                        prefix: if p == 0 {
                            None
                        } else {
                            Some(s.take(p))
                        },
                        suffix: if e == s.len() {
                            None
                        } else {
                            Some(s.skip(e))
                        },
                        original: s,
                    },
                ),
            }
        },
    }
    }
}

/// The view of an optional string.
pub open spec fn opt_view(o: Option<String>) -> Option<Seq<char>> {
    match o {
        Some(s) => Some(s@),
        None => None,
    }
}

/// A tag read as prefix, version and suffix.
#[derive(Debug)]
pub struct VersionInfo {
    pub version: Version,
    pub prefix: Option<String>,
    pub suffix: Option<String>,
    pub original: String,
}

impl View for VersionInfo {
    type V = VersionInfoView;

    open spec fn view(&self) -> VersionInfoView {
        VersionInfoView {
            version: self.version,
            prefix: opt_view(self.prefix),
            suffix: opt_view(self.suffix),
            original: self.original@,
        }
    }
}

/// The view of an optional `VersionInfo`.
pub open spec fn opt_info_view(o: Option<VersionInfo>) -> Option<VersionInfoView> {
    match o {
        Some(v) => Some(v@),
        None => None,
    }
}

/// A copy of an optional string.
pub fn clone_opt_string(o: &Option<String>) -> (r: Option<String>)
    ensures
        opt_view(r) == opt_view(*o),
{
    match o {
        Some(s) => Some(s.clone()),
        None => None,
    }
}

/// Whether two optional strings are equal.
pub fn opt_string_eq(a: &Option<String>, b: &Option<String>) -> (r: bool)
    ensures
        r == (opt_view(*a) == opt_view(*b)),
{
    match (a, b) {
        (Some(x), Some(y)) => x.eq(y),
        (None, None) => true,
        _ => false,
    }
}

/// The character for a digit value below ten.
fn digit_to_char(d: u64) -> (c: char)
    requires
        d < 10,
    ensures
        c == digit_char(d as nat),
{
    let c = ('0' as u8 + d as u8) as char;
    assert(c == digit_char(d as nat)) by {
        assert(('0' as u8 + d as u8) as int == d + '0' as nat);
    }
    c
}

proof fn lemma_decimal_string_len(n: nat)
    ensures
        decimal_string(n).len() >= 1,
    decreases n,
{
    if n >= 10 {
        lemma_decimal_string_len(n / 10);
    }
}

/// Appends the decimal spelling of `n` to `out`.
pub fn push_decimal(out: &mut String, n: u64)
    ensures
        final(out)@ == old(out)@ + decimal_string(n as nat),
    decreases n,
{
    if n >= 10 {
        push_decimal(out, n / 10);
        push_char(out, digit_to_char(n % 10));
        assert(old(out)@ + decimal_string(n as nat) == old(out)@ + decimal_string((n / 10) as nat)
            + seq![digit_char((n % 10) as nat)]);
    } else {
        push_char(out, digit_to_char(n));
        assert(decimal_string(n as nat) == seq![digit_char(n as nat)]);
    }
}

impl Version {
    /// The version `major.minor.patch`.
    pub fn new(major: u64, minor: u64, patch: u64) -> (v: Version)
        ensures
            v == (Version { major, minor, patch }),
    {
        Version { major, minor, patch }
    }

    /// SemVer precedence: whether `self` sorts strictly below `other`.
    pub fn is_lower_than(&self, other: &Version) -> (r: bool)
        ensures
            r == version_lt(*self, *other),
    {
        self.major < other.major || (self.major == other.major && self.minor < other.minor) || (
        self.major == other.major && self.minor == other.minor && self.patch < other.patch)
    }

    /// The spelling `major.minor.patch`.
    pub fn to_string(&self) -> (s: String)
        ensures
            s@ == version_string(*self),
    {
        let mut s = String::new();
        push_decimal(&mut s, self.major);
        push_char(&mut s, '.');
        push_decimal(&mut s, self.minor);
        push_char(&mut s, '.');
        push_decimal(&mut s, self.patch);
        s
    }
}

/// The end of the run of `\d` digits in `cs` that starts at `i`.
fn digit_run_end(cs: &Vec<char>, i: usize) -> (j: usize)
    requires
        i <= cs@.len(),
    ensures
        j == run_end(cs@, i as int),
        i <= j <= cs@.len(),
{
    proof {
        lemma_run_end(cs@, i as int);
    }
    let mut j = i;
    while j < cs.len() && char_is_pattern_digit(cs[j])
        invariant
            i <= j <= cs@.len(),
            run_end(cs@, j as int) == run_end(cs@, i as int),
        decreases cs@.len() - j,
    {
        j = j + 1;
    }
    j
}

/// Whether a dot and a digit follow position `q`.
fn continues(cs: &Vec<char>, q: usize) -> (r: bool)
    ensures
        r == continues_at(cs@, q as int),
{
    q < cs.len() && cs.len() - q > 1 && cs[q] == '.' && char_is_pattern_digit(cs[q + 1])
}

impl VersionInfo {
    /// Reads a container image tag as prefix, version and suffix.
    ///
    /// `v1.29.0-alpine-slim` gives the version 1.29.0, the prefix `v` and the
    /// suffix `-alpine-slim`; `15.3-alpine3.18` gives 15.3.0 and the suffix
    /// `-alpine3.18`; `latest` gives `None`.
    pub fn from_tag(tag: &str) -> (r: Option<VersionInfo>)
        ensures
            opt_info_view(r) == tag_version(tag@),
    {
        let cs = chars_of(tag);
        let n = cs.len();
        let ghost s = tag@;
        let mut k: usize = 0;
        while k < n
            invariant
                s == tag@,
                cs@ == s,
                n == s.len(),
                k <= n,
                forall|j: int| 0 <= j < k ==> s[j] != '\n',
            decreases n - k,
        {
            if cs[k] == '\n' {
                assert(s[k as int] == '\n');
                assert(has_newline(s));
                return None;
            }
            k = k + 1;
        }
        assert(!has_newline(s));
        let mut i: usize = 0;
        let mut start: Option<usize> = None;
        while i < n
            invariant_except_break
                start is None,
            invariant
                cs@ == s,
                n == s.len(),
                i <= n,
                first_version_start(s, 0) == first_version_start(s, i as int),
            ensures
                match start {
                    Some(p) => first_version_start(s, 0) == Some(p as int) && p < n,
                    None => first_version_start(s, 0) is None,
                },
            decreases n - i,
        {
            if char_is_pattern_digit(cs[i]) {
                let q = digit_run_end(&cs, i);
                if continues(&cs, q) {
                    start = Some(i);
                    break;
                }
            }
            i = i + 1;
        }
        let p = match start {
            Some(p) => p,
            None => {
                return None;
            },
        };
        assert(first_version_start(s, 0) == Some(p as int));
        proof {
            lemma_first_version_start(s, 0);
        }
        assert(version_at(s, p as int));
        let q1 = digit_run_end(&cs, p);
        let q2 = digit_run_end(&cs, q1 + 1);
        proof {
            lemma_run_end(s, p as int);
            lemma_run_end(s, q1 + 1);
        }
        let third = continues(&cs, q2);
        let q3 = if third {
            digit_run_end(&cs, q2 + 1)
        } else {
            q2
        };
        proof {
            if third {
                lemma_run_end(s, q2 + 1);
            }
        }
        let mut e = q1;
        while continues(&cs, e)
            invariant
                cs@ == s,
                n == s.len(),
                q1 <= e <= n,
                version_end(s, e as int) == version_end(s, q1 as int),
            decreases n - e,
        {
            proof {
                lemma_run_end(s, e + 1);
            }
            e = digit_run_end(&cs, e + 1);
        }
        let mut text = String::new();
        push_chars(&mut text, &cs, p, q1);
        push_char(&mut text, '.');
        push_chars(&mut text, &cs, q1 + 1, q2);
        push_char(&mut text, '.');
        if third {
            push_chars(&mut text, &cs, q2 + 1, q3);
        } else {
            push_char(&mut text, '0');
        }
        let ghost c1 = s.subrange(p as int, q1 as int);
        let ghost c2 = s.subrange(q1 + 1, q2 as int);
        let ghost c3 = if third {
            s.subrange(q2 + 1, q3 as int)
        } else {
            seq!['0']
        };
        assert(wide_piece(c1));
        assert(wide_piece(c2));
        assert(wide_piece(c3));
        assert(text@ == joined3(c1, c2, c3));
        let parsed = semver_parse(text.as_str());
        match parsed {
            None => None,
            Some((major, minor, patch)) => {
                let prefix = if p == 0 {
                    None
                } else {
                    Some(string_of(&cs, 0, p))
                };
                let suffix = if e == n {
                    None
                } else {
                    Some(string_of(&cs, e, n))
                };
                assert(s.take(p as int) == s.subrange(0, p as int));
                assert(s.skip(e as int) == s.subrange(e as int, n as int));
                Some(
                    VersionInfo {
                        version: Version { major, minor, patch },
                        prefix,
                        suffix,
                        original: tag.to_owned(),
                    },
                )
            },
        }
    }
}

impl VersionInfo {
    /// The tag as it was written.
    pub fn to_string(&self) -> (s: String)
        ensures
            s@ == self.original@,
    {
        self.original.clone()
    }
}

/// Reads a tag as (version, prefix, suffix, tag); a tag without a version
/// gives `(None, None, None, tag)`.
pub fn parse_version_tag(tag: &str) -> (r: (Option<Version>, Option<String>, Option<String>, String))
    ensures
        r.3@ == tag@,
        match tag_version(tag@) {
            Some(v) => r.0 == Some(v.version) && opt_view(r.1) == v.prefix && opt_view(r.2)
                == v.suffix,
            None => r.0 is None && r.1 is None && r.2 is None,
        },
{
    match VersionInfo::from_tag(tag) {
        Some(info) => (Some(info.version), info.prefix, info.suffix, info.original),
        None => (None, None, None, tag.to_owned()),
    }
}

} // verus!
