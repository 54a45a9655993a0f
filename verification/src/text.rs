//! Character-level helpers shared by the parsers of this crate.
use vstd::prelude::*;

verus! {

broadcast use vstd::string::group_string_axioms;

/// Characters with the Unicode `White_Space` property, the class that
/// `char::is_whitespace`, `str::trim` and the pattern `\s` all use.
pub open spec fn is_space(c: char) -> bool {
    let u = c as u32;
    ||| (0x09 <= u && u <= 0x0d)
    ||| u == 0x20
    ||| u == 0x85
    ||| u == 0xa0
    ||| u == 0x1680
    ||| (0x2000 <= u && u <= 0x200a)
    ||| u == 0x2028
    ||| u == 0x2029
    ||| u == 0x202f
    ||| u == 0x205f
    ||| u == 0x3000
}

/// An ASCII decimal digit.
pub open spec fn is_digit(c: char) -> bool {
    '0' <= c && c <= '9'
}

/// Whether `c` is a character with the Unicode `White_Space` property.
pub fn char_is_space(c: char) -> (r: bool)
    ensures
        r == is_space(c),
{
    let u = c as u32;
    (0x09 <= u && u <= 0x0d) || u == 0x20 || u == 0x85 || u == 0xa0 || u == 0x1680 || (0x2000
        <= u && u <= 0x200a) || u == 0x2028 || u == 0x2029 || u == 0x202f || u == 0x205f || u
        == 0x3000
}

/// What `char::is_alphanumeric` answers for `c` (the Unicode `Alphabetic` and
/// `Numeric` properties, whose tables this crate does not restate).
pub uninterp spec fn unicode_alphanumeric(c: char) -> bool;

/// Calls `char::is_alphanumeric`; its answer is named `unicode_alphanumeric`.
/// ASCII letters and digits are alphabetic or numeric, as std documents.
#[verifier::external_body]
pub fn char_is_alphanumeric(c: char) -> (r: bool)
    ensures
        r == unicode_alphanumeric(c),
        ('a' <= c && c <= 'z') || ('A' <= c && c <= 'Z') || ('0' <= c && c <= '9') ==> r,
{
    c.is_alphanumeric()
}

/// Whether the `regex` crate's Unicode `\d` class (`\p{Nd}`) holds `c`.
pub uninterp spec fn regex_digit(c: char) -> bool;

/// Whether the `regex` crate's Unicode `\w` class (`\p{Alphabetic}`,
/// `\p{M}`, `\d`, `\p{Pc}`, `\p{Join_Control}`) holds `c`.
pub uninterp spec fn regex_word(c: char) -> bool;

/// Asks the `regex` crate whether `c` alone matches `\d`; the answer is
/// named `regex_digit`.
#[verifier::external_body]
fn regex_digit_class(c: char) -> (r: bool)
    ensures
        r == regex_digit(c),
{
    let mut buf = [0u8; 4];
    regex::Regex::new(r"\A\d\z").map(|re| re.is_match(c.encode_utf8(&mut buf))).unwrap_or(false)
}

/// Asks the `regex` crate whether `c` alone matches `\w`; the answer is
/// named `regex_word`.
#[verifier::external_body]
fn regex_word_class(c: char) -> (r: bool)
    ensures
        r == regex_word(c),
{
    let mut buf = [0u8; 4];
    regex::Regex::new(r"\A\w\z").map(|re| re.is_match(c.encode_utf8(&mut buf))).unwrap_or(false)
}

/// A digit as a Unicode-aware pattern reads `\d`: among ASCII characters
/// exactly `0` to `9`, beyond ASCII the decimal digits of other scripts.
pub open spec fn is_pattern_digit(c: char) -> bool {
    if c <= '\x7f' {
        is_digit(c)
    } else {
        regex_digit(c)
    }
}

/// A word character as a Unicode-aware pattern reads `\w`: among ASCII
/// characters exactly letters, digits and `_`, beyond ASCII the letters,
/// marks, digits and connectors of other scripts.
pub open spec fn is_pattern_word(c: char) -> bool {
    if c <= '\x7f' {
        ('a' <= c && c <= 'z') || ('A' <= c && c <= 'Z') || ('0' <= c && c <= '9') || c == '_'
    } else {
        regex_word(c)
    }
}

/// Whether `c` is a `\d` digit.
pub fn char_is_pattern_digit(c: char) -> (r: bool)
    ensures
        r == is_pattern_digit(c),
{
    if c <= '\x7f' {
        '0' <= c && c <= '9'
    } else {
        regex_digit_class(c)
    }
}

/// Whether `c` is a `\w` word character.
pub fn char_is_pattern_word(c: char) -> (r: bool)
    ensures
        r == is_pattern_word(c),
{
    if c <= '\x7f' {
        ('a' <= c && c <= 'z') || ('A' <= c && c <= 'Z') || ('0' <= c && c <= '9') || c == '_'
    } else {
        regex_word_class(c)
    }
}

/// Calls `String::push`, which appends one character.
#[verifier::external_body]
pub fn push_char(s: &mut String, c: char)
    ensures
        final(s)@ == old(s)@.push(c),
{
    s.push(c)
}

/// Whether two strings are equal.
pub fn str_eq(a: &str, b: &str) -> (r: bool)
    ensures
        r == (a@ == b@),
{
    let x = a.to_owned();
    let y = b.to_owned();
    x.eq(&y)
}

/// The characters of `s`, in order.
pub fn chars_of(s: &str) -> (out: Vec<char>)
    ensures
        out@ == s@,
{
    let mut out: Vec<char> = Vec::new();
    for c in it: s.chars()
        invariant
            it.seq() == s@,
            out@ == it.seq().take(it.index()),
    {
        out.push(c);
    }
    out
}

/// A `String` holding `chars[from..to]`.
pub fn string_of(chars: &Vec<char>, from: usize, to: usize) -> (out: String)
    requires
        from <= to <= chars@.len(),
    ensures
        out@ == chars@.subrange(from as int, to as int),
{
    let mut out = String::new();
    let mut i = from;
    while i < to
        invariant
            from <= i <= to <= chars@.len(),
            out@ == chars@.subrange(from as int, i as int),
        decreases to - i,
    {
        push_char(&mut out, chars[i]);
        assert(chars@.subrange(from as int, i + 1) == chars@.subrange(from as int, i as int).push(
            chars@[i as int],
        ));
        i = i + 1;
    }
    out
}

/// Appends `chars[from..to]` to `out`.
pub fn push_chars(out: &mut String, chars: &Vec<char>, from: usize, to: usize)
    requires
        from <= to <= chars@.len(),
    ensures
        final(out)@ == old(out)@ + chars@.subrange(from as int, to as int),
{
    let mut i = from;
    while i < to
        invariant
            from <= i <= to <= chars@.len(),
            out@ == old(out)@ + chars@.subrange(from as int, i as int),
        decreases to - i,
    {
        push_char(out, chars[i]);
        assert(chars@.subrange(from as int, i + 1) == chars@.subrange(from as int, i as int).push(
            chars@[i as int],
        ));
        i = i + 1;
    }
}

/// Whether `s` has `p` as a contiguous piece starting at `i`.
pub open spec fn occurs_at(s: Seq<char>, p: Seq<char>, i: int) -> bool {
    0 <= i && i + p.len() <= s.len() && s.subrange(i, i + p.len()) == p
}

/// Whether `p` occurs somewhere in `s` (what `str::contains` answers).
pub open spec fn contains_seq(s: Seq<char>, p: Seq<char>) -> bool {
    exists|i: int| #[trigger] occurs_at(s, p, i)
}

/// Whether `s` begins with `p`.
pub open spec fn starts_with(s: Seq<char>, p: Seq<char>) -> bool {
    occurs_at(s, p, 0)
}

/// Whether `s` ends with `p`.
pub open spec fn ends_with(s: Seq<char>, p: Seq<char>) -> bool {
    occurs_at(s, p, s.len() - p.len())
}

/// Whether `chars[i..]` begins with `p`.
pub fn matches_at(chars: &Vec<char>, p: &Vec<char>, i: usize) -> (r: bool)
    ensures
        r == occurs_at(chars@, p@, i as int),
{
    if i > chars.len() || p.len() > chars.len() - i {
        return false;
    }
    let mut k: usize = 0;
    while k < p.len()
        invariant
            i + p@.len() <= chars.len(),
            k <= p@.len(),
            forall|j: int| 0 <= j < k ==> chars@[i + j] == p@[j],
        decreases p@.len() - k,
    {
        if chars[i + k] != p[k] {
            assert(chars@.subrange(i as int, i + p@.len())[k as int] != p@[k as int]);
            return false;
        }
        k = k + 1;
    }
    assert(chars@.subrange(i as int, i + p@.len()) =~= p@);
    true
}

/// Whether `p` occurs in `s`: `str::contains` with a string pattern.
pub fn contains_str(s: &str, p: &str) -> (r: bool)
    ensures
        r == contains_seq(s@, p@),
{
    let cs = chars_of(s);
    let ps = chars_of(p);
    if ps.len() > cs.len() {
        assert forall|i: int| !occurs_at(s@, p@, i) by {}
        return false;
    }
    let last = cs.len() - ps.len();
    let mut i: usize = 0;
    loop
        invariant
            cs@ == s@,
            ps@ == p@,
            last == cs@.len() - ps@.len(),
            i <= last,
            forall|j: int| 0 <= j < i ==> !occurs_at(s@, p@, j),
        ensures
            forall|j: int| 0 <= j <= last ==> !occurs_at(s@, p@, j),
        decreases last - i,
    {
        if matches_at(&cs, &ps, i) {
            assert(occurs_at(s@, p@, i as int));
            return true;
        }
        if i == last {
            break;
        }
        i = i + 1;
    }
    assert forall|j: int| !occurs_at(s@, p@, j) by {
        if 0 <= j <= last {
        }
    }
    false
}

/// The end of the run of whitespace in `s` that starts at `i`.
pub open spec fn space_run_end(s: Seq<char>, i: int) -> int
    decreases s.len() - i,
{
    if 0 <= i < s.len() && is_space(s[i]) {
        space_run_end(s, i + 1)
    } else {
        i
    }
}

pub proof fn lemma_space_run_end(s: Seq<char>, i: int)
    requires
        0 <= i <= s.len(),
    ensures
        i <= space_run_end(s, i) <= s.len(),
        forall|k: int| i <= k < space_run_end(s, i) ==> is_space(#[trigger] s[k]),
        space_run_end(s, i) < s.len() ==> !is_space(s[space_run_end(s, i)]),
    decreases s.len() - i,
{
    if i < s.len() && is_space(s[i]) {
        lemma_space_run_end(s, i + 1);
    }
}

/// The run of whitespace from `i` ends at `r` when everything in between is
/// whitespace and `r` is the end or holds something else.
pub proof fn lemma_space_run_end_is(s: Seq<char>, i: int, r: int)
    requires
        0 <= i <= r <= s.len(),
        forall|k: int| i <= k < r ==> is_space(#[trigger] s[k]),
        r == s.len() || !is_space(s[r]),
    ensures
        space_run_end(s, i) == r,
    decreases r - i,
{
    if i < r {
        lemma_space_run_end_is(s, i + 1, r);
    }
}

/// A run of whitespace behind a prefix ends where it ends in the rest,
/// shifted by the prefix.
pub proof fn lemma_space_run_end_shift(p: Seq<char>, b: Seq<char>, i: int)
    requires
        0 <= i <= b.len(),
    ensures
        space_run_end(p + b, p.len() + i) == p.len() + space_run_end(b, i),
    decreases b.len() - i,
{
    if i < b.len() {
        assert((p + b)[p.len() + i] == b[i]);
        if is_space(b[i]) {
            lemma_space_run_end_shift(p, b, i + 1);
        }
    }
}

/// `s` without its leading whitespace (`str::trim_start`).
pub open spec fn trim_start(s: Seq<char>) -> Seq<char> {
    s.skip(space_run_end(s, 0))
}

/// The length of `s` without its trailing whitespace.
pub open spec fn trimmed_end(s: Seq<char>) -> int
    decreases s.len(),
{
    if s.len() > 0 && is_space(s.last()) {
        trimmed_end(s.drop_last())
    } else {
        s.len() as int
    }
}

/// `s` without leading and trailing whitespace (`str::trim`).
pub open spec fn trim(s: Seq<char>) -> Seq<char> {
    trim_start(s.take(trimmed_end(s)))
}

pub proof fn lemma_trimmed_end(s: Seq<char>)
    ensures
        0 <= trimmed_end(s) <= s.len(),
        forall|k: int| trimmed_end(s) <= k < s.len() ==> is_space(#[trigger] s[k]),
        trimmed_end(s) > 0 ==> !is_space(s[trimmed_end(s) - 1]),
    decreases s.len(),
{
    if s.len() > 0 && is_space(s.last()) {
        lemma_trimmed_end(s.drop_last());
        assert forall|k: int| trimmed_end(s) <= k < s.len() implies is_space(#[trigger] s[k]) by {
            if k < s.len() - 1 {
                assert(s[k] == s.drop_last()[k]);
            }
        }
    }
}

/// Whether `s` is nothing but whitespace.
pub open spec fn all_space(s: Seq<char>) -> bool {
    forall|k: int| 0 <= k < s.len() ==> is_space(#[trigger] s[k])
}

pub proof fn lemma_trim_empty(s: Seq<char>)
    ensures
        trim(s).len() == 0 <==> all_space(s),
{
    lemma_trimmed_end(s);
    let t = s.take(trimmed_end(s));
    lemma_space_run_end(t, 0);
    if trim(s).len() == 0 {
        assert forall|k: int| 0 <= k < s.len() implies is_space(#[trigger] s[k]) by {
            if k < trimmed_end(s) {
                assert(t[k] == s[k]);
            }
        }
    }
    if all_space(s) {
        if trimmed_end(s) > 0 {
            assert(is_space(s[trimmed_end(s) - 1]));
        }
    }
}

/// Whether `s` holds only whitespace.
pub fn is_blank(cs: &Vec<char>, from: usize, to: usize) -> (r: bool)
    requires
        from <= to <= cs@.len(),
    ensures
        r == all_space(cs@.subrange(from as int, to as int)),
{
    let ghost sub = cs@.subrange(from as int, to as int);
    let mut i = from;
    while i < to
        invariant
            from <= i <= to <= cs@.len(),
            sub == cs@.subrange(from as int, to as int),
            forall|k: int| from <= k < i ==> is_space(#[trigger] cs@[k]),
        decreases to - i,
    {
        if !char_is_space(cs[i]) {
            assert(!is_space(sub[i - from]));
            return false;
        }
        i = i + 1;
    }
    assert forall|k: int| 0 <= k < sub.len() implies is_space(#[trigger] sub[k]) by {
        assert(sub[k] == cs@[from + k]);
    }
    true
}

/// The end of the run of whitespace in `cs` that starts at `i`.
pub fn space_end(cs: &Vec<char>, i: usize) -> (j: usize)
    requires
        i <= cs@.len(),
    ensures
        j == space_run_end(cs@, i as int),
        i <= j <= cs@.len(),
{
    proof {
        lemma_space_run_end(cs@, i as int);
    }
    let mut j = i;
    while j < cs.len() && char_is_space(cs[j])
        invariant
            i <= j <= cs@.len(),
            space_run_end(cs@, j as int) == space_run_end(cs@, i as int),
        decreases cs@.len() - j,
    {
        j = j + 1;
    }
    j
}

/// The position of the first `'\n'` at or after `i`, or the length.
pub open spec fn newline_from(s: Seq<char>, i: int) -> int
    decreases s.len() - i,
{
    if 0 <= i < s.len() && s[i] != '\n' {
        newline_from(s, i + 1)
    } else {
        i
    }
}

pub proof fn lemma_newline_from(s: Seq<char>, i: int)
    requires
        0 <= i <= s.len(),
    ensures
        i <= newline_from(s, i) <= s.len(),
        forall|k: int| i <= k < newline_from(s, i) ==> #[trigger] s[k] != '\n',
        newline_from(s, i) < s.len() ==> s[newline_from(s, i)] == '\n',
    decreases s.len() - i,
{
    if i < s.len() && s[i] != '\n' {
        lemma_newline_from(s, i + 1);
    }
}

/// A line ended by `'\n'`, without a carriage return before it.
pub open spec fn strip_cr(line: Seq<char>) -> Seq<char> {
    if line.len() > 0 && line.last() == '\r' {
        line.drop_last()
    } else {
        line
    }
}

/// The lines of `s` from position `i` on, as `str::lines` yields them.
pub open spec fn lines_from(s: Seq<char>, i: int) -> Seq<Seq<char>>
    decreases s.len() - i,
{
    if i < 0 || i >= s.len() {
        seq![]
    } else {
        let j = newline_from(s, i);
        if j >= s.len() {
            seq![s.subrange(i, s.len() as int)]
        } else {
            proof {
                lemma_newline_from(s, i);
            }
            seq![strip_cr(s.subrange(i, j))] + lines_from(s, j + 1)
        }
    }
}

/// The lines of `s` (`str::lines`): split at `'\n'`, each line ended by a
/// `'\n'` losing one `'\r'` before it, and no empty line after a final
/// `'\n'`.
pub open spec fn lines(s: Seq<char>) -> Seq<Seq<char>> {
    lines_from(s, 0)
}

/// Whether `line` ends with a carriage return.
pub open spec fn ends_with_cr(line: Seq<char>) -> bool {
    line.len() > 0 && line.last() == '\r'
}

/// Searching for the next `'\n'` behind a prefix finds it where it is found
/// in the rest, shifted by the prefix.
pub proof fn lemma_newline_from_shift(p: Seq<char>, b: Seq<char>, i: int)
    requires
        0 <= i <= b.len(),
    ensures
        newline_from(p + b, p.len() + i) == p.len() + newline_from(b, i),
    decreases b.len() - i,
{
    if i < b.len() {
        assert((p + b)[p.len() + i] == b[i]);
        if b[i] != '\n' {
            lemma_newline_from_shift(p, b, i + 1);
        }
    }
}

/// The lines behind a prefix are the lines of the rest.
pub proof fn lemma_lines_from_shift(p: Seq<char>, b: Seq<char>, i: int)
    requires
        0 <= i <= b.len(),
    ensures
        lines_from(p + b, p.len() + i) == lines_from(b, i),
    decreases b.len() - i,
{
    let s = p + b;
    if i < b.len() {
        lemma_newline_from_shift(p, b, i);
        lemma_newline_from(b, i);
        let j = newline_from(b, i);
        if j >= b.len() {
            assert(s.subrange(p.len() + i, s.len() as int) =~= b.subrange(i, b.len() as int));
        } else {
            assert(s.subrange(p.len() + i, p.len() + j) =~= b.subrange(i, j));
            lemma_lines_from_shift(p, b, j + 1);
        }
    }
}

/// No line holds a `'\n'`; a text that does not end with `'\n'` has a
/// last line that is not empty, and one that does has at least one line.
pub proof fn lemma_lines_from_shape(s: Seq<char>, i: int)
    requires
        0 <= i <= s.len(),
    ensures
        forall|k: int| 0 <= k < lines_from(s, i).len() ==> !(#[trigger] lines_from(s, i)[k]).contains('\n'),
        i < s.len() ==> lines_from(s, i).len() > 0,
        i < s.len() && s.last() != '\n' ==> lines_from(s, i).last().len() > 0,
    decreases s.len() - i,
{
    if i < s.len() {
        lemma_newline_from(s, i);
        let j = newline_from(s, i);
        if j >= s.len() {
            let l = s.subrange(i, s.len() as int);
            assert(lines_from(s, i) == seq![l]);
            assert forall|k: int| 0 <= k < l.len() implies l[k] != '\n' by {
                assert(l[k] == s[i + k]);
            }
        } else {
            let l = s.subrange(i, j);
            assert forall|k: int| 0 <= k < l.len() implies l[k] != '\n' by {
                assert(l[k] == s[i + k]);
            }
            let sl = strip_cr(l);
            assert forall|k: int| 0 <= k < sl.len() implies sl[k] != '\n' by {
                assert(sl[k] == l[k]);
            }
            lemma_lines_from_shape(s, j + 1);
            let rest = lines_from(s, j + 1);
            assert(lines_from(s, i) == seq![sl] + rest);
            assert forall|k: int| 0 <= k < lines_from(s, i).len() implies !(#[trigger] lines_from(
                s,
                i,
            )[k]).contains('\n') by {
                if k > 0 {
                    assert(lines_from(s, i)[k] == rest[k - 1]);
                }
            }
            if s.last() != '\n' {
                assert(j + 1 < s.len());
                assert(lines_from(s, i).last() == rest.last());
            }
        }
    }
}

/// Where each line of `cs` starts and ends.
pub fn line_spans(cs: &Vec<char>) -> (spans: Vec<(usize, usize)>)
    ensures
        spans@.len() == lines(cs@).len(),
        forall|k: int|
            0 <= k < spans@.len() ==> {
                let (a, b) = #[trigger] spans@[k];
                a <= b <= cs@.len() && cs@.subrange(a as int, b as int) == lines(cs@)[k]
            },
{
    let ghost s = cs@;
    let mut spans: Vec<(usize, usize)> = Vec::new();
    let mut i: usize = 0;
    let ghost mut done: Seq<Seq<char>> = seq![];
    while i < cs.len()
        invariant
            s == cs@,
            i <= s.len(),
            done + lines_from(s, i as int) == lines(s),
            spans@.len() == done.len(),
            forall|k: int|
                0 <= k < spans@.len() ==> {
                    let (a, b) = #[trigger] spans@[k];
                    a <= b <= s.len() && s.subrange(a as int, b as int) == done[k]
                },
        decreases s.len() - i,
    {
        proof {
            lemma_newline_from(s, i as int);
        }
        let mut j = i;
        while j < cs.len() && cs[j] != '\n'
            invariant
                i <= j <= s.len(),
                s == cs@,
                newline_from(s, j as int) == newline_from(s, i as int),
            decreases s.len() - j,
        {
            j = j + 1;
        }
        let ghost line: Seq<char>;
        if j >= cs.len() {
            proof {
                line = s.subrange(i as int, s.len() as int);
            }
            spans.push((i, j));
            assert(lines_from(s, i as int) == seq![line]);
            assert(lines_from(s, j as int) == Seq::<Seq<char>>::empty());
            proof {
                done = done.push(line);
            }
            assert(done + lines_from(s, j as int) =~= lines(s));
            i = j;
        } else {
            let end = if j > i && cs[j - 1] == '\r' {
                j - 1
            } else {
                j
            };
            proof {
                line = strip_cr(s.subrange(i as int, j as int));
                if j > i && s[j - 1] == '\r' {
                    assert(s.subrange(i as int, j as int).drop_last() =~= s.subrange(
                        i as int,
                        end as int,
                    ));
                }
            }
            assert(s.subrange(i as int, end as int) == line);
            spans.push((i, end));
            assert(lines_from(s, i as int) == seq![line] + lines_from(s, j + 1));
            proof {
                done = done.push(line);
            }
            assert(done + lines_from(s, j + 1) =~= lines(s)) by {
                assert(seq![line] + lines_from(s, j + 1) == lines_from(s, i as int));
            }
            i = j + 1;
        }
    }
    assert(lines_from(s, i as int) == Seq::<Seq<char>>::empty());
    assert(done =~= lines(s));
    spans
}

/// A copy of `cs[from..to]`.
pub fn slice_chars(cs: &Vec<char>, from: usize, to: usize) -> (out: Vec<char>)
    requires
        from <= to <= cs@.len(),
    ensures
        out@ == cs@.subrange(from as int, to as int),
{
    let mut out: Vec<char> = Vec::new();
    let mut i = from;
    while i < to
        invariant
            from <= i <= to <= cs@.len(),
            out@ == cs@.subrange(from as int, i as int),
        decreases to - i,
    {
        out.push(cs[i]);
        assert(cs@.subrange(from as int, i + 1) == cs@.subrange(from as int, i as int).push(
            cs@[i as int],
        ));
        i = i + 1;
    }
    out
}

/// The number of bytes that UTF-8 spends on `c`.
pub open spec fn utf8_width(c: char) -> nat {
    let u = c as u32;
    if u < 0x80 {
        1
    } else if u < 0x800 {
        2
    } else if u < 0x10000 {
        3
    } else {
        4
    }
}

/// The number of bytes that UTF-8 spends on `s`.
pub open spec fn utf8_len(s: Seq<char>) -> nat
    decreases s.len(),
{
    if s.len() == 0 {
        0
    } else {
        utf8_len(s.drop_last()) + utf8_width(s.last())
    }
}

/// The UTF-8 length of `cs[0..to]`.
pub fn utf8_len_prefix(cs: &Vec<char>, to: usize) -> (n: u128)
    requires
        to <= cs@.len(),
    ensures
        n == utf8_len(cs@.take(to as int)),
{
    let mut n: u128 = 0;
    let mut i: usize = 0;
    while i < to
        invariant
            i <= to <= cs@.len(),
            n == utf8_len(cs@.take(i as int)),
            n <= 4 * i,
        decreases to - i,
    {
        assert(cs@.take(i + 1).drop_last() =~= cs@.take(i as int));
        let u = cs[i] as u32;
        let w: u128 = if u < 0x80 {
            1
        } else if u < 0x800 {
            2
        } else if u < 0x10000 {
            3
        } else {
            4
        };
        n = n + w;
        i = i + 1;
    }
    n
}

/// The position of the first `c` in `s` at or after `i`, or the length.
pub open spec fn char_from(s: Seq<char>, c: char, i: int) -> int
    decreases s.len() - i,
{
    if 0 <= i < s.len() && s[i] != c {
        char_from(s, c, i + 1)
    } else {
        i
    }
}

pub proof fn lemma_char_from(s: Seq<char>, c: char, i: int)
    requires
        0 <= i <= s.len(),
    ensures
        i <= char_from(s, c, i) <= s.len(),
        forall|k: int| i <= k < char_from(s, c, i) ==> #[trigger] s[k] != c,
        char_from(s, c, i) < s.len() ==> s[char_from(s, c, i)] == c,
    decreases s.len() - i,
{
    if i < s.len() && s[i] != c {
        lemma_char_from(s, c, i + 1);
    }
}

/// The pieces of `s` from position `i` on between occurrences of `c`
/// (`str::split` with a character).
pub open spec fn split_from(s: Seq<char>, c: char, i: int) -> Seq<Seq<char>>
    decreases s.len() - i,
{
    if i < 0 || i > s.len() {
        seq![]
    } else {
        let j = char_from(s, c, i);
        if j >= s.len() {
            seq![s.subrange(i, s.len() as int)]
        } else {
            proof {
                lemma_char_from(s, c, i);
            }
            seq![s.subrange(i, j)] + split_from(s, c, j + 1)
        }
    }
}

/// The pieces of `s` between occurrences of `c`.
pub open spec fn split_char(s: Seq<char>, c: char) -> Seq<Seq<char>> {
    split_from(s, c, 0)
}

/// Where the pieces of `cs[from..to]` between occurrences of `c` stand.
pub fn split_spans(cs: &Vec<char>, from: usize, to: usize, c: char) -> (spans: Vec<(usize, usize)>)
    requires
        from <= to <= cs@.len(),
    ensures
        spans@.len() == split_char(cs@.subrange(from as int, to as int), c).len(),
        forall|k: int|
            0 <= k < spans@.len() ==> {
                let (a, b) = #[trigger] spans@[k];
                from <= a <= b <= to && cs@.subrange(a as int, b as int) == split_char(
                    cs@.subrange(from as int, to as int),
                    c,
                )[k]
            },
{
    let ghost s = cs@.subrange(from as int, to as int);
    let mut spans: Vec<(usize, usize)> = Vec::new();
    let mut i: usize = from;
    let ghost mut done: Seq<Seq<char>> = seq![];
    loop
        invariant
            s == cs@.subrange(from as int, to as int),
            from <= i <= to <= cs@.len(),
            done + split_from(s, c, i - from) == split_char(s, c),
            spans@.len() == done.len(),
            forall|k: int|
                0 <= k < spans@.len() ==> {
                    let (a, b) = #[trigger] spans@[k];
                    from <= a <= b <= to && cs@.subrange(a as int, b as int) == done[k]
                },
        decreases to - i,
    {
        proof {
            lemma_char_from(s, c, i - from);
        }
        let mut j = i;
        while j < to && cs[j] != c
            invariant
                from <= i <= j <= to <= cs@.len(),
                s == cs@.subrange(from as int, to as int),
                char_from(s, c, j - from) == char_from(s, c, i - from),
            decreases to - j,
        {
            assert(s[j - from] == cs@[j as int]);
            j = j + 1;
        }
        assert(j < to ==> s[j - from] == cs@[j as int]);
        let ghost piece = s.subrange(i - from, j - from);
        assert(cs@.subrange(i as int, j as int) =~= piece);
        spans.push((i, j));
        proof {
            done = done.push(piece);
        }
        if j >= to {
            assert(split_from(s, c, i - from) == seq![piece]);
            assert(done =~= split_char(s, c));
            return spans;
        }
        assert(split_from(s, c, i - from) == seq![piece] + split_from(s, c, j + 1 - from));
        assert(done + split_from(s, c, j + 1 - from) =~= split_char(s, c));
        i = j + 1;
    }
}

/// The bounds of `cs[from..to]` without its leading and trailing whitespace.
pub fn trim_bounds(cs: &Vec<char>, from: usize, to: usize) -> (r: (usize, usize))
    requires
        from <= to <= cs@.len(),
    ensures
        from <= r.0 <= r.1 <= to,
        cs@.subrange(r.0 as int, r.1 as int) == trim(cs@.subrange(from as int, to as int)),
{
    let ghost s = cs@.subrange(from as int, to as int);
    let mut b = to;
    assert(s.take(to - from) =~= s);
    while b > from && char_is_space(cs[b - 1])
        invariant
            from <= b <= to <= cs@.len(),
            s == cs@.subrange(from as int, to as int),
            trimmed_end(s) == trimmed_end(s.take(b - from)),
        decreases b,
    {
        assert(s.take(b - from).drop_last() =~= s.take(b - from - 1));
        assert(s.take(b - from).last() == cs@[b - 1]);
        b = b - 1;
    }
    assert(trimmed_end(s.take(b - from)) == b - from) by {
        if b > from {
            assert(s.take(b - from).last() == cs@[b - 1]);
        }
    }
    let ghost t = s.take(b - from);
    assert(t =~= cs@.subrange(from as int, b as int));
    let mut a = from;
    proof {
        lemma_space_run_end(t, 0);
    }
    while a < b && char_is_space(cs[a])
        invariant
            from <= a <= b <= to <= cs@.len(),
            t == cs@.subrange(from as int, b as int),
            space_run_end(t, a - from) == space_run_end(t, 0),
        decreases b - a,
    {
        assert(t[a - from] == cs@[a as int]);
        a = a + 1;
    }
    assert(a < b ==> t[a - from] == cs@[a as int]);
    assert(cs@.subrange(a as int, b as int) =~= t.skip(a - from));
    (a, b)
}

/// Whether `cs[from..to]` equals `other`.
pub fn range_eq(cs: &Vec<char>, from: usize, to: usize, other: &Vec<char>) -> (r: bool)
    requires
        from <= to <= cs@.len(),
    ensures
        r == (cs@.subrange(from as int, to as int) == other@),
{
    if to - from != other.len() {
        return false;
    }
    let mut i: usize = 0;
    while i < other.len()
        invariant
            from <= to <= cs@.len(),
            to - from == other@.len(),
            i <= other@.len(),
            forall|j: int| 0 <= j < i ==> cs@[from + j] == other@[j],
        decreases other@.len() - i,
    {
        if cs[from + i] != other[i] {
            assert(cs@.subrange(from as int, to as int)[i as int] != other@[i as int]);
            return false;
        }
        i = i + 1;
    }
    assert(cs@.subrange(from as int, to as int) =~= other@);
    true
}

} // verus!
