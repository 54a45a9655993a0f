//! Finding the services of a Docker Compose file and their images.
//!
//! The file is read line by line rather than as YAML, so that rewriting an
//! image later touches that one line only. A top-level `services:` key opens
//! the services block and the next top-level key closes it. Inside, a key made
//! of name characters and ending in `:` names a service (all services at the
//! indentation of the first one); the first deeper key fixes the indentation of
//! the service's own properties, and an `image:` property at exactly that depth
//! gives the service's image.
use vstd::prelude::*;
use crate::registry::{image_ref_of, ImageRef, ImageRefView};
use crate::text::{
    char_is_alphanumeric, char_is_space, chars_of, is_space, lemma_newline_from,
    lemma_space_run_end, lemma_trim_empty, line_spans, lines, newline_from, occurs_at,
    slice_chars, space_end, space_run_end, starts_with, string_of, trim, trim_start,
    unicode_alphanumeric, utf8_len, utf8_len_prefix, all_space, is_blank, matches_at,
};

verus! {

broadcast use vstd::string::group_string_axioms;

/// `image:`
pub open spec fn image_key() -> Seq<char> {
    seq!['i', 'm', 'a', 'g', 'e', ':']
}

/// `services:`
pub open spec fn services_key() -> Seq<char> {
    seq!['s', 'e', 'r', 'v', 'i', 'c', 'e', 's', ':']
}

/// A quotation mark, single or double.
pub open spec fn is_quote(c: char) -> bool {
    c == '"' || c == '\''
}

/// The first quotation mark at or after `i`, or the length.
pub open spec fn quote_from(s: Seq<char>, i: int) -> int
    decreases s.len() - i,
{
    if 0 <= i < s.len() && !is_quote(s[i]) {
        quote_from(s, i + 1)
    } else {
        i
    }
}

/// The first whitespace or `#` at or after `i`, or the length.
pub open spec fn plain_end(s: Seq<char>, i: int) -> int
    decreases s.len() - i,
{
    if 0 <= i < s.len() && !is_space(s[i]) && s[i] != '#' {
        plain_end(s, i + 1)
    } else {
        i
    }
}

/// From `t` on, `s` holds only whitespace, possibly followed by a `#`
/// comment that runs to the end without a line break.
pub open spec fn tail_ok(s: Seq<char>, t: int) -> bool {
    let w = space_run_end(s, t);
    w == s.len() || (s[w] == '#' && newline_from(s, w) == s.len())
}

/// Where the image value of an `image:` line stands.
pub struct ImageLineView {
    /// The end of the leading whitespace, `image:` and the whitespace after it.
    pub head_end: int,
    /// Whether the value is written between quotation marks.
    pub quoted: bool,
    /// The end of the value (the position of the closing quotation mark for
    /// a quoted value).
    pub value_end: int,
}

/// An `image:` line: leading whitespace, `image:`, whitespace, then a value
/// that is either a non-empty run without quotation marks between two of them
/// or a non-empty run without whitespace or `#`, and then only whitespace and
/// an optional `#` comment.
pub open spec fn image_line(s: Seq<char>) -> Option<ImageLineView> {
    let w = space_run_end(s, 0);
    if !occurs_at(s, image_key(), w) {
        None
    } else {
        let q = space_run_end(s, w + 6);
        let e1 = quote_from(s, q + 1);
        let e2 = plain_end(s, q);
        if q < s.len() && is_quote(s[q]) && e1 < s.len() && e1 > q + 1 && tail_ok(s, e1 + 1) {
            Some(ImageLineView { head_end: q, quoted: true, value_end: e1 })
        } else if e2 > q && tail_ok(s, e2) {
            Some(ImageLineView { head_end: q, quoted: false, value_end: e2 })
        } else {
            None
        }
    }
}

/// Where the value of a matched image line starts.
pub open spec fn value_start(m: ImageLineView) -> int {
    if m.quoted {
        m.head_end + 1
    } else {
        m.head_end
    }
}

/// Where what follows the value of a matched image line starts.
pub open spec fn tail_start(m: ImageLineView) -> int {
    if m.quoted {
        m.value_end + 1
    } else {
        m.value_end
    }
}

/// The image a line names: an `image:` line whose value holds no `@` (a
/// digest-pinned image) and is not blank.
pub open spec fn image_of_line(s: Seq<char>) -> Option<ImageRefView> {
    if !starts_with(trim_start(s), image_key()) {
        None
    } else {
        match image_line(s) {
            None => None,
            Some(m) => {
                let v = s.subrange(value_start(m), m.value_end);
                if v.contains('@') || trim(v).len() == 0 {
                    None
                } else {
                    Some(image_ref_of(v))
                }
            },
        }
    }
}

/// A service with the image it runs and the line that names it.
pub struct ServiceImageView {
    pub service_name: Seq<char>,
    pub image_ref: ImageRefView,
    pub original_line: Seq<char>,
    pub line_number: int,
}

/// A service of a compose file and the line that names its image.
#[derive(Debug)]
pub struct ServiceImage {
    pub service_name: String,
    pub image_ref: ImageRef,
    pub original_line: String,
    pub line_number: usize,
}

impl View for ServiceImage {
    type V = ServiceImageView;

    open spec fn view(&self) -> ServiceImageView {
        ServiceImageView {
            service_name: self.service_name@,
            image_ref: self.image_ref@,
            original_line: self.original_line@,
            line_number: self.line_number as int,
        }
    }
}

/// The text of a compose file and the services found in it.
pub struct ComposeFile {
    pub content: String,
    pub services: Vec<ServiceImage>,
}

/// The views of a sequence of services.
pub open spec fn services_view(s: Seq<ServiceImage>) -> Seq<ServiceImageView> {
    s.map_values(|v: ServiceImage| v@)
}

/// Finds the services of compose files.
pub struct ComposeParser;

/// Where the line scan stands.
pub struct ScanState {
    pub in_services: bool,
    pub current: Option<Seq<char>>,
    pub service_indent: Option<int>,
    pub child_indent: Option<int>,
}

/// The state before the first line.
pub open spec fn initial_scan() -> ScanState {
    ScanState { in_services: false, current: None, service_indent: None, child_indent: None }
}

/// A name character of a service key.
pub open spec fn is_name_char(c: char) -> bool {
    unicode_alphanumeric(c) || c == '_' || c == '-' || c == '.'
}

/// `s` without the colons at its end.
pub open spec fn trim_end_colons(s: Seq<char>) -> Seq<char>
    decreases s.len(),
{
    if s.len() > 0 && s.last() == ':' {
        trim_end_colons(s.drop_last())
    } else {
        s
    }
}

/// A key that can name a service: it ends in `:`, holds no space, and
/// what precedes its final colons is made of name characters.
pub open spec fn service_key(t: Seq<char>) -> bool {
    &&& t.len() > 0
    &&& t.last() == ':'
    &&& !t.contains(' ')
    &&& forall|i: int|
        0 <= i < trim_end_colons(t).len() ==> is_name_char(#[trigger] trim_end_colons(t)[i])
}

/// What one line (number `idx`) does to the scan, and the service image it
/// yields, if any.
pub open spec fn scan_line(st: ScanState, line: Seq<char>, idx: int) -> (
    ScanState,
    Seq<ServiceImageView>,
) {
    let w = space_run_end(line, 0);
    let t = line.skip(w);
    let indent = utf8_len(line.take(w)) as int;
    let closed = ScanState {
        in_services: false,
        current: None,
        service_indent: None,
        child_indent: None,
    };
    if t.len() == 0 || t[0] == '#' {
        (st, seq![])
    } else if indent == 0 && starts_with(t, services_key()) {
        (ScanState { in_services: true, ..closed }, seq![])
    } else if st.in_services && indent == 0 {
        (closed, seq![])
    } else if !st.in_services {
        (st, seq![])
    } else if (st.service_indent is None || st.service_indent == Some(indent)) && service_key(t) {
        let name = trim_end_colons(t);
        if name.len() > 0 {
            (
                ScanState {
                    in_services: true,
                    current: Some(name),
                    service_indent: Some(indent),
                    child_indent: None,
                },
                seq![],
            )
        } else {
            (st, seq![])
        }
    } else if st.current is Some && st.service_indent is Some && indent
        > st.service_indent->0 {
        let ci = match st.child_indent {
            Some(c) => c,
            None => indent,
        };
        let st2 = ScanState { child_indent: Some(ci), ..st };
        if indent == ci && image_of_line(line) is Some {
            (
                st2,
                seq![
                    ServiceImageView {
                        service_name: st.current->0,
                        image_ref: image_of_line(line)->0,
                        original_line: line,
                        line_number: idx,
                    },
                ],
            )
        } else {
            (st2, seq![])
        }
    } else {
        (st, seq![])
    }
}

/// The scan after the lines `ls`, and the service images found on them.
pub open spec fn scan(ls: Seq<Seq<char>>) -> (ScanState, Seq<ServiceImageView>)
    decreases ls.len(),
{
    if ls.len() == 0 {
        (initial_scan(), seq![])
    } else {
        let (st, found) = scan(ls.drop_last());
        let (st2, more) = scan_line(st, ls.last(), ls.len() - 1);
        (st2, found + more)
    }
}

/// The service images of a compose file's text, in the order of their lines.
pub open spec fn services_of(content: Seq<char>) -> Seq<ServiceImageView> {
    scan(lines(content)).1
}

/// A comment line: its first character that is not whitespace is `#`.
pub open spec fn comment_line(x: Seq<char>) -> bool {
    let w = space_run_end(x, 0);
    w < x.len() && x[w] == '#'
}

/// Found services with the line numbers at or after `i` moved down by one,
/// as they are when a line is inserted before line `i`.
pub open spec fn shifted(found: Seq<ServiceImageView>, i: int) -> Seq<ServiceImageView> {
    found.map_values(
        |f: ServiceImageView|
            ServiceImageView {
                line_number: if f.line_number >= i {
                    f.line_number + 1
                } else {
                    f.line_number
                },
                ..f
            },
    )
}

/// A comment line, at any indentation, leaves the scan where it was and
/// yields no service.
pub proof fn comment_lines_change_nothing(st: ScanState, x: Seq<char>, idx: int)
    requires
        comment_line(x),
    ensures
        scan_line(st, x, idx) == (st, Seq::<ServiceImageView>::empty()),
{
    lemma_space_run_end(x, 0);
    let w = space_run_end(x, 0);
    assert(x.skip(w)[0] == x[w]);
}

/// Where a line stands changes only the line numbers of what it yields.
proof fn lemma_scan_line_index(st: ScanState, l: Seq<char>, idx: int)
    ensures
        scan_line(st, l, idx + 1).0 == scan_line(st, l, idx).0,
        scan_line(st, l, idx + 1).1 == shifted(scan_line(st, l, idx).1, idx),
{
    let a = scan_line(st, l, idx).1;
    let b = scan_line(st, l, idx + 1).1;
    assert(b =~= shifted(a, idx));
}

/// The services found on lines `ls` come from those lines.
proof fn lemma_scan_line_numbers(ls: Seq<Seq<char>>)
    ensures
        forall|j: int|
            0 <= j < scan(ls).1.len() ==> 0 <= (#[trigger] scan(ls).1[j]).line_number < ls.len(),
    decreases ls.len(),
{
    if ls.len() > 0 {
        lemma_scan_line_numbers(ls.drop_last());
        let (st, found) = scan(ls.drop_last());
        let more = scan_line(st, ls.last(), ls.len() - 1).1;
        assert forall|j: int| 0 <= j < scan(ls).1.len() implies 0 <= (#[trigger] scan(
            ls,
        ).1[j]).line_number < ls.len() by {
            if j < found.len() {
                assert(scan(ls).1[j] == found[j]);
            } else {
                assert(scan(ls).1[j] == more[j - found.len()]);
            }
        }
    }
}

/// Inserting a comment line anywhere among the lines of a compose file
/// changes nothing that the scan finds: the same services, with the same
/// names, images and lines, only the line numbers after the comment moved
/// down by one; and the scan ends in the same state.
pub proof fn comment_lines_do_not_change_the_services(ls: Seq<Seq<char>>, i: int, x: Seq<char>)
    requires
        0 <= i <= ls.len(),
        comment_line(x),
    ensures
        scan(ls.insert(i, x)) == (scan(ls).0, shifted(scan(ls).1, i)),
    decreases ls.len(),
{
    let l2 = ls.insert(i, x);
    if i == ls.len() {
        assert(l2.drop_last() =~= ls);
        assert(l2.last() == x);
        comment_lines_change_nothing(scan(ls).0, x, ls.len() as int);
        lemma_scan_line_numbers(ls);
        let found = scan(ls).1;
        assert(found + Seq::<ServiceImageView>::empty() =~= shifted(found, i)) by {
            assert forall|j: int| 0 <= j < found.len() implies #[trigger] shifted(found, i)[j]
                == found[j] by {
                assert(found[j].line_number < ls.len());
            }
        }
    } else {
        let p = ls.drop_last();
        assert(l2.drop_last() =~= p.insert(i, x));
        assert(l2.last() == ls.last());
        comment_lines_do_not_change_the_services(p, i, x);
        let (st, found) = scan(p);
        lemma_scan_line_index(st, ls.last(), ls.len() - 1);
        let more = scan_line(st, ls.last(), ls.len() - 1).1;
        assert(shifted(found + more, i) =~= shifted(found, i) + shifted(more, i));
        assert(shifted(more, i) =~= shifted(more, ls.len() - 1));
    }
}

pub proof fn lemma_quote_from(s: Seq<char>, i: int)
    requires
        0 <= i <= s.len(),
    ensures
        i <= quote_from(s, i) <= s.len(),
        forall|k: int| i <= k < quote_from(s, i) ==> !is_quote(#[trigger] s[k]),
        quote_from(s, i) < s.len() ==> is_quote(s[quote_from(s, i)]),
    decreases s.len() - i,
{
    if i < s.len() && !is_quote(s[i]) {
        lemma_quote_from(s, i + 1);
    }
}

pub proof fn lemma_plain_end(s: Seq<char>, i: int)
    requires
        0 <= i <= s.len(),
    ensures
        i <= plain_end(s, i) <= s.len(),
        forall|k: int| i <= k < plain_end(s, i) ==> !is_space(#[trigger] s[k]) && s[k] != '#',
        plain_end(s, i) < s.len() ==> (is_space(s[plain_end(s, i)]) || s[plain_end(s, i)]
            == '#'),
    decreases s.len() - i,
{
    if i < s.len() && !is_space(s[i]) && s[i] != '#' {
        lemma_plain_end(s, i + 1);
    }
}

/// The first quotation mark from `i` is at `r` when there is none in
/// between and `r` is the end or holds one.
pub proof fn lemma_quote_from_is(s: Seq<char>, i: int, r: int)
    requires
        0 <= i <= r <= s.len(),
        forall|k: int| i <= k < r ==> !is_quote(#[trigger] s[k]),
        r == s.len() || is_quote(s[r]),
    ensures
        quote_from(s, i) == r,
    decreases r - i,
{
    if i < r {
        lemma_quote_from_is(s, i + 1, r);
    }
}

/// A plain value from `i` ends at `r` when nothing in between is
/// whitespace or `#` and `r` is the end or holds one of them.
pub proof fn lemma_plain_end_is(s: Seq<char>, i: int, r: int)
    requires
        0 <= i <= r <= s.len(),
        forall|k: int| i <= k < r ==> !is_space(#[trigger] s[k]) && s[k] != '#',
        r == s.len() || is_space(s[r]) || s[r] == '#',
    ensures
        plain_end(s, i) == r,
    decreases r - i,
{
    if i < r {
        lemma_plain_end_is(s, i + 1, r);
    }
}

/// Whether what follows a value is acceptable depends on that text alone.
pub proof fn lemma_tail_ok_shift(x: Seq<char>, tail: Seq<char>)
    ensures
        tail_ok(x + tail, x.len() as int) == tail_ok(tail, 0),
{
    let s = x + tail;
    crate::text::lemma_space_run_end_shift(x, tail, 0);
    crate::text::lemma_space_run_end(tail, 0);
    let r = space_run_end(tail, 0);
    if r < tail.len() {
        assert(s[x.len() + r] == tail[r]);
        crate::text::lemma_newline_from_shift(x, tail, r);
    }
}

/// The first quotation mark in `cs` at or after `i`, or the length.
fn find_quote(cs: &Vec<char>, i: usize) -> (j: usize)
    requires
        i <= cs@.len(),
    ensures
        j == quote_from(cs@, i as int),
        i <= j <= cs@.len(),
{
    proof {
        lemma_quote_from(cs@, i as int);
    }
    let mut j = i;
    while j < cs.len() && cs[j] != '"' && cs[j] != '\''
        invariant
            i <= j <= cs@.len(),
            quote_from(cs@, j as int) == quote_from(cs@, i as int),
        decreases cs@.len() - j,
    {
        j = j + 1;
    }
    j
}

/// The first whitespace or `#` in `cs` at or after `i`, or the length.
fn find_plain_end(cs: &Vec<char>, i: usize) -> (j: usize)
    requires
        i <= cs@.len(),
    ensures
        j == plain_end(cs@, i as int),
        i <= j <= cs@.len(),
{
    proof {
        lemma_plain_end(cs@, i as int);
    }
    let mut j = i;
    while j < cs.len() && !char_is_space(cs[j]) && cs[j] != '#'
        invariant
            i <= j <= cs@.len(),
            plain_end(cs@, j as int) == plain_end(cs@, i as int),
        decreases cs@.len() - j,
    {
        j = j + 1;
    }
    j
}

/// Whether `cs` from `t` on is whitespace and an optional comment.
fn check_tail(cs: &Vec<char>, t: usize) -> (r: bool)
    requires
        t <= cs@.len(),
    ensures
        r == tail_ok(cs@, t as int),
{
    let w = space_end(cs, t);
    if w == cs.len() {
        return true;
    }
    if cs[w] != '#' {
        return false;
    }
    proof {
        lemma_newline_from(cs@, w as int);
    }
    let mut j = w;
    while j < cs.len() && cs[j] != '\n'
        invariant
            w <= j <= cs@.len(),
            newline_from(cs@, j as int) == newline_from(cs@, w as int),
        decreases cs@.len() - j,
    {
        j = j + 1;
    }
    j == cs.len()
}

/// Whether `cs` holds `image:` at `i`.
fn image_key_at(cs: &Vec<char>, i: usize) -> (r: bool)
    requires
        i <= cs@.len(),
    ensures
        r == occurs_at(cs@, image_key(), i as int),
{
    if cs.len() - i < 6 {
        return false;
    }
    let r = cs[i] == 'i' && cs[i + 1] == 'm' && cs[i + 2] == 'a' && cs[i + 3] == 'g' && cs[i
        + 4] == 'e' && cs[i + 5] == ':';
    assert(r == (cs@.subrange(i as int, i + 6) =~= image_key()));
    r
}

/// Matches an `image:` line: the end of its head, whether its value is
/// quoted, and the end of its value.
pub fn match_image_line(cs: &Vec<char>) -> (r: Option<(usize, bool, usize)>)
    ensures
        match r {
            Some((h, q, e)) => image_line(cs@) == Some(
                ImageLineView { head_end: h as int, quoted: q, value_end: e as int },
            ) && h <= e < cs@.len() + (if q {
                0int
            } else {
                1int
            }),
            None => image_line(cs@) is None,
        },
{
    let ghost s = cs@;
    let w = space_end(cs, 0);
    if !image_key_at(cs, w) {
        return None;
    }
    assert(w + 6 <= cs.len());
    let q = space_end(cs, w + 6);
    if q < cs.len() && (cs[q] == '"' || cs[q] == '\'') {
        let e1 = find_quote(cs, q + 1);
        if e1 < cs.len() && e1 > q + 1 && check_tail(cs, e1 + 1) {
            return Some((q, true, e1));
        }
    }
    let e2 = find_plain_end(cs, q);
    if e2 > q && check_tail(cs, e2) {
        proof {
            if q < s.len() && is_quote(s[q as int]) {
                lemma_quote_from(s, q + 1);
                lemma_plain_end(s, q as int);
            }
        }
        Some((q, false, e2))
    } else {
        None
    }
}

/// Whether `cs[from..to]` holds an `@`.
fn has_at_sign(cs: &Vec<char>, from: usize, to: usize) -> (r: bool)
    requires
        from <= to <= cs@.len(),
    ensures
        r == cs@.subrange(from as int, to as int).contains('@'),
{
    let ghost sub = cs@.subrange(from as int, to as int);
    let mut i = from;
    while i < to
        invariant
            from <= i <= to <= cs@.len(),
            sub == cs@.subrange(from as int, to as int),
            forall|k: int| from <= k < i ==> cs@[k] != '@',
        decreases to - i,
    {
        if cs[i] == '@' {
            assert(sub[i - from] == '@');
            return true;
        }
        i = i + 1;
    }
    assert forall|k: int| 0 <= k < sub.len() implies sub[k] != '@' by {
        assert(sub[k] == cs@[from + k]);
    }
    false
}

/// The image that a line names, if it names one.
fn extract_image_from_line(cs: &Vec<char>) -> (r: Option<ImageRef>)
    ensures
        match r {
            Some(i) => image_of_line(cs@) == Some(i@),
            None => image_of_line(cs@) is None,
        },
{
    let ghost s = cs@;
    let w = space_end(cs, 0);
    assert(starts_with(trim_start(s), image_key()) == occurs_at(s, image_key(), w as int)) by {
        lemma_space_run_end(s, 0);
        assert(trim_start(s) == s.skip(w as int));
        if w + 6 <= s.len() {
            assert(s.skip(w as int).subrange(0, 6) =~= s.subrange(w as int, w + 6));
        }
    }
    if !image_key_at(cs, w) {
        return None;
    }
    let m = match_image_line(cs);
    match m {
        None => None,
        Some((h, quoted, e)) => {
            let start = if quoted {
                h + 1
            } else {
                h
            };
            if has_at_sign(cs, start, e) {
                return None;
            }
            proof {
                lemma_trim_empty(s.subrange(start as int, e as int));
            }
            if is_blank(cs, start, e) {
                return None;
            }
            let value = string_of(cs, start, e);
            match ImageRef::parse(value.as_str()) {
                Ok(r) => Some(r),
                Err(_) => None,
            }
        },
    }
}

/// The scan state while reading lines.
struct ScanCursor {
    in_services: bool,
    current: Option<String>,
    service_indent: Option<u128>,
    child_indent: Option<u128>,
}

/// The view of an optional indentation.
spec fn indent_view(o: Option<u128>) -> Option<int> {
    match o {
        Some(i) => Some(i as int),
        None => None,
    }
}

impl ScanCursor {
    spec fn state(&self) -> ScanState {
        ScanState {
            in_services: self.in_services,
            current: match self.current {
                Some(n) => Some(n@),
                None => None,
            },
            service_indent: indent_view(self.service_indent),
            child_indent: indent_view(self.child_indent),
        }
    }
}

/// The services found, as a sequence.
spec fn found_view(o: Option<ServiceImage>) -> Seq<ServiceImageView> {
    match o {
        Some(x) => seq![x@],
        None => seq![],
    }
}

/// Whether `cs` holds `services:` at `i`.
fn services_key_at(cs: &Vec<char>, i: usize) -> (r: bool)
    requires
        i <= cs@.len(),
    ensures
        r == occurs_at(cs@, services_key(), i as int),
{
    if cs.len() - i < 9 {
        return false;
    }
    let r = cs[i] == 's' && cs[i + 1] == 'e' && cs[i + 2] == 'r' && cs[i + 3] == 'v' && cs[i
        + 4] == 'i' && cs[i + 5] == 'c' && cs[i + 6] == 'e' && cs[i + 7] == 's' && cs[i + 8]
        == ':';
    assert(r == (cs@.subrange(i as int, i + 9) =~= services_key()));
    r
}

/// Whether the key `cs[w..]` names a service; if so, where its name ends.
fn service_key_end(cs: &Vec<char>, w: usize) -> (r: Option<usize>)
    requires
        w < cs@.len(),
    ensures
        match r {
            Some(k) => service_key(cs@.skip(w as int)) && w <= k <= cs@.len() && trim_end_colons(
                cs@.skip(w as int),
            ) == cs@.subrange(w as int, k as int),
            None => !service_key(cs@.skip(w as int)),
        },
{
    let ghost t = cs@.skip(w as int);
    let n = cs.len();
    assert(t.last() == cs@[n - 1]);
    if cs[n - 1] != ':' {
        return None;
    }
    let mut i = w;
    while i < n
        invariant
            w <= i <= n == cs@.len(),
            t == cs@.skip(w as int),
            forall|j: int| w <= j < i ==> cs@[j] != ' ',
        decreases n - i,
    {
        if cs[i] == ' ' {
            assert(t[i - w] == ' ');
            return None;
        }
        i = i + 1;
    }
    assert(!t.contains(' ')) by {
        assert forall|j: int| 0 <= j < t.len() implies t[j] != ' ' by {
            assert(t[j] == cs@[w + j]);
        }
    }
    let mut k = n;
    assert(cs@.subrange(w as int, n as int) =~= t);
    while k > w && cs[k - 1] == ':'
        invariant
            w <= k <= n == cs@.len(),
            t == cs@.skip(w as int),
            trim_end_colons(cs@.subrange(w as int, k as int)) == trim_end_colons(t),
        decreases k,
    {
        assert(cs@.subrange(w as int, k as int).drop_last() =~= cs@.subrange(w as int, k - 1));
        k = k - 1;
    }
    assert(trim_end_colons(cs@.subrange(w as int, k as int)) == cs@.subrange(w as int, k as int));
    let ghost name = cs@.subrange(w as int, k as int);
    let mut j = w;
    while j < k
        invariant
            w <= j <= k <= n == cs@.len(),
            name == cs@.subrange(w as int, k as int),
            t == cs@.skip(w as int),
            trim_end_colons(t) == name,
            forall|m: int| w <= m < j ==> is_name_char(#[trigger] cs@[m]),
        decreases k - j,
    {
        let c = cs[j];
        if !(char_is_alphanumeric(c) || c == '_' || c == '-' || c == '.') {
            assert(!is_name_char(name[j - w]));
            return None;
        }
        j = j + 1;
    }
    assert forall|m: int| 0 <= m < name.len() implies is_name_char(#[trigger] name[m]) by {
        assert(name[m] == cs@[w + m]);
    }
    Some(k)
}

impl ScanCursor {
    /// Reads line number `idx`.
    fn read_line(&mut self, line: &Vec<char>, idx: usize) -> (found: Option<ServiceImage>)
        ensures
            (final(self).state(), found_view(found)) == scan_line(
                old(self).state(),
                line@,
                idx as int,
            ),
    {
        let ghost st = self.state();
        let ghost s = line@;
        let n = line.len();
        let w = space_end(line, 0);
        let indent = utf8_len_prefix(line, w);
        let ghost t = s.skip(w as int);
        assert(t.len() == n - w);
        if w == n || line[w] == '#' {
            return None;
        }
        assert(t[0] == line@[w as int]);
        let at_services = services_key_at(line, w);
        assert(starts_with(t, services_key()) == at_services) by {
            if w + 9 <= n {
                assert(t.subrange(0, 9) =~= s.subrange(w as int, w + 9));
            }
        }
        if indent == 0 && at_services {
            self.in_services = true;
            self.current = None;
            self.service_indent = None;
            self.child_indent = None;
            return None;
        }
        if self.in_services && indent == 0 {
            self.in_services = false;
            self.current = None;
            self.service_indent = None;
            self.child_indent = None;
            return None;
        }
        if !self.in_services {
            return None;
        }
        let indent_matches = match self.service_indent {
            None => true,
            Some(si) => si == indent,
        };
        if indent_matches {
            match service_key_end(line, w) {
                Some(k) => {
                    if k > w {
                        self.current = Some(string_of(line, w, k));
                        self.service_indent = Some(indent);
                        self.child_indent = None;
                    }
                    return None;
                },
                None => {},
            }
        }
        let deeper = match (&self.current, self.service_indent) {
            (Some(_), Some(si)) => indent > si,
            _ => false,
        };
        if !deeper {
            return None;
        }
        let ci = match self.child_indent {
            Some(c) => c,
            None => indent,
        };
        self.child_indent = Some(ci);
        if indent != ci {
            return None;
        }
        match extract_image_from_line(line) {
            None => None,
            Some(image_ref) => {
                let service_name = match &self.current {
                    Some(name) => name.clone(),
                    None => String::new(),
                };
                let original_line = string_of(line, 0, n);
                assert(s.subrange(0, n as int) =~= s);
                Some(
                    ServiceImage {
                        service_name,
                        image_ref,
                        original_line,
                        line_number: idx,
                    },
                )
            },
        }
    }
}

impl ComposeParser {
    /// A parser.
    pub fn new() -> (p: Self) {
        ComposeParser
    }

    /// The services of a compose file's text and the lines naming their
    /// images, in order.
    fn extract_services(&self, content: &str) -> (r: Vec<ServiceImage>)
        ensures
            services_view(r@) == services_of(content@),
    {
        let cs = chars_of(content);
        let spans = line_spans(&cs);
        let ghost ls = lines(cs@);
        let mut services: Vec<ServiceImage> = Vec::new();
        let mut cursor = ScanCursor {
            in_services: false,
            current: None,
            service_indent: None,
            child_indent: None,
        };
        let mut k: usize = 0;
        assert(ls.take(0) =~= Seq::<Seq<char>>::empty());
        while k < spans.len()
            invariant
                k <= spans@.len() == ls.len(),
                ls == lines(cs@),
                forall|j: int|
                    0 <= j < spans@.len() ==> {
                        let (a, b) = #[trigger] spans@[j];
                        a <= b <= cs@.len() && cs@.subrange(a as int, b as int) == ls[j]
                    },
                scan(ls.take(k as int)) == (cursor.state(), services_view(services@)),
            decreases spans@.len() - k,
        {
            let (a, b) = spans[k];
            let line = slice_chars(&cs, a, b);
            assert(line@ == ls[k as int]);
            assert(ls.take(k + 1).drop_last() =~= ls.take(k as int));
            assert(ls.take(k + 1).last() == ls[k as int]);
            let ghost before = services_view(services@);
            let found = cursor.read_line(&line, k);
            match found {
                Some(x) => {
                    services.push(x);
                    assert(services_view(services@) =~= before + found_view(Some(x)));
                },
                None => {
                    assert(before + found_view(None) =~= before);
                },
            }
            k = k + 1;
        }
        assert(ls.take(spans@.len() as int) =~= ls);
        services
    }

    /// Reads the text of a compose file (the part of reading a file that
    /// follows loading its content).
    pub fn parse_content(&self, content: String) -> (r: ComposeFile)
        ensures
            r.content@ == content@,
            services_view(r.services@) == services_of(content@),
    {
        let services = self.extract_services(content.as_str());
        ComposeFile { content, services }
    }
}

impl Default for ComposeParser {
    fn default() -> (p: Self) {
        ComposeParser
    }
}

} // verus!
