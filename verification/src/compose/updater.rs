//! Deciding which images of a Docker Compose file move, and rewriting them.
use vstd::prelude::*;
use crate::compose::parser::{
    image_key, image_line, image_of_line, is_quote, lemma_plain_end, lemma_plain_end_is, lemma_quote_from,
    lemma_quote_from_is, lemma_tail_ok_shift, ImageLineView, scan, scan_line, match_image_line, services_of, services_view, tail_start, ComposeFile,
    ComposeParser, ServiceImage, ServiceImageView,
};
use crate::config::{Config, UpdateStrategy};
use crate::text::{
    chars_of, contains_seq, ends_with_cr, lemma_lines_from_shape, lemma_lines_from_shift,
    is_space, lemma_space_run_end, lemma_space_run_end_is, lemma_trim_empty, line_spans, lines,
    lines_from, newline_from, occurs_at, push_char, push_chars, slice_chars, space_run_end,
    starts_with,
};
use crate::registry::{image_ref_of, image_ref_string, ImageRef, ImageRefView};
use crate::strategy::{
    has_affixes, create_selector, infos_view, latest_selection, latest_selects_highest_matching,
    previous_line_selection, previous_line_selects_highest_below_newest_line, VersionSelector,
};
use crate::version::{
    clone_opt_string, line_lt, opt_view, parse_version_tag, tag_version, version_le, version_lt, Version,
    VersionInfo, VersionInfoView,
};

verus! {

/// The entry a strategy selects.
pub open spec fn strategy_selection(
    strategy: UpdateStrategy,
    available: Seq<VersionInfoView>,
    prefix: Option<Seq<char>>,
    suffix: Option<Seq<char>>,
) -> Option<VersionInfoView> {
    match strategy {
        UpdateStrategy::Latest => latest_selection(available, prefix, suffix),
        UpdateStrategy::LatestPatchOfPreviousMinor => previous_line_selection(
            available,
            prefix,
            suffix,
        ),
    }
}

/// The image string that `image` moves to, if any: the strategy's target
/// among the available tags with the current prefix and suffix, provided it
/// is strictly higher than the current version; the reference keeps its
/// registry, namespace and name and takes the target's tag.
pub open spec fn new_tag_choice(
    image: ImageRefView,
    current: Version,
    available: Seq<VersionInfoView>,
    prefix: Option<Seq<char>>,
    suffix: Option<Seq<char>>,
    strategy: UpdateStrategy,
) -> Option<Seq<char>> {
    match strategy_selection(strategy, available, prefix, suffix) {
        None => None,
        Some(target) => if version_le(target.version, current) {
            None
        } else {
            Some(image_ref_string(ImageRefView { tag: target.original, ..image }))
        },
    }
}

/// A copy of an image reference.
pub fn copy_image_ref(r: &ImageRef) -> (c: ImageRef)
    ensures
        c@ == r@,
{
    ImageRef {
        registry: r.registry.clone(),
        namespace: clone_opt_string(&r.namespace),
        name: r.name.clone(),
        tag: r.tag.clone(),
    }
}

/// Chooses the new image string for `image_ref`, or `None` when no suitable
/// upgrade exists. The selected version shares the current tag's prefix and
/// suffix and is strictly higher than `current_version`, which prevents both
/// downgrades and rewrites to the same version.
pub fn choose_new_tag(
    image_ref: &ImageRef,
    current_version: &Version,
    available_versions: &[VersionInfo],
    current_prefix: Option<String>,
    current_suffix: Option<String>,
    strategy: &UpdateStrategy,
) -> (r: Option<String>)
    ensures
        match r {
            Some(s) => new_tag_choice(
                image_ref@,
                *current_version,
                infos_view(available_versions@),
                opt_view(current_prefix),
                opt_view(current_suffix),
                *strategy,
            ) == Some(s@),
            None => new_tag_choice(
                image_ref@,
                *current_version,
                infos_view(available_versions@),
                opt_view(current_prefix),
                opt_view(current_suffix),
                *strategy,
            ) is None,
        },
{
    let selector = create_selector(strategy);
    let target = match selector.select_target_version(
        available_versions,
        current_prefix,
        current_suffix,
    ) {
        Some(t) => t,
        None => {
            return None;
        },
    };
    if !current_version.is_lower_than(&target.version) {
        return None;
    }
    let mut new_image_ref = copy_image_ref(image_ref);
    new_image_ref.tag = target.original;
    let s = new_image_ref.to_string();
    assert(new_image_ref@ == ImageRefView { tag: target@.original, ..image_ref@ });
    Some(s)
}

/// The image a service moves to is the configured strategy's own target
/// (the highest matching entry under `Latest`, the highest matching entry
/// below the newest release line under `LatestPatchOfPreviousMinor`), and
/// only when that target is strictly above the current version: no other
/// tag is ever chosen in its place, so the conservative strategy never moves
/// an image onto the newest release line.
pub proof fn chosen_tag_is_the_strategys_target(
    image: ImageRefView,
    current: Version,
    available: Seq<VersionInfoView>,
    prefix: Option<Seq<char>>,
    suffix: Option<Seq<char>>,
    strategy: UpdateStrategy,
)
    ensures
        ({
            let target = if strategy == UpdateStrategy::Latest {
                latest_selection(available, prefix, suffix)
            } else {
                previous_line_selection(available, prefix, suffix)
            };
            match new_tag_choice(image, current, available, prefix, suffix, strategy) {
                Some(s) => target matches Some(t) && version_lt(current, t.version) && s
                    == image_ref_string(ImageRefView { tag: t.original, ..image }),
                None => target matches Some(t) ==> version_le(t.version, current),
            }
        }),
        strategy == UpdateStrategy::LatestPatchOfPreviousMinor && new_tag_choice(
            image,
            current,
            available,
            prefix,
            suffix,
            strategy,
        ) is Some ==> exists|t: VersionInfoView, u: VersionInfoView|
            #![trigger available.contains(t), available.contains(u)]
            available.contains(t) && has_affixes(t, prefix, suffix) && available.contains(u)
                && has_affixes(u, prefix, suffix) && line_lt(t.version, u.version)
                && new_tag_choice(image, current, available, prefix, suffix, strategy) == Some(
                image_ref_string(ImageRefView { tag: t.original, ..image }),
            ),
{
    previous_line_selects_highest_below_newest_line(available, prefix, suffix);
    if strategy == UpdateStrategy::LatestPatchOfPreviousMinor {
        if let Some(t) = previous_line_selection(available, prefix, suffix) {
            let u = choose|u: VersionInfoView|
                available.contains(u) && has_affixes(u, prefix, suffix) && line_lt(t.version, u.version);
            assert(available.contains(t) && available.contains(u));
        }
    }
}

/// The line `line` with its image value replaced by `new_image`: the
/// indentation, `image:` and the spacing after it are kept, and so is what
/// follows the value (spacing and comment); a quoted value stays quoted, in
/// double quotes. `None` when `line` is not an `image:` line.
pub open spec fn new_image_line(line: Seq<char>, new_image: Seq<char>) -> Option<Seq<char>> {
    match image_line(line) {
        None => None,
        Some(m) => Some(
            line.take(m.head_end) + (if m.quoted {
                seq!['"'] + new_image + seq!['"']
            } else {
                new_image
            }) + line.skip(tail_start(m)),
        ),
    }
}

/// Lines joined with `'\n'` between them.
pub open spec fn join_lines(ls: Seq<Seq<char>>) -> Seq<char>
    decreases ls.len(),
{
    if ls.len() == 0 {
        seq![]
    } else if ls.len() == 1 {
        ls[0]
    } else {
        join_lines(ls.drop_last()) + seq!['\n'] + ls.last()
    }
}

/// `content` with the line of `service` rewritten to name `new_image`: the
/// lines of `content` joined by `'\n'`, with a final `'\n'` when `content`
/// ends with one. `None` when the service's line is not an `image:` line or
/// no longer stands at its line number in `content`.
pub open spec fn replaced_content(
    content: Seq<char>,
    service: ServiceImageView,
    new_image: Seq<char>,
) -> Option<Seq<char>> {
    match new_image_line(service.original_line, new_image) {
        None => None,
        Some(nl) => {
            let ls = lines(content);
            if 0 <= service.line_number < ls.len() && ls[service.line_number]
                == service.original_line {
                Some(
                    join_lines(ls.update(service.line_number, nl)) + if content.len() > 0
                        && content.last() == '\n' {
                        seq!['\n']
                    } else {
                        seq![]
                    },
                )
            } else {
                None
            }
        },
    }
}

/// Why an image could not be rewritten.
#[derive(Debug)]
pub enum ReplaceError {
    /// The service's line is not an `image:` line.
    UnparsableLine(String),
    /// The service's line no longer stands at its line number.
    LineMismatch { service_name: String, line_number: usize },
}

/// The outcome of an update run.
#[derive(Debug)]
pub struct UpdateReport {
    /// How many compose files were found.
    pub files_found: usize,
    /// The files whose images were updated.
    pub updated_files: Vec<String>,
    /// What went wrong with single services or files; the run goes on past
    /// them.
    pub errors: Vec<String>,
}

/// Rewrites the images of compose files.
pub struct ComposeUpdater {
    pub config: Config,
    pub parser: ComposeParser,
}

impl ComposeUpdater {
    /// An updater for `config`.
    pub fn new(config: Config) -> (u: Self)
        ensures
            u.config@ == config@,
    {
        ComposeUpdater { config, parser: ComposeParser::new() }
    }

    /// Reads the text of a compose file into its services.
    pub fn parse_compose_file(&self, content: String) -> (r: ComposeFile)
        ensures
            r.content@ == content@,
            services_view(r.services@) == services_of(content@),
    {
        self.parser.parse_content(content)
    }

    /// Rewrites the image on the line of `service` in `content` to
    /// `new_image`, keeping comments, spacing and quoting, and every other
    /// line as it was.
    pub fn replace_image_in_content(
        &self,
        content: &str,
        service: &ServiceImage,
        new_image: &str,
    ) -> (r: Result<String, ReplaceError>)
        ensures
            match r {
                Ok(s) => replaced_content(content@, service@, new_image@) == Some(s@),
                Err(ReplaceError::UnparsableLine(_)) => new_image_line(
                    service@.original_line,
                    new_image@,
                ) is None,
                Err(ReplaceError::LineMismatch { .. }) => new_image_line(
                    service@.original_line,
                    new_image@,
                ) is Some && replaced_content(content@, service@, new_image@) is None,
            },
    {
        let line = chars_of(service.original_line.as_str());
        let (head_end, quoted, value_end) = match match_image_line(&line) {
            Some(m) => m,
            None => {
                return Err(ReplaceError::UnparsableLine(service.original_line.clone()));
            },
        };
        let ghost m = image_line(line@)->0;
        let new_cs = chars_of(new_image);
        let mut new_line: Vec<char> = Vec::new();
        let mut k: usize = 0;
        while k < head_end
            invariant
                k <= head_end <= line@.len(),
                new_line@ == line@.take(k as int),
            decreases head_end - k,
        {
            new_line.push(line[k]);
            assert(line@.take(k + 1) == line@.take(k as int).push(line@[k as int]));
            k = k + 1;
        }
        let ghost head = new_line@;
        if quoted {
            new_line.push('"');
        }
        let mut k: usize = 0;
        let ghost before = new_line@;
        while k < new_cs.len()
            invariant
                k <= new_cs@.len(),
                new_line@ == before + new_cs@.take(k as int),
            decreases new_cs@.len() - k,
        {
            new_line.push(new_cs[k]);
            assert(new_cs@.take(k + 1) == new_cs@.take(k as int).push(new_cs@[k as int]));
            k = k + 1;
        }
        assert(new_cs@.take(new_cs@.len() as int) =~= new_cs@);
        if quoted {
            new_line.push('"');
        }
        let ts = if quoted {
            assert(value_end < line@.len());
            value_end + 1
        } else {
            value_end
        };
        let ghost before2 = new_line@;
        let mut k: usize = ts;
        while k < line.len()
            invariant
                ts <= k <= line@.len(),
                new_line@ == before2 + line@.subrange(ts as int, k as int),
            decreases line@.len() - k,
        {
            new_line.push(line[k]);
            assert(line@.subrange(ts as int, k + 1) == line@.subrange(ts as int, k as int).push(
                line@[k as int],
            ));
            k = k + 1;
        }
        assert(line@.skip(ts as int) =~= line@.subrange(ts as int, line@.len() as int));
        assert(new_line@ =~= new_image_line(line@, new_cs@)->0);
        let cs = chars_of(content);
        let spans = line_spans(&cs);
        let ghost ls = lines(cs@);
        let n = service.line_number;
        if n >= spans.len() {
            return Err(
                ReplaceError::LineMismatch {
                    service_name: service.service_name.clone(),
                    line_number: n,
                },
            );
        }
        let (a, b) = spans[n];
        if !crate::text::range_eq(&cs, a, b, &line) {
            return Err(
                ReplaceError::LineMismatch {
                    service_name: service.service_name.clone(),
                    line_number: n,
                },
            );
        }
        let ghost upd = ls.update(n as int, new_line@);
        let mut out = String::new();
        let mut j: usize = 0;
        assert(upd.take(0) =~= Seq::<Seq<char>>::empty());
        while j < spans.len()
            invariant
                j <= spans@.len() == ls.len() == upd.len(),
                ls == lines(cs@),
                upd == ls.update(n as int, new_line@),
                n < spans@.len(),
                forall|k: int|
                    0 <= k < spans@.len() ==> {
                        let (a, b) = #[trigger] spans@[k];
                        a <= b <= cs@.len() && cs@.subrange(a as int, b as int) == ls[k]
                    },
                out@ == join_lines(upd.take(j as int)),
            decreases spans@.len() - j,
        {
            let ghost prev = upd.take(j as int);
            assert(upd.take(j + 1).drop_last() =~= prev);
            assert(upd.take(j + 1).last() == upd[j as int]);
            if j > 0 {
                push_char(&mut out, '\n');
            }
            if j == n {
                let mut k: usize = 0;
                let ghost base = out@;
                while k < new_line.len()
                    invariant
                        k <= new_line@.len(),
                        out@ == base + new_line@.take(k as int),
                    decreases new_line@.len() - k,
                {
                    push_char(&mut out, new_line[k]);
                    assert(new_line@.take(k + 1) == new_line@.take(k as int).push(
                        new_line@[k as int],
                    ));
                    k = k + 1;
                }
                assert(new_line@.take(new_line@.len() as int) =~= new_line@);
            } else {
                let (a2, b2) = spans[j];
                push_chars(&mut out, &cs, a2, b2);
            }
            assert(out@ =~= join_lines(upd.take(j + 1)));
            j = j + 1;
        }
        assert(upd.take(spans@.len() as int) =~= upd);
        let ends_nl = cs.len() > 0 && cs[cs.len() - 1] == '\n';
        if ends_nl {
            push_char(&mut out, '\n');
        }
        proof {
            if ends_nl {
                assert(out@ =~= join_lines(upd) + seq!['\n']);
            } else {
                assert(out@ =~= join_lines(upd) + Seq::<char>::empty());
            }
        }
        Ok(out)
    }
}

/// Every service image found on the lines `ls` comes from the line its
/// number points at, and that line is an `image:` line.
proof fn lemma_scan_found(ls: Seq<Seq<char>>)
    ensures
        forall|j: int|
            0 <= j < scan(ls).1.len() ==> {
                let f = #[trigger] scan(ls).1[j];
                &&& 0 <= f.line_number < ls.len()
                &&& ls[f.line_number] == f.original_line
                &&& image_line(f.original_line) is Some
            },
    decreases ls.len(),
{
    if ls.len() > 0 {
        let p = ls.drop_last();
        lemma_scan_found(p);
        let (st, found) = scan(p);
        let (st2, more) = scan_line(st, ls.last(), ls.len() - 1);
        assert(scan(ls).1 == found + more);
        assert forall|j: int| 0 <= j < scan(ls).1.len() implies {
            let f = #[trigger] scan(ls).1[j];
            &&& 0 <= f.line_number < ls.len()
            &&& ls[f.line_number] == f.original_line
            &&& image_line(f.original_line) is Some
        } by {
            if j < found.len() {
                assert(scan(ls).1[j] == found[j]);
                assert(ls[found[j].line_number] == p[found[j].line_number]);
            } else {
                assert(more.len() == 1);
                assert(scan(ls).1[j] == more[0]);
                assert(image_of_line(ls.last()) is Some);
            }
        }
    }
}

/// Every service found in a compose file's text can have its image rewritten
/// in that text: its line is an `image:` line and stands at its line number.
pub proof fn parsed_services_can_be_rewritten(
    content: Seq<char>,
    i: int,
    new_image: Seq<char>,
)
    requires
        0 <= i < services_of(content).len(),
    ensures
        replaced_content(content, services_of(content)[i], new_image) is Some,
{
    lemma_scan_found(lines(content));
}

/// A chosen tag is an upgrade within the same variant: some available entry
/// with the current prefix and suffix has a version strictly above the
/// current one, and the new image string is the old reference with that
/// entry's tag.
pub proof fn chosen_tag_is_an_upgrade(
    image: ImageRefView,
    current: Version,
    available: Seq<VersionInfoView>,
    prefix: Option<Seq<char>>,
    suffix: Option<Seq<char>>,
    strategy: UpdateStrategy,
)
    ensures
        new_tag_choice(image, current, available, prefix, suffix, strategy) matches Some(s) ==> exists|
            t: VersionInfoView,
        |
            #![trigger available.contains(t)]
            available.contains(t) && t.prefix == prefix && t.suffix == suffix && version_lt(
                current,
                t.version,
            ) && s == image_ref_string(ImageRefView { tag: t.original, ..image }),
{
    latest_selects_highest_matching(available, prefix, suffix);
    previous_line_selects_highest_below_newest_line(available, prefix, suffix);
    if let Some(t) = strategy_selection(strategy, available, prefix, suffix) {
        assert(available.contains(t));
    }
}

/// A line joined with `'\n'` to more lines comes first in the joined text.
proof fn lemma_join_lines_front(ls: Seq<Seq<char>>)
    requires
        ls.len() >= 2,
    ensures
        join_lines(ls) == ls[0] + seq!['\n'] + join_lines(ls.drop_first()),
    decreases ls.len(),
{
    let nl = seq!['\n'];
    if ls.len() > 2 {
        let a = ls.drop_last();
        let b = ls.drop_first();
        lemma_join_lines_front(a);
        assert(a.drop_first() =~= b.drop_last());
        assert(a[0] == ls[0]);
        assert(b.last() == ls.last());
        assert(join_lines(ls) == join_lines(a) + nl + ls.last());
        assert(join_lines(b) == join_lines(b.drop_last()) + nl + b.last());
        assert(join_lines(a) == ls[0] + nl + join_lines(b.drop_last()));
        assert(join_lines(ls) =~= ls[0] + nl + join_lines(b));
    } else {
        let a = ls.drop_last();
        let b = ls.drop_first();
        assert(a =~= seq![ls[0]]);
        assert(b =~= seq![ls[1]]);
        assert(join_lines(a) == ls[0]);
        assert(join_lines(b) == ls[1]);
        assert(join_lines(ls) == join_lines(a) + nl + ls.last());
    }
}

/// A `'\n'`-free stretch is skipped when looking for the next `'\n'`.
proof fn lemma_newline_skip(s: Seq<char>, i: int, j: int)
    requires
        0 <= i <= j <= s.len(),
        forall|k: int| i <= k < j ==> s[k] != '\n',
    ensures
        newline_from(s, i) == newline_from(s, j),
    decreases j - i,
{
    if i < j {
        lemma_newline_skip(s, i + 1, j);
    }
}

/// Lines joined with `'\n'` (and a final `'\n'` when `trailing`) read back
/// as the same lines, provided no line holds a `'\n'`, no line followed by
/// a `'\n'` ends with a carriage return, and the text does not end with an
/// empty line that the reading would drop.
proof fn lemma_lines_of_join(ls: Seq<Seq<char>>, trailing: bool)
    requires
        forall|k: int| 0 <= k < ls.len() ==> !(#[trigger] ls[k]).contains('\n'),
        forall|k: int|
            0 <= k < ls.len() && (k < ls.len() - 1 || trailing) ==> !ends_with_cr(#[trigger] ls[k]),
        trailing ==> ls.len() > 0,
        !trailing && ls.len() > 0 ==> ls.last().len() > 0,
    ensures
        lines(join_lines(ls) + if trailing {
            seq!['\n']
        } else {
            seq![]
        }) == ls,
    decreases ls.len(),
{
    let t: Seq<char> = if trailing {
        seq!['\n']
    } else {
        seq![]
    };
    let s = join_lines(ls) + t;
    if ls.len() == 0 {
        assert(s =~= Seq::<char>::empty());
        assert(lines(s) =~= ls);
    } else {
        let l0 = ls[0];
        assert forall|k: int| 0 <= k < l0.len() implies l0[k] != '\n' by {
            if l0[k] == '\n' {
                assert(l0.contains('\n'));
            }
        }
        if ls.len() == 1 {
            assert(s =~= l0 + t);
            assert forall|k: int| 0 <= k < l0.len() implies s[k] != '\n' by {
                assert(s[k] == l0[k]);
            }
            lemma_newline_skip(s, 0, l0.len() as int);
            if trailing {
                assert(s[l0.len() as int] == '\n');
                assert(newline_from(s, 0) == l0.len());
                assert(s.subrange(0, l0.len() as int) =~= l0);
                assert(lines_from(s, l0.len() + 1int) =~= Seq::<Seq<char>>::empty());
                assert(lines(s) =~= ls);
            } else {
                assert(newline_from(s, 0) == s.len());
                assert(s.subrange(0, s.len() as int) =~= l0);
                assert(lines(s) =~= ls);
            }
        } else {
            lemma_join_lines_front(ls);
            let rest = ls.drop_first();
            let b = join_lines(rest) + t;
            let p = l0 + seq!['\n'];
            assert(s =~= p + b);
            assert forall|k: int| 0 <= k < l0.len() implies s[k] != '\n' by {
                assert(s[k] == l0[k]);
            }
            lemma_newline_skip(s, 0, l0.len() as int);
            assert(s[l0.len() as int] == '\n');
            assert(newline_from(s, 0) == l0.len());
            assert(s.subrange(0, l0.len() as int) =~= l0);
            assert(!ends_with_cr(ls[0]));
            lemma_lines_from_shift(p, b, 0);
            assert forall|k: int| 0 <= k < rest.len() implies !(#[trigger] rest[k]).contains('\n') by {
                assert(rest[k] == ls[k + 1]);
            }
            assert forall|k: int|
                0 <= k < rest.len() && (k < rest.len() - 1 || trailing) implies !ends_with_cr(
                #[trigger] rest[k],
            ) by {
                assert(rest[k] == ls[k + 1]);
            }
            lemma_lines_of_join(rest, trailing);
            assert(lines(s) == seq![l0] + rest);
            assert(lines(s) =~= ls);
        }
    }
}

/// The value of a matched `image:` line lies within it, after `image:`.
proof fn lemma_image_line_bounds(line: Seq<char>)
    requires
        image_line(line) is Some,
    ensures
        6 <= image_line(line)->0.head_end <= tail_start(image_line(line)->0) <= line.len(),
{
    let w = space_run_end(line, 0);
    lemma_space_run_end(line, 0);
    lemma_space_run_end(line, w + 6);
    let q = space_run_end(line, w + 6);
    if q < line.len() {
        lemma_quote_from(line, q + 1);
    }
    lemma_plain_end(line, q);
}

/// Rewriting a service's image keeps the text's other lines as they were and
/// changes that line only where the image stands: the rewritten text reads
/// as the original lines with the service's line replaced. (A line that
/// keeps a carriage return before its `'\n'`, or a new image that holds a
/// line break, would read differently.)
pub proof fn rewriting_changes_only_the_image_line(
    content: Seq<char>,
    service: ServiceImageView,
    new_image: Seq<char>,
)
    requires
        replaced_content(content, service, new_image) is Some,
        !new_image.contains('\n'),
        forall|k: int|
            0 <= k < lines(content).len() && k != service.line_number && (k < lines(content).len()
                - 1 || content.last() == '\n') ==> !ends_with_cr(#[trigger] lines(content)[k]),
        service.line_number < lines(content).len() - 1 || content.last() == '\n'
            ==> !ends_with_cr(new_image_line(service.original_line, new_image)->0),
    ensures
        lines(replaced_content(content, service, new_image)->0) == lines(content).update(
            service.line_number,
            new_image_line(service.original_line, new_image)->0,
        ),
{
    let ls = lines(content);
    let n = service.line_number;
    let line = service.original_line;
    let nl = new_image_line(line, new_image)->0;
    let m = image_line(line)->0;
    lemma_lines_from_shape(content, 0);
    lemma_image_line_bounds(line);
    let trailing = content.len() > 0 && content.last() == '\n';
    let upd = ls.update(n, nl);
    assert(!line.contains('\n')) by {
        assert(ls[n] == line);
    }
    let head = line.take(m.head_end);
    let mid: Seq<char> = if m.quoted {
        seq!['"'] + new_image + seq!['"']
    } else {
        new_image
    };
    let tail = line.skip(tail_start(m));
    assert(nl == head + mid + tail);
    assert(!nl.contains('\n')) by {
        if nl.contains('\n') {
            let k = choose|k: int| 0 <= k < nl.len() && nl[k] == '\n';
            if k < head.len() {
                assert(nl[k] == line[k]);
                assert(line.contains('\n'));
            } else if k < head.len() + mid.len() {
                let k2 = k - head.len();
                assert(nl[k] == mid[k2]);
                if m.quoted {
                    if 1 <= k2 < mid.len() - 1 {
                        assert(mid[k2] == new_image[k2 - 1]);
                        assert(new_image.contains('\n'));
                    }
                } else {
                    assert(new_image.contains('\n'));
                }
            } else {
                let k3 = k - head.len() - mid.len();
                assert(nl[k] == tail[k3]);
                assert(tail[k3] == line[tail_start(m) + k3]);
                assert(line.contains('\n'));
            }
        }
    }
    assert(nl.len() >= 6);
    assert forall|k: int| 0 <= k < upd.len() implies !(#[trigger] upd[k]).contains('\n') by {
        if k != n {
            assert(upd[k] == ls[k]);
        }
    }
    assert forall|k: int| 0 <= k < upd.len() && (k < upd.len() - 1 || trailing) implies !ends_with_cr(
        #[trigger] upd[k],
    ) by {
        if k != n {
            assert(upd[k] == ls[k]);
        }
    }
    if !trailing && upd.len() > 0 {
        if upd.len() - 1 != n {
            assert(upd.last() == ls.last());
            assert(content.len() > 0);
        }
    }
    lemma_lines_of_join(upd, trailing);
}

/// An image string as registries write them: not empty, without
/// whitespace, `#`, quotation marks or `@`.
pub open spec fn plain_image(img: Seq<char>) -> bool {
    &&& img.len() > 0
    &&& forall|k: int|
        0 <= k < img.len() ==> !is_space(#[trigger] img[k]) && img[k] != '#' && !is_quote(img[k])
            && img[k] != '@'
}

/// An `image:` line rewritten to a plain image string names that image when
/// it is read again.
pub proof fn rewritten_line_names_the_new_image(line: Seq<char>, new_image: Seq<char>)
    requires
        image_line(line) is Some,
        plain_image(new_image),
    ensures
        image_of_line(new_image_line(line, new_image)->0) == Some(image_ref_of(new_image)),
{
    let m = image_line(line)->0;
    let w = space_run_end(line, 0);
    let q = m.head_end;
    let ts = tail_start(m);
    lemma_image_line_bounds(line);
    lemma_space_run_end(line, 0);
    lemma_space_run_end(line, w + 6);
    let head = line.take(q);
    let mid: Seq<char> = if m.quoted {
        seq!['"'] + new_image + seq!['"']
    } else {
        new_image
    };
    let tail = line.skip(ts);
    let nl = new_image_line(line, new_image)->0;
    assert(nl == head + mid + tail);
    let a = head + mid;
    assert(nl =~= a + tail);
    assert(q < line.len()) by {
        if !m.quoted {
            lemma_plain_end(line, q);
        }
    }
    assert forall|k: int| 0 <= k < q implies nl[k] == line[k] by {
        assert(nl[k] == head[k]);
    }
    assert(!is_space(nl[q])) by {
        assert(nl[q] == mid[0]);
        if !m.quoted {
            assert(mid[0] == new_image[0]);
        }
    }
    // The head reads as before.
    assert forall|k: int| 0 <= k < w implies is_space(#[trigger] nl[k]) by {
        assert(nl[k] == line[k]);
    }
    assert(nl[w] == line[w]);
    lemma_space_run_end_is(nl, 0, w);
    assert forall|k: int| w <= k < w + 6 implies #[trigger] nl[k] == line[k] by {}
    assert(nl.subrange(w, w + 6) =~= line.subrange(w, w + 6));
    assert(occurs_at(nl, image_key(), w));
    assert(crate::text::trim_start(nl) == nl.skip(w));
    assert(nl.skip(w).subrange(0, 6) =~= nl.subrange(w, w + 6));
    assert(starts_with(crate::text::trim_start(nl), image_key()));
    assert forall|k: int| w + 6 <= k < q implies is_space(#[trigger] nl[k]) by {
        assert(nl[k] == line[k]);
    }
    lemma_space_run_end_is(nl, w + 6, q);
    let n = new_image.len() as int;
    assert(!crate::text::all_space(new_image)) by {
        assert(!is_space(new_image[0]));
    }
    lemma_trim_empty(new_image);
    assert(!new_image.contains('@')) by {
        if new_image.contains('@') {
            let k = choose|k: int| 0 <= k < new_image.len() && new_image[k] == '@';
            assert(new_image[k] != '@');
        }
    }
    lemma_tail_ok_shift(a, tail);
    if m.quoted {
        lemma_tail_ok_shift(line.take(ts), tail);
        assert(line.take(ts) + tail =~= line);
        assert(is_quote(nl[q]));
        assert forall|k: int| q + 1 <= k < q + 1 + n implies !is_quote(#[trigger] nl[k]) by {
            assert(nl[k] == mid[k - q]);
            assert(mid[k - q] == new_image[k - q - 1]);
        }
        assert(nl[q + 1 + n] == mid[n + 1]);
        lemma_quote_from_is(nl, q + 1, q + 1 + n);
        assert(a.len() == q + 1 + n + 1);
        assert(image_line(nl) == Some(ImageLineView { head_end: q, quoted: true, value_end: q + 1 + n }));
        assert(nl.subrange(q + 1, q + 1 + n) =~= new_image) by {
            assert forall|k: int| 0 <= k < n implies #[trigger] nl[q + 1 + k] == new_image[k] by {
                assert(nl[q + 1 + k] == mid[k + 1]);
            }
        }
    } else {
        lemma_tail_ok_shift(line.take(ts), tail);
        assert(line.take(ts) + tail =~= line);
        assert(!is_quote(nl[q])) by {
            assert(nl[q] == new_image[0]);
        }
        assert forall|k: int| q <= k < q + n implies !is_space(#[trigger] nl[k]) && nl[k] != '#' by {
            assert(nl[k] == mid[k - q]);
        }
        lemma_plain_end(line, q);
        if q + n < nl.len() {
            assert(nl[q + n] == tail[0]);
            assert(tail[0] == line[ts]);
        }
        lemma_plain_end_is(nl, q, q + n);
        assert(a.len() == q + n);
        assert(image_line(nl) == Some(ImageLineView { head_end: q, quoted: false, value_end: q + n }));
        assert(nl.subrange(q, q + n) =~= new_image) by {
            assert forall|k: int| 0 <= k < n implies #[trigger] nl[q + k] == new_image[k] by {
                assert(nl[q + k] == mid[k]);
            }
        }
    }
}

/// The state of one compose file while its services are updated.
#[derive(Debug)]
pub struct FileUpdate {
    /// The text as rewritten so far.
    pub content: String,
    /// Whether any image was rewritten.
    pub updated: bool,
    /// What went wrong with single services.
    pub errors: Vec<String>,
}

/// `.yml`
pub open spec fn yml() -> Seq<char> {
    seq!['.', 'y', 'm', 'l']
}

/// `.yaml`
pub open spec fn yaml() -> Seq<char> {
    seq!['.', 'y', 'a', 'm', 'l']
}

/// Whether `s` ends with `suffix`.
fn ends_with_str(s: &str, suffix: &str) -> (r: bool)
    ensures
        r == crate::text::ends_with(s@, suffix@),
{
    let cs = chars_of(s);
    let ps = chars_of(suffix);
    if ps.len() > cs.len() {
        return false;
    }
    crate::text::matches_at(&cs, &ps, cs.len() - ps.len())
}

/// The image that `service` moves to when `available` lists the registry's
/// tags: none for a tag without a version or an empty list, otherwise the
/// strategy's choice.
pub open spec fn next_image_choice(
    config: crate::config::ConfigView,
    service: ServiceImageView,
    available: Seq<VersionInfoView>,
) -> Option<Seq<char>> {
    match tag_version(service.image_ref.tag) {
        None => None,
        Some(v) => if available.len() == 0 {
            None
        } else {
            new_tag_choice(
                service.image_ref,
                v.version,
                available,
                v.prefix,
                v.suffix,
                config.update_strategy,
            )
        },
    }
}

/// The error recorded for a service whose tags could not be listed.
pub open spec fn service_failure_message(service_name: Seq<char>, error: Seq<char>) -> Seq<char> {
    "Failed to update service "@ + service_name + seq![':', ' '] + error
}

/// The error recorded for a service whose image line could not be rewritten.
pub open spec fn rewrite_failure_message(service_name: Seq<char>) -> Seq<char> {
    "Failed to rewrite the image of service "@ + service_name
}

/// Whether an image is left alone by the configuration.
pub open spec fn ignored(config: crate::config::ConfigView, image: Seq<char>) -> bool {
    exists|i: int|
        0 <= i < config.ignore_images.len() && contains_seq(image, #[trigger] config.ignore_images[i])
}

impl ComposeUpdater {
    /// Whether `file_name` names a compose file: it ends in `.yml` or `.yaml`.
    pub fn is_compose_file(&self, file_name: &str) -> (r: bool)
        ensures
            r == (crate::text::ends_with(file_name@, yml()) || crate::text::ends_with(
                file_name@,
                yaml(),
            )),
    {
        proof {
            reveal_strlit(".yml");
            reveal_strlit(".yaml");
        }
        let a = ends_with_str(file_name, ".yml");
        let b = ends_with_str(file_name, ".yaml");
        assert(".yml"@ =~= yml());
        assert(".yaml"@ =~= yaml());
        a || b
    }

    /// Whether the rewritten text of `file` is written back: when an image
    /// moved and this is not a dry run.
    pub fn writes_file(&self, file: &FileUpdate) -> (r: bool)
        ensures
            r == (file.updated && !self.config.dry_run),
    {
        file.updated && !self.config.dry_run
    }

    /// Whether the registry must be asked about `service`: its image is not
    /// ignored and its tag holds a version.
    pub fn needs_registry_lookup(&self, service: &ServiceImage) -> (r: bool)
        ensures
            r == (!ignored(self.config@, image_ref_string(service@.image_ref)) && tag_version(
                service@.image_ref.tag,
            ) is Some),
    {
        let image = service.image_ref.to_string();
        assert forall|i: int| 0 <= i < self.config.ignore_images@.len() implies #[trigger] self.config@.ignore_images[i]
            == self.config.ignore_images@[i]@ by {}
        if self.config.is_image_ignored(image.as_str()) {
            assert(ignored(self.config@, image@)) by {
                let i = choose|i: int|
                    0 <= i < self.config.ignore_images@.len() && contains_seq(
                        image@,
                        #[trigger] self.config.ignore_images@[i]@,
                    );
                assert(contains_seq(image@, self.config@.ignore_images[i]));
            }
            return false;
        }
        let (version, _, _, _) = parse_version_tag(service.image_ref.tag.as_str());
        version.is_some()
    }

    /// The image string `service` moves to, given the tags the registry lists.
    pub fn next_image(&self, service: &ServiceImage, available: &[VersionInfo]) -> (r: Option<
        String,
    >)
        ensures
            match r {
                Some(s) => next_image_choice(self.config@, service@, infos_view(available@))
                    == Some(s@),
                None => next_image_choice(self.config@, service@, infos_view(available@)) is None,
            },
    {
        let (version, prefix, suffix, _) = parse_version_tag(service.image_ref.tag.as_str());
        let current = match version {
            Some(v) => v,
            None => {
                return None;
            },
        };
        if available.len() == 0 {
            return None;
        }
        choose_new_tag(
            &service.image_ref,
            &current,
            available,
            prefix,
            suffix,
            &self.config.update_strategy,
        )
    }

    /// Applies what the registry answered about `service` to the file: an
    /// error is recorded, an upgrade is written into the text.
    pub fn record_service(
        &self,
        file: &mut FileUpdate,
        service: &ServiceImage,
        fetched: Result<Vec<VersionInfo>, String>,
    )
        ensures
            match fetched {
                Err(e) => final(file).content@ == old(file).content@ && final(file).updated
                    == old(file).updated && final(file).errors@.len() == old(file).errors@.len()
                    + 1 && final(file).errors@.drop_last() == old(file).errors@
                    && final(file).errors@.last()@ == service_failure_message(
                    service@.service_name,
                    e@,
                ),
                Ok(available) => match next_image_choice(
                    self.config@,
                    service@,
                    infos_view(available@),
                ) {
                    None => final(file).content@ == old(file).content@ && final(file).updated
                        == old(file).updated && final(file).errors@ == old(file).errors@,
                    Some(img) => match replaced_content(old(file).content@, service@, img) {
                        Some(c) => final(file).content@ == c && final(file).updated
                            && final(file).errors@ == old(file).errors@,
                        None => final(file).content@ == old(file).content@ && final(file).updated
                            == old(file).updated && final(file).errors@.len()
                            == old(file).errors@.len() + 1 && final(file).errors@.drop_last()
                            == old(file).errors@ && final(file).errors@.last()@
                            == rewrite_failure_message(service@.service_name),
                    },
                },
            },
    {
        match fetched {
            Err(e) => {
                let mut msg = String::new();
                msg.append("Failed to update service ");
                msg.append(service.service_name.as_str());
                msg.append(": ");
                msg.append(e.as_str());
                proof {
                    reveal_strlit("Failed to update service ");
                    reveal_strlit(": ");
                }
                assert(msg@ =~= service_failure_message(service@.service_name, e@));
                file.errors.push(msg);
            },
            Ok(available) => {
                match self.next_image(service, available.as_slice()) {
                    None => {},
                    Some(img) => {
                        match self.replace_image_in_content(
                            file.content.as_str(),
                            service,
                            img.as_str(),
                        ) {
                            Ok(c) => {
                                file.content = c;
                                file.updated = true;
                            },
                            Err(_) => {
                                let mut msg = String::new();
                                msg.append("Failed to rewrite the image of service ");
                                msg.append(service.service_name.as_str());
                                proof {
                                    reveal_strlit("Failed to rewrite the image of service ");
                                }
                                assert(msg@ =~= rewrite_failure_message(service@.service_name));
                                file.errors.push(msg);
                            },
                        }
                    },
                }
            },
        }
    }
}

impl UpdateReport {
    /// An empty report.
    pub fn new() -> (r: UpdateReport)
        ensures
            r.files_found == 0,
            r.updated_files@.len() == 0,
            r.errors@.len() == 0,
    {
        UpdateReport { files_found: 0, updated_files: Vec::new(), errors: Vec::new() }
    }

    /// Counts `n` more compose files found.
    pub fn add_found(&mut self, n: usize)
        requires
            old(self).files_found + n <= usize::MAX,
        ensures
            final(self).files_found == old(self).files_found + n,
            final(self).updated_files@ == old(self).updated_files@,
            final(self).errors@ == old(self).errors@,
    {
        self.files_found = self.files_found + n;
    }

    /// Adds the outcome of one file: an updated file is listed, its service
    /// errors are kept, and a file that could not be processed becomes one
    /// error.
    pub fn record_file(&mut self, path: String, outcome: Result<FileUpdate, String>)
        ensures
            final(self).files_found == old(self).files_found,
            match outcome {
                Ok(f) => {
                    &&& final(self).updated_files@ == if f.updated {
                        old(self).updated_files@.push(path)
                    } else {
                        old(self).updated_files@
                    }
                    &&& final(self).errors@ == old(self).errors@ + f.errors@
                },
                Err(e) => {
                    &&& final(self).updated_files@ == old(self).updated_files@
                    &&& final(self).errors@ == old(self).errors@.push(e)
                },
            },
    {
        match outcome {
            Ok(f) => {
                if f.updated {
                    self.updated_files.push(path);
                }
                let mut errs = f.errors;
                self.errors.append(&mut errs);
            },
            Err(e) => {
                self.errors.push(e);
            },
        }
    }
}

} // verus!
