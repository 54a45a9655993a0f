//! Image references and the registry protocol's decisions.
use vstd::prelude::*;
use crate::config::{Config, RegistryConfig, RegistryConfigView};
use crate::version::{decimal_string, opt_view, tag_version, VersionInfo, VersionInfoView};
use crate::strategy::infos_view;
use crate::text::{char_from, chars_of, lemma_char_from, range_eq, split_char, split_spans, string_of, trim, trim_bounds};

verus! {

broadcast use vstd::string::group_string_axioms;

/// The position of the last `c` in `s`.
pub open spec fn last_index_of(s: Seq<char>, c: char) -> Option<int>
    decreases s.len(),
{
    if s.len() == 0 {
        None
    } else if s.last() == c {
        Some(s.len() - 1)
    } else {
        last_index_of(s.drop_last(), c)
    }
}

/// The position of the first `c` in `s`.
pub open spec fn first_index_of(s: Seq<char>, c: char) -> Option<int>
    decreases s.len(),
{
    if s.len() == 0 {
        None
    } else if s[0] == c {
        Some(0)
    } else {
        match first_index_of(s.drop_first(), c) {
            Some(i) => Some(i + 1),
            None => None,
        }
    }
}

pub proof fn lemma_last_index_of(s: Seq<char>, c: char)
    ensures
        last_index_of(s, c) matches Some(k) ==> 0 <= k < s.len() && s[k] == c && forall|j: int|
            k < j < s.len() ==> s[j] != c,
        last_index_of(s, c) is None ==> forall|j: int| 0 <= j < s.len() ==> s[j] != c,
    decreases s.len(),
{
    if s.len() > 0 && s.last() != c {
        lemma_last_index_of(s.drop_last(), c);
        assert forall|j: int| 0 <= j < s.len() - 1 implies s[j] == s.drop_last()[j] by {}
    }
}

pub proof fn lemma_first_index_of(s: Seq<char>, c: char)
    ensures
        first_index_of(s, c) matches Some(k) ==> 0 <= k < s.len() && s[k] == c && forall|j: int|
            0 <= j < k ==> s[j] != c,
        first_index_of(s, c) is None ==> forall|j: int| 0 <= j < s.len() ==> s[j] != c,
    decreases s.len(),
{
    if s.len() > 0 && s[0] != c {
        lemma_first_index_of(s.drop_first(), c);
        assert forall|j: int| 1 <= j < s.len() implies s[j] == s.drop_first()[j - 1] by {}
    }
}

/// Where `c` is last found in `cs`.
pub fn find_last(cs: &Vec<char>, c: char) -> (r: Option<usize>)
    ensures
        match r {
            Some(k) => last_index_of(cs@, c) == Some(k as int),
            None => last_index_of(cs@, c) is None,
        },
{
    proof {
        lemma_last_index_of(cs@, c);
    }
    let mut i = cs.len();
    while i > 0
        invariant
            i <= cs@.len(),
            forall|j: int| i <= j < cs@.len() ==> cs@[j] != c,
        decreases i,
    {
        if cs[i - 1] == c {
            let k = i - 1;
            assert(last_index_of(cs@, c) == Some(k as int)) by {
                lemma_last_index_of(cs@, c);
                if let Some(k2) = last_index_of(cs@, c) {
                    if k2 < k {
                    }
                }
            }
            return Some(k);
        }
        i = i - 1;
    }
    None
}

/// Where `c` is first found in `cs`.
pub fn find_first(cs: &Vec<char>, c: char) -> (r: Option<usize>)
    ensures
        match r {
            Some(k) => first_index_of(cs@, c) == Some(k as int),
            None => first_index_of(cs@, c) is None,
        },
{
    proof {
        lemma_first_index_of(cs@, c);
    }
    let mut i: usize = 0;
    while i < cs.len()
        invariant
            i <= cs@.len(),
            forall|j: int| 0 <= j < i ==> cs@[j] != c,
        decreases cs@.len() - i,
    {
        if cs[i] == c {
            assert(first_index_of(cs@, c) == Some(i as int)) by {
                lemma_first_index_of(cs@, c);
                if let Some(k2) = first_index_of(cs@, c) {
                    if k2 > i {
                    }
                }
            }
            return Some(i);
        }
        i = i + 1;
    }
    None
}

/// Whether `c` occurs in `cs[from..to]`.
fn has_char_in(cs: &Vec<char>, from: usize, to: usize, c: char) -> (r: bool)
    requires
        from <= to <= cs@.len(),
    ensures
        r == cs@.subrange(from as int, to as int).contains(c),
{
    let ghost sub = cs@.subrange(from as int, to as int);
    let mut i = from;
    while i < to
        invariant
            from <= i <= to <= cs@.len(),
            sub == cs@.subrange(from as int, to as int),
            forall|j: int| from <= j < i ==> cs@[j] != c,
        decreases to - i,
    {
        if cs[i] == c {
            assert(sub[i - from] == c);
            return true;
        }
        i = i + 1;
    }
    assert forall|j: int| 0 <= j < sub.len() implies sub[j] != c by {
        assert(sub[j] == cs@[from + j]);
    }
    false
}

/// The parts of a reference such as `ghcr.io/user/app:v1.0.0`.
pub struct ImageRefView {
    pub registry: Seq<char>,
    pub namespace: Option<Seq<char>>,
    pub name: Seq<char>,
    pub tag: Seq<char>,
}

/// An image reference: registry, optional namespace, name and tag.
#[derive(Debug, Clone)]
pub struct ImageRef {
    pub registry: String,
    pub namespace: Option<String>,
    pub name: String,
    pub tag: String,
}

impl View for ImageRef {
    type V = ImageRefView;

    open spec fn view(&self) -> ImageRefView {
        ImageRefView {
            registry: self.registry@,
            namespace: match self.namespace {
                Some(n) => Some(n@),
                None => None,
            },
            name: self.name@,
            tag: self.tag@,
        }
    }
}

/// The registry that images without an explicit one come from.
pub open spec fn docker_hub() -> Seq<char> {
    seq!['d', 'o', 'c', 'k', 'e', 'r', '.', 'i', 'o']
}

/// The tag of an image reference without one.
pub open spec fn latest_tag() -> Seq<char> {
    seq!['l', 'a', 't', 'e', 's', 't']
}

/// How an image string is read.
///
/// The tag is what follows the last `:` (`latest` when there is none). Of
/// what precedes it, split at `/`: a single piece is a Docker Hub name; of two
/// pieces, the first is a registry when it holds `.` or `:` and a Docker Hub
/// namespace otherwise; of more pieces, the first is the registry, the last
/// the name and those between the namespace.
pub open spec fn image_ref_of(s: Seq<char>) -> ImageRefView {
    let (part, tag) = match last_index_of(s, ':') {
        Some(k) => (s.take(k), s.skip(k + 1)),
        None => (s, latest_tag()),
    };
    match first_index_of(part, '/') {
        None => ImageRefView { registry: docker_hub(), namespace: None, name: part, tag },
        Some(f) => {
            let l = match last_index_of(part, '/') {
                Some(l) => l,
                None => f,
            };
            if f == l {
                let head = part.take(f);
                if head.contains('.') || head.contains(':') {
                    ImageRefView { registry: head, namespace: None, name: part.skip(f + 1), tag }
                } else {
                    ImageRefView {
                        registry: docker_hub(),
                        namespace: Some(head),
                        name: part.skip(f + 1),
                        tag,
                    }
                }
            } else {
                ImageRefView {
                    registry: part.take(f),
                    namespace: Some(part.subrange(f + 1, l)),
                    name: part.skip(l + 1),
                    tag,
                }
            }
        },
    }
}

/// How an image reference is written back: Docker Hub references without
/// their registry, others with it; the namespace, when there is one, between
/// the registry and the name.
pub open spec fn image_ref_string(r: ImageRefView) -> Seq<char> {
    let path = match r.namespace {
        Some(ns) => ns + seq!['/'] + r.name,
        None => r.name,
    };
    if r.registry == docker_hub() {
        path + seq![':'] + r.tag
    } else {
        r.registry + seq!['/'] + path + seq![':'] + r.tag
    }
}

proof fn lemma_last_index_is(s: Seq<char>, c: char, k: int)
    requires
        0 <= k < s.len(),
        s[k] == c,
        forall|j: int| k < j < s.len() ==> s[j] != c,
    ensures
        last_index_of(s, c) == Some(k),
{
    lemma_last_index_of(s, c);
}

proof fn lemma_first_index_is(s: Seq<char>, c: char, k: int)
    requires
        0 <= k < s.len(),
        s[k] == c,
        forall|j: int| 0 <= j < k ==> s[j] != c,
    ensures
        first_index_of(s, c) == Some(k),
{
    lemma_first_index_of(s, c);
}

proof fn lemma_index_none(s: Seq<char>, c: char)
    requires
        forall|j: int| 0 <= j < s.len() ==> s[j] != c,
    ensures
        first_index_of(s, c) is None,
        last_index_of(s, c) is None,
{
    lemma_first_index_of(s, c);
    lemma_last_index_of(s, c);
}

/// The references that are written in a form that reads back as them: the
/// tag holds no `:`, the registry and the name no `/`; a Docker Hub
/// namespace holds none of `/`, `.` and `:`, and another registry without a
/// namespace holds a `.` or a `:`.
pub open spec fn reads_back(r: ImageRefView) -> bool {
    &&& !r.tag.contains(':')
    &&& !r.name.contains('/')
    &&& !r.registry.contains('/')
    &&& match r.namespace {
        None => r.registry == docker_hub() || r.registry.contains('.') || r.registry.contains(':'),
        Some(ns) => r.registry == docker_hub() ==> !ns.contains('/') && !ns.contains('.')
            && !ns.contains(':'),
    }
}

/// An image reference written as a string reads back as the same
/// reference, for every reference whose parts allow it (`reads_back`).
pub proof fn written_reference_reads_back(r: ImageRefView)
    requires
        reads_back(r),
    ensures
        image_ref_of(image_ref_string(r)) == r,
{
    let slash = seq!['/'];
    let path = match r.namespace {
        Some(ns) => ns + slash + r.name,
        None => r.name,
    };
    let full = if r.registry == docker_hub() {
        path
    } else {
        r.registry + slash + path
    };
    let s = image_ref_string(r);
    assert(s =~= full + seq![':'] + r.tag);
    let k = full.len() as int;
    assert forall|j: int| k < j < s.len() implies s[j] != ':' by {
        assert(s[j] == r.tag[j - k - 1]);
        if s[j] == ':' {
            assert(r.tag.contains(':'));
        }
    }
    lemma_last_index_is(s, ':', k);
    assert(s.take(k) =~= full);
    assert(s.skip(k + 1) =~= r.tag);
    let part = full;
    assert forall|j: int| 0 <= j < r.name.len() implies r.name[j] != '/' by {
        if r.name[j] == '/' {
            assert(r.name.contains('/'));
        }
    }
    assert forall|j: int| 0 <= j < r.registry.len() implies r.registry[j] != '/' by {
        if r.registry[j] == '/' {
            assert(r.registry.contains('/'));
        }
    }
    if r.registry == docker_hub() {
        match r.namespace {
            None => {
                lemma_index_none(part, '/');
                assert(image_ref_of(s) == r);
            },
            Some(ns) => {
                let f = ns.len() as int;
                assert forall|j: int| 0 <= j < f implies part[j] != '/' by {
                    assert(part[j] == ns[j]);
                    if ns[j] == '/' {
                        assert(ns.contains('/'));
                    }
                }
                assert forall|j: int| f < j < part.len() implies part[j] != '/' by {
                    assert(part[j] == r.name[j - f - 1]);
                }
                lemma_first_index_is(part, '/', f);
                lemma_last_index_is(part, '/', f);
                assert(part.take(f) =~= ns);
                assert(part.skip(f + 1) =~= r.name);
                if ns.contains('.') || ns.contains(':') {
                }
                assert(image_ref_of(s) == r);
            },
        }
    } else {
        let f = r.registry.len() as int;
        assert forall|j: int| 0 <= j < f implies part[j] != '/' by {
            assert(part[j] == r.registry[j]);
        }
        lemma_first_index_is(part, '/', f);
        assert(part.take(f) =~= r.registry);
        match r.namespace {
            None => {
                assert forall|j: int| f < j < part.len() implies part[j] != '/' by {
                    assert(part[j] == r.name[j - f - 1]);
                }
                lemma_last_index_is(part, '/', f);
                assert(part.skip(f + 1) =~= r.name);
                assert(image_ref_of(s) == r);
            },
            Some(ns) => {
                let l = f + 1 + ns.len();
                assert(part[l] == '/');
                assert forall|j: int| l < j < part.len() implies part[j] != '/' by {
                    assert(part[j] == r.name[j - l - 1]);
                }
                lemma_last_index_is(part, '/', l);
                assert(part.subrange(f + 1, l) =~= ns);
                assert(part.skip(l + 1) =~= r.name);
                assert(image_ref_of(s) == r);
            },
        }
    }
}

/// A reference read from an image string is written in a form that reads
/// back as it, except a Docker Hub reference whose namespace holds `/`, `.`
/// or `:` (as `docker.io/a.b/c:1` gives; written as `a.b/c:1`, it would read
/// with `a.b` as its registry).
pub proof fn parsed_reference_reads_back(s: Seq<char>)
    requires
        image_ref_of(s).registry == docker_hub() ==> !(image_ref_of(s).namespace matches Some(ns)
            && (ns.contains('/') || ns.contains('.') || ns.contains(':'))),
    ensures
        image_ref_of(image_ref_string(image_ref_of(s))) == image_ref_of(s),
{
    let r = image_ref_of(s);
    lemma_last_index_of(s, ':');
    let (part, tag) = match last_index_of(s, ':') {
        Some(k) => (s.take(k), s.skip(k + 1)),
        None => (s, latest_tag()),
    };
    assert(r.tag == tag);
    assert(!tag.contains(':')) by {
        if tag.contains(':') {
            let j = choose|j: int| 0 <= j < tag.len() && tag[j] == ':';
            match last_index_of(s, ':') {
                Some(k) => {
                    assert(s[k + 1 + j] == ':');
                },
                None => {
                    assert(latest_tag()[j] != ':');
                },
            }
        }
    }
    lemma_first_index_of(part, '/');
    lemma_last_index_of(part, '/');
    match first_index_of(part, '/') {
        None => {
            assert(!part.contains('/')) by {
                if part.contains('/') {
                    let j = choose|j: int| 0 <= j < part.len() && part[j] == '/';
                }
            }
            assert(!docker_hub().contains('/')) by {
                if docker_hub().contains('/') {
                    let j = choose|j: int| 0 <= j < docker_hub().len() && docker_hub()[j] == '/';
                }
            }
        },
        Some(f) => {
            let l = match last_index_of(part, '/') {
                Some(l) => l,
                None => f,
            };
            let head = part.take(f);
            assert(!head.contains('/')) by {
                if head.contains('/') {
                    let j = choose|j: int| 0 <= j < head.len() && head[j] == '/';
                    assert(part[j] == '/');
                }
            }
            let name = part.skip(l + 1);
            assert(!name.contains('/')) by {
                if name.contains('/') {
                    let j = choose|j: int| 0 <= j < name.len() && name[j] == '/';
                    assert(part[l + 1 + j] == '/');
                }
            }
            assert(!docker_hub().contains('/')) by {
                if docker_hub().contains('/') {
                    let j = choose|j: int| 0 <= j < docker_hub().len() && docker_hub()[j] == '/';
                }
            }
        },
    }
    assert(reads_back(r));
    written_reference_reads_back(r);
}

/// Why an image reference could not be read.
#[derive(Debug)]
pub enum ImageRefError {
    /// The image string has no parts.
    InvalidFormat(String),
}

/// `"docker.io"` as a `String`.
fn docker_hub_string() -> (s: String)
    ensures
        s@ == docker_hub(),
{
    let mut s = String::new();
    s.append("docker.io");
    proof {
        reveal_strlit("docker.io");
    }
    assert(s@ =~= docker_hub());
    s
}

impl ImageRef {
    /// Reads an image string; `ghcr.io/user/app:v1.0.0` gives the registry
    /// `ghcr.io`, the namespace `user`, the name `app` and the tag `v1.0.0`.
    /// Every string can be read, so this always succeeds.
    pub fn parse(image: &str) -> (r: Result<ImageRef, ImageRefError>)
        ensures
            r matches Ok(v) && v@ == image_ref_of(image@),
    {
        let cs = chars_of(image);
        let ghost s = image@;
        proof {
            lemma_last_index_of(s, ':');
        }
        let colon = find_last(&cs, ':');
        let (part_end, tag) = match colon {
            Some(k) => {
                assert(cs@ == s);
                assert(k < cs.len());
                (k, string_of(&cs, k + 1, cs.len()))
            },
            None => {
                let mut t = String::new();
                t.append("latest");
                proof {
                    reveal_strlit("latest");
                }
                assert(t@ =~= latest_tag());
                (cs.len(), t)
            },
        };
        let ghost part = s.take(part_end as int);
        assert(match last_index_of(s, ':') {
            Some(k) => part == s.take(k) && tag@ == s.skip(k + 1),
            None => part == s && tag@ == latest_tag(),
        });
        let part_cs = {
            let mut v: Vec<char> = Vec::new();
            let mut i: usize = 0;
            while i < part_end
                invariant
                    i <= part_end <= cs@.len(),
                    v@ == cs@.subrange(0, i as int),
                decreases part_end - i,
            {
                v.push(cs[i]);
                assert(cs@.subrange(0, i + 1) == cs@.subrange(0, i as int).push(cs@[i as int]));
                i = i + 1;
            }
            v
        };
        assert(part_cs@ == part);
        let n = part_cs.len();
        assert(part_cs@.subrange(0, n as int) == part);
        match find_first(&part_cs, '/') {
            None => {
                let r = ImageRef {
                    registry: docker_hub_string(),
                    namespace: None,
                    name: string_of(&part_cs, 0, n),
                    tag,
                };
                assert(r@.name == part);
                assert(r@.tag == image_ref_of(s).tag);
                assert(r@ == image_ref_of(s));
                Ok(r)
            },
            Some(f) => {
                proof {
                    lemma_first_index_of(part, '/');
                    lemma_last_index_of(part, '/');
                }
                let l = match find_last(&part_cs, '/') {
                    Some(l) => l,
                    None => f,
                };
                assert(part.skip(f + 1) == part.subrange(f + 1, n as int));
                assert(part.take(f as int) == part.subrange(0, f as int));
                if f == l {
                    let is_registry = has_char_in(&part_cs, 0, f, '.') || has_char_in(
                        &part_cs,
                        0,
                        f,
                        ':',
                    );
                    if is_registry {
                        Ok(ImageRef {
                            registry: string_of(&part_cs, 0, f),
                            namespace: None,
                            name: string_of(&part_cs, f + 1, n),
                            tag,
                        })
                    } else {
                        Ok(ImageRef {
                            registry: docker_hub_string(),
                            namespace: Some(string_of(&part_cs, 0, f)),
                            name: string_of(&part_cs, f + 1, n),
                            tag,
                        })
                    }
                } else {
                    assert(part.skip(l + 1) == part.subrange(l + 1, n as int));
                    Ok(ImageRef {
                        registry: string_of(&part_cs, 0, f),
                        namespace: Some(string_of(&part_cs, f + 1, l)),
                        name: string_of(&part_cs, l + 1, n),
                        tag,
                    })
                }
            },
        }
    }

    /// The reference written back as an image string; Docker Hub references
    /// are written without their registry.
    pub fn to_string(&self) -> (s: String)
        ensures
            s@ == image_ref_string(self@),
    {
        let hub = docker_hub_string();
        let mut s = String::new();
        if !self.registry.eq(&hub) {
            s.append(self.registry.as_str());
            s.append("/");
        }
        match &self.namespace {
            Some(ns) => {
                s.append(ns.as_str());
                s.append("/");
            },
            None => {},
        }
        s.append(self.name.as_str());
        s.append(":");
        s.append(self.tag.as_str());
        proof {
            reveal_strlit("/");
            reveal_strlit(":");
        }
        assert(s@ =~= image_ref_string(self@));
        s
    }
}

/// The repository path of an image in the registry API: the namespace and
/// name, with Docker Hub's official images under `library/`.
pub open spec fn repository_path(r: ImageRefView) -> Seq<char> {
    match r.namespace {
        Some(ns) => ns + seq!['/'] + r.name,
        None => if r.registry == docker_hub() {
            seq!['l', 'i', 'b', 'r', 'a', 'r', 'y', '/'] + r.name
        } else {
            r.name
        },
    }
}

/// The repository path is the image's name, preceded by its namespace when
/// it has one; only Docker Hub's images without a namespace (its official
/// images) live under `library/`, and an image of any other registry without
/// a namespace is found under its bare name.
pub proof fn repository_path_is_namespace_and_name(r: ImageRefView)
    ensures
        crate::text::ends_with(repository_path(r), r.name),
        r.namespace matches Some(ns) ==> repository_path(r) == ns + seq!['/'] + r.name,
        r.namespace is None && r.registry != docker_hub() ==> repository_path(r) == r.name,
        r.namespace is None && r.registry == docker_hub() ==> repository_path(r) == seq![
            'l',
            'i',
            'b',
            'r',
            'a',
            'r',
            'y',
            '/',
        ] + r.name,
{
    let p = repository_path(r);
    assert(p.subrange(p.len() - r.name.len(), p.len() as int) =~= r.name);
}

/// The repository path of `image_ref`: `bitnami/nginx`, or `library/nginx`
/// for Docker Hub's official `nginx`.
pub fn build_repository_path(image_ref: &ImageRef) -> (s: String)
    ensures
        s@ == repository_path(image_ref@),
{
    let hub = docker_hub_string();
    let mut s = String::new();
    match &image_ref.namespace {
        Some(ns) => {
            s.append(ns.as_str());
            s.append("/");
        },
        None => {
            if image_ref.registry.eq(&hub) {
                s.append("library/");
            }
        },
    }
    s.append(image_ref.name.as_str());
    proof {
        reveal_strlit("/");
        reveal_strlit("library/");
    }
    assert(s@ =~= repository_path(image_ref@));
    s
}

/// `rel="next"`
pub open spec fn rel_next_quoted() -> Seq<char> {
    seq!['r', 'e', 'l', '=', '"', 'n', 'e', 'x', 't', '"']
}

/// `rel=next`
pub open spec fn rel_next_bare() -> Seq<char> {
    seq!['r', 'e', 'l', '=', 'n', 'e', 'x', 't']
}

/// The target of one link of a `Link` header when its relation is `next`:
/// the link is `<url>` followed by `;`-separated parameters, one of which is
/// `rel="next"` or `rel=next`.
pub open spec fn next_target(link: Seq<char>) -> Option<Seq<char>> {
    let parts = split_char(trim(link), ';');
    if parts.len() < 2 {
        None
    } else {
        let u = trim(parts[0]);
        if u.len() > 0 && u[0] == '<' && u.last() == '>' && exists|k: int|
            1 <= k < parts.len() && (trim(#[trigger] parts[k]) == rel_next_quoted() || trim(
                parts[k],
            ) == rel_next_bare()) {
            Some(u.subrange(1, u.len() - 1))
        } else {
            None
        }
    }
}

/// The first of `links` whose relation is `next`.
pub open spec fn first_next_target(links: Seq<Seq<char>>) -> Option<Seq<char>>
    decreases links.len(),
{
    if links.len() == 0 {
        None
    } else {
        match next_target(links[0]) {
            Some(u) => Some(u),
            None => first_next_target(links.drop_first()),
        }
    }
}

/// The URL of the next page that a `Link` header names: the first of its
/// comma-separated links whose relation is `next`.
pub open spec fn next_page_link(header: Seq<char>) -> Option<Seq<char>> {
    first_next_target(split_char(header, ','))
}

/// The target of the link `cs[from..to]` if its relation is `next`.
fn link_next_target(
    cs: &Vec<char>,
    from: usize,
    to: usize,
    quoted: &Vec<char>,
    bare: &Vec<char>,
) -> (r: Option<String>)
    requires
        from <= to <= cs@.len(),
        quoted@ == rel_next_quoted(),
        bare@ == rel_next_bare(),
    ensures
        match r {
            Some(u) => next_target(cs@.subrange(from as int, to as int)) == Some(u@),
            None => next_target(cs@.subrange(from as int, to as int)) is None,
        },
{
    let ghost link = cs@.subrange(from as int, to as int);
    let (ta, tb) = trim_bounds(cs, from, to);
    let parts = split_spans(cs, ta, tb, ';');
    let ghost ps = split_char(trim(link), ';');
    if parts.len() < 2 {
        return None;
    }
    let (pa, pb) = parts[0];
    let (ua, ub) = trim_bounds(cs, pa, pb);
    let ghost u = trim(ps[0]);
    assert(cs@.subrange(ua as int, ub as int) == u);
    if !(ub > ua && cs[ua] == '<' && cs[ub - 1] == '>') {
        assert(!(u.len() > 0 && u[0] == '<' && u.last() == '>')) by {
            if u.len() > 0 {
                assert(u[0] == cs@[ua as int]);
                assert(u.last() == cs@[ub - 1]);
            }
        }
        return None;
    }
    assert(u[0] == cs@[ua as int] && u.last() == cs@[ub - 1]);
    assert(ub >= ua + 2) by {
        if ub == ua + 1 {
            assert(cs@[ua as int] == cs@[ub - 1]);
        }
    }
    let mut k: usize = 1;
    while k < parts.len()
        invariant
            1 <= k <= parts@.len(),
            parts@.len() == ps.len(),
            forall|j: int|
                0 <= j < parts@.len() ==> {
                    let (a, b) = #[trigger] parts@[j];
                    ta <= a <= b <= tb && cs@.subrange(a as int, b as int) == ps[j]
                },
            ta <= tb <= cs@.len(),
            quoted@ == rel_next_quoted(),
            bare@ == rel_next_bare(),
            ua + 2 <= ub <= cs@.len(),
            u == cs@.subrange(ua as int, ub as int),
            u == trim(ps[0]),
            u.len() > 0 && u[0] == '<' && u.last() == '>',
            ps == split_char(trim(link), ';'),
            link == cs@.subrange(from as int, to as int),
            forall|j: int|
                1 <= j < k ==> !(trim(#[trigger] ps[j]) == rel_next_quoted() || trim(ps[j])
                    == rel_next_bare()),
        decreases parts@.len() - k,
    {
        let (a, b) = parts[k];
        let (qa, qb) = trim_bounds(cs, a, b);
        if range_eq(cs, qa, qb, quoted) || range_eq(cs, qa, qb, bare) {
            let inner = string_of(cs, ua + 1, ub - 1);
            assert(inner@ =~= u.subrange(1, u.len() - 1));
            assert(trim(ps[k as int]) == rel_next_quoted() || trim(ps[k as int])
                == rel_next_bare());
            assert(ps.len() >= 2);
            assert(exists|j: int|
                1 <= j < ps.len() && (trim(#[trigger] ps[j]) == rel_next_quoted() || trim(ps[j])
                    == rel_next_bare()));
            assert(next_target(link) == Some(inner@));
            return Some(inner);
        }
        k = k + 1;
    }
    None
}

/// The URL of the next page that a `Link` header names, if any.
pub fn parse_link_header(link_header: &str) -> (r: Option<String>)
    ensures
        match r {
            Some(u) => next_page_link(link_header@) == Some(u@),
            None => next_page_link(link_header@) is None,
        },
{
    let cs = chars_of(link_header);
    let quoted = chars_of("rel=\"next\"");
    let bare = chars_of("rel=next");
    proof {
        reveal_strlit("rel=\"next\"");
        reveal_strlit("rel=next");
    }
    assert(quoted@ =~= rel_next_quoted());
    assert(bare@ =~= rel_next_bare());
    let links = split_spans(&cs, 0, cs.len(), ',');
    let ghost ls = split_char(cs@.subrange(0, cs@.len() as int), ',');
    assert(cs@.subrange(0, cs@.len() as int) =~= cs@);
    let mut i: usize = 0;
    assert(ls.skip(0) =~= ls);
    while i < links.len()
        invariant
            i <= links@.len() == ls.len(),
            cs@ == link_header@,
            ls == split_char(cs@, ','),
            quoted@ == rel_next_quoted(),
            bare@ == rel_next_bare(),
            forall|j: int|
                0 <= j < links@.len() ==> {
                    let (a, b) = #[trigger] links@[j];
                    a <= b <= cs@.len() && cs@.subrange(a as int, b as int) == ls[j]
                },
            first_next_target(ls) == first_next_target(ls.skip(i as int)),
        decreases links@.len() - i,
    {
        let (a, b) = links[i];
        assert(ls.skip(i as int)[0] == ls[i as int]);
        assert(ls.skip(i as int).drop_first() =~= ls.skip(i + 1));
        match link_next_target(&cs, a, b, &quoted, &bare) {
            Some(u) => {
                assert(first_next_target(ls.skip(i as int)) == Some(u@));
                return Some(u);
            },
            None => {},
        }
        i = i + 1;
    }
    assert(ls.skip(i as int) =~= Seq::<Seq<char>>::empty());
    None
}

/// A word character of an authentication challenge: a `\w` character.
pub open spec fn is_word_char(c: char) -> bool {
    crate::text::is_pattern_word(c)
}

/// The end of the run of word characters that starts at `i`.
pub open spec fn word_end(s: Seq<char>, i: int) -> int
    decreases s.len() - i,
{
    if 0 <= i < s.len() && is_word_char(s[i]) {
        word_end(s, i + 1)
    } else {
        i
    }
}

pub proof fn lemma_word_end(s: Seq<char>, i: int)
    requires
        0 <= i <= s.len(),
    ensures
        i <= word_end(s, i) <= s.len(),
    decreases s.len() - i,
{
    if i < s.len() && is_word_char(s[i]) {
        lemma_word_end(s, i + 1);
    }
}

/// A parameter `name="value"` (a non-empty word, then a non-empty value
/// without quotation marks) starts at `i`.
pub open spec fn param_at(s: Seq<char>, i: int) -> bool {
    &&& 0 <= i < s.len()
    &&& is_word_char(s[i])
    &&& word_end(s, i) + 1 < s.len()
    &&& s[word_end(s, i)] == '='
    &&& s[word_end(s, i) + 1] == '"'
    &&& char_from(s, '"', word_end(s, i) + 2) < s.len()
    &&& char_from(s, '"', word_end(s, i) + 2) > word_end(s, i) + 2
}

/// The `name="value"` parameters of a challenge from position `i` on, found
/// from left to right without overlapping.
pub open spec fn params_from(s: Seq<char>, i: int) -> Seq<(Seq<char>, Seq<char>)>
    decreases s.len() - i,
{
    if i < 0 || i >= s.len() {
        seq![]
    } else if param_at(s, i) {
        let j = word_end(s, i);
        let k = char_from(s, '"', j + 2);
        proof {
            lemma_word_end(s, i);
            lemma_char_from(s, '"', j + 2);
        }
        seq![(s.subrange(i, j), s.subrange(j + 2, k))] + params_from(s, k + 1)
    } else {
        params_from(s, i + 1)
    }
}

/// The value of the first parameter named `name` in `params`.
pub open spec fn first_param(params: Seq<(Seq<char>, Seq<char>)>, name: Seq<char>) -> Option<
    Seq<char>,
>
    decreases params.len(),
{
    if params.len() == 0 {
        None
    } else if params[0].0 == name {
        Some(params[0].1)
    } else {
        first_param(params.drop_first(), name)
    }
}

/// The value of the parameter `name` in a `WWW-Authenticate` challenge.
pub open spec fn auth_param(challenge: Seq<char>, name: Seq<char>) -> Option<Seq<char>> {
    first_param(params_from(challenge, 0), name)
}

/// A challenge that lacks a parameter.
#[derive(Debug)]
pub struct MissingAuthParam {
    pub param: String,
    pub challenge: String,
}

/// The value of the parameter `param` in a `WWW-Authenticate` challenge such
/// as `Bearer realm="https://auth.docker.io/token",service="registry.docker.io"`.
pub fn extract_auth_param(auth_str: &str, param: &str) -> (r: Result<String, MissingAuthParam>)
    ensures
        match r {
            Ok(v) => auth_param(auth_str@, param@) == Some(v@),
            Err(e) => auth_param(auth_str@, param@) is None && e.param@ == param@ && e.challenge@
                == auth_str@,
        },
{
    let cs = chars_of(auth_str);
    let ps = chars_of(param);
    let ghost s = cs@;
    let n = cs.len();
    let mut i: usize = 0;
    while i < n
        invariant
            s == cs@,
            cs@ == auth_str@,
            ps@ == param@,
            n == s.len(),
            i <= n,
            auth_param(s, param@) == first_param(params_from(s, i as int), param@),
        decreases n - i,
    {
        let c = cs[i];
        let mut matched = false;
        if crate::text::char_is_pattern_word(c) {
            proof {
                lemma_word_end(s, i as int);
            }
            let mut j = i;
            while j < n && crate::text::char_is_pattern_word(cs[j])
                invariant
                    i <= j <= n,
                    s == cs@,
                    n == s.len(),
                    word_end(s, j as int) == word_end(s, i as int),
                decreases n - j,
            {
                j = j + 1;
            }
            if j < n && n - j > 1 && cs[j] == '=' && cs[j + 1] == '"' {
                proof {
                    lemma_char_from(s, '"', j + 2);
                }
                let mut k = j + 2;
                while k < n && cs[k] != '"'
                    invariant
                        j + 2 <= k <= n,
                        s == cs@,
                        n == s.len(),
                        char_from(s, '"', k as int) == char_from(s, '"', j + 2),
                    decreases n - k,
                {
                    k = k + 1;
                }
                if k < n && k > j + 2 {
                    assert(param_at(s, i as int));
                    let ghost pairs = params_from(s, i as int);
                    assert(pairs == seq![(s.subrange(i as int, j as int), s.subrange(j + 2, k as int))]
                        + params_from(s, k + 1));
                    assert(pairs[0] == (s.subrange(i as int, j as int), s.subrange(j + 2, k as int)));
                    assert(pairs.drop_first() =~= params_from(s, k + 1));
                    if range_eq(&cs, i, j, &ps) {
                        let v = string_of(&cs, j + 2, k);
                        return Ok(v);
                    }
                    i = k + 1;
                    matched = true;
                }
            }
        }
        if !matched {
            i = i + 1;
        }
    }
    Err(MissingAuthParam { param: param.to_owned(), challenge: auth_str.to_owned() })
}

/// What the registry side of the updater can run into.
#[derive(Debug)]
pub enum RegistryError {
    /// The image's registry has no entry in the configuration.
    UnknownRegistry(String),
    /// A tag-list response is not JSON; what the JSON reader said.
    InvalidTagList(String),
    /// A token response is not JSON; what the JSON reader said.
    InvalidTokenResponse(String),
    /// A token response has no string `token` field.
    MissingToken,
    /// The token endpoint answered with a failure status (its number and
    /// its status line text, such as `401 Unauthorized`).
    TokenRequestFailed { status: u16, status_text: String, body: String },
    /// A challenge lacks a parameter.
    MissingChallengeParam { param: String, challenge: String },
    /// Authentication failed this many times in a row.
    AuthenticationFailed { attempts: u32, registry: String },
    /// An unauthorized response came without a `WWW-Authenticate` header.
    MissingChallenge,
    /// The `WWW-Authenticate` header is not visible ASCII; why it could not
    /// be read.
    InvalidChallengeEncoding(String),
    /// The registry answered with a failure status (its number and its
    /// status line text, such as `404 Not Found`).
    RequestFailed { status: u16, status_text: String, body: String },
}

/// The description of a registry error.
pub open spec fn error_message(e: RegistryError) -> Seq<char> {
    match e {
        RegistryError::UnknownRegistry(r) => "Unknown registry: "@ + r@,
        RegistryError::InvalidTagList(m) => "Failed to parse registry response: "@ + m@,
        RegistryError::InvalidTokenResponse(m) => "Failed to parse auth token response: "@ + m@,
        RegistryError::MissingToken => "Auth response missing 'token' field"@,
        RegistryError::TokenRequestFailed { status: _, status_text, body } => "Failed to get token: "@
            + status_text@ + " - "@ + body@,
        RegistryError::MissingChallengeParam { param, challenge } => "Missing '"@ + param@
            + "' in auth challenge: "@ + challenge@,
        RegistryError::AuthenticationFailed { attempts, registry } => "Authentication failed after "@
            + decimal_string(attempts as nat) + " attempts for registry "@ + registry@,
        RegistryError::MissingChallenge =>
            "Unauthorized request but no WWW-Authenticate header found"@,
        RegistryError::InvalidChallengeEncoding(m) => "Invalid WWW-Authenticate header encoding: "@
            + m@,
        RegistryError::RequestFailed { status: _, status_text, body } =>
            "Registry request failed with status "@ + status_text@ + ": "@ + body@,
    }
}

impl RegistryError {
    /// A description of the error for people.
    pub fn message(&self) -> (m: String)
        ensures
            m@ == error_message(*self),
    {
        let mut m = String::new();
        match self {
            RegistryError::UnknownRegistry(r) => {
                m.append("Unknown registry: ");
                m.append(r.as_str());
            },
            RegistryError::InvalidTagList(e) => {
                m.append("Failed to parse registry response: ");
                m.append(e.as_str());
            },
            RegistryError::InvalidTokenResponse(e) => {
                m.append("Failed to parse auth token response: ");
                m.append(e.as_str());
            },
            RegistryError::MissingToken => {
                m.append("Auth response missing 'token' field");
            },
            RegistryError::TokenRequestFailed { status: _, status_text, body } => {
                m.append("Failed to get token: ");
                m.append(status_text.as_str());
                m.append(" - ");
                m.append(body.as_str());
            },
            RegistryError::MissingChallengeParam { param, challenge } => {
                m.append("Missing '");
                m.append(param.as_str());
                m.append("' in auth challenge: ");
                m.append(challenge.as_str());
            },
            RegistryError::AuthenticationFailed { attempts, registry } => {
                m.append("Authentication failed after ");
                crate::version::push_decimal(&mut m, *attempts as u64);
                m.append(" attempts for registry ");
                m.append(registry.as_str());
            },
            RegistryError::MissingChallenge => {
                m.append("Unauthorized request but no WWW-Authenticate header found");
            },
            RegistryError::InvalidChallengeEncoding(e) => {
                m.append("Invalid WWW-Authenticate header encoding: ");
                m.append(e.as_str());
            },
            RegistryError::RequestFailed { status: _, status_text, body } => {
                m.append("Registry request failed with status ");
                m.append(status_text.as_str());
                m.append(": ");
                m.append(body.as_str());
            },
        }
        m
    }
}

/// The configuration entry of a registry.
pub fn get_registry_config<'a>(config: &'a Config, registry: &str) -> (r: Result<
    &'a RegistryConfig,
    RegistryError,
>)
    ensures
        match r {
            Ok(c) => config@.registries.contains_key(registry@) && config@.registries[registry@]
                == c@,
            Err(e) => !config@.registries.contains_key(registry@) && (e matches RegistryError::UnknownRegistry(
                n,
            ) && n@ == registry@),
        },
{
    match config.registries.get(registry) {
        Some(c) => Ok(c),
        None => Err(RegistryError::UnknownRegistry(registry.to_owned())),
    }
}

/// What `serde_json` reads from a tag-list response body: when the body is
/// not JSON, the error's message; otherwise the entries of its `tags` array,
/// each the string it holds or `None` when it is not a string, and no entries
/// when `tags` is missing or not an array.
pub uninterp spec fn json_tag_entries(body: Seq<char>) -> Result<Seq<Option<Seq<char>>>, Seq<char>>;

/// The views of a list of optional strings.
pub open spec fn opt_strings_view(v: Seq<Option<String>>) -> Seq<Option<Seq<char>>> {
    v.map_values(|o: Option<String>| opt_view(o))
}

/// Calls `serde_json::from_str` on a tag-list body and reads its `tags`
/// array (`Value::get`, `Value::as_array`, `Value::as_str`); the result is
/// named `json_tag_entries`, the error by its message (`Display`).
#[verifier::external_body]
fn read_tag_entries(body: &str) -> (r: Result<Vec<Option<String>>, String>)
    ensures
        match r {
            Err(m) => json_tag_entries(body@) == Err::<Seq<Option<Seq<char>>>, Seq<char>>(m@),
            Ok(v) => json_tag_entries(body@) == Ok::<Seq<Option<Seq<char>>>, Seq<char>>(
                opt_strings_view(v@),
            ),
        },
{
    match serde_json::from_str::<serde_json::Value>(body) {
        Err(e) => Err(e.to_string()),
        Ok(v) => Ok(
            match v.get("tags").and_then(|t| t.as_array()) {
                Some(tags) => tags.iter().map(|t| t.as_str().map(|s| s.to_string())).collect(),
                None => Vec::new(),
            },
        ),
    }
}

/// The string entries of a tag list, in order.
pub open spec fn tag_strings(e: Seq<Option<Seq<char>>>) -> Seq<Seq<char>>
    decreases e.len(),
{
    if e.len() == 0 {
        seq![]
    } else {
        match e.last() {
            Some(t) => tag_strings(e.drop_last()).push(t),
            None => tag_strings(e.drop_last()),
        }
    }
}

/// The tags of a list that hold a version, read, in order.
pub open spec fn tag_versions(ts: Seq<Seq<char>>) -> Seq<VersionInfoView>
    decreases ts.len(),
{
    if ts.len() == 0 {
        seq![]
    } else {
        match tag_version(ts.last()) {
            Some(v) => tag_versions(ts.drop_last()).push(v),
            None => tag_versions(ts.drop_last()),
        }
    }
}

/// One page of a tag list: the versions of its tags, its last tag (the
/// pagination cursor, whether or not it holds a version) and how many tags it
/// has.
pub open spec fn page_of(e: Seq<Option<Seq<char>>>) -> (Seq<VersionInfoView>, Option<Seq<char>>, nat) {
    let ts = tag_strings(e);
    (tag_versions(ts), if ts.len() == 0 {
        None
    } else {
        Some(ts.last())
    }, ts.len())
}

/// Reads one page of a tag list from the entries of its `tags` array.
pub fn versions_from_tag_entries(entries: &Vec<Option<String>>) -> (r: (
    Vec<VersionInfo>,
    Option<String>,
    usize,
))
    ensures
        infos_view(r.0@) == page_of(opt_strings_view(entries@)).0,
        opt_view(r.1) == page_of(opt_strings_view(entries@)).1,
        r.2 as nat == page_of(opt_strings_view(entries@)).2,
{
    let ghost e = opt_strings_view(entries@);
    let mut versions: Vec<VersionInfo> = Vec::new();
    let mut last: Option<String> = None;
    let mut count: usize = 0;
    let mut i: usize = 0;
    assert(e.take(0) =~= Seq::<Option<Seq<char>>>::empty());
    while i < entries.len()
        invariant
            i <= entries@.len(),
            e == opt_strings_view(entries@),
            count <= i,
            infos_view(versions@) == tag_versions(tag_strings(e.take(i as int))),
            count as nat == tag_strings(e.take(i as int)).len(),
            opt_view(last) == (if tag_strings(e.take(i as int)).len() == 0 {
                None
            } else {
                Some(tag_strings(e.take(i as int)).last())
            }),
        decreases entries@.len() - i,
    {
        assert(e.take(i + 1).drop_last() =~= e.take(i as int));
        assert(e.take(i + 1).last() == e[i as int]);
        match &entries[i] {
            Some(t) => {
                let ghost ts = tag_strings(e.take(i as int));
                assert(tag_strings(e.take(i + 1)) == ts.push(t@));
                assert(ts.push(t@).drop_last() =~= ts);
                count = count + 1;
                last = Some(t.clone());
                let ghost before = infos_view(versions@);
                match VersionInfo::from_tag(t.as_str()) {
                    Some(v) => {
                        versions.push(v);
                        assert(infos_view(versions@) =~= before.push(versions@.last()@));
                    },
                    None => {},
                }
            },
            None => {},
        }
        i = i + 1;
    }
    assert(e.take(entries@.len() as int) =~= e);
    (versions, last, count)
}

/// Reads one page of a tag-list response: the versions of its tags, its
/// last tag and how many tags it has; an error when the body is not JSON.
pub fn parse_v2_response(response_text: &str) -> (r: Result<
    (Vec<VersionInfo>, Option<String>, usize),
    RegistryError,
>)
    ensures
        match r {
            Err(e) => json_tag_entries(response_text@) matches Err(m) && (e matches RegistryError::InvalidTagList(
                x,
            ) && x@ == m),
            Ok((versions, last, count)) => json_tag_entries(response_text@) matches Ok(en) && {
                let p = page_of(en);
                &&& infos_view(versions@) == p.0
                &&& opt_view(last) == p.1
                &&& count as nat == p.2
            },
        },
{
    match read_tag_entries(response_text) {
        Err(m) => Err(RegistryError::InvalidTagList(m)),
        Ok(entries) => Ok(versions_from_tag_entries(&entries)),
    }
}

/// A byte that percent-encoding leaves as it is: an ASCII letter or digit,
/// `-`, `.`, `_` or `~`.
pub open spec fn url_safe_byte(b: u8) -> bool {
    (48 <= b && b <= 57) || (65 <= b && b <= 90) || (97 <= b && b <= 122) || b == 45 || b == 46
        || b == 95 || b == 126
}

/// The upper-case hexadecimal digit for a value below sixteen.
pub open spec fn hex_digit(d: u8) -> char {
    if d < 10 {
        (d + 48) as char
    } else {
        (d + 55) as char
    }
}

/// Percent-encoding of bytes: safe bytes stay, every other byte becomes `%`
/// and two upper-case hexadecimal digits.
pub open spec fn percent_encoded(bytes: Seq<u8>) -> Seq<char>
    decreases bytes.len(),
{
    if bytes.len() == 0 {
        seq![]
    } else {
        let b = bytes.last();
        percent_encoded(bytes.drop_last()) + if url_safe_byte(b) {
            seq![b as char]
        } else {
            seq!['%', hex_digit(b / 16), hex_digit(b % 16)]
        }
    }
}

/// Calls `urlencoding::encode`, which percent-encodes the UTF-8 bytes of
/// `data`, leaving ASCII letters, digits, `-`, `.`, `_` and `~` as they are.
#[verifier::external_body]
fn url_encode(data: &str) -> (r: String)
    ensures
        r@ == percent_encoded(vstd::utf8::encode_utf8(data@)),
{
    urlencoding::encode(data).into_owned()
}

/// The address of a token request: the challenge's realm with its service
/// and scope as query parameters.
pub open spec fn token_url_of(realm: Seq<char>, service: Seq<char>, scope: Seq<char>) -> Seq<char> {
    realm + seq!['?', 's', 'e', 'r', 'v', 'i', 'c', 'e', '='] + percent_encoded(
        vstd::utf8::encode_utf8(service),
    ) + seq!['&', 's', 'c', 'o', 'p', 'e', '='] + percent_encoded(vstd::utf8::encode_utf8(scope))
}

/// The address to ask for a bearer token: `realm?service=...&scope=...`
/// with the service and scope percent-encoded.
pub fn token_url(realm: &str, service: &str, scope: &str) -> (r: String)
    ensures
        r@ == token_url_of(realm@, service@, scope@),
{
    let mut u = String::new();
    u.append(realm);
    u.append("?service=");
    let enc_service = url_encode(service);
    u.append(enc_service.as_str());
    u.append("&scope=");
    let enc_scope = url_encode(scope);
    u.append(enc_scope.as_str());
    proof {
        reveal_strlit("?service=");
        reveal_strlit("&scope=");
    }
    assert(u@ =~= token_url_of(realm@, service@, scope@));
    u
}

/// The credentials offered for a registry: its token, with its username or
/// `token`, unless it has none or its credentials were already rejected.
pub open spec fn credentials_of(config: RegistryConfigView, rejected: bool) -> Option<
    (Seq<char>, Seq<char>),
> {
    match config.auth_token {
        None => None,
        Some(t) => if rejected {
            None
        } else {
            Some(
                (
                    match config.username {
                        Some(u) => u,
                        None => seq!['t', 'o', 'k', 'e', 'n'],
                    },
                    t,
                ),
            )
        },
    }
}

/// Credentials are offered only for a registry that has a token configured
/// and whose credentials were not refused, and then the token offered is the
/// configured one, with the configured username or else `token`; a registry
/// without a token is always asked anonymously.
pub proof fn credentials_are_the_configured_token(config: RegistryConfigView, rejected: bool)
    ensures
        config.auth_token is None ==> credentials_of(config, rejected) is None,
        rejected ==> credentials_of(config, rejected) is None,
        credentials_of(config, rejected) matches Some((user, token)) ==> {
            &&& config.auth_token == Some(token)
            &&& !rejected
            &&& user == match config.username {
                Some(u) => u,
                None => seq!['t', 'o', 'k', 'e', 'n'],
            }
        },
        config.auth_token is Some && !rejected ==> credentials_of(config, rejected) is Some,
{
}

/// The (username, token) pair to authenticate to a registry with, if any.
pub fn token_credentials(config: &RegistryConfig, rejected: bool) -> (r: Option<(String, String)>)
    ensures
        match r {
            Some((u, t)) => credentials_of(config@, rejected) == Some((u@, t@)),
            None => credentials_of(config@, rejected) is None,
        },
{
    match &config.auth_token {
        None => None,
        Some(token) => {
            if rejected {
                None
            } else {
                let user = match &config.username {
                    Some(u) => u.clone(),
                    None => {
                        proof {
                            reveal_strlit("token");
                        }
                        let t = crate::config::DEFAULT_AUTH_USERNAME.to_owned();
                        assert(t@ =~= seq!['t', 'o', 'k', 'e', 'n']);
                        t
                    },
                };
                Some((user, token.clone()))
            }
        },
    }
}

/// What `serde_json` reads from a token response body: the error's message
/// when it is not JSON, `Ok(None)` when it has no string `token` field, and
/// the token otherwise.
pub uninterp spec fn json_token_field(body: Seq<char>) -> Result<Option<Seq<char>>, Seq<char>>;

/// Calls `serde_json::from_str` on a token response and reads its `token`
/// field (`Value::get`, `Value::as_str`); the result is named
/// `json_token_field`, the error by its message (`Display`).
#[verifier::external_body]
fn read_token_field(body: &str) -> (r: Result<Option<String>, String>)
    ensures
        match r {
            Err(m) => json_token_field(body@) == Err::<Option<Seq<char>>, Seq<char>>(m@),
            Ok(t) => json_token_field(body@) == Ok::<Option<Seq<char>>, Seq<char>>(opt_view(t)),
        },
{
    match serde_json::from_str::<serde_json::Value>(body) {
        Err(e) => Err(e.to_string()),
        Ok(v) => Ok(v.get("token").and_then(|t| t.as_str()).map(|s| s.to_string())),
    }
}

/// The bearer token that a token endpoint's answer holds, given whether its
/// status is a success, the status and its status line text, and the body.
pub fn token_from_response(success: bool, status: u16, status_text: &str, body: &str) -> (r: Result<
    String,
    RegistryError,
>)
    ensures
        !success ==> (r matches Err(
            RegistryError::TokenRequestFailed { status: st, status_text: tx, body: b },
        ) && st == status && tx@ == status_text@ && b@ == body@),
        success ==> match json_token_field(body@) {
            Err(m) => (r matches Err(RegistryError::InvalidTokenResponse(x)) && x@ == m),
            Ok(None) => r matches Err(RegistryError::MissingToken),
            Ok(Some(t)) => (r matches Ok(v) && v@ == t),
        },
{
    if !success {
        return Err(
            RegistryError::TokenRequestFailed {
                status,
                status_text: status_text.to_owned(),
                body: body.to_owned(),
            },
        );
    }
    match read_token_field(body) {
        Err(m) => Err(RegistryError::InvalidTokenResponse(m)),
        Ok(None) => Err(RegistryError::MissingToken),
        Ok(Some(t)) => Ok(t),
    }
}

/// Registries cap a page of the tag list at this many tags.
pub const OCI_PAGE_SIZE: usize = 1000;
/// A runaway guard: a listing stops after this many tags.
pub const MAX_TAGS_SCANNED: usize = 50000;
/// A request is retried at most this many times.
pub const MAX_RETRY_ATTEMPTS: u32 = 5;
/// Authentication is attempted at most this many times in a row.
pub const MAX_AUTH_ATTEMPTS: u32 = 2;
/// The first wait before a retry, in seconds.
pub const INITIAL_RETRY_DELAY_SECS: u64 = 1;

/// What `u64::from_str` accepts: an optional `+`, then one or more ASCII
/// digits whose value fits in `u64`.
pub open spec fn u64_from_str(s: Seq<char>) -> Option<u64> {
    let d = if s.len() > 0 && s[0] == '+' {
        s.drop_first()
    } else {
        s
    };
    if crate::version::numeric_piece(d) && crate::version::decimal_value(d) <= u64::MAX {
        Some(crate::version::decimal_value(d) as u64)
    } else {
        None
    }
}

/// Reads a decimal number of seconds, as `u64::from_str` does.
pub fn parse_u64(s: &str) -> (r: Option<u64>)
    ensures
        r == u64_from_str(s@),
{
    let cs = chars_of(s);
    let start: usize = if cs.len() > 0 && cs[0] == '+' {
        1
    } else {
        0
    };
    let ghost d = if s@.len() > 0 && s@[0] == '+' {
        s@.drop_first()
    } else {
        s@
    };
    assert(d =~= cs@.subrange(start as int, cs@.len() as int));
    if start >= cs.len() {
        assert(d.len() == 0);
        return None;
    }
    let mut value: u64 = 0;
    let mut i = start;
    while i < cs.len()
        invariant
            start <= i <= cs@.len(),
            cs@ == s@,
            d == cs@.subrange(start as int, cs@.len() as int),
            d == (if s@.len() > 0 && s@[0] == '+' {
                s@.drop_first()
            } else {
                s@
            }),
            forall|k: int| start <= k < i ==> crate::text::is_digit(#[trigger] cs@[k]),
            value == crate::version::decimal_value(cs@.subrange(start as int, i as int)),
        decreases cs@.len() - i,
    {
        let c = cs[i];
        assert(cs@.subrange(start as int, i + 1).drop_last() =~= cs@.subrange(start as int, i as int));
        if !('0' <= c && c <= '9') {
            assert(!crate::text::is_digit(d[i - start]));
            return None;
        }
        let digit = (c as u32 - '0' as u32) as u64;
        let next = match value.checked_mul(10) {
            Some(v) => v.checked_add(digit),
            None => None,
        };
        match next {
            Some(v) => {
                value = v;
            },
            None => {
                assert(crate::version::decimal_value(cs@.subrange(start as int, i + 1)) > u64::MAX);
                proof {
                    assert(d.take(i + 1 - start) =~= cs@.subrange(start as int, i + 1));
                    if crate::version::numeric_piece(d) {
                        lemma_decimal_value_prefix(d, i + 1 - start);
                    }
                }
                return None;
            },
        }
        i = i + 1;
    }
    assert forall|k: int| 0 <= k < d.len() implies crate::text::is_digit(#[trigger] d[k]) by {
        assert(d[k] == cs@[start + k]);
    }
    Some(value)
}

pub proof fn lemma_decimal_value_prefix(d: Seq<char>, k: int)
    requires
        0 <= k <= d.len(),
        forall|i: int| 0 <= i < d.len() ==> crate::text::is_digit(#[trigger] d[i]),
    ensures
        crate::version::decimal_value(d.take(k)) <= crate::version::decimal_value(d),
    decreases d.len(),
{
    if k < d.len() {
        assert(d.drop_last().take(k) =~= d.take(k));
        lemma_decimal_value_prefix(d.drop_last(), k);
    } else {
        assert(d.take(k) =~= d);
    }
}

/// Whether chrono's `DateTime::parse_from_rfc2822` reads `value` as a date.
pub uninterp spec fn rfc2822_date(value: Seq<char>) -> bool;

/// Calls chrono's `DateTime::parse_from_rfc2822` and `Utc::now`: the whole
/// seconds (`TimeDelta::num_seconds`) from now until the date `value` names,
/// when it parses (named `rfc2822_date`). The number depends on the clock,
/// so nothing is stated of it.
#[verifier::external_body]
fn seconds_until_http_date(value: &str) -> (r: Option<i64>)
    ensures
        r is Some <==> rfc2822_date(value@),
{
    match chrono::DateTime::parse_from_rfc2822(value) {
        Err(_) => None,
        Ok(date) => Some(date.signed_duration_since(chrono::Utc::now()).num_seconds()),
    }
}

/// The wait a `Retry-After` header asks for, in seconds: a number of
/// seconds, or an HTTP date still in the future (the seconds until it, read
/// from the clock, turned into a wait by `wait_from_seconds`).
pub fn parse_retry_after(retry_after: &str) -> (r: Option<u64>)
    ensures
        u64_from_str(retry_after@) is Some ==> r == u64_from_str(retry_after@),
        u64_from_str(retry_after@) is None ==> (r matches Some(n) ==> n > 0 && rfc2822_date(
            retry_after@,
        )),
        u64_from_str(retry_after@) is None && !rfc2822_date(retry_after@) ==> r is None,
{
    match parse_u64(retry_after) {
        Some(n) => Some(n),
        None => match seconds_until_http_date(retry_after) {
            Some(w) => wait_from_seconds(w),
            None => None,
        },
    }
}

/// The wait asked for by a date `seconds` from now: that many seconds when
/// the date is still to come, none otherwise.
pub fn wait_from_seconds(seconds: i64) -> (r: Option<u64>)
    ensures
        r == (if seconds > 0 {
            Some(seconds as u64)
        } else {
            None::<u64>
        }),
{
    if seconds > 0 {
        Some(seconds as u64)
    } else {
        None
    }
}

/// What to do after a failed attempt.
#[derive(Debug, PartialEq, Eq, Structural)]
pub enum RetryDecision {
    /// Wait this many seconds and try again.
    Retry { wait_secs: u64 },
    /// Stop and report the failure.
    GiveUp,
}

/// The retry budget of one request: attempts so far and the next back-off.
#[derive(Debug)]
pub struct RetryState {
    pub attempt: u32,
    pub delay_secs: u64,
}

impl RetryState {
    /// A fresh budget: no attempt yet, a one-second back-off.
    pub fn new() -> (r: RetryState)
        ensures
            r.attempt == 0,
            r.delay_secs == INITIAL_RETRY_DELAY_SECS,
    {
        RetryState { attempt: 0, delay_secs: INITIAL_RETRY_DELAY_SECS }
    }

    /// After a transport failure: a transient one (connect, timeout, request
    /// or body) is retried after the back-off, which then doubles, until more
    /// than `MAX_RETRY_ATTEMPTS` attempts have failed; others are not.
    pub fn on_transport_error(&mut self, transient: bool) -> (d: RetryDecision)
        requires
            old(self).attempt <= MAX_RETRY_ATTEMPTS,
        ensures
            final(self).attempt == old(self).attempt + 1,
            (!transient || final(self).attempt > MAX_RETRY_ATTEMPTS) ==> d == RetryDecision::GiveUp
                && final(self).delay_secs == old(self).delay_secs,
            (transient && final(self).attempt <= MAX_RETRY_ATTEMPTS) ==> d == (RetryDecision::Retry {
                wait_secs: old(self).delay_secs,
            }) && final(self).delay_secs == (if old(self).delay_secs * 2 > u64::MAX {
                u64::MAX
            } else {
                (old(self).delay_secs * 2) as u64
            }),
    {
        self.attempt = self.attempt + 1;
        if !transient || self.attempt > MAX_RETRY_ATTEMPTS {
            return RetryDecision::GiveUp;
        }
        let wait = self.delay_secs;
        self.delay_secs = if self.delay_secs > u64::MAX / 2 {
            u64::MAX
        } else {
            self.delay_secs * 2
        };
        RetryDecision::Retry { wait_secs: wait }
    }

    /// After a `429 Too Many Requests`: retried after the wait the server
    /// asked for (else the back-off), the back-off then doubling, until more
    /// than `MAX_RETRY_ATTEMPTS` attempts have failed.
    pub fn on_rate_limited(&mut self, retry_after: Option<u64>) -> (d: RetryDecision)
        requires
            old(self).attempt <= MAX_RETRY_ATTEMPTS,
        ensures
            final(self).attempt == old(self).attempt + 1,
            final(self).attempt > MAX_RETRY_ATTEMPTS ==> d == RetryDecision::GiveUp
                && final(self).delay_secs == old(self).delay_secs,
            final(self).attempt <= MAX_RETRY_ATTEMPTS ==> d == (RetryDecision::Retry {
                wait_secs: match retry_after {
                    Some(w) => w,
                    None => old(self).delay_secs,
                },
            }) && final(self).delay_secs == (if old(self).delay_secs * 2 > u64::MAX {
                u64::MAX
            } else {
                (old(self).delay_secs * 2) as u64
            }),
    {
        self.attempt = self.attempt + 1;
        if self.attempt > MAX_RETRY_ATTEMPTS {
            return RetryDecision::GiveUp;
        }
        let wait = match retry_after {
            Some(w) => w,
            None => self.delay_secs,
        };
        self.delay_secs = if self.delay_secs > u64::MAX / 2 {
            u64::MAX
        } else {
            self.delay_secs * 2
        };
        RetryDecision::Retry { wait_secs: wait }
    }

    /// After a response: a `429 Too Many Requests` is handled as
    /// `on_rate_limited` does, with the wait the response asked for; any other
    /// status ends the request (`None`) and leaves the budget as it was.
    pub fn on_status(&mut self, status: u16, retry_after: Option<u64>) -> (d: Option<RetryDecision>)
        requires
            old(self).attempt <= MAX_RETRY_ATTEMPTS,
        ensures
            status != 429 ==> d is None && final(self).attempt == old(self).attempt
                && final(self).delay_secs == old(self).delay_secs,
            status == 429 ==> final(self).attempt == old(self).attempt + 1,
            status == 429 && final(self).attempt > MAX_RETRY_ATTEMPTS ==> d == Some(
                RetryDecision::GiveUp,
            ) && final(self).delay_secs == old(self).delay_secs,
            status == 429 && final(self).attempt <= MAX_RETRY_ATTEMPTS ==> d == Some(
                RetryDecision::Retry {
                    wait_secs: match retry_after {
                        Some(w) => w,
                        None => old(self).delay_secs,
                    },
                },
            ) && final(self).delay_secs == (if old(self).delay_secs * 2 > u64::MAX {
                u64::MAX
            } else {
                (old(self).delay_secs * 2) as u64
            }),
    {
        if status != 429 {
            return None;
        }
        Some(self.on_rate_limited(retry_after))
    }
}

/// Whether `s` is an absolute `http://` or `https://` address.
pub open spec fn is_absolute_url(s: Seq<char>) -> bool {
    crate::text::starts_with(s, seq!['h', 't', 't', 'p', ':', '/', '/'])
        || crate::text::starts_with(s, seq!['h', 't', 't', 'p', 's', ':', '/', '/'])
}

/// A next-page link resolved against the registry's address.
pub open spec fn resolve_url(base: Seq<char>, next: Seq<char>) -> Seq<char> {
    if is_absolute_url(next) {
        next
    } else {
        base + next
    }
}

/// The address of a tag-list page: `base/v2/repo/tags/list?n=1000`, with
/// `&last=tag` after the first page.
pub open spec fn page_url(base: Seq<char>, repo: Seq<char>, last: Option<Seq<char>>) -> Seq<char> {
    base + seq!['/', 'v', '2', '/'] + repo + seq![
        '/', 't', 'a', 'g', 's', '/', 'l', 'i', 's', 't', '?', 'n', '=', '1', '0', '0', '0',
    ] + match last {
        Some(l) => seq!['&', 'l', 'a', 's', 't', '='] + l,
        None => seq![],
    }
}

/// Where a listing of an image's tags stands.
pub struct ListingView {
    pub registry: Seq<char>,
    pub base_url: Seq<char>,
    pub repo_path: Seq<char>,
    pub last_tag: Option<Seq<char>>,
    pub next_url: Option<Seq<char>>,
    pub url: Seq<char>,
    pub bearer_token: Option<Seq<char>>,
    pub auth_attempts: u32,
    pub tags_scanned: usize,
    pub results: Seq<VersionInfoView>,
}

/// What a listing asks for next.
pub enum StepView {
    Fetch,
    Authenticate(Seq<char>),
    Finished,
    Failed,
}

/// A listing of every tag of an image through the registry API, page by
/// page: the decisions between requests, which the caller performs.
#[derive(Debug)]
pub struct TagListing {
    pub registry: String,
    pub base_url: String,
    pub repo_path: String,
    pub last_tag: Option<String>,
    pub next_url: Option<String>,
    pub url: String,
    pub bearer_token: Option<String>,
    pub auth_attempts: u32,
    pub tags_scanned: usize,
    pub results: Vec<VersionInfo>,
}

impl View for TagListing {
    type V = ListingView;

    open spec fn view(&self) -> ListingView {
        ListingView {
            registry: self.registry@,
            base_url: self.base_url@,
            repo_path: self.repo_path@,
            last_tag: opt_view(self.last_tag),
            next_url: opt_view(self.next_url),
            url: self.url@,
            bearer_token: opt_view(self.bearer_token),
            auth_attempts: self.auth_attempts,
            tags_scanned: self.tags_scanned,
            results: infos_view(self.results@),
        }
    }
}

/// What the listing does next.
#[derive(Debug)]
pub enum ListingStep {
    /// Request the next address (`begin_request`).
    Fetch,
    /// Answer this `WWW-Authenticate` challenge for a bearer token and pass
    /// it to `on_token`.
    Authenticate(String),
    /// The listing is complete; the versions are in `results`.
    Finished,
    /// The listing failed.
    Failed(RegistryError),
}

/// The view of a step.
pub open spec fn step_view(s: ListingStep) -> StepView {
    match s {
        ListingStep::Fetch => StepView::Fetch,
        ListingStep::Authenticate(c) => StepView::Authenticate(c@),
        ListingStep::Finished => StepView::Finished,
        ListingStep::Failed(_) => StepView::Failed,
    }
}

/// The view of a header that may be missing or not visible ASCII (then
/// with the reason it could not be read).
pub open spec fn header_view(h: Option<Result<String, String>>) -> Option<Result<Seq<char>, Seq<char>>> {
    match h {
        None => None,
        Some(Err(m)) => Some(Err(m@)),
        Some(Ok(s)) => Some(Ok(s@)),
    }
}

/// What the listing does with a response to its last request.
pub open spec fn response_step(
    v: ListingView,
    status: u16,
    challenge: Option<Result<Seq<char>, Seq<char>>>,
    link: Option<Seq<char>>,
    body: Seq<char>,
) -> (ListingView, StepView) {
    if status == 401 {
        if v.auth_attempts >= MAX_AUTH_ATTEMPTS {
            (v, StepView::Failed)
        } else {
            match challenge {
                None => (v, StepView::Failed),
                Some(Err(_)) => (v, StepView::Failed),
                Some(Ok(c)) => (v, StepView::Authenticate(c)),
            }
        }
    } else if 200 <= status && status <= 299 {
        let link_next = match link {
            Some(h) => next_page_link(h),
            None => None,
        };
        match json_tag_entries(body) {
            Err(_) => (ListingView { auth_attempts: 0, ..v }, StepView::Failed),
            Ok(en) => {
                let (vs, last, count) = page_of(en);
                let scanned = if v.tags_scanned + count > usize::MAX {
                    usize::MAX
                } else {
                    (v.tags_scanned + count) as usize
                };
                let v1 = ListingView {
                    auth_attempts: 0,
                    tags_scanned: scanned,
                    results: v.results + vs,
                    ..v
                };
                if scanned >= MAX_TAGS_SCANNED {
                    (v1, StepView::Finished)
                } else {
                    match link_next {
                        Some(nx) => {
                            let r = resolve_url(v.base_url, nx);
                            if r == v.url {
                                (v1, StepView::Finished)
                            } else {
                                (ListingView { next_url: Some(r), ..v1 }, StepView::Fetch)
                            }
                        },
                        None => match last {
                            Some(l) => if count == 0 || v.last_tag == Some(l) {
                                (v1, StepView::Finished)
                            } else {
                                (ListingView { last_tag: Some(l), ..v1 }, StepView::Fetch)
                            },
                            None => (v1, StepView::Finished),
                        },
                    }
                }
            },
        }
    } else {
        (v, StepView::Failed)
    }
}

/// The error a failed listing step reports: too many authentication
/// attempts, a challenge that is missing or not visible ASCII, a page that is
/// not JSON, or the status and body of any other failed request.
pub open spec fn listing_failure(
    e: RegistryError,
    v: ListingView,
    status: u16,
    status_text: Seq<char>,
    challenge: Option<Result<Seq<char>, Seq<char>>>,
    body: Seq<char>,
) -> bool {
    if status == 401 {
        if v.auth_attempts >= MAX_AUTH_ATTEMPTS {
            e matches RegistryError::AuthenticationFailed { attempts, registry } && attempts
                == v.auth_attempts && registry@ == v.registry
        } else {
            match challenge {
                None => e is MissingChallenge,
                Some(Err(m)) => (e matches RegistryError::InvalidChallengeEncoding(x) && x@ == m),
                Some(Ok(_)) => false,
            }
        }
    } else if 200 <= status && status <= 299 {
        json_tag_entries(body) matches Err(m) && (e matches RegistryError::InvalidTagList(x) && x@
            == m)
    } else {
        e matches RegistryError::RequestFailed { status: st, status_text: tx, body: b } && st
            == status && tx@ == status_text && b@ == body
    }
}

/// Whether `s` starts with `http://` or `https://`.
fn absolute_url(s: &str) -> (r: bool)
    ensures
        r == is_absolute_url(s@),
{
    let cs = chars_of(s);
    let http = chars_of("http://");
    let https = chars_of("https://");
    proof {
        reveal_strlit("http://");
        reveal_strlit("https://");
    }
    assert(http@ =~= seq!['h', 't', 't', 'p', ':', '/', '/']);
    assert(https@ =~= seq!['h', 't', 't', 'p', 's', ':', '/', '/']);
    crate::text::matches_at(&cs, &http, 0) || crate::text::matches_at(&cs, &https, 0)
}

/// A next-page link resolved against `base`.
fn resolve(base: &str, next: &str) -> (r: String)
    ensures
        r@ == resolve_url(base@, next@),
{
    if absolute_url(next) {
        next.to_owned()
    } else {
        let mut r = base.to_owned();
        r.append(next);
        r
    }
}

impl TagListing {
    /// Starts listing the tags of `image_ref`; fails when its registry is not
    /// configured.
    pub fn start(config: &Config, image_ref: &ImageRef) -> (r: Result<TagListing, RegistryError>)
        ensures
            match r {
                Ok(l) => config@.registries.contains_key(image_ref@.registry) && l@ == (ListingView {
                    registry: image_ref@.registry,
                    base_url: config@.registries[image_ref@.registry].url,
                    repo_path: repository_path(image_ref@),
                    last_tag: None,
                    next_url: None,
                    url: seq![],
                    bearer_token: None,
                    auth_attempts: 0,
                    tags_scanned: 0,
                    results: seq![],
                }),
                Err(e) => !config@.registries.contains_key(image_ref@.registry) && (e matches RegistryError::UnknownRegistry(
                    n,
                ) && n@ == image_ref@.registry),
            },
    {
        let registry_config = match get_registry_config(config, image_ref.registry.as_str()) {
            Ok(c) => c,
            Err(e) => {
                return Err(e);
            },
        };
        let l = TagListing {
            registry: image_ref.registry.clone(),
            base_url: registry_config.url.clone(),
            repo_path: build_repository_path(image_ref),
            last_tag: None,
            next_url: None,
            url: String::new(),
            bearer_token: None,
            auth_attempts: 0,
            tags_scanned: 0,
            results: Vec::new(),
        };
        assert(infos_view(l.results@) =~= Seq::<VersionInfoView>::empty());
        Ok(l)
    }

    /// The address to request next: the pending next-page link, else the
    /// page after the last tag seen.
    pub fn begin_request(&mut self) -> (url: String)
        ensures
            url@ == match old(self)@.next_url {
                Some(n) => resolve_url(old(self)@.base_url, n),
                None => page_url(old(self)@.base_url, old(self)@.repo_path, old(self)@.last_tag),
            },
            final(self)@ == (ListingView { next_url: None, url: url@, ..old(self)@ }),
    {
        let url = match self.next_url.take() {
            Some(n) => resolve(self.base_url.as_str(), n.as_str()),
            None => {
                let mut u = self.base_url.clone();
                u.append("/v2/");
                u.append(self.repo_path.as_str());
                u.append("/tags/list?n=1000");
                match &self.last_tag {
                    Some(l) => {
                        u.append("&last=");
                        u.append(l.as_str());
                    },
                    None => {},
                }
                proof {
                    reveal_strlit("/v2/");
                    reveal_strlit("/tags/list?n=1000");
                    reveal_strlit("&last=");
                }
                assert(u@ =~= page_url(self.base_url@, self.repo_path@, opt_view(self.last_tag)));
                u
            },
        };
        self.url = url.clone();
        url
    }

    /// Takes the response to the last request: its status and status line
    /// text, its `WWW-Authenticate` header (missing, or not visible ASCII,
    /// then with the reason), its `Link` header and its body.
    pub fn on_response(
        &mut self,
        status: u16,
        status_text: &str,
        challenge: Option<Result<String, String>>,
        link: Option<String>,
        body: &str,
    ) -> (step: ListingStep)
        ensures
            (final(self)@, step_view(step)) == response_step(
                old(self)@,
                status,
                header_view(challenge),
                opt_view(link),
                body@,
            ),
            step matches ListingStep::Failed(e) ==> listing_failure(
                e,
                old(self)@,
                status,
                status_text@,
                header_view(challenge),
                body@,
            ),
    {
        if status == 401 {
            if self.auth_attempts >= MAX_AUTH_ATTEMPTS {
                return ListingStep::Failed(
                    RegistryError::AuthenticationFailed {
                        attempts: self.auth_attempts,
                        registry: self.registry.clone(),
                    },
                );
            }
            return match challenge {
                None => ListingStep::Failed(RegistryError::MissingChallenge),
                Some(Err(m)) => ListingStep::Failed(RegistryError::InvalidChallengeEncoding(m)),
                Some(Ok(c)) => ListingStep::Authenticate(c),
            };
        }
        if !(200 <= status && status <= 299) {
            return ListingStep::Failed(
                RegistryError::RequestFailed {
                    status,
                    status_text: status_text.to_owned(),
                    body: body.to_owned(),
                },
            );
        }
        let link_next = match &link {
            Some(h) => parse_link_header(h.as_str()),
            None => None,
        };
        self.auth_attempts = 0;
        let (mut versions, last, count) = match parse_v2_response(body) {
            Ok(page) => page,
            Err(e) => {
                return ListingStep::Failed(e);
            },
        };
        let ghost before = infos_view(self.results@);
        let ghost added = infos_view(versions@);
        self.tags_scanned = if self.tags_scanned > usize::MAX - count {
            usize::MAX
        } else {
            self.tags_scanned + count
        };
        self.results.append(&mut versions);
        assert(infos_view(self.results@) =~= before + added);
        if self.tags_scanned >= MAX_TAGS_SCANNED {
            return ListingStep::Finished;
        }
        match link_next {
            Some(nx) => {
                let r = resolve(self.base_url.as_str(), nx.as_str());
                if r.eq(&self.url) {
                    return ListingStep::Finished;
                }
                self.next_url = Some(r);
                ListingStep::Fetch
            },
            None => match last {
                Some(l) => {
                    let same = match &self.last_tag {
                        Some(t) => t.eq(&l),
                        None => false,
                    };
                    if count == 0 || same {
                        return ListingStep::Finished;
                    }
                    self.last_tag = Some(l);
                    ListingStep::Fetch
                },
                None => ListingStep::Finished,
            },
        }
    }

    /// Takes the bearer token obtained for the last challenge; the request is
    /// then made again.
    pub fn on_token(&mut self, token: String)
        requires
            old(self).auth_attempts < MAX_AUTH_ATTEMPTS,
        ensures
            final(self)@ == (ListingView {
                bearer_token: Some(token@),
                auth_attempts: (old(self).auth_attempts + 1) as u32,
                ..old(self)@
            }),
    {
        self.bearer_token = Some(token);
        self.auth_attempts = self.auth_attempts + 1;
    }
}

/// The registries whose configured credentials a token endpoint refused;
/// they are offered no credentials from then on.
///
/// The names are held in a list viewed as a set rather than in a
/// `HashSet<String>`: vstd specifies `HashSet`'s operations only for elements
/// known to obey its hash table key model (integers, `bool` and boxes of
/// them), and for `String` that fact could only be assumed, which this crate
/// does not do.
#[derive(Debug)]
pub struct RejectedCredentials {
    names: Vec<String>,
}

impl View for RejectedCredentials {
    type V = Set<Seq<char>>;

    closed spec fn view(&self) -> Set<Seq<char>> {
        Set::new(|n: Seq<char>| exists|i: int| 0 <= i < self.names@.len() && self.names@[i]@ == n)
    }
}

impl RejectedCredentials {
    /// No registry yet.
    pub fn new() -> (r: RejectedCredentials)
        ensures
            r@ == Set::<Seq<char>>::empty(),
    {
        let r = RejectedCredentials { names: Vec::new() };
        assert(r@ =~= Set::<Seq<char>>::empty());
        r
    }

    /// Whether the credentials of `registry` were refused.
    pub fn contains(&self, registry: &str) -> (r: bool)
        ensures
            r == self@.contains(registry@),
    {
        let mut i: usize = 0;
        while i < self.names.len()
            invariant
                i <= self.names@.len(),
                forall|j: int| 0 <= j < i ==> self.names@[j]@ != registry@,
            decreases self.names@.len() - i,
        {
            if crate::text::str_eq(self.names[i].as_str(), registry) {
                assert(self@.contains(registry@)) by {
                    assert(self.names@[i as int]@ == registry@);
                }
                return true;
            }
            i = i + 1;
        }
        false
    }

    /// Records that the credentials of `registry` were refused.
    pub fn insert(&mut self, registry: String)
        ensures
            final(self)@ == old(self)@.insert(registry@),
    {
        let ghost before = self.names@;
        self.names.push(registry);
        assert(self@ =~= old(self)@.insert(registry@)) by {
            assert forall|n: Seq<char>| self@.contains(n) implies old(self)@.insert(registry@).contains(n) by {
                let i = choose|i: int| 0 <= i < self.names@.len() && self.names@[i]@ == n;
                if i < before.len() {
                    assert(before[i]@ == n);
                }
            }
            assert forall|n: Seq<char>| old(self)@.insert(registry@).contains(n) implies self@.contains(n) by {
                if n == registry@ {
                    assert(self.names@[before.len() as int]@ == n);
                } else {
                    let i = choose|i: int| 0 <= i < before.len() && before[i]@ == n;
                    assert(self.names@[i]@ == n);
                }
            }
        }
    }
}

/// Where a token is requested and with which credentials.
#[derive(Debug)]
pub struct TokenRequest {
    pub url: String,
    pub credentials: Option<(String, String)>,
}

impl RejectedCredentials {
    /// What follows a refused token request for `registry`: when it offered
    /// credentials, the registry is recorded as refusing them and the same
    /// address is asked anonymously; an anonymous request that is refused is
    /// final.
    pub fn on_refusal(&mut self, registry: &str, request: &TokenRequest) -> (r: Option<TokenRequest>)
        ensures
            match request.credentials {
                Some(_) => final(self)@ == old(self)@.insert(registry@) && (r matches Some(t)
                    && t.url@ == request.url@ && t.credentials is None),
                None => final(self)@ == old(self)@ && r is None,
            },
    {
        match request.after_refusal() {
            Some(anonymous) => {
                self.insert(registry.to_owned());
                Some(anonymous)
            },
            None => None,
        }
    }
}

/// Once a registry's credentials were refused they are never offered again:
/// the refused set only grows (`insert`, `on_refusal`), and a token request
/// for a registry in it (`token_request` with `rejected` read from the set)
/// carries no credentials, whatever the registry's configuration.
pub proof fn refused_credentials_are_never_offered_again(
    refused: Set<Seq<char>>,
    later: Set<Seq<char>>,
    registry: Seq<char>,
    config: RegistryConfigView,
)
    requires
        refused.insert(registry).subset_of(later),
    ensures
        credentials_of(config, later.contains(registry)) is None,
{
    assert(refused.insert(registry).contains(registry));
}

impl TokenRequest {
    /// What follows a refused request: the same address asked anonymously
    /// when credentials were offered; nothing more otherwise.
    pub fn after_refusal(&self) -> (r: Option<TokenRequest>)
        ensures
            match r {
                Some(t) => self.credentials is Some && t.url@ == self.url@ && t.credentials is None,
                None => self.credentials is None,
            },
    {
        match &self.credentials {
            Some(_) => Some(TokenRequest { url: self.url.clone(), credentials: None }),
            None => None,
        }
    }
}

/// The token request that answers a `WWW-Authenticate` challenge: its
/// realm, service and scope make the address, and the registry's credentials
/// are offered unless they were rejected before.
pub fn token_request(challenge: &str, config: &RegistryConfig, rejected: bool) -> (r: Result<
    TokenRequest,
    RegistryError,
>)
    ensures
        match r {
            Ok(t) => {
                let realm = seq!['r', 'e', 'a', 'l', 'm'];
                let service = seq!['s', 'e', 'r', 'v', 'i', 'c', 'e'];
                let scope = seq!['s', 'c', 'o', 'p', 'e'];
                &&& auth_param(challenge@, realm) is Some
                &&& auth_param(challenge@, service) is Some
                &&& auth_param(challenge@, scope) is Some
                &&& t.url@ == token_url_of(
                    auth_param(challenge@, realm)->0,
                    auth_param(challenge@, service)->0,
                    auth_param(challenge@, scope)->0,
                )
                &&& match t.credentials {
                    Some((u, k)) => credentials_of(config@, rejected) == Some((u@, k@)),
                    None => credentials_of(config@, rejected) is None,
                }
            },
            Err(e) => {
                let realm = seq!['r', 'e', 'a', 'l', 'm'];
                let service = seq!['s', 'e', 'r', 'v', 'i', 'c', 'e'];
                let scope = seq!['s', 'c', 'o', 'p', 'e'];
                e matches RegistryError::MissingChallengeParam { param: p, challenge: c } && c@
                    == challenge@ && if auth_param(challenge@, realm) is None {
                    p@ == realm
                } else if auth_param(challenge@, service) is None {
                    p@ == service
                } else {
                    auth_param(challenge@, scope) is None && p@ == scope
                }
            },
        },
{
    proof {
        reveal_strlit("realm");
        reveal_strlit("service");
        reveal_strlit("scope");
    }
    assert("realm"@ =~= seq!['r', 'e', 'a', 'l', 'm']);
    assert("service"@ =~= seq!['s', 'e', 'r', 'v', 'i', 'c', 'e']);
    assert("scope"@ =~= seq!['s', 'c', 'o', 'p', 'e']);
    let realm = match extract_auth_param(challenge, "realm") {
        Ok(v) => v,
        Err(e) => {
            return Err(RegistryError::MissingChallengeParam { param: e.param, challenge: e.challenge });
        },
    };
    let service = match extract_auth_param(challenge, "service") {
        Ok(v) => v,
        Err(e) => {
            return Err(RegistryError::MissingChallengeParam { param: e.param, challenge: e.challenge });
        },
    };
    let scope = match extract_auth_param(challenge, "scope") {
        Ok(v) => v,
        Err(e) => {
            return Err(RegistryError::MissingChallengeParam { param: e.param, challenge: e.challenge });
        },
    };
    let url = token_url(realm.as_str(), service.as_str(), scope.as_str());
    Ok(TokenRequest { url, credentials: token_credentials(config, rejected) })
}

} // verus!
