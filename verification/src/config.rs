//! Configuration of the updater.
use vstd::prelude::*;
use crate::text::{chars_of, contains_seq, contains_str, push_char, push_chars, str_eq};
use crate::version::opt_view;

verus! {

broadcast use vstd::string::group_string_axioms;

/// How the target version of an image is chosen.
#[derive(Clone, Copy, Debug, PartialEq, Eq, Structural)]
pub enum UpdateStrategy {
    /// The latest patch of the newest release line below the latest one.
    LatestPatchOfPreviousMinor,
    /// The latest version available.
    Latest,
}

impl Default for UpdateStrategy {
    fn default() -> (r: Self)
        ensures
            r == UpdateStrategy::LatestPatchOfPreviousMinor,
    {
        UpdateStrategy::LatestPatchOfPreviousMinor
    }
}

/// Username used with `auth_token` when a registry config does not set one.
pub const DEFAULT_AUTH_USERNAME: &'static str = "token";

/// What a registry entry holds.
pub struct RegistryConfigView {
    pub url: Seq<char>,
    pub auth_token: Option<Seq<char>>,
    pub username: Option<Seq<char>>,
}

/// Where a registry is reached and how to authenticate to it.
#[derive(Debug)]
pub struct RegistryConfig {
    pub url: String,
    pub auth_token: Option<String>,
    /// Basic-auth username paired with `auth_token` when exchanging a registry
    /// challenge for a bearer token. ghcr.io and GitLab ignore it (the token
    /// carries the identity), hence the "token" default; Docker Hub validates it
    /// and rejects anything but the real account name.
    pub username: Option<String>,
}

impl View for RegistryConfig {
    type V = RegistryConfigView;

    open spec fn view(&self) -> RegistryConfigView {
        RegistryConfigView {
            url: self.url@,
            auth_token: opt_view(self.auth_token),
            username: opt_view(self.username),
        }
    }
}

impl RegistryConfig {
    /// A copy of this entry.
    pub fn copy(&self) -> (r: RegistryConfig)
        ensures
            r@ == self@,
    {
        RegistryConfig {
            url: self.url.clone(),
            auth_token: crate::version::clone_opt_string(&self.auth_token),
            username: crate::version::clone_opt_string(&self.username),
        }
    }
}

/// The map that a list of distinct-keyed entries stands for.
pub open spec fn entries_map(s: Seq<(String, RegistryConfig)>) -> Map<
    Seq<char>,
    RegistryConfigView,
>
    decreases s.len(),
{
    if s.len() == 0 {
        Map::empty()
    } else {
        entries_map(s.drop_last()).insert(s.last().0@, s.last().1@)
    }
}

/// No two entries share a name.
pub open spec fn distinct_names(s: Seq<(String, RegistryConfig)>) -> bool {
    forall|i: int, j: int| 0 <= i < j < s.len() ==> #[trigger] s[i].0@ != #[trigger] s[j].0@
}

/// Registry entries by name: a map from registry names to their entries.
///
/// The entries are held in a list whose names are all different (the type's
/// invariant) rather than in a `HashMap<String, RegistryConfig>`: vstd
/// specifies `HashMap`'s operations only for keys known to obey its hash
/// table key model (integers, `bool` and boxes of them), and for `String`
/// keys that fact could only be assumed, which this crate does not do.
#[derive(Debug)]
pub struct Registries {
    entries: Vec<(String, RegistryConfig)>,
}

pub proof fn lemma_entries_map(s: Seq<(String, RegistryConfig)>)
    requires
        distinct_names(s),
    ensures
        forall|k: Seq<char>|
            #[trigger] entries_map(s).contains_key(k) <==> exists|i: int|
                0 <= i < s.len() && #[trigger] s[i].0@ == k,
        forall|i: int| 0 <= i < s.len() ==> #[trigger] entries_map(s)[s[i].0@] == s[i].1@,
    decreases s.len(),
{
    if s.len() > 0 {
        let p = s.drop_last();
        assert(distinct_names(p)) by {
            assert forall|i: int, j: int| 0 <= i < j < p.len() implies #[trigger] p[i].0@
                != #[trigger] p[j].0@ by {
                assert(p[i] == s[i] && p[j] == s[j]);
            }
        }
        lemma_entries_map(p);
        assert forall|k: Seq<char>|
            #[trigger] entries_map(s).contains_key(k) <==> exists|i: int|
                0 <= i < s.len() && #[trigger] s[i].0@ == k by {
            if entries_map(p).contains_key(k) {
                let i = choose|i: int| 0 <= i < p.len() && #[trigger] p[i].0@ == k;
                assert(s[i] == p[i]);
            }
            if exists|i: int| 0 <= i < s.len() && #[trigger] s[i].0@ == k {
                let i = choose|i: int| 0 <= i < s.len() && #[trigger] s[i].0@ == k;
                if i < s.len() - 1 {
                    assert(p[i] == s[i]);
                }
            }
        }
        assert forall|i: int| 0 <= i < s.len() implies #[trigger] entries_map(s)[s[i].0@]
            == s[i].1@ by {
            if i < s.len() - 1 {
                assert(p[i] == s[i]);
                assert(s[i].0@ != s[s.len() - 1].0@);
                assert(entries_map(p)[p[i].0@] == p[i].1@);
            }
        }
    }
}

impl Registries {
    #[verifier::type_invariant]
    spec fn distinct(&self) -> bool {
        distinct_names(self.entries@)
    }

    /// The entries by name.
    pub closed spec fn map(&self) -> Map<Seq<char>, RegistryConfigView> {
        entries_map(self.entries@)
    }

    /// No entries.
    pub fn new() -> (r: Registries)
        ensures
            r.map() == Map::<Seq<char>, RegistryConfigView>::empty(),
    {
        Registries { entries: Vec::new() }
    }

    /// Where the entry named `name` stands in the list.
    fn position(&self, name: &str) -> (r: Option<usize>)
        ensures
            match r {
                Some(i) => i < self.entries@.len() && self.entries@[i as int].0@ == name@,
                None => forall|i: int|
                    0 <= i < self.entries@.len() ==> #[trigger] self.entries@[i].0@ != name@,
            },
    {
        let mut i: usize = 0;
        while i < self.entries.len()
            invariant
                i <= self.entries@.len(),
                forall|j: int| 0 <= j < i ==> #[trigger] self.entries@[j].0@ != name@,
            decreases self.entries@.len() - i,
        {
            if str_eq(self.entries[i].0.as_str(), name) {
                return Some(i);
            }
            i = i + 1;
        }
        None
    }

    /// Whether an entry is named `name`.
    pub fn contains_key(&self, name: &str) -> (r: bool)
        ensures
            r == self.map().contains_key(name@),
    {
        proof {
            use_type_invariant(self);
            lemma_entries_map(self.entries@);
        }
        self.position(name).is_some()
    }

    /// The entry named `name`.
    pub fn get(&self, name: &str) -> (r: Option<&RegistryConfig>)
        ensures
            match r {
                Some(c) => self.map().contains_key(name@) && self.map()[name@] == c@,
                None => !self.map().contains_key(name@),
            },
    {
        proof {
            use_type_invariant(self);
            lemma_entries_map(self.entries@);
        }
        match self.position(name) {
            Some(i) => Some(&self.entries[i].1),
            None => None,
        }
    }

    /// The number of entries.
    pub fn len(&self) -> (n: usize)
        ensures
            n == self.map().len(),
    {
        proof {
            use_type_invariant(self);
            lemma_entries_map_len(self.entries@);
        }
        self.entries.len()
    }

    /// Sets the entry named `name`, replacing an entry of that name.
    pub fn insert(&mut self, name: String, config: RegistryConfig)
        ensures
            final(self).map() == old(self).map().insert(name@, config@),
    {
        proof {
            use_type_invariant(&*self);
        }
        let pos = self.position(name.as_str());
        let ghost old_entries = self.entries@;
        let mut entries = Vec::new();
        std::mem::swap(&mut entries, &mut self.entries);
        match pos {
            Some(i) => {
                entries.set(i, (name, config));
                proof {
                    lemma_entries_map(old_entries);
                    assert(distinct_names(entries@)) by {
                        assert forall|a: int, b: int| 0 <= a < b < entries@.len() implies #[trigger] entries@[a].0@
                            != #[trigger] entries@[b].0@ by {
                            assert(old_entries[a].0@ != old_entries[b].0@);
                        }
                    }
                    lemma_entries_map(entries@);
                    assert(entries_map(entries@) =~= entries_map(old_entries).insert(
                        name@,
                        config@,
                    )) by {
                        assert forall|k: Seq<char>| #[trigger] entries_map(entries@).contains_key(k)
                            implies entries_map(entries@)[k] == entries_map(old_entries).insert(
                            name@,
                            config@,
                        )[k] by {
                            let j = choose|j: int| 0 <= j < entries@.len() && #[trigger] entries@[j].0@ == k;
                            if j != i {
                                assert(entries@[j] == old_entries[j]);
                            }
                        }
                        assert forall|k: Seq<char>| #[trigger] entries_map(old_entries).insert(
                            name@,
                            config@,
                        ).contains_key(k) implies entries_map(entries@).contains_key(k) by {
                            if k != name@ {
                                let j = choose|j: int| 0 <= j < old_entries.len() && #[trigger] old_entries[j].0@ == k;
                                assert(entries@[j] == old_entries[j]);
                            } else {
                                assert(entries@[i as int].0@ == k);
                            }
                        }
                    }
                }
            },
            None => {
                entries.push((name, config));
                assert(entries@.drop_last() =~= old_entries);
                assert(distinct_names(entries@)) by {
                    assert forall|a: int, b: int| 0 <= a < b < entries@.len() implies #[trigger] entries@[a].0@
                        != #[trigger] entries@[b].0@ by {
                        if b < old_entries.len() {
                            assert(entries@[a] == old_entries[a] && entries@[b] == old_entries[b]);
                        } else {
                            assert(entries@[a] == old_entries[a]);
                        }
                    }
                }
            },
        }
        self.entries = entries;
    }
}

pub proof fn lemma_entries_map_len(s: Seq<(String, RegistryConfig)>)
    requires
        distinct_names(s),
    ensures
        entries_map(s).dom().finite(),
        entries_map(s).len() == s.len(),
    decreases s.len(),
{
    if s.len() > 0 {
        let p = s.drop_last();
        assert(distinct_names(p)) by {
            assert forall|i: int, j: int| 0 <= i < j < p.len() implies #[trigger] p[i].0@
                != #[trigger] p[j].0@ by {
                assert(p[i] == s[i] && p[j] == s[j]);
            }
        }
        lemma_entries_map_len(p);
        lemma_entries_map(p);
        assert(!entries_map(p).contains_key(s.last().0@)) by {
            if entries_map(p).contains_key(s.last().0@) {
                let i = choose|i: int| 0 <= i < p.len() && #[trigger] p[i].0@ == s.last().0@;
                assert(s[i] == p[i]);
            }
        }
    }
}

/// An entry whose token is empty (a variable that expanded to nothing)
/// holds no token.
pub open spec fn without_empty_token(c: RegistryConfigView) -> RegistryConfigView {
    if c.auth_token == Some(Seq::<char>::empty()) {
        RegistryConfigView { auth_token: None, ..c }
    } else {
        c
    }
}

pub proof fn lemma_entries_map_values(
    s: Seq<(String, RegistryConfig)>,
    t: Seq<(String, RegistryConfig)>,
)
    requires
        s.len() == t.len(),
        forall|i: int|
            0 <= i < s.len() ==> #[trigger] t[i].0@ == s[i].0@ && t[i].1@ == without_empty_token(
                s[i].1@,
            ),
    ensures
        entries_map(t) =~= entries_map(s).map_values(|c: RegistryConfigView| without_empty_token(c)),
    decreases s.len(),
{
    if s.len() > 0 {
        lemma_entries_map_values(s.drop_last(), t.drop_last());
        assert(t.last() == t[t.len() - 1]);
    }
}

impl Registries {
    /// The entries, in the order they were first inserted.
    pub fn as_slice(&self) -> (r: &[(String, RegistryConfig)])
        ensures
            entries_map(r@) == self.map(),
            distinct_names(r@),
    {
        proof {
            use_type_invariant(self);
        }
        self.entries.as_slice()
    }

    /// Drops every token that is the empty string.
    pub fn clear_empty_tokens(&mut self)
        ensures
            final(self).map() == old(self).map().map_values(
                |c: RegistryConfigView| without_empty_token(c),
            ),
    {
        proof {
            use_type_invariant(&*self);
        }
        let ghost old_entries = self.entries@;
        let mut entries: Vec<(String, RegistryConfig)> = Vec::new();
        std::mem::swap(&mut entries, &mut self.entries);
        let mut out: Vec<(String, RegistryConfig)> = Vec::new();
        let n = entries.len();
        let mut i: usize = 0;
        while i < n
            invariant
                i <= n == entries@.len(),
                entries@ == old_entries,
                out@.len() == i,
                forall|j: int|
                    0 <= j < i ==> #[trigger] out@[j].0@ == old_entries[j].0@ && out@[j].1@
                        == without_empty_token(old_entries[j].1@),
            decreases n - i,
        {
            let (name, cfg) = (&entries[i].0, &entries[i].1);
            let empty = match &cfg.auth_token {
                Some(t) => t.as_str().is_empty(),
                None => false,
            };
            proof {
                if cfg.auth_token is Some {
                    assert(empty == (cfg.auth_token->0@ =~= Seq::<char>::empty()));
                }
            }
            let mut c = cfg.copy();
            if empty {
                c.auth_token = None;
            }
            out.push((name.clone(), c));
            i = i + 1;
        }
        proof {
            lemma_entries_map_values(old_entries, out@);
            assert(distinct_names(out@)) by {
                assert forall|a: int, b: int| 0 <= a < b < out@.len() implies #[trigger] out@[a].0@
                    != #[trigger] out@[b].0@ by {
                    assert(old_entries[a].0@ != old_entries[b].0@);
                }
            }
        }
        self.entries = out;
    }
}

/// What a configuration holds.
pub struct ConfigView {
    pub compose_paths: Seq<Seq<char>>,
    pub schedule: Seq<char>,
    pub registries: Map<Seq<char>, RegistryConfigView>,
    pub update_strategy: UpdateStrategy,
    pub ignore_images: Seq<Seq<char>>,
    pub dry_run: bool,
}

/// The views of a list of strings.
pub open spec fn strings_view(s: Seq<String>) -> Seq<Seq<char>> {
    s.map_values(|x: String| x@)
}

/// The configuration of the updater.
#[derive(Debug)]
pub struct Config {
    /// Files and directories to scan for compose files.
    pub compose_paths: Vec<String>,
    /// The cron expression of the update schedule.
    pub schedule: String,
    pub registries: Registries,
    pub update_strategy: UpdateStrategy,
    /// Images that contain any of these are left alone.
    pub ignore_images: Vec<String>,
    /// Report what would change without writing.
    pub dry_run: bool,
}

impl View for Config {
    type V = ConfigView;

    open spec fn view(&self) -> ConfigView {
        ConfigView {
            compose_paths: strings_view(self.compose_paths@),
            schedule: self.schedule@,
            registries: self.registries.map(),
            update_strategy: self.update_strategy,
            ignore_images: strings_view(self.ignore_images@),
            dry_run: self.dry_run,
        }
    }
}

/// `https://registry-1.docker.io`
pub open spec fn docker_hub_url() -> Seq<char> {
    seq![
        'h', 't', 't', 'p', 's', ':', '/', '/', 'r', 'e', 'g', 'i', 's', 't', 'r', 'y', '-',
        '1', '.', 'd', 'o', 'c', 'k', 'e', 'r', '.', 'i', 'o',
    ]
}

/// `ghcr.io`
pub open spec fn ghcr() -> Seq<char> {
    seq!['g', 'h', 'c', 'r', '.', 'i', 'o']
}

/// `https://ghcr.io`
pub open spec fn ghcr_url() -> Seq<char> {
    seq!['h', 't', 't', 'p', 's', ':', '/', '/', 'g', 'h', 'c', 'r', '.', 'i', 'o']
}

/// The default registries: Docker Hub without a token and ghcr.io with the
/// GitHub token, if one is set.
pub open spec fn default_registries(github_token: Option<Seq<char>>) -> Map<
    Seq<char>,
    RegistryConfigView,
> {
    Map::empty().insert(
        crate::registry::docker_hub(),
        RegistryConfigView { url: docker_hub_url(), auth_token: None, username: None },
    ).insert(ghcr(), RegistryConfigView { url: ghcr_url(), auth_token: github_token, username: None })
}

/// `0 0 2 * * *`: daily at 02:00.
pub open spec fn default_schedule() -> Seq<char> {
    seq!['0', ' ', '0', ' ', '2', ' ', '*', ' ', '*', ' ', '*']
}

/// A `String` holding a literal.
fn owned(s: &str) -> (r: String)
    ensures
        r@ == s@,
{
    s.to_owned()
}

/// The default registries.
fn default_registry_list(github_token: Option<String>) -> (r: Registries)
    ensures
        r.map() == default_registries(opt_view(github_token)),
{
    let mut registries = Registries::new();
    proof {
        reveal_strlit("docker.io");
        reveal_strlit("https://registry-1.docker.io");
        reveal_strlit("ghcr.io");
        reveal_strlit("https://ghcr.io");
    }
    let hub = owned("docker.io");
    let hub_url = owned("https://registry-1.docker.io");
    assert(hub@ == crate::registry::docker_hub());
    assert(hub_url@ == docker_hub_url());
    registries.insert(hub, RegistryConfig { url: hub_url, auth_token: None, username: None });
    let gh = owned("ghcr.io");
    let gh_url = owned("https://ghcr.io");
    assert(gh@ == ghcr());
    assert(gh_url@ == ghcr_url());
    registries.insert(gh, RegistryConfig { url: gh_url, auth_token: github_token, username: None });
    registries
}

impl Config {
    /// The default configuration, with `github_token` (the value of
    /// `GITHUB_TOKEN`, read by the caller) as the token of ghcr.io: the
    /// current directory as the only compose path, daily at 02:00, Docker Hub
    /// and ghcr.io as registries, the `LatestPatchOfPreviousMinor` strategy,
    /// nothing ignored and writes enabled.
    pub fn defaults(github_token: Option<String>) -> (c: Config)
        ensures
            c@.compose_paths == seq![seq!['.']],
            c@.schedule == default_schedule(),
            c@.registries == default_registries(opt_view(github_token)),
            c@.update_strategy == UpdateStrategy::LatestPatchOfPreviousMinor,
            c@.ignore_images.len() == 0,
            !c@.dry_run,
    {
        let mut compose_paths = Vec::new();
        compose_paths.push(owned("."));
        let schedule = owned("0 0 2 * * *");
        proof {
            reveal_strlit(".");
            reveal_strlit("0 0 2 * * *");
        }
        let c = Config {
            compose_paths,
            schedule,
            registries: default_registry_list(github_token),
            update_strategy: UpdateStrategy::LatestPatchOfPreviousMinor,
            ignore_images: Vec::new(),
            dry_run: false,
        };
        assert(c.compose_paths@.len() == 1);
        assert(c.compose_paths@[0]@ =~= seq!['.']);
        assert(c@.compose_paths =~= seq![seq!['.']]);
        assert(c@.schedule =~= default_schedule());
        c
    }

    /// Whether `image` contains any of the ignore patterns.
    pub fn is_image_ignored(&self, image: &str) -> (r: bool)
        ensures
            r == exists|i: int|
                0 <= i < self.ignore_images@.len() && contains_seq(
                    image@,
                    #[trigger] self.ignore_images@[i]@,
                ),
    {
        let mut i: usize = 0;
        while i < self.ignore_images.len()
            invariant
                i <= self.ignore_images@.len(),
                forall|j: int|
                    0 <= j < i ==> !contains_seq(image@, #[trigger] self.ignore_images@[j]@),
            decreases self.ignore_images@.len() - i,
        {
            if contains_str(image, self.ignore_images[i].as_str()) {
                return true;
            }
            i = i + 1;
        }
        false
    }

    /// Treats a registry `auth_token` that expanded to an empty string (an
    /// unset `${TOKEN}`) as no token at all, so that access falls back to
    /// anonymous tokens instead of authenticating with an empty one.
    pub fn normalize_auth_tokens(&mut self)
        ensures
            final(self)@ == (ConfigView {
                registries: old(self)@.registries.map_values(
                    |c: RegistryConfigView| without_empty_token(c),
                ),
                ..old(self)@
            }),
    {
        self.registries.clear_empty_tokens();
    }

    /// A `registries` block in the config file replaces the defaults rather
    /// than merging with them; puts the defaults back for every name the file
    /// did not set, an explicit entry always winning.
    pub fn restore_missing_default_registries(&mut self, github_token: Option<String>)
        ensures
            final(self)@ == (ConfigView {
                registries: default_registries(opt_view(github_token)).union_prefer_right(
                    old(self)@.registries,
                ),
                ..old(self)@
            }),
    {
        let defaults = default_registry_list(github_token);
        let list = defaults.as_slice();
        let mut regs = Registries::new();
        std::mem::swap(&mut regs, &mut self.registries);
        let ghost start = regs.map();
        let mut i: usize = 0;
        while i < list.len()
            invariant
                i <= list@.len(),
                entries_map(list@) == default_registries(opt_view(github_token)),
                distinct_names(list@),
                regs.map() == entries_map(list@.take(i as int)).union_prefer_right(start),
            decreases list@.len() - i,
        {
            let (name, cfg) = (&list[i].0, &list[i].1);
            let ghost before = list@.take(i as int);
            let ghost after = list@.take(i + 1);
            assert(after.drop_last() =~= before);
            assert(after.last() == list@[i as int]);
            assert(distinct_names(before)) by {
                assert forall|a: int, b: int| 0 <= a < b < before.len() implies #[trigger] before[a].0@
                    != #[trigger] before[b].0@ by {
                    assert(before[a] == list@[a] && before[b] == list@[b]);
                }
            }
            proof {
                lemma_entries_map(before);
            }
            assert(!entries_map(before).contains_key(name@)) by {
                if entries_map(before).contains_key(name@) {
                    let j = choose|j: int| 0 <= j < before.len() && #[trigger] before[j].0@ == name@;
                    assert(list@[j].0@ == list@[i as int].0@);
                }
            }
            if !regs.contains_key(name.as_str()) {
                regs.insert(name.clone(), cfg.copy());
                assert(regs.map() =~= entries_map(after).union_prefer_right(start));
            } else {
                assert(regs.map() =~= entries_map(after).union_prefer_right(start));
            }
            i = i + 1;
        }
        assert(list@.take(list@.len() as int) =~= list@);
        self.registries = regs;
    }

    /// What loading does after the file has been read, its environment
    /// variables expanded and its YAML parsed: empty tokens are dropped, then
    /// the default registries the file left out are put back.
    pub fn finish_loading(&mut self, github_token: Option<String>)
        ensures
            final(self)@ == (ConfigView {
                registries: default_registries(opt_view(github_token)).union_prefer_right(
                    old(self)@.registries.map_values(|c: RegistryConfigView| without_empty_token(c)),
                ),
                ..old(self)@
            }),
    {
        self.normalize_auth_tokens();
        self.restore_missing_default_registries(github_token);
    }
}

/// The value of the first variable named `name` in `env`.
pub open spec fn env_lookup(env: Seq<(Seq<char>, Seq<char>)>, name: Seq<char>) -> Option<
    Seq<char>,
>
    decreases env.len(),
{
    if env.len() == 0 {
        None
    } else if env[0].0 == name {
        Some(env[0].1)
    } else {
        env_lookup(env.drop_first(), name)
    }
}

/// The views of a list of variables and values.
pub open spec fn env_view(env: Seq<(String, String)>) -> Seq<(Seq<char>, Seq<char>)> {
    env.map_values(|p: (String, String)| (p.0@, p.1@))
}

/// A character that can start a variable name in `$NAME`.
pub open spec fn is_var_start(c: char) -> bool {
    ('A' <= c && c <= 'Z') || ('a' <= c && c <= 'z') || c == '_'
}

/// A character that can continue a variable name in `$NAME`.
pub open spec fn is_var_char(c: char) -> bool {
    is_var_start(c) || ('0' <= c && c <= '9')
}

/// The first `}` at or after `i`, or the length.
pub open spec fn brace_from(s: Seq<char>, i: int) -> int
    decreases s.len() - i,
{
    if 0 <= i < s.len() && s[i] != '}' {
        brace_from(s, i + 1)
    } else {
        i
    }
}

/// The end of the run of variable-name characters that starts at `i`.
pub open spec fn var_end(s: Seq<char>, i: int) -> int
    decreases s.len() - i,
{
    if 0 <= i < s.len() && is_var_char(s[i]) {
        var_end(s, i + 1)
    } else {
        i
    }
}

pub proof fn lemma_brace_from(s: Seq<char>, i: int)
    requires
        0 <= i <= s.len(),
    ensures
        i <= brace_from(s, i) <= s.len(),
    decreases s.len() - i,
{
    if i < s.len() && s[i] != '}' {
        lemma_brace_from(s, i + 1);
    }
}

pub proof fn lemma_var_end(s: Seq<char>, i: int)
    requires
        0 <= i <= s.len(),
    ensures
        i <= var_end(s, i) <= s.len(),
    decreases s.len() - i,
{
    if i < s.len() && is_var_char(s[i]) {
        lemma_var_end(s, i + 1);
    }
}

/// What a variable reference expands to: the variable's value, or nothing
/// when it is not set.
pub open spec fn var_value(env: Seq<(Seq<char>, Seq<char>)>, name: Seq<char>) -> Seq<char> {
    match env_lookup(env, name) {
        Some(v) => v,
        None => seq![],
    }
}

/// `s` from position `i` on, with every `${NAME}` (a non-empty name without
/// `}`) and every `$NAME` (a letter or `_`, then letters, digits and `_`)
/// replaced by the variable's value, scanning from left to right.
pub open spec fn expand_from(s: Seq<char>, i: int, env: Seq<(Seq<char>, Seq<char>)>) -> Seq<
    char,
>
    decreases s.len() - i,
{
    if i < 0 || i >= s.len() {
        seq![]
    } else if s[i] == '$' && i + 1 < s.len() && s[i + 1] == '{' && brace_from(s, i + 2) < s.len()
        && brace_from(s, i + 2) > i + 2 {
        proof {
            lemma_brace_from(s, i + 2);
        }
        var_value(env, s.subrange(i + 2, brace_from(s, i + 2))) + expand_from(
            s,
            brace_from(s, i + 2) + 1,
            env,
        )
    } else if s[i] == '$' && i + 1 < s.len() && is_var_start(s[i + 1]) {
        proof {
            lemma_var_end(s, i + 2);
        }
        var_value(env, s.subrange(i + 1, var_end(s, i + 2))) + expand_from(
            s,
            var_end(s, i + 2),
            env,
        )
    } else {
        seq![s[i]] + expand_from(s, i + 1, env)
    }
}

/// The value of the variable named `cs[from..to]` in `env`.
fn lookup_var<'a>(env: &'a Vec<(String, String)>, cs: &Vec<char>, from: usize, to: usize) -> (r:
    Option<&'a String>)
    requires
        from <= to <= cs@.len(),
    ensures
        match r {
            Some(v) => env_lookup(env_view(env@), cs@.subrange(from as int, to as int)) == Some(
                v@,
            ),
            None => env_lookup(env_view(env@), cs@.subrange(from as int, to as int)) is None,
        },
{
    let name = crate::text::string_of(cs, from, to);
    let ghost e = env_view(env@);
    let mut i: usize = 0;
    assert(e.skip(0) =~= e);
    while i < env.len()
        invariant
            i <= env@.len(),
            e == env_view(env@),
            name@ == cs@.subrange(from as int, to as int),
            env_lookup(e, name@) == env_lookup(e.skip(i as int), name@),
        decreases env@.len() - i,
    {
        assert(e.skip(i as int)[0] == (env@[i as int].0@, env@[i as int].1@));
        assert(e.skip(i as int).drop_first() =~= e.skip(i + 1));
        if env[i].0.eq(&name) {
            return Some(&env[i].1);
        }
        i = i + 1;
    }
    assert(e.skip(i as int) =~= Seq::<(Seq<char>, Seq<char>)>::empty());
    None
}

impl Config {
    /// Replaces `${NAME}` and `$NAME` in `content` by the values of the
    /// variables in `env` (the process environment, as read by the caller);
    /// a variable that is not set expands to the empty string.
    pub fn expand_env_vars(content: &str, env: &Vec<(String, String)>) -> (r: String)
        ensures
            r@ == expand_from(content@, 0, env_view(env@)),
    {
        let cs = chars_of(content);
        let ghost s = cs@;
        let ghost e = env_view(env@);
        let n = cs.len();
        let mut out = String::new();
        let mut i: usize = 0;
        while i < n
            invariant
                s == cs@,
                n == s.len(),
                e == env_view(env@),
                i <= n,
                out@ + expand_from(s, i as int, e) == expand_from(s, 0, e),
            decreases n - i,
        {
            let mut handled = false;
            if cs[i] == '$' && i + 1 < n && cs[i + 1] == '{' {
                proof {
                    lemma_brace_from(s, i + 2);
                }
                let mut j = i + 2;
                while j < n && cs[j] != '}'
                    invariant
                        i + 2 <= j <= n,
                        s == cs@,
                        n == s.len(),
                        brace_from(s, j as int) == brace_from(s, i + 2),
                    decreases n - j,
                {
                    j = j + 1;
                }
                if j < n && j > i + 2 {
                    let ghost rest = expand_from(s, j + 1, e);
                    match lookup_var(env, &cs, i + 2, j) {
                        Some(v) => out.append(v.as_str()),
                        None => {},
                    }
                    assert(expand_from(s, i as int, e) == var_value(e, s.subrange(i + 2, j as int))
                        + rest);
                    assert(out@ + rest == expand_from(s, 0, e));
                    i = j + 1;
                    handled = true;
                }
            }
            if !handled {
                if cs[i] == '$' && i + 1 < n && (('A' <= cs[i + 1] && cs[i + 1] <= 'Z') || ('a'
                    <= cs[i + 1] && cs[i + 1] <= 'z') || cs[i + 1] == '_') {
                    proof {
                        lemma_var_end(s, i + 2);
                    }
                    let mut j = i + 2;
                    while j < n && (('A' <= cs[j] && cs[j] <= 'Z') || ('a' <= cs[j] && cs[j] <= 'z')
                        || cs[j] == '_' || ('0' <= cs[j] && cs[j] <= '9'))
                        invariant
                            i + 2 <= j <= n,
                            s == cs@,
                            n == s.len(),
                            var_end(s, j as int) == var_end(s, i + 2),
                        decreases n - j,
                    {
                        j = j + 1;
                    }
                    let ghost rest = expand_from(s, j as int, e);
                    match lookup_var(env, &cs, i + 1, j) {
                        Some(v) => out.append(v.as_str()),
                        None => {},
                    }
                    assert(out@ + rest == expand_from(s, 0, e));
                    i = j;
                } else {
                    let ghost rest = expand_from(s, i + 1, e);
                    push_char(&mut out, cs[i]);
                    assert(out@ + rest == expand_from(s, 0, e));
                    i = i + 1;
                }
            }
        }
        assert(out@ =~= expand_from(s, 0, e));
        out
    }
}

impl Registries {
    /// A copy of these entries.
    pub fn duplicate(&self) -> (r: Registries)
        ensures
            r.map() == self.map(),
    {
        proof {
            use_type_invariant(self);
        }
        let mut entries: Vec<(String, RegistryConfig)> = Vec::new();
        let mut i: usize = 0;
        while i < self.entries.len()
            invariant
                i <= self.entries@.len(),
                entries@.len() == i,
                forall|j: int|
                    0 <= j < i ==> #[trigger] entries@[j].0@ == self.entries@[j].0@ && entries@[j].1@
                        == self.entries@[j].1@,
            decreases self.entries@.len() - i,
        {
            entries.push((self.entries[i].0.clone(), self.entries[i].1.copy()));
            i = i + 1;
        }
        proof {
            lemma_entries_map_copy(self.entries@, entries@);
            assert(distinct_names(entries@)) by {
                assert forall|a: int, b: int| 0 <= a < b < entries@.len() implies #[trigger] entries@[a].0@
                    != #[trigger] entries@[b].0@ by {
                    assert(self.entries@[a].0@ != self.entries@[b].0@);
                }
            }
        }
        Registries { entries }
    }
}

pub proof fn lemma_entries_map_copy(s: Seq<(String, RegistryConfig)>, t: Seq<(String, RegistryConfig)>)
    requires
        s.len() == t.len(),
        forall|i: int| 0 <= i < s.len() ==> #[trigger] t[i].0@ == s[i].0@ && t[i].1@ == s[i].1@,
    ensures
        entries_map(t) == entries_map(s),
    decreases s.len(),
{
    if s.len() > 0 {
        lemma_entries_map_copy(s.drop_last(), t.drop_last());
        assert(t.last() == t[t.len() - 1]);
    }
}

/// A copy of a list of strings.
pub fn copy_strings(v: &Vec<String>) -> (r: Vec<String>)
    ensures
        strings_view(r@) == strings_view(v@),
{
    let mut r: Vec<String> = Vec::new();
    let mut i: usize = 0;
    while i < v.len()
        invariant
            i <= v@.len(),
            r@.len() == i,
            forall|j: int| 0 <= j < i ==> #[trigger] r@[j]@ == v@[j]@,
        decreases v@.len() - i,
    {
        let c = v[i].clone();
        r.push(c);
        i = i + 1;
    }
    assert(strings_view(r@) =~= strings_view(v@));
    r
}

impl Config {
    /// A copy of this configuration.
    pub fn duplicate(&self) -> (c: Config)
        ensures
            c@ == self@,
    {
        Config {
            compose_paths: copy_strings(&self.compose_paths),
            schedule: self.schedule.clone(),
            registries: self.registries.duplicate(),
            update_strategy: self.update_strategy,
            ignore_images: copy_strings(&self.ignore_images),
            dry_run: self.dry_run,
        }
    }
}

/// Text that holds no `$` is left as it is by the expansion of variables.
pub proof fn expansion_keeps_text_without_references(
    content: Seq<char>,
    env: Seq<(Seq<char>, Seq<char>)>,
)
    requires
        forall|k: int| 0 <= k < content.len() ==> content[k] != '$',
    ensures
        expand_from(content, 0, env) == content,
{
    lemma_expand_without_dollar(content, 0, env);
    assert(content.subrange(0, content.len() as int) =~= content);
}

proof fn lemma_expand_without_dollar(s: Seq<char>, i: int, env: Seq<(Seq<char>, Seq<char>)>)
    requires
        0 <= i <= s.len(),
        forall|k: int| 0 <= k < s.len() ==> s[k] != '$',
    ensures
        expand_from(s, i, env) == s.subrange(i, s.len() as int),
    decreases s.len() - i,
{
    if i < s.len() {
        lemma_expand_without_dollar(s, i + 1, env);
        assert(s.subrange(i, s.len() as int) =~= seq![s[i]] + s.subrange(i + 1, s.len() as int));
    } else {
        assert(s.subrange(i, s.len() as int) =~= Seq::<char>::empty());
    }
}

/// After loading, Docker Hub and ghcr.io are always configured; every
/// registry the file names keeps the file's entry (an empty token dropped),
/// and a default registry the file leaves out keeps its default entry.
pub proof fn loading_keeps_file_entries_and_defaults(
    file: Map<Seq<char>, RegistryConfigView>,
    github_token: Option<Seq<char>>,
)
    ensures
        ({
            let loaded = default_registries(github_token).union_prefer_right(
                file.map_values(|c: RegistryConfigView| without_empty_token(c)),
            );
            &&& loaded.contains_key(crate::registry::docker_hub())
            &&& loaded.contains_key(ghcr())
            &&& forall|k: Seq<char>| #[trigger]
                file.contains_key(k) ==> loaded.contains_key(k) && loaded[k] == without_empty_token(
                    file[k],
                )
            &&& forall|k: Seq<char>|
                !file.contains_key(k) && #[trigger] default_registries(github_token).contains_key(k)
                    ==> loaded[k] == default_registries(github_token)[k]
            &&& forall|k: Seq<char>| #[trigger]
                loaded.contains_key(k) ==> file.contains_key(k) || default_registries(
                    github_token,
                ).contains_key(k)
        }),
{
}

/// A variable that is not set expands as a variable set to the empty
/// string does: adding `NAME=""` to an environment without `NAME` changes
/// no expansion.
pub proof fn unset_variables_expand_to_nothing(
    s: Seq<char>,
    i: int,
    env: Seq<(Seq<char>, Seq<char>)>,
    name: Seq<char>,
)
    requires
        env_lookup(env, name) is None,
    ensures
        expand_from(s, i, env) == expand_from(s, i, seq![(name, Seq::<char>::empty())] + env),
    decreases s.len() - i,
{
    let env2 = seq![(name, Seq::<char>::empty())] + env;
    assert(env2.drop_first() =~= env);
    assert forall|n: Seq<char>| var_value(env, n) == #[trigger] var_value(env2, n) by {
        assert(env2[0].0 == name);
    }
    if 0 <= i < s.len() {
        if s[i] == '$' && i + 1 < s.len() && s[i + 1] == '{' && brace_from(s, i + 2) < s.len()
            && brace_from(s, i + 2) > i + 2 {
            lemma_brace_from(s, i + 2);
            unset_variables_expand_to_nothing(s, brace_from(s, i + 2) + 1, env, name);
        } else if s[i] == '$' && i + 1 < s.len() && is_var_start(s[i + 1]) {
            lemma_var_end(s, i + 2);
            unset_variables_expand_to_nothing(s, var_end(s, i + 2), env, name);
        } else {
            unset_variables_expand_to_nothing(s, i + 1, env, name);
        }
    }
}

/// A reference `$NAME` (the longest run of name characters after `$`) or
/// `${NAME}` is replaced by the variable's value when it is set and by
/// nothing when it is not; the text after it expands on its own.
pub proof fn references_expand_to_their_values(
    s: Seq<char>,
    i: int,
    env: Seq<(Seq<char>, Seq<char>)>,
)
    requires
        0 <= i,
        i + 1 < s.len(),
        s[i] == '$',
    ensures
        is_var_start(s[i + 1]) ==> {
            let j = var_end(s, i + 2);
            let name = s.subrange(i + 1, j);
            &&& i + 2 <= j <= s.len()
            &&& forall|k: int| i + 1 <= k < j ==> is_var_char(#[trigger] s[k])
            &&& (j == s.len() || !is_var_char(s[j]))
            &&& expand_from(s, i, env) == match env_lookup(env, name) {
                Some(v) => v + expand_from(s, j, env),
                None => expand_from(s, j, env),
            }
        },
        s[i + 1] == '{' ==> {
            let j = brace_from(s, i + 2);
            let name = s.subrange(i + 2, j);
            j < s.len() && j > i + 2 ==> {
                &&& s[j] == '}'
                &&& forall|k: int| i + 2 <= k < j ==> #[trigger] s[k] != '}'
                &&& expand_from(s, i, env) == match env_lookup(env, name) {
                    Some(v) => v + expand_from(s, j + 1, env),
                    None => expand_from(s, j + 1, env),
                }
            }
        },
{
    lemma_var_end_props(s, i + 2);
    lemma_brace_from_props(s, i + 2);
    if is_var_start(s[i + 1]) {
        assert(is_var_char(s[i + 1]));
        assert(expand_from(s, i, env) == var_value(env, s.subrange(i + 1, var_end(s, i + 2)))
            + expand_from(s, var_end(s, i + 2), env));
        if env_lookup(env, s.subrange(i + 1, var_end(s, i + 2))) is None {
            assert(var_value(env, s.subrange(i + 1, var_end(s, i + 2))) + expand_from(
                s,
                var_end(s, i + 2),
                env,
            ) =~= expand_from(s, var_end(s, i + 2), env));
        }
    }
    if s[i + 1] == '{' && brace_from(s, i + 2) < s.len() && brace_from(s, i + 2) > i + 2 {
        if env_lookup(env, s.subrange(i + 2, brace_from(s, i + 2))) is None {
            assert(var_value(env, s.subrange(i + 2, brace_from(s, i + 2))) + expand_from(
                s,
                brace_from(s, i + 2) + 1,
                env,
            ) =~= expand_from(s, brace_from(s, i + 2) + 1, env));
        }
    }
}

proof fn lemma_var_end_props(s: Seq<char>, i: int)
    requires
        0 <= i <= s.len(),
    ensures
        i <= var_end(s, i) <= s.len(),
        forall|k: int| i <= k < var_end(s, i) ==> is_var_char(#[trigger] s[k]),
        var_end(s, i) == s.len() || !is_var_char(s[var_end(s, i)]),
    decreases s.len() - i,
{
    if i < s.len() && is_var_char(s[i]) {
        lemma_var_end_props(s, i + 1);
    }
}

proof fn lemma_brace_from_props(s: Seq<char>, i: int)
    requires
        0 <= i <= s.len(),
    ensures
        i <= brace_from(s, i) <= s.len(),
        forall|k: int| i <= k < brace_from(s, i) ==> #[trigger] s[k] != '}',
        brace_from(s, i) == s.len() || s[brace_from(s, i)] == '}',
    decreases s.len() - i,
{
    if i < s.len() && s[i] != '}' {
        lemma_brace_from_props(s, i + 1);
    }
}

} // verus!
