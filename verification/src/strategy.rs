//! Choosing the version an image is moved to.
use vstd::prelude::*;
use crate::config::UpdateStrategy;
use crate::version::{
    clone_opt_string, line_lt, opt_info_view, opt_string_eq, opt_view, version_le, version_lt,
    VersionInfo, VersionInfoView,
};

verus! {

/// The views of a sequence of `VersionInfo`s.
pub open spec fn infos_view(s: Seq<VersionInfo>) -> Seq<VersionInfoView> {
    s.map_values(|v: VersionInfo| v@)
}

/// `v` carries exactly the given prefix and suffix.
pub open spec fn has_affixes(
    v: VersionInfoView,
    prefix: Option<Seq<char>>,
    suffix: Option<Seq<char>>,
) -> bool {
    v.prefix == prefix && v.suffix == suffix
}

/// The entries of `s` that carry the given prefix and suffix, in order.
pub open spec fn matching(
    s: Seq<VersionInfoView>,
    prefix: Option<Seq<char>>,
    suffix: Option<Seq<char>>,
) -> Seq<VersionInfoView>
    decreases s.len(),
{
    if s.len() == 0 {
        seq![]
    } else if has_affixes(s.last(), prefix, suffix) {
        matching(s.drop_last(), prefix, suffix).push(s.last())
    } else {
        matching(s.drop_last(), prefix, suffix)
    }
}

/// Where `x` goes in a list sorted from the highest version down: after every
/// entry whose version is not below it.
pub open spec fn insert_pos(sorted: Seq<VersionInfoView>, x: VersionInfoView) -> int
    decreases sorted.len(),
{
    if sorted.len() == 0 {
        0
    } else if version_lt(sorted[0].version, x.version) {
        0
    } else {
        1 + insert_pos(sorted.drop_first(), x)
    }
}

/// `sorted` with `x` put in its place.
pub open spec fn insert_desc(sorted: Seq<VersionInfoView>, x: VersionInfoView) -> Seq<
    VersionInfoView,
> {
    let k = insert_pos(sorted, x);
    sorted.take(k).push(x) + sorted.skip(k)
}

/// `s` sorted from the highest version down, entries with equal versions in
/// their original order (a stable sort).
pub open spec fn sort_desc(s: Seq<VersionInfoView>) -> Seq<VersionInfoView>
    decreases s.len(),
{
    if s.len() == 0 {
        seq![]
    } else {
        insert_desc(sort_desc(s.drop_last()), s.last())
    }
}

/// The entries of `available` with the given prefix and suffix, from the
/// highest version down.
pub open spec fn candidates(
    available: Seq<VersionInfoView>,
    prefix: Option<Seq<char>>,
    suffix: Option<Seq<char>>,
) -> Seq<VersionInfoView> {
    sort_desc(matching(available, prefix, suffix))
}

/// The first entry of `s` whose release line is below `top`'s.
pub open spec fn first_below_line(s: Seq<VersionInfoView>, top: VersionInfoView) -> Option<
    VersionInfoView,
>
    decreases s.len(),
{
    if s.len() == 0 {
        None
    } else if line_lt(s[0].version, top.version) {
        Some(s[0])
    } else {
        first_below_line(s.drop_first(), top)
    }
}

/// What the `Latest` strategy selects: the first of the candidates.
pub open spec fn latest_selection(
    available: Seq<VersionInfoView>,
    prefix: Option<Seq<char>>,
    suffix: Option<Seq<char>>,
) -> Option<VersionInfoView> {
    let c = candidates(available, prefix, suffix);
    if c.len() == 0 {
        None
    } else {
        Some(c[0])
    }
}

/// What the `LatestPatchOfPreviousMinor` strategy selects: the first
/// candidate whose release line is below that of the first candidate.
pub open spec fn previous_line_selection(
    available: Seq<VersionInfoView>,
    prefix: Option<Seq<char>>,
    suffix: Option<Seq<char>>,
) -> Option<VersionInfoView> {
    let c = candidates(available, prefix, suffix);
    if c.len() == 0 {
        None
    } else {
        first_below_line(c, c[0])
    }
}

/// A rule that picks the version to move an image to.
pub trait VersionSelector {
    /// The entry the rule picks from `available`.
    spec fn selection(
        &self,
        available: Seq<VersionInfoView>,
        prefix: Option<Seq<char>>,
        suffix: Option<Seq<char>>,
    ) -> Option<VersionInfoView>;

    /// Picks the target among the entries of `available` that carry the
    /// current prefix and suffix.
    fn select_target_version(
        &self,
        available: &[VersionInfo],
        current_prefix: Option<String>,
        current_suffix: Option<String>,
    ) -> (r: Option<VersionInfo>)
        ensures
            opt_info_view(r) == self.selection(
                infos_view(available@),
                opt_view(current_prefix),
                opt_view(current_suffix),
            ),
    ;
}

/// Picks the highest version.
pub struct LatestVersionSelector;

/// Picks the highest patch of the newest release line below the latest one.
pub struct SmartPreviousMinorSelector;

/// The selector of a strategy.
pub enum Selector {
    Latest(LatestVersionSelector),
    PreviousMinor(SmartPreviousMinorSelector),
}

/// The selector that implements `strategy`.
pub fn create_selector(strategy: &UpdateStrategy) -> (r: Selector)
    ensures
        match strategy {
            UpdateStrategy::Latest => r is Latest,
            UpdateStrategy::LatestPatchOfPreviousMinor => r is PreviousMinor,
        },
{
    match strategy {
        UpdateStrategy::Latest => Selector::Latest(LatestVersionSelector),
        UpdateStrategy::LatestPatchOfPreviousMinor => Selector::PreviousMinor(
            SmartPreviousMinorSelector,
        ),
    }
}

/// A copy of a `VersionInfo`.
pub fn copy_info(v: &VersionInfo) -> (r: VersionInfo)
    ensures
        r@ == v@,
{
    VersionInfo {
        version: v.version,
        prefix: clone_opt_string(&v.prefix),
        suffix: clone_opt_string(&v.suffix),
        original: v.original.clone(),
    }
}

pub proof fn lemma_insert_pos(s: Seq<VersionInfoView>, x: VersionInfoView)
    ensures
        0 <= insert_pos(s, x) <= s.len(),
        forall|j: int| 0 <= j < insert_pos(s, x) ==> !version_lt(#[trigger] s[j].version, x.version),
        insert_pos(s, x) < s.len() ==> version_lt(s[insert_pos(s, x)].version, x.version),
    decreases s.len(),
{
    if s.len() > 0 && !version_lt(s[0].version, x.version) {
        lemma_insert_pos(s.drop_first(), x);
        assert forall|j: int| 0 <= j < insert_pos(s, x) implies !version_lt(
            #[trigger] s[j].version,
            x.version,
        ) by {
            if j > 0 {
                assert(s[j] == s.drop_first()[j - 1]);
            }
        }
    }
}

pub proof fn lemma_first_below_line(s: Seq<VersionInfoView>, top: VersionInfoView)
    ensures
        first_below_line(s, top) matches Some(v) ==> exists|k: int|
            0 <= k < s.len() && #[trigger] s[k] == v && line_lt(v.version, top.version) && forall|j: int|
                0 <= j < k ==> !line_lt(#[trigger] s[j].version, top.version),
        first_below_line(s, top) is None ==> forall|j: int|
            0 <= j < s.len() ==> !line_lt(#[trigger] s[j].version, top.version),
    decreases s.len(),
{
    if s.len() > 0 {
        if line_lt(s[0].version, top.version) {
            assert(s[0] == s[0]);
        } else {
            lemma_first_below_line(s.drop_first(), top);
            if let Some(v) = first_below_line(s, top) {
                let k = choose|k: int|
                    0 <= k < s.drop_first().len() && #[trigger] s.drop_first()[k] == v && line_lt(
                        v.version,
                        top.version,
                    ) && forall|j: int|
                        0 <= j < k ==> !line_lt(#[trigger] s.drop_first()[j].version, top.version);
                assert(s[k + 1] == v);
                assert forall|j: int| 0 <= j < k + 1 implies !line_lt(
                    #[trigger] s[j].version,
                    top.version,
                ) by {
                    if j > 0 {
                        assert(s[j] == s.drop_first()[j - 1]);
                    }
                }
            } else {
                assert forall|j: int| 0 <= j < s.len() implies !line_lt(
                    #[trigger] s[j].version,
                    top.version,
                ) by {
                    if j > 0 {
                        assert(s[j] == s.drop_first()[j - 1]);
                    }
                }
            }
        }
    }
}

/// `s` runs from the highest version down.
pub open spec fn sorted_desc(s: Seq<VersionInfoView>) -> bool {
    forall|i: int, j: int|
        0 <= i < j < s.len() ==> !version_lt(#[trigger] s[i].version, #[trigger] s[j].version)
}

pub proof fn lemma_matching_contains(
    s: Seq<VersionInfoView>,
    prefix: Option<Seq<char>>,
    suffix: Option<Seq<char>>,
)
    ensures
        forall|y: VersionInfoView|
            #[trigger] matching(s, prefix, suffix).contains(y) <==> (s.contains(y) && has_affixes(
                y,
                prefix,
                suffix,
            )),
    decreases s.len(),
{
    if s.len() > 0 {
        lemma_matching_contains(s.drop_last(), prefix, suffix);
        let m = matching(s.drop_last(), prefix, suffix);
        assert forall|y: VersionInfoView|
            #[trigger] matching(s, prefix, suffix).contains(y) <==> (s.contains(y) && has_affixes(
                y,
                prefix,
                suffix,
            )) by {
            if s.contains(y) {
                let i = choose|i: int| 0 <= i < s.len() && s[i] == y;
                if i < s.len() - 1 {
                    assert(s.drop_last()[i] == y);
                }
            }
            if s.drop_last().contains(y) {
                let i = choose|i: int| 0 <= i < s.drop_last().len() && s.drop_last()[i] == y;
                assert(s[i] == y);
            }
            if has_affixes(s.last(), prefix, suffix) {
                if m.push(s.last()).contains(y) {
                    let i = choose|i: int| 0 <= i < m.push(s.last()).len() && m.push(s.last())[i] == y;
                    if i < m.len() {
                        assert(m[i] == y);
                    }
                }
                if m.contains(y) {
                    let i = choose|i: int| 0 <= i < m.len() && m[i] == y;
                    assert(m.push(s.last())[i] == y);
                }
                assert(m.push(s.last())[m.len() as int] == s.last());
            }
        }
    }
}

pub proof fn lemma_insert_desc(s: Seq<VersionInfoView>, x: VersionInfoView)
    ensures
        insert_desc(s, x).len() == s.len() + 1,
        forall|y: VersionInfoView|
            #[trigger] insert_desc(s, x).contains(y) <==> (s.contains(y) || y == x),
        sorted_desc(s) ==> sorted_desc(insert_desc(s, x)),
{
    lemma_insert_pos(s, x);
    let k = insert_pos(s, x);
    let r = insert_desc(s, x);
    assert(r.len() == s.len() + 1);
    assert forall|i: int| 0 <= i < r.len() implies #[trigger] r[i] == (if i < k {
        s[i]
    } else if i == k {
        x
    } else {
        s[i - 1]
    }) by {}
    assert forall|y: VersionInfoView| #[trigger] r.contains(y) <==> (s.contains(y) || y == x) by {
        if r.contains(y) {
            let i = choose|i: int| 0 <= i < r.len() && r[i] == y;
            if i < k {
                assert(s[i] == y);
            } else if i > k {
                assert(s[i - 1] == y);
            }
        }
        if s.contains(y) {
            let i = choose|i: int| 0 <= i < s.len() && s[i] == y;
            if i < k {
                assert(r[i] == y);
            } else {
                assert(r[i + 1] == y);
            }
        }
        if y == x {
            assert(r[k] == y);
        }
    }
    if sorted_desc(s) {
        assert forall|i: int, j: int|
            0 <= i < j < r.len() implies !version_lt(#[trigger] r[i].version, #[trigger] r[j].version) by {
            if j < k {
            } else if j == k {
            } else if i < k {
                assert(!version_lt(s[i].version, s[j - 1].version));
            } else if i == k {
                assert(k < s.len());
                assert(version_lt(s[k].version, x.version));
                if k < j - 1 {
                    assert(!version_lt(s[k].version, s[j - 1].version));
                }
            } else {
                assert(!version_lt(s[i - 1].version, s[j - 1].version));
            }
        }
    }
}

pub proof fn lemma_sort_desc(s: Seq<VersionInfoView>)
    ensures
        sort_desc(s).len() == s.len(),
        sorted_desc(sort_desc(s)),
        forall|y: VersionInfoView| #[trigger] sort_desc(s).contains(y) <==> s.contains(y),
    decreases s.len(),
{
    if s.len() > 0 {
        lemma_sort_desc(s.drop_last());
        lemma_insert_desc(sort_desc(s.drop_last()), s.last());
        assert forall|y: VersionInfoView| #[trigger] sort_desc(s).contains(y) <==> s.contains(y) by {
            if s.contains(y) {
                let i = choose|i: int| 0 <= i < s.len() && s[i] == y;
                if i < s.len() - 1 {
                    assert(s.drop_last()[i] == y);
                }
            }
            if s.drop_last().contains(y) {
                let i = choose|i: int| 0 <= i < s.drop_last().len() && s.drop_last()[i] == y;
                assert(s[i] == y);
            }
        }
    }
}

/// Under the `Latest` strategy the selected entry is one of the available
/// entries with the current prefix and suffix, and no such entry has a higher
/// version; nothing is selected exactly when no entry has that prefix and
/// suffix.
pub proof fn latest_selects_highest_matching(
    available: Seq<VersionInfoView>,
    prefix: Option<Seq<char>>,
    suffix: Option<Seq<char>>,
)
    ensures
        latest_selection(available, prefix, suffix) matches Some(v) ==> {
            &&& available.contains(v)
            &&& has_affixes(v, prefix, suffix)
            &&& forall|w: VersionInfoView|
                available.contains(w) && has_affixes(w, prefix, suffix) ==> version_le(
                    w.version,
                    v.version,
                )
        },
        latest_selection(available, prefix, suffix) is None <==> !exists|w: VersionInfoView|
            available.contains(w) && has_affixes(w, prefix, suffix),
{
    let m = matching(available, prefix, suffix);
    let c = candidates(available, prefix, suffix);
    lemma_matching_contains(available, prefix, suffix);
    lemma_sort_desc(m);
    if c.len() > 0 {
        assert(c.contains(c[0]));
        assert forall|w: VersionInfoView|
            available.contains(w) && has_affixes(w, prefix, suffix) implies version_le(
            w.version,
            c[0].version,
        ) by {
            assert(m.contains(w));
            assert(c.contains(w));
            let j = choose|j: int| 0 <= j < c.len() && c[j] == w;
            if j > 0 {
                assert(!version_lt(c[0].version, c[j].version));
            }
        }
    } else {
        assert forall|w: VersionInfoView|
            !(available.contains(w) && has_affixes(w, prefix, suffix)) by {
            if available.contains(w) && has_affixes(w, prefix, suffix) {
                assert(m.contains(w));
                assert(c.contains(w));
            }
        }
    }
}

/// Under the `LatestPatchOfPreviousMinor` strategy the selected entry is one
/// of the available entries with the current prefix and suffix, its release
/// line is below that of another such entry (so it is never on the newest
/// line), and it is the highest of all such entries whose line is below
/// another's; nothing is selected exactly when all such entries share one
/// release line.
pub proof fn previous_line_selects_highest_below_newest_line(
    available: Seq<VersionInfoView>,
    prefix: Option<Seq<char>>,
    suffix: Option<Seq<char>>,
)
    ensures
        previous_line_selection(available, prefix, suffix) matches Some(v) ==> {
            &&& available.contains(v)
            &&& has_affixes(v, prefix, suffix)
            &&& exists|u: VersionInfoView|
                available.contains(u) && has_affixes(u, prefix, suffix) && line_lt(
                    v.version,
                    u.version,
                )
            &&& forall|w: VersionInfoView, u: VersionInfoView|
                available.contains(w) && has_affixes(w, prefix, suffix) && available.contains(u)
                    && has_affixes(u, prefix, suffix) && line_lt(w.version, u.version)
                    ==> version_le(w.version, v.version)
        },
        previous_line_selection(available, prefix, suffix) is None <==> !exists|
            w: VersionInfoView,
            u: VersionInfoView,
        |
            available.contains(w) && has_affixes(w, prefix, suffix) && available.contains(u)
                && has_affixes(u, prefix, suffix) && line_lt(w.version, u.version),
{
    let m = matching(available, prefix, suffix);
    let c = candidates(available, prefix, suffix);
    lemma_matching_contains(available, prefix, suffix);
    lemma_sort_desc(m);
    if c.len() > 0 {
        let top = c[0];
        lemma_first_below_line(c, top);
        assert(c.contains(top));
        // every candidate sorts at or below the first one
        assert forall|j: int| 0 <= j < c.len() implies version_le(#[trigger] c[j].version, top.version) by {
            if j > 0 {
                assert(!version_lt(c[0].version, c[j].version));
            }
        }
        if let Some(v) = first_below_line(c, top) {
            let k = choose|k: int|
                0 <= k < c.len() && #[trigger] c[k] == v && line_lt(v.version, top.version)
                    && forall|j: int| 0 <= j < k ==> !line_lt(#[trigger] c[j].version, top.version);
            assert(c.contains(v));
            assert(available.contains(top) && has_affixes(top, prefix, suffix));
            assert forall|w: VersionInfoView, u: VersionInfoView|
                available.contains(w) && has_affixes(w, prefix, suffix) && available.contains(u)
                    && has_affixes(u, prefix, suffix) && line_lt(
                    w.version,
                    u.version,
                ) implies version_le(w.version, v.version) by {
                assert(c.contains(w));
                assert(c.contains(u));
                let jw = choose|jw: int| 0 <= jw < c.len() && c[jw] == w;
                let ju = choose|ju: int| 0 <= ju < c.len() && c[ju] == u;
                assert(version_le(c[ju].version, top.version));
                assert(line_lt(c[jw].version, top.version));
                if jw < k {
                    assert(!line_lt(c[jw].version, top.version));
                } else if jw > k {
                    assert(!version_lt(c[k].version, c[jw].version));
                }
            }
        } else {
            assert forall|w: VersionInfoView, u: VersionInfoView|
                !(available.contains(w) && has_affixes(w, prefix, suffix) && available.contains(u)
                    && has_affixes(u, prefix, suffix) && line_lt(w.version, u.version)) by {
                if available.contains(w) && has_affixes(w, prefix, suffix) && available.contains(u)
                    && has_affixes(u, prefix, suffix) && line_lt(w.version, u.version) {
                    assert(c.contains(w));
                    assert(c.contains(u));
                    let jw = choose|jw: int| 0 <= jw < c.len() && c[jw] == w;
                    let ju = choose|ju: int| 0 <= ju < c.len() && c[ju] == u;
                    assert(version_le(c[ju].version, top.version));
                    assert(!line_lt(c[jw].version, top.version));
                }
            }
        }
    } else {
        assert forall|w: VersionInfoView, u: VersionInfoView|
            !(available.contains(w) && has_affixes(w, prefix, suffix) && available.contains(u)
                && has_affixes(u, prefix, suffix) && line_lt(w.version, u.version)) by {
            if available.contains(w) && has_affixes(w, prefix, suffix) {
                assert(m.contains(w));
                assert(c.contains(w));
            }
        }
    }
}

/// The entries of `available` with the given prefix and suffix, sorted from
/// the highest version down; entries with equal versions keep their order.
fn get_filtered_and_sorted_matching_versions(
    available: &[VersionInfo],
    current_prefix: &Option<String>,
    current_suffix: &Option<String>,
) -> (r: Vec<VersionInfo>)
    ensures
        infos_view(r@) == candidates(
            infos_view(available@),
            opt_view(*current_prefix),
            opt_view(*current_suffix),
        ),
{
    let ghost pre = opt_view(*current_prefix);
    let ghost suf = opt_view(*current_suffix);
    let ghost all = infos_view(available@);
    let mut versions: Vec<VersionInfo> = Vec::new();
    let mut i: usize = 0;
    assert(all.take(0) =~= seq![]);
    while i < available.len()
        invariant
            i <= available@.len(),
            all == infos_view(available@),
            pre == opt_view(*current_prefix),
            suf == opt_view(*current_suffix),
            infos_view(versions@) == sort_desc(matching(all.take(i as int), pre, suf)),
        decreases available@.len() - i,
    {
        let v = &available[i];
        let ghost before = all.take(i as int);
        assert(all.take(i + 1) =~= before.push(v@));
        assert(all.take(i + 1).drop_last() =~= before);
        if opt_string_eq(&v.prefix, current_prefix) && opt_string_eq(&v.suffix, current_suffix) {
            let ghost sorted = infos_view(versions@);
            let ghost m = matching(before, pre, suf);
            assert(matching(all.take(i + 1), pre, suf) == m.push(v@));
            assert(m.push(v@).drop_last() =~= m);
            assert(sort_desc(m.push(v@)) == insert_desc(sorted, v@));
            proof {
                lemma_insert_pos(sorted, v@);
            }
            let mut k: usize = 0;
            while k < versions.len() && !versions[k].version.is_lower_than(&v.version)
                invariant
                    k <= versions@.len(),
                    sorted == infos_view(versions@),
                    forall|j: int| 0 <= j < k ==> !version_lt(#[trigger] sorted[j].version, v@.version),
                decreases versions@.len() - k,
            {
                k = k + 1;
            }
            assert(k as int == insert_pos(sorted, v@)) by {
                let ip = insert_pos(sorted, v@);
                if (k as int) < ip {
                    assert(!version_lt(sorted[k as int].version, v@.version));
                } else if ip < k {
                    assert(!version_lt(sorted[ip].version, v@.version));
                }
            }
            let c = copy_info(v);
            versions.insert(k, c);
            assert(infos_view(versions@) =~= sorted.take(k as int).push(v@) + sorted.skip(k as int));
        } else {
            assert(matching(all.take(i + 1), pre, suf) == matching(before, pre, suf));
        }
        i = i + 1;
    }
    assert(all.take(available@.len() as int) =~= all);
    versions
}

impl VersionSelector for LatestVersionSelector {
    open spec fn selection(
        &self,
        available: Seq<VersionInfoView>,
        prefix: Option<Seq<char>>,
        suffix: Option<Seq<char>>,
    ) -> Option<VersionInfoView> {
        latest_selection(available, prefix, suffix)
    }

    fn select_target_version(
        &self,
        available: &[VersionInfo],
        current_prefix: Option<String>,
        current_suffix: Option<String>,
    ) -> (r: Option<VersionInfo>) {
        let versions = get_filtered_and_sorted_matching_versions(
            available,
            &current_prefix,
            &current_suffix,
        );
        if versions.len() == 0 {
            None
        } else {
            assert(infos_view(versions@)[0] == versions@[0]@);
            Some(copy_info(&versions[0]))
        }
    }
}

impl VersionSelector for SmartPreviousMinorSelector {
    open spec fn selection(
        &self,
        available: Seq<VersionInfoView>,
        prefix: Option<Seq<char>>,
        suffix: Option<Seq<char>>,
    ) -> Option<VersionInfoView> {
        previous_line_selection(available, prefix, suffix)
    }

    fn select_target_version(
        &self,
        available: &[VersionInfo],
        current_prefix: Option<String>,
        current_suffix: Option<String>,
    ) -> (r: Option<VersionInfo>) {
        let versions = get_filtered_and_sorted_matching_versions(
            available,
            &current_prefix,
            &current_suffix,
        );
        if versions.len() == 0 {
            return None;
        }
        let ghost c = infos_view(versions@);
        let latest = versions[0].version;
        assert(c[0].version == latest);
        proof {
            lemma_first_below_line(c, c[0]);
        }
        let mut k: usize = 0;
        while k < versions.len()
            invariant
                k <= versions@.len(),
                c == infos_view(versions@),
                c == candidates(
                    infos_view(available@),
                    opt_view(current_prefix),
                    opt_view(current_suffix),
                ),
                c.len() > 0,
                latest == c[0].version,
                forall|j: int| 0 <= j < k ==> !line_lt(#[trigger] c[j].version, latest),
            decreases versions@.len() - k,
        {
            let v = versions[k].version;
            if v.major < latest.major || (v.major == latest.major && v.minor < latest.minor) {
                assert(c[k as int] == versions@[k as int]@);
                assert(line_lt(c[k as int].version, c[0].version));
                assert(first_below_line(c, c[0]) == Some(c[k as int])) by {
                    lemma_first_below_line(c, c[0]);
                    if let Some(w) = first_below_line(c, c[0]) {
                        let k2 = choose|k2: int|
                            0 <= k2 < c.len() && #[trigger] c[k2] == w && line_lt(w.version, c[0].version)
                                && forall|j: int|
                                0 <= j < k2 ==> !line_lt(#[trigger] c[j].version, c[0].version);
                        if k2 < k {
                        } else if k < k2 {
                            assert(!line_lt(c[k as int].version, c[0].version));
                        }
                    }
                }
                return Some(copy_info(&versions[k]));
            }
            k = k + 1;
        }
        assert(first_below_line(c, c[0]) is None) by {
            lemma_first_below_line(c, c[0]);
            if let Some(w) = first_below_line(c, c[0]) {
                let k2 = choose|k2: int|
                    0 <= k2 < c.len() && #[trigger] c[k2] == w && line_lt(w.version, c[0].version) && forall|
                        j: int,
                    | 0 <= j < k2 ==> !line_lt(#[trigger] c[j].version, c[0].version);
                assert(!line_lt(c[k2].version, c[0].version));
            }
        }
        None
    }
}

impl VersionSelector for Selector {
    open spec fn selection(
        &self,
        available: Seq<VersionInfoView>,
        prefix: Option<Seq<char>>,
        suffix: Option<Seq<char>>,
    ) -> Option<VersionInfoView> {
        match self {
            Selector::Latest(_) => latest_selection(available, prefix, suffix),
            Selector::PreviousMinor(_) => previous_line_selection(available, prefix, suffix),
        }
    }

    fn select_target_version(
        &self,
        available: &[VersionInfo],
        current_prefix: Option<String>,
        current_suffix: Option<String>,
    ) -> (r: Option<VersionInfo>) {
        match self {
            Selector::Latest(s) => s.select_target_version(available, current_prefix, current_suffix),
            Selector::PreviousMinor(s) => s.select_target_version(
                available,
                current_prefix,
                current_suffix,
            ),
        }
    }
}

} // verus!
