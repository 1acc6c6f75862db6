//! Release discovery from tag references: parse each `refs/tags/<tag>`
//! reference as a semantic version, drop dereference markers (`^{}`),
//! apply the stability filter, and order the survivors newest first.

use vstd::prelude::*;
use vstd::seq_lib::group_to_multiset_ensures;

use crate::text::{ends_with_str, strip_prefix_str};
use crate::version::{
    lemma_cmp_flip, lemma_cmp_trans, lemma_cmp_zero_is_eq, semver_parsed, spec_cmp, spec_lt,
    Version, VersionV,
};
use crate::Error;

verus! {

broadcast use group_to_multiset_ensures;

/// Which releases an enumeration accepts.
#[derive(Debug, Clone, Copy, PartialEq, Eq, Structural)]
pub enum ReleasesFilter {
    All,
    Stable,
}

impl ReleasesFilter {
    /// `All` accepts everything; `Stable` accepts exactly the versions
    /// without a prerelease label.
    pub open spec fn spec_matches(self, v: VersionV) -> bool {
        self is All || v.pre.len() == 0
    }

    pub fn matches(self, version: &Version) -> (r: bool)
        ensures
            r == self.spec_matches(version@),
    {
        match self {
            ReleasesFilter::All => true,
            ReleasesFilter::Stable => version.pre.len() == 0,
        }
    }
}

/// The version denoted by one tag reference: the text after `refs/tags/`
/// parsed as a semantic version, unless the reference is missing that
/// prefix or is a dereference marker ending in `^{}`.
pub open spec fn spec_tag_version(name: Seq<char>) -> Option<VersionV> {
    if "refs/tags/"@.is_prefix_of(name) && !"^{}"@.is_suffix_of(
        name.skip("refs/tags/"@.len() as int),
    ) {
        semver_parsed(name.skip("refs/tags/"@.len() as int))
    } else {
        None
    }
}

/// Parses one remote head name as a release version.
pub fn remote_head_to_version(name: &str) -> (r: Option<Version>)
    ensures
        match r {
            Some(v) => spec_tag_version(name@) == Some(v@) && v.wf(),
            None => spec_tag_version(name@) is None,
        },
{
    match strip_prefix_str(name, "refs/tags/") {
        None => None,
        Some(rest) => {
            proof {
                assert("refs/tags/"@.is_prefix_of(name@));
                assert(name@.skip("refs/tags/"@.len() as int) =~= rest@);
            }
            if ends_with_str(rest, "^{}") {
                None
            } else {
                crate::version::parse_semver(rest)
            }
        },
    }
}

/// Newest first: every element is at or above its successor.
pub open spec fn sorted_desc(s: Seq<VersionV>) -> bool {
    forall|k: int| 0 < k < s.len() ==> spec_cmp(s[k - 1], #[trigger] s[k]) >= 0
}

/// The versions contributed by a list of tag reference names, in list
/// order: parseable tags that the filter accepts.
pub open spec fn accepted_versions(names: Seq<Seq<char>>, f: ReleasesFilter) -> Seq<VersionV>
    decreases names.len(),
{
    if names.len() == 0 {
        Seq::empty()
    } else {
        let rest = accepted_versions(names.drop_last(), f);
        match spec_tag_version(names.last()) {
            Some(v) => if f.spec_matches(v) {
                rest.push(v)
            } else {
                rest
            },
            None => rest,
        }
    }
}

/// Sorts newest first, keeping the collection of versions.
fn sort_versions_desc(input: Vec<Version>) -> (r: Vec<Version>)
    requires
        forall|k: int| 0 <= k < input@.len() ==> (#[trigger] input@[k]@).wf(),
    ensures
        r@.map_values(|ver: Version| ver@).to_multiset() == input@.map_values(
            |ver: Version| ver@,
        ).to_multiset(),
        sorted_desc(r@.map_values(|ver: Version| ver@)),
        forall|k: int| 0 <= k < r@.len() ==> (#[trigger] r@[k]@).wf(),
{
    let ghost iviews = input@.map_values(|ver: Version| ver@);
    let mut out: Vec<Version> = Vec::new();
    let mut idx: usize = 0;
    while idx < input.len()
        invariant
            idx <= input@.len(),
            iviews == input@.map_values(|ver: Version| ver@),
            out@.map_values(|ver: Version| ver@).to_multiset() == iviews.take(
                idx as int,
            ).to_multiset(),
            sorted_desc(out@.map_values(|ver: Version| ver@)),
            forall|k: int| 0 <= k < input@.len() ==> (#[trigger] input@[k]@).wf(),
            forall|k: int| 0 <= k < out@.len() ==> (#[trigger] out@[k]@).wf(),
        decreases input@.len() - idx,
    {
        let x = input[idx].dup();
        let ghost xv = x@;
        let mut j: usize = 0;
        while j < out.len() && out[j].cmp_precedence(&x) >= 0
            invariant
                j <= out@.len(),
                forall|k: int| 0 <= k < j ==> spec_cmp(#[trigger] out@[k]@, xv) >= 0,
                xv == x@,
            decreases out@.len() - j,
        {
            j = j + 1;
        }
        proof {
            let ghost oviews = out@.map_values(|ver: Version| ver@);
            if (j as int) < oviews.len() {
                lemma_cmp_flip(oviews[j as int], xv);
            }
        }
        let ghost old_out = out@;
        out.insert(j, x);
        proof {
            let oviews = old_out.map_values(|ver: Version| ver@);
            let nviews = out@.map_values(|ver: Version| ver@);
            assert(out@ == old_out.insert(j as int, x));
            assert(nviews =~= oviews.insert(j as int, xv));
            assert(oviews.insert(j as int, xv).to_multiset() == oviews.to_multiset().insert(xv));
            assert(iviews.take(idx + 1) =~= iviews.take(idx as int).push(iviews[idx as int]));
            assert(iviews.take(idx as int).push(iviews[idx as int]).to_multiset()
                =~= iviews.take(idx as int).to_multiset().insert(iviews[idx as int]));
            assert(iviews[idx as int] == input@[idx as int]@);
            assert forall|k: int| 0 <= k < out@.len() implies (#[trigger] out@[k]@).wf() by {
                if k < j {
                    assert(out@[k] == old_out[k]);
                } else if k == j {
                    assert(out@[k]@ == input@[idx as int]@);
                } else {
                    assert(out@[k] == old_out[k - 1]);
                }
            }
            assert(sorted_desc(nviews)) by {
                assert forall|k: int| 0 < k < nviews.len() implies spec_cmp(
                    nviews[k - 1],
                    #[trigger] nviews[k],
                ) >= 0 by {
                    if k < j {
                        assert(nviews[k - 1] == oviews[k - 1] && nviews[k] == oviews[k]);
                    } else if k == j {
                        assert(nviews[k - 1] == oviews[k - 1] && nviews[k] == xv);
                    } else if k == j + 1 {
                        assert(nviews[k - 1] == xv && nviews[k] == oviews[k - 1]);
                    } else {
                        assert(nviews[k - 1] == oviews[k - 2] && nviews[k] == oviews[k - 1]);
                    }
                }
            }
        }
        idx = idx + 1;
    }
    proof {
        assert(iviews.take(input@.len() as int) =~= iviews);
    }
    out
}

/// With the `Stable` filter, everything accepted has no prerelease label.
proof fn lemma_accepted_stable(names: Seq<Seq<char>>, f: ReleasesFilter)
    requires
        f is Stable,
    ensures
        forall|k: int|
            0 <= k < accepted_versions(names, f).len() ==> (#[trigger] accepted_versions(
                names,
                f,
            )[k]).pre.len() == 0,
    decreases names.len(),
{
    if names.len() > 0 {
        lemma_accepted_stable(names.drop_last(), f);
        let prev = accepted_versions(names.drop_last(), f);
        let cur = accepted_versions(names, f);
        assert forall|k: int| 0 <= k < cur.len() implies (#[trigger] cur[k]).pre.len() == 0 by {
            match spec_tag_version(names.last()) {
                Some(v) => {
                    if f.spec_matches(v) {
                        if k < prev.len() {
                            assert(cur[k] == prev[k]);
                        } else {
                            assert(cur[k] == v);
                        }
                    } else {
                        assert(cur[k] == prev[k]);
                    }
                },
                None => {
                    assert(cur[k] == prev[k]);
                },
            }
        }
    }
}

/// All releases named by the tag references, filtered and newest first.
///
/// The result holds exactly the versions of the parseable, accepted tags
/// (so with `All`, every valid version tag in the input appears), in
/// descending order; with `Stable`, nothing produced has a prerelease label.
pub fn versions_from_refs(names: &Vec<String>, filter: ReleasesFilter) -> (r: Vec<Version>)
    ensures
        r@.map_values(|ver: Version| ver@).to_multiset() == accepted_versions(
            names.deep_view(),
            filter,
        ).to_multiset(),
        sorted_desc(r@.map_values(|ver: Version| ver@)),
        forall|k: int| 0 <= k < r@.len() ==> (#[trigger] r@[k]@).wf(),
        filter is Stable ==> forall|k: int|
            0 <= k < r@.len() ==> (#[trigger] r@[k]@).pre.len() == 0,
{
    let ghost nv = names.deep_view();
    let mut parsed: Vec<Version> = Vec::new();
    let mut i: usize = 0;
    while i < names.len()
        invariant
            i <= names@.len(),
            nv == names.deep_view(),
            nv.len() == names@.len(),
            forall|k: int| 0 <= k < names@.len() ==> nv[k] == #[trigger] names@[k]@,
            parsed@.map_values(|ver: Version| ver@) == accepted_versions(
                nv.take(i as int),
                filter,
            ),
            forall|k: int| 0 <= k < parsed@.len() ==> (#[trigger] parsed@[k]@).wf(),
        decreases names@.len() - i,
    {
        let ghost pviews = parsed@.map_values(|ver: Version| ver@);
        match remote_head_to_version(names[i].as_str()) {
            Some(v) => {
                if filter.matches(&v) {
                    let ghost vv = v@;
                    parsed.push(v);
                    proof {
                        assert(parsed@.map_values(|ver: Version| ver@) =~= pviews.push(vv));
                    }
                }
            },
            None => {},
        }
        proof {
            assert(nv.take(i + 1).drop_last() =~= nv.take(i as int));
            assert(nv.take(i + 1).last() == nv[i as int]);
            assert(parsed@.map_values(|ver: Version| ver@) =~= accepted_versions(
                nv.take(i + 1),
                filter,
            ));
        }
        i = i + 1;
    }
    proof {
        assert(nv.take(names@.len() as int) =~= nv);
    }
    let r = sort_versions_desc(parsed);
    proof {
        if filter is Stable {
            lemma_accepted_stable(nv, filter);
            let rv = r@.map_values(|ver: Version| ver@);
            let av = accepted_versions(nv, filter);
            assert forall|k: int| 0 <= k < r@.len() implies (#[trigger] r@[k]@).pre.len() == 0 by {
                let v = rv[k];
                assert(rv[k] == r@[k]@);
                assert(rv.contains(v));
                assert(av.to_multiset().count(v) > 0);
                assert(av.contains(v));
                let m = choose|m: int| 0 <= m <= av.len() - 1 && av[m] == v;
                assert(av[m].pre.len() == 0);
            }
        }
    }
    r
}

/// Up to `limit` releases, newest first: the filtered, descending tag
/// listing cut after its first `limit` entries.
pub fn select_releases(names: &Vec<String>, filter: ReleasesFilter, limit: usize) -> (r: Vec<
    Version,
>)
    ensures
        exists|full: Seq<VersionV>|
            {
                &&& #[trigger] sorted_desc(full)
                &&& full.to_multiset() == accepted_versions(names.deep_view(), filter).to_multiset()
                &&& r@.map_values(|ver: Version| ver@) == full.take(
                    if limit as int <= full.len() {
                        limit as int
                    } else {
                        full.len() as int
                    },
                )
            },
        sorted_desc(r@.map_values(|ver: Version| ver@)),
        r@.len() <= limit,
        forall|k: int| 0 <= k < r@.len() ==> (#[trigger] r@[k]@).wf(),
        filter is Stable ==> forall|k: int|
            0 <= k < r@.len() ==> (#[trigger] r@[k]@).pre.len() == 0,
{
    let mut r = versions_from_refs(names, filter);
    let ghost full = r@.map_values(|ver: Version| ver@);
    if r.len() > limit {
        r.truncate(limit);
    }
    proof {
        assert(r@.map_values(|ver: Version| ver@) =~= full.take(
            if limit as int <= full.len() {
                limit as int
            } else {
                full.len() as int
            },
        ));
        assert(sorted_desc(r@.map_values(|ver: Version| ver@)));
    }
    r
}

/// The single latest stable release, or `Error::Unknown` when the tag
/// listing yields no stable release at all.
pub fn latest_release_from_refs(names: &Vec<String>) -> (r: Result<Version, Error>)
    ensures
        match r {
            Ok(v) => exists|full: Seq<VersionV>|
                {
                    &&& #[trigger] sorted_desc(full)
                    &&& full.to_multiset() == accepted_versions(
                        names.deep_view(),
                        ReleasesFilter::Stable,
                    ).to_multiset()
                    &&& full.len() > 0
                    &&& full[0] == v@
                } && v@.wf() && v@.pre.len() == 0 && forall|k: int|
                    0 <= k < accepted_versions(names.deep_view(), ReleasesFilter::Stable).len()
                        ==> spec_cmp(
                        v@,
                        #[trigger] accepted_versions(
                            names.deep_view(),
                            ReleasesFilter::Stable,
                        )[k],
                    ) >= 0,
            Err(e) => e == Error::Unknown && accepted_versions(
                names.deep_view(),
                ReleasesFilter::Stable,
            ).len() == 0,
        },
{
    let mut all = versions_from_refs(names, ReleasesFilter::Stable);
    if all.len() == 0 {
        proof {
            let av = accepted_versions(names.deep_view(), ReleasesFilter::Stable);
            assert(all@.map_values(|ver: Version| ver@).to_multiset().len() == 0);
            assert(av.to_multiset().len() == av.len());
        }
        Err(Error::Unknown)
    } else {
        let ghost full = all@.map_values(|ver: Version| ver@);
        let v = all[0].dup();
        proof {
            assert(v@ == full[0]);
            let av = accepted_versions(names.deep_view(), ReleasesFilter::Stable);
            assert forall|k: int| 0 <= k < av.len() implies spec_cmp(v@, #[trigger] av[k]) >= 0 by {
                assert(av.contains(av[k]));
                assert(av.to_multiset().count(av[k]) > 0);
                assert(full.to_multiset().count(av[k]) > 0);
                assert(full.contains(av[k]));
                let m = choose|m: int| 0 <= m < full.len() && full[m] == av[k];
                lemma_sorted_head_dominates_at(full, m);
            }
        }
        Ok(v)
    }
}

/// In a descending listing the head is at or above the entry at `k`.
proof fn lemma_sorted_head_dominates_at(s: Seq<VersionV>, k: int)
    requires
        sorted_desc(s),
        0 <= k < s.len(),
    ensures
        spec_cmp(s[0], s[k]) >= 0,
    decreases k,
{
    if k == 0 {
        lemma_cmp_flip(s[0], s[0]);
    } else {
        lemma_sorted_head_dominates_at(s, k - 1);
        lemma_cmp_trans(s[0], s[k - 1], s[k]);
    }
}

/// Adjacent entries of a descending listing with no repeated version are
/// strictly descending: each produced version is strictly above its
/// successor.
pub proof fn lemma_distinct_sorted_is_strict(s: Seq<VersionV>)
    requires
        sorted_desc(s),
        forall|i: int, j: int| 0 <= i < j < s.len() ==> #[trigger] s[i] != #[trigger] s[j],
    ensures
        forall|k: int| 0 < k < s.len() ==> spec_lt(#[trigger] s[k], s[k - 1]),
{
    assert forall|k: int| 0 < k < s.len() implies spec_lt(#[trigger] s[k], s[k - 1]) by {
        assert(spec_cmp(s[k - 1], s[k]) >= 0);
        if spec_cmp(s[k - 1], s[k]) == 0 {
            lemma_cmp_zero_is_eq(s[k - 1], s[k]);
        } else {
            lemma_cmp_flip(s[k - 1], s[k]);
        }
    }
}

} // verus!
