//! Scanning listing-page text for version tags.
//!
//! A candidate is the literal path segment `releases/tag/` followed by
//! `<digits>.<digits>.<digits>` and, optionally, `-<alpha>.<digits>`.
//! Runs are maximal; only that leading well-formed span is captured, so a
//! trailing build-metadata or malformed prerelease tail is left behind and
//! scanning resumes right after the captured span.

use vstd::prelude::*;

use crate::releases::ReleasesFilter;
use crate::version::{is_alpha_byte, is_digit_byte, is_ident_byte, Version, VersionV};

verus! {

/// The bytes of the literal `releases/tag/`.
pub open spec fn tag_lit() -> Seq<u8> {
    seq![114u8, 101u8, 108u8, 101u8, 97u8, 115u8, 101u8, 115u8, 47u8, 116u8, 97u8, 103u8, 47u8]
}

/// End of the maximal digit run starting at `i`.
pub open spec fn digit_run_end(s: Seq<u8>, i: int) -> int
    decreases s.len() - i,
{
    if i < 0 || i >= s.len() || !is_digit_byte(s[i]) {
        i
    } else {
        digit_run_end(s, i + 1)
    }
}

/// End of the maximal alphabetic run starting at `i`.
pub open spec fn alpha_run_end(s: Seq<u8>, i: int) -> int
    decreases s.len() - i,
{
    if i < 0 || i >= s.len() || !is_alpha_byte(s[i]) {
        i
    } else {
        alpha_run_end(s, i + 1)
    }
}

/// Bounds of a version capture inside page text: the version starts at
/// `v0`; `d1`, `d2` and `d3` end the major, minor and patch digit runs;
/// `end` ends the whole captured span (`d3` when no prerelease part is
/// captured).
#[verifier::ext_equal]
pub struct CaptureV {
    pub v0: int,
    pub d1: int,
    pub d2: int,
    pub d3: int,
    pub end: int,
}

/// Where the captured span ends after the patch digits: a prerelease part
/// `-<alpha>.<digits>` extends it only when completely present.
pub open spec fn pre_end(s: Seq<u8>, d3: int) -> int {
    if d3 < s.len() && s[d3] == 45 {
        let ea = alpha_run_end(s, d3 + 1);
        if ea > d3 + 1 && ea < s.len() && s[ea] == 46 {
            let en = digit_run_end(s, ea + 1);
            if en > ea + 1 {
                en
            } else {
                d3
            }
        } else {
            d3
        }
    } else {
        d3
    }
}

/// The capture produced by a match of the version-tag pattern at
/// position `p` of the text, if the pattern matches there.
pub open spec fn capture_at(s: Seq<u8>, p: int) -> Option<CaptureV> {
    if p < 0 || p + 13 > s.len() || s.subrange(p, p + 13) != tag_lit() {
        None
    } else {
        let v0 = p + 13;
        let d1 = digit_run_end(s, v0);
        if d1 == v0 || d1 >= s.len() || s[d1] != 46 {
            None
        } else {
            let d2 = digit_run_end(s, d1 + 1);
            if d2 == d1 + 1 || d2 >= s.len() || s[d2] != 46 {
                None
            } else {
                let d3 = digit_run_end(s, d2 + 1);
                if d3 == d2 + 1 {
                    None
                } else {
                    Some(CaptureV { v0, d1, d2, d3, end: pre_end(s, d3) })
                }
            }
        }
    }
}

/// The leftmost position at or after `i` where the pattern matches.
pub open spec fn find_from(s: Seq<u8>, i: int) -> Option<int>
    decreases s.len() - i,
{
    if i < 0 || i >= s.len() {
        None
    } else if capture_at(s, i) is Some {
        Some(i)
    } else {
        find_from(s, i + 1)
    }
}

/// The number denoted by the digit run `s[i..e)`.
pub open spec fn digits_value(s: Seq<u8>, i: int, e: int) -> nat
    decreases e - i,
{
    if e <= i {
        0
    } else {
        digits_value(s, i, e - 1) * 10 + (s[e - 1] - 48) as nat
    }
}

/// No leading zero in the digit run `s[i..e)`.
pub open spec fn no_leading_zero(s: Seq<u8>, i: int, e: int) -> bool {
    e - i > 1 ==> s[i] != 48
}

/// The version a capture parses to, or nothing when it is rejected as a
/// semantic version: a numeric component with a leading zero, or a
/// major, minor or patch value beyond `u64`.
pub open spec fn capture_version(s: Seq<u8>, c: CaptureV) -> Option<VersionV> {
    let n0 = alpha_run_end(s, c.d3 + 1) + 1;
    if no_leading_zero(s, c.v0, c.d1) && no_leading_zero(s, c.d1 + 1, c.d2) && no_leading_zero(
        s,
        c.d2 + 1,
        c.d3,
    ) && (c.end == c.d3 || no_leading_zero(s, n0, c.end)) && digits_value(s, c.v0, c.d1)
        <= u64::MAX && digits_value(s, c.d1 + 1, c.d2) <= u64::MAX && digits_value(
        s,
        c.d2 + 1,
        c.d3,
    ) <= u64::MAX {
        Some(
            VersionV {
                major: digits_value(s, c.v0, c.d1) as u64,
                minor: digits_value(s, c.d1 + 1, c.d2) as u64,
                patch: digits_value(s, c.d2 + 1, c.d3) as u64,
                pre: if c.end == c.d3 {
                    Seq::empty()
                } else {
                    s.subrange(c.d3 + 1, c.end)
                },
            },
        )
    } else {
        None
    }
}

/// What scanning from `off` produces next: the next accepted version and
/// the offset just past its span; a span that fails to parse; or no
/// further match on this page.
pub enum ScanNext {
    Found(VersionV, int),
    Bad,
    Done,
}

/// Bounds that hold of every successful capture.
pub proof fn lemma_capture_bounds(s: Seq<u8>, p: int)
    requires
        capture_at(s, p) is Some,
    ensures
        ({
            let c = capture_at(s, p)->Some_0;
            &&& p + 13 == c.v0
            &&& c.v0 < c.d1 < c.d2 < c.d3 <= c.end <= s.len()
        }),
{
    let c = capture_at(s, p)->Some_0;
    lemma_digit_run(s, c.v0);
    lemma_digit_run(s, c.d1 + 1);
    lemma_digit_run(s, c.d2 + 1);
    if c.end != c.d3 {
        lemma_alpha_run(s, c.d3 + 1);
        lemma_digit_run(s, alpha_run_end(s, c.d3 + 1) + 1);
    }
}

/// A successful find points at a capture, at or after where it started.
pub proof fn lemma_find_from_bounds(s: Seq<u8>, i: int)
    requires
        find_from(s, i) is Some,
    ensures
        ({
            let p = find_from(s, i)->Some_0;
            &&& i <= p < s.len()
            &&& capture_at(s, p) is Some
        }),
    decreases s.len() - i,
{
    if !(i < 0 || i >= s.len()) && capture_at(s, i) is None {
        lemma_find_from_bounds(s, i + 1);
    }
}

/// Positions without a capture can be skipped without changing the find.
pub proof fn lemma_find_from_skip(s: Seq<u8>, i: int, p: int)
    requires
        0 <= i <= p <= s.len(),
        forall|q: int| i <= q < p ==> capture_at(s, q) is None,
    ensures
        find_from(s, i) == find_from(s, p),
    decreases p - i,
{
    if i < p {
        lemma_find_from_skip(s, i + 1, p);
    }
}

/// What scanning from `off` produces next: the first capture at or after
/// `off` decides; a version the filter rejects is skipped and scanning
/// resumes just past its span.
pub open spec fn spec_scan_next(t: Seq<u8>, off: int, f: ReleasesFilter) -> ScanNext
    decreases t.len() - off,
    via spec_scan_next_decreases
{
    match find_from(t, off) {
        None => ScanNext::Done,
        Some(p) => {
            let c = capture_at(t, p)->Some_0;
            match capture_version(t, c) {
                None => ScanNext::Bad,
                Some(v) => if f.spec_matches(v) {
                    ScanNext::Found(v, c.end)
                } else {
                    spec_scan_next(t, c.end, f)
                },
            }
        },
    }
}

#[via_fn]
proof fn spec_scan_next_decreases(t: Seq<u8>, off: int, f: ReleasesFilter) {
    if find_from(t, off) is Some {
        lemma_find_from_bounds(t, off);
        lemma_capture_bounds(t, find_from(t, off)->Some_0);
    }
}

/// A found span always advances the offset and stays inside the text.
pub proof fn lemma_scan_next_found(t: Seq<u8>, off: int, f: ReleasesFilter)
    requires
        spec_scan_next(t, off, f) is Found,
    ensures
        off < spec_scan_next(t, off, f)->Found_1 <= t.len(),
        f.spec_matches(spec_scan_next(t, off, f)->Found_0),
    decreases t.len() - off,
{
    let p = find_from(t, off)->Some_0;
    lemma_find_from_bounds(t, off);
    lemma_capture_bounds(t, p);
    let c = capture_at(t, p)->Some_0;
    match capture_version(t, c) {
        Some(v) => {
            if !f.spec_matches(v) {
                lemma_scan_next_found(t, c.end, f);
            }
        },
        None => {},
    }
}

/// Bounds and content of a maximal digit run.
pub proof fn lemma_digit_run(s: Seq<u8>, i: int)
    requires
        0 <= i <= s.len(),
    ensures
        i <= digit_run_end(s, i) <= s.len(),
        forall|k: int| i <= k < digit_run_end(s, i) ==> is_digit_byte(#[trigger] s[k]),
        digit_run_end(s, i) < s.len() ==> !is_digit_byte(s[digit_run_end(s, i)]),
    decreases s.len() - i,
{
    if i < s.len() && is_digit_byte(s[i]) {
        lemma_digit_run(s, i + 1);
    }
}

/// Bounds and content of a maximal alphabetic run.
pub proof fn lemma_alpha_run(s: Seq<u8>, i: int)
    requires
        0 <= i <= s.len(),
    ensures
        i <= alpha_run_end(s, i) <= s.len(),
        forall|k: int| i <= k < alpha_run_end(s, i) ==> is_alpha_byte(#[trigger] s[k]),
        alpha_run_end(s, i) < s.len() ==> !is_alpha_byte(s[alpha_run_end(s, i)]),
    decreases s.len() - i,
{
    if i < s.len() && is_alpha_byte(s[i]) {
        lemma_alpha_run(s, i + 1);
    }
}

/// Identifiers end exactly where the dots (or the text) do.
proof fn lemma_ident_end_is(s: Seq<u8>, i: int, e: int)
    requires
        0 <= i <= e <= s.len(),
        forall|k: int| i <= k < e ==> #[trigger] s[k] != 46,
        e == s.len() || s[e] == 46,
    ensures
        crate::version::ident_end(s, i) == e,
    decreases e - i,
{
    if i < e {
        lemma_ident_end_is(s, i + 1, e);
    }
}

/// A captured prerelease part that passes the leading-zero check is a
/// well-formed prerelease label: one alphabetic identifier, a dot, and
/// one numeric identifier.
proof fn lemma_capture_pre_wf(s: Seq<u8>, p: int, c: CaptureV)
    requires
        capture_at(s, p) == Some(c),
        c.end > c.d3,
        no_leading_zero(s, alpha_run_end(s, c.d3 + 1) + 1, c.end),
    ensures
        crate::version::wf_pre(s.subrange(c.d3 + 1, c.end)),
{
    lemma_capture_bounds(s, p);
    let a0 = c.d3 + 1;
    let ea = alpha_run_end(s, a0);
    let n0 = ea + 1;
    let en = c.end;
    lemma_alpha_run(s, a0);
    lemma_digit_run(s, n0);
    let pre = s.subrange(a0, en);
    let la = ea - a0;
    assert forall|k: int| 0 <= k < la implies #[trigger] pre[k] != 46 && is_ident_byte(pre[k]) by {
        assert(pre[k] == s[a0 + k]);
        assert(is_alpha_byte(s[a0 + k]));
    }
    assert(pre[la] == 46);
    assert forall|k: int| la < k < pre.len() implies is_digit_byte(#[trigger] pre[k]) by {
        assert(pre[k] == s[a0 + k]);
        assert(is_digit_byte(s[a0 + k]));
    }
    lemma_ident_end_is(pre, 0, la);
    assert(crate::version::valid_ident(pre, 0, la)) by {
        assert(!is_digit_byte(pre[0]));
    }
    assert forall|k: int| la + 1 <= k < pre.len() implies #[trigger] pre[k] != 46 by {
        assert(is_digit_byte(pre[k]));
    }
    lemma_ident_end_is(pre, la + 1, pre.len() as int);
    assert(crate::version::valid_ident(pre, la + 1, pre.len() as int)) by {
        if pre.len() - (la + 1) > 1 {
            assert(pre[la + 1] == s[n0]);
        }
    }
    assert(crate::version::wf_pre_from(pre, la + 1));
    assert(crate::version::wf_pre_from(pre, 0));
}

fn digit_run_end_x(v: &Vec<u8>, i: usize) -> (e: usize)
    requires
        i <= v@.len(),
    ensures
        e as int == digit_run_end(v@, i as int),
        i <= e <= v@.len(),
{
    let mut j: usize = i;
    while j < v.len() && 48 <= v[j] && v[j] <= 57
        invariant
            i <= j <= v@.len(),
            digit_run_end(v@, i as int) == digit_run_end(v@, j as int),
        decreases v@.len() - j,
    {
        assert(digit_run_end(v@, j as int) == digit_run_end(v@, j + 1));
        j = j + 1;
    }
    assert(digit_run_end(v@, j as int) == j);
    j
}

fn alpha_run_end_x(v: &Vec<u8>, i: usize) -> (e: usize)
    requires
        i <= v@.len(),
    ensures
        e as int == alpha_run_end(v@, i as int),
        i <= e <= v@.len(),
{
    let mut j: usize = i;
    while j < v.len() && ((65 <= v[j] && v[j] <= 90) || (97 <= v[j] && v[j] <= 122))
        invariant
            i <= j <= v@.len(),
            alpha_run_end(v@, i as int) == alpha_run_end(v@, j as int),
        decreases v@.len() - j,
    {
        assert(alpha_run_end(v@, j as int) == alpha_run_end(v@, j + 1));
        j = j + 1;
    }
    assert(alpha_run_end(v@, j as int) == j);
    j
}

/// Whether the literal `releases/tag/` stands at position `p`.
fn tag_lit_at(v: &Vec<u8>, p: usize) -> (r: bool)
    requires
        p <= v@.len(),
    ensures
        r == (p + 13 <= v@.len() && v@.subrange(p as int, p + 13) == tag_lit()),
{
    if v.len() - p < 13 {
        return false;
    }
    let r = v[p] == 114 && v[p + 1] == 101 && v[p + 2] == 108 && v[p + 3] == 101 && v[p + 4] == 97
        && v[p + 5] == 115 && v[p + 6] == 101 && v[p + 7] == 115 && v[p + 8] == 47 && v[p + 9]
        == 116 && v[p + 10] == 97 && v[p + 11] == 103 && v[p + 12] == 47;
    proof {
        let sub = v@.subrange(p as int, p + 13);
        if r {
            assert(sub =~= tag_lit()) by {
                assert forall|k: int| 0 <= k < 13 implies sub[k] == tag_lit()[k] by {
                    assert(sub[k] == v@[p + k]);
                }
            }
        } else {
            assert(sub != tag_lit()) by {
                if sub == tag_lit() {
                    assert forall|k: int| 0 <= k < 13 implies v@[p + k] == tag_lit()[k] by {
                        assert(sub[k] == v@[p + k]);
                    }
                    assert(v@[p + 0] == 114 && v@[p + 1] == 101 && v@[p + 2] == 108 && v@[p + 3]
                        == 101 && v@[p + 4] == 97 && v@[p + 5] == 115 && v@[p + 6] == 101 && v@[p
                        + 7] == 115 && v@[p + 8] == 47 && v@[p + 9] == 116 && v@[p + 10] == 97
                        && v@[p + 11] == 103 && v@[p + 12] == 47);
                }
            }
        }
    }
    r
}

/// The capture at position `p`, if the pattern matches there:
/// `(d1, d2, d3, end)`, the version starting at `p + 13`.
fn capture_at_x(v: &Vec<u8>, p: usize) -> (r: Option<(usize, usize, usize, usize)>)
    requires
        p <= v@.len(),
    ensures
        match r {
            Some(t) => capture_at(v@, p as int) == Some(
                CaptureV {
                    v0: p + 13,
                    d1: t.0 as int,
                    d2: t.1 as int,
                    d3: t.2 as int,
                    end: t.3 as int,
                },
            ) && p + 13 < t.0 && t.0 < t.1 && t.1 < t.2 && t.2 <= t.3 && t.3 <= v@.len(),
            None => capture_at(v@, p as int) is None,
        },
{
    if !tag_lit_at(v, p) {
        return None;
    }
    let vlen = v.len();
    assert(p + 13 <= vlen);
    let v0 = p + 13;
    let d1 = digit_run_end_x(v, v0);
    if d1 == v0 || d1 >= v.len() || v[d1] != 46 {
        return None;
    }
    let d2 = digit_run_end_x(v, d1 + 1);
    if d2 == d1 + 1 || d2 >= v.len() || v[d2] != 46 {
        return None;
    }
    let d3 = digit_run_end_x(v, d2 + 1);
    if d3 == d2 + 1 {
        return None;
    }
    let end: usize = if d3 < v.len() && v[d3] == 45 {
        let ea = alpha_run_end_x(v, d3 + 1);
        if ea > d3 + 1 && ea < v.len() && v[ea] == 46 {
            let en = digit_run_end_x(v, ea + 1);
            if en > ea + 1 {
                en
            } else {
                d3
            }
        } else {
            d3
        }
    } else {
        d3
    };
    Some((d1, d2, d3, end))
}

/// The leftmost capture at or after `from`: its match position and
/// `(d1, d2, d3, end)`.
fn find_capture_x(v: &Vec<u8>, from: usize) -> (r: Option<(usize, (usize, usize, usize, usize))>)
    requires
        from <= v@.len(),
    ensures
        match r {
            Some(t) => find_from(v@, from as int) == Some(t.0 as int) && capture_at(
                v@,
                t.0 as int,
            ) == Some(
                CaptureV {
                    v0: t.0 + 13,
                    d1: t.1.0 as int,
                    d2: t.1.1 as int,
                    d3: t.1.2 as int,
                    end: t.1.3 as int,
                },
            ) && from <= t.0 && t.0 + 13 < t.1.0 && t.1.0 < t.1.1 && t.1.1 < t.1.2 && t.1.2
                <= t.1.3 && t.1.3 <= v@.len(),
            None => find_from(v@, from as int) is None,
        },
{
    let mut p: usize = from;
    while p < v.len()
        invariant
            from <= p <= v@.len(),
            forall|q: int| from <= q < p ==> capture_at(v@, q) is None,
        decreases v@.len() - p,
    {
        match capture_at_x(v, p) {
            Some(t) => {
                proof {
                    lemma_find_from_skip(v@, from as int, p as int);
                }
                return Some((p, t));
            },
            None => {},
        }
        p = p + 1;
    }
    proof {
        lemma_find_from_skip(v@, from as int, v@.len() as int);
    }
    None
}

/// A digit run's value never shrinks as the run extends.
pub proof fn lemma_digits_value_mono(s: Seq<u8>, i: int, a: int, b: int)
    requires
        i <= a <= b,
    ensures
        digits_value(s, i, b) >= digits_value(s, i, a),
    decreases b - a,
{
    if a < b {
        lemma_digits_value_mono(s, i, a, b - 1);
    }
}

/// The value of the digit run `v[i..e)`, or nothing when it exceeds `u64`.
fn parse_digits_u64(v: &Vec<u8>, i: usize, e: usize) -> (r: Option<u64>)
    requires
        i <= e <= v@.len(),
        crate::version::all_digits(v@, i as int, e as int),
    ensures
        match r {
            Some(x) => x as nat == digits_value(v@, i as int, e as int),
            None => digits_value(v@, i as int, e as int) > u64::MAX,
        },
{
    let mut val: u64 = 0;
    let mut j: usize = i;
    while j < e
        invariant
            i <= j <= e <= v@.len(),
            crate::version::all_digits(v@, i as int, e as int),
            val as nat == digits_value(v@, i as int, j as int),
        decreases e - j,
    {
        let d = v[j];
        assert(is_digit_byte(v@[j as int]));
        let dd: u64 = (d - 48) as u64;
        if val > 1844674407370955161 || (dd > u64::MAX - val * 10) {
            proof {
                assert(digits_value(v@, i as int, j + 1) == digits_value(v@, i as int, j as int)
                    * 10 + (v@[j as int] - 48) as nat);
                lemma_digits_value_mono(v@, i as int, j + 1, e as int);
            }
            return None;
        }
        val = val * 10 + dd;
        proof {
            assert(val as nat == digits_value(v@, i as int, j + 1));
        }
        j = j + 1;
    }
    Some(val)
}

/// Parses the span of a capture as a version. Nothing comes back exactly
/// when the span is rejected as a semantic version: a numeric component
/// with a leading zero, or a major, minor or patch value beyond `u64`.
fn parse_capture_x(v: &Vec<u8>, p: usize, d1: usize, d2: usize, d3: usize, end: usize) -> (r:
    Option<Version>)
    requires
        capture_at(v@, p as int) == Some(
            CaptureV { v0: p + 13, d1: d1 as int, d2: d2 as int, d3: d3 as int, end: end as int },
        ),
        p + 13 < d1 && d1 < d2 && d2 < d3 <= end <= v@.len(),
    ensures
        match r {
            Some(ver) => capture_version(
                v@,
                CaptureV {
                    v0: p + 13,
                    d1: d1 as int,
                    d2: d2 as int,
                    d3: d3 as int,
                    end: end as int,
                },
            ) == Some(ver@) && ver.wf(),
            None => capture_version(
                v@,
                CaptureV {
                    v0: p + 13,
                    d1: d1 as int,
                    d2: d2 as int,
                    d3: d3 as int,
                    end: end as int,
                },
            ) is None,
        },
{
    let ghost c = CaptureV {
        v0: p + 13,
        d1: d1 as int,
        d2: d2 as int,
        d3: d3 as int,
        end: end as int,
    };
    let v0 = p + 13;
    if d1 - v0 > 1 && v[v0] == 48 {
        return None;
    }
    if d2 - (d1 + 1) > 1 && v[d1 + 1] == 48 {
        return None;
    }
    if d3 - (d2 + 1) > 1 && v[d2 + 1] == 48 {
        return None;
    }
    if end > d3 {
        let n0 = alpha_run_end_x(v, d3 + 1) + 1;
        proof {
            lemma_capture_bounds(v@, p as int);
        }
        if end - n0 > 1 && n0 < v.len() && v[n0] == 48 {
            return None;
        }
        proof {
            assert(no_leading_zero(v@, n0 as int, end as int)) by {
                if end - n0 > 1 {
                    lemma_digit_run(v@, n0 as int);
                }
            }
        }
    }
    proof {
        assert(d1 as int == digit_run_end(v@, p + 13));
        assert(d2 as int == digit_run_end(v@, d1 + 1));
        assert(d3 as int == digit_run_end(v@, d2 + 1));
        lemma_digit_run(v@, p + 13);
        lemma_digit_run(v@, d1 + 1);
        lemma_digit_run(v@, d2 + 1);
    }
    let major = match parse_digits_u64(v, v0, d1) {
        Some(x) => x,
        None => {
            return None;
        },
    };
    let minor = match parse_digits_u64(v, d1 + 1, d2) {
        Some(x) => x,
        None => {
            return None;
        },
    };
    let patch = match parse_digits_u64(v, d2 + 1, d3) {
        Some(x) => x,
        None => {
            return None;
        },
    };
    let mut pre: Vec<u8> = Vec::new();
    if end > d3 {
        let mut k: usize = d3 + 1;
        while k < end
            invariant
                d3 + 1 <= k <= end <= v@.len(),
                pre@ == v@.subrange(d3 + 1, k as int),
            decreases end - k,
        {
            pre.push(v[k]);
            proof {
                assert(pre@ =~= v@.subrange(d3 + 1, k + 1));
            }
            k = k + 1;
        }
    }
    let ver = Version { major, minor, patch, pre };
    proof {
        if end > d3 {
            let n0 = alpha_run_end(v@, d3 + 1) + 1;
            assert(no_leading_zero(v@, n0, end as int)) by {
                if end - n0 > 1 {
                    lemma_capture_bounds(v@, p as int);
                    lemma_digit_run(v@, n0);
                }
            }
            lemma_capture_pre_wf(v@, p as int, c);
            assert(ver@ =~= capture_version(v@, c)->Some_0);
        } else {
            assert(ver@.pre =~= Seq::<u8>::empty());
            assert(ver@ =~= capture_version(v@, c)->Some_0);
        }
    }
    Some(ver)
}

/// The executable step of one page scan.
pub enum ScanOutcome {
    /// The next accepted version, and the offset just past its span.
    Found(Version, usize),
    /// A captured span failed to parse as a version.
    Invalid,
    /// No further match on this page.
    End,
}

/// Scans `text` from byte offset `from` for the next version the filter
/// accepts, per `spec_scan_next`: rejected versions are skipped in place,
/// a malformed span is a failure, and exhaustion asks for the next page.
pub fn scan_page_next(text: &Vec<u8>, from: usize, filter: ReleasesFilter) -> (r: ScanOutcome)
    requires
        from <= text@.len(),
    ensures
        match r {
            ScanOutcome::Found(ver, off) => spec_scan_next(text@, from as int, filter)
                == ScanNext::Found(ver@, off as int) && ver.wf() && from < off <= text@.len(),
            ScanOutcome::Invalid => spec_scan_next(text@, from as int, filter) is Bad,
            ScanOutcome::End => spec_scan_next(text@, from as int, filter) is Done,
        },
{
    let mut cur: usize = from;
    loop
        invariant
            from <= cur <= text@.len(),
            spec_scan_next(text@, from as int, filter) == spec_scan_next(
                text@,
                cur as int,
                filter,
            ),
        decreases text@.len() - cur,
    {
        match find_capture_x(text, cur) {
            None => {
                return ScanOutcome::End;
            },
            Some((p, (d1, d2, d3, end))) => {
                match parse_capture_x(text, p, d1, d2, d3, end) {
                    None => {
                        return ScanOutcome::Invalid;
                    },
                    Some(ver) => {
                        if filter.matches(&ver) {
                            return ScanOutcome::Found(ver, end);
                        }
                        cur = end;
                    },
                }
            },
        }
    }
}

} // verus!
