//! Semantic versions: a major/minor/patch triple with an optional prerelease
//! label, totally ordered by standard semantic-versioning precedence.
//!
//! The prerelease label is held as its ASCII bytes. A label is well formed
//! when it is a dot-separated list of nonempty identifiers over
//! `[0-9A-Za-z-]`, where an all-digit identifier has no leading zero; that is
//! exactly the shape the tag parser produces.

use vstd::prelude::*;

use crate::text::{ascii_bytes_to_string, chars_of};

verus! {

/// A parsed semantic version. An empty `pre` means a stable release.
pub struct Version {
    pub major: u64,
    pub minor: u64,
    pub patch: u64,
    pub pre: Vec<u8>,
}

/// The mathematical value of a `Version`.
#[verifier::ext_equal]
pub struct VersionV {
    pub major: u64,
    pub minor: u64,
    pub patch: u64,
    pub pre: Seq<u8>,
}

impl View for Version {
    type V = VersionV;

    open spec fn view(&self) -> VersionV {
        VersionV { major: self.major, minor: self.minor, patch: self.patch, pre: self.pre@ }
    }
}

pub open spec fn is_digit_byte(b: u8) -> bool {
    48 <= b <= 57
}

pub open spec fn is_alpha_byte(b: u8) -> bool {
    (65 <= b <= 90) || (97 <= b <= 122)
}

pub open spec fn is_ident_byte(b: u8) -> bool {
    is_digit_byte(b) || is_alpha_byte(b) || b == 45
}

/// Position of the first `.` at or after `i`, or the end of `s`.
pub open spec fn ident_end(s: Seq<u8>, i: int) -> int
    decreases s.len() - i,
{
    if i < 0 {
        i
    } else if i >= s.len() || s[i] == 46 {
        i
    } else {
        ident_end(s, i + 1)
    }
}

pub open spec fn all_digits(s: Seq<u8>, i: int, e: int) -> bool {
    forall|k: int| i <= k < e ==> is_digit_byte(#[trigger] s[k])
}

/// One prerelease identifier occupying `[i, e)` of `s` is valid.
pub open spec fn valid_ident(s: Seq<u8>, i: int, e: int) -> bool {
    &&& e > i
    &&& forall|k: int| i <= k < e ==> is_ident_byte(#[trigger] s[k])
    &&& (all_digits(s, i, e) && e - i > 1 ==> s[i] != 48)
}

/// The identifiers of `s` from position `i` on are all valid.
pub open spec fn wf_pre_from(s: Seq<u8>, i: int) -> bool
    decreases s.len() - i,
    via wf_pre_from_decreases
{
    if i < 0 || i > s.len() {
        false
    } else {
        let e = ident_end(s, i);
        valid_ident(s, i, e) && (e == s.len() || wf_pre_from(s, e + 1))
    }
}

#[via_fn]
proof fn wf_pre_from_decreases(s: Seq<u8>, i: int) {
    if 0 <= i <= s.len() {
        lemma_ident_end(s, i);
    }
}

/// A well-formed prerelease label: empty, or dot-separated valid identifiers.
pub open spec fn wf_pre(s: Seq<u8>) -> bool {
    s.len() == 0 || wf_pre_from(s, 0)
}

impl VersionV {
    pub open spec fn wf(self) -> bool {
        wf_pre(self.pre)
    }

    pub open spec fn is_stable(self) -> bool {
        self.pre.len() == 0
    }
}

pub open spec fn cmp3_int(a: int, b: int) -> int {
    if a < b {
        -1
    } else if a > b {
        1
    } else {
        0
    }
}

/// Byte-wise lexicographic comparison of `s[i..e)` against `t[j..f)`;
/// a strict prefix orders before the longer side.
pub open spec fn lex_cmp(s: Seq<u8>, i: int, e: int, t: Seq<u8>, j: int, f: int) -> int
    decreases e - i,
{
    if i >= e && j >= f {
        0
    } else if i >= e {
        -1
    } else if j >= f {
        1
    } else if s[i] != t[j] {
        cmp3_int(s[i] as int, t[j] as int)
    } else {
        lex_cmp(s, i + 1, e, t, j + 1, f)
    }
}

/// Semantic-versioning precedence of two prerelease identifiers:
/// numeric identifiers order numerically and before alphanumeric ones;
/// alphanumeric identifiers order lexically in ASCII order.
pub open spec fn ident_cmp(s: Seq<u8>, i: int, e: int, t: Seq<u8>, j: int, f: int) -> int {
    let s_num = all_digits(s, i, e);
    let t_num = all_digits(t, j, f);
    if s_num && !t_num {
        -1
    } else if !s_num && t_num {
        1
    } else if s_num && t_num && e - i != f - j {
        cmp3_int(e - i, f - j)
    } else {
        lex_cmp(s, i, e, t, j, f)
    }
}

/// Precedence of two nonempty prerelease labels, read from positions `i`
/// and `j` on: identifier by identifier, a shorter list ordering first.
pub open spec fn pre_cmp_from(s: Seq<u8>, i: int, t: Seq<u8>, j: int) -> int
    decreases s.len() - i,
    via pre_cmp_from_decreases
{
    if i < 0 || i > s.len() || j < 0 || j > t.len() {
        0
    } else {
        let e = ident_end(s, i);
        let f = ident_end(t, j);
        let c = ident_cmp(s, i, e, t, j, f);
        if c != 0 {
            c
        } else if e == s.len() && f == t.len() {
            0
        } else if e == s.len() {
            -1
        } else if f == t.len() {
            1
        } else {
            pre_cmp_from(s, e + 1, t, f + 1)
        }
    }
}

#[via_fn]
proof fn pre_cmp_from_decreases(s: Seq<u8>, i: int, t: Seq<u8>, j: int) {
    if 0 <= i <= s.len() {
        lemma_ident_end(s, i);
    }
}

/// Full precedence: the numeric triple first; then a version without a
/// prerelease label outranks one with a label; then label precedence.
pub open spec fn spec_cmp(a: VersionV, b: VersionV) -> int {
    if a.major != b.major {
        cmp3_int(a.major as int, b.major as int)
    } else if a.minor != b.minor {
        cmp3_int(a.minor as int, b.minor as int)
    } else if a.patch != b.patch {
        cmp3_int(a.patch as int, b.patch as int)
    } else if a.pre.len() == 0 && b.pre.len() == 0 {
        0
    } else if a.pre.len() == 0 {
        1
    } else if b.pre.len() == 0 {
        -1
    } else {
        pre_cmp_from(a.pre, 0, b.pre, 0)
    }
}

pub open spec fn spec_lt(a: VersionV, b: VersionV) -> bool {
    spec_cmp(a, b) < 0
}

/// Comparison flips its sign when the sides are exchanged.
pub proof fn lemma_lex_cmp_flip(s: Seq<u8>, i: int, e: int, t: Seq<u8>, j: int, f: int)
    ensures
        lex_cmp(s, i, e, t, j, f) == -lex_cmp(t, j, f, s, i, e),
    decreases e - i,
{
    if i < e && j < f && s[i] == t[j] {
        lemma_lex_cmp_flip(s, i + 1, e, t, j + 1, f);
    }
}

pub proof fn lemma_ident_cmp_flip(s: Seq<u8>, i: int, e: int, t: Seq<u8>, j: int, f: int)
    ensures
        ident_cmp(s, i, e, t, j, f) == -ident_cmp(t, j, f, s, i, e),
{
    lemma_lex_cmp_flip(s, i, e, t, j, f);
}

pub proof fn lemma_pre_cmp_flip(s: Seq<u8>, i: int, t: Seq<u8>, j: int)
    requires
        0 <= i <= s.len(),
        0 <= j <= t.len(),
    ensures
        pre_cmp_from(s, i, t, j) == -pre_cmp_from(t, j, s, i),
    decreases s.len() - i,
{
    let e = ident_end(s, i);
    let f = ident_end(t, j);
    lemma_ident_end(s, i);
    lemma_ident_end(t, j);
    lemma_ident_cmp_flip(s, i, e, t, j, f);
    if ident_cmp(s, i, e, t, j, f) == 0 && e < s.len() && f < t.len() {
        lemma_pre_cmp_flip(s, e + 1, t, f + 1);
    }
}

/// `spec_cmp` is antisymmetric in sign; in particular `spec_lt` never
/// holds in both directions.
pub proof fn lemma_cmp_flip(a: VersionV, b: VersionV)
    ensures
        spec_cmp(a, b) == -spec_cmp(b, a),
{
    if a.major == b.major && a.minor == b.minor && a.patch == b.patch && a.pre.len() != 0
        && b.pre.len() != 0 {
        lemma_pre_cmp_flip(a.pre, 0, b.pre, 0);
    }
}

/// Lexicographic comparison reads only the bytes of the two ranges.
pub proof fn lemma_lex_cmp_congruent(
    s: Seq<u8>,
    i: int,
    e: int,
    s2: Seq<u8>,
    i2: int,
    e2: int,
    t: Seq<u8>,
    j: int,
    f: int,
)
    requires
        e - i == e2 - i2,
        forall|m: int| 0 <= m < e - i ==> #[trigger] s[i + m] == s2[i2 + m],
    ensures
        lex_cmp(s, i, e, t, j, f) == lex_cmp(s2, i2, e2, t, j, f),
    decreases e - i,
{
    if i < e && j < f {
        assert(s[i + 0] == s2[i2 + 0]);
        if s[i] == t[j] {
            assert forall|m: int| 0 <= m < e - (i + 1) implies #[trigger] s[(i + 1) + m] == s2[(i2
                + 1) + m] by {
                assert(s[i + (m + 1)] == s2[i2 + (m + 1)]);
            }
            lemma_lex_cmp_congruent(s, i + 1, e, s2, i2 + 1, e2, t, j + 1, f);
        }
    }
}

/// Transitivity of the lexicographic order.
pub proof fn lemma_lex_cmp_trans(
    s: Seq<u8>,
    i: int,
    e: int,
    t: Seq<u8>,
    j: int,
    f: int,
    u: Seq<u8>,
    g: int,
    h: int,
)
    requires
        lex_cmp(s, i, e, t, j, f) <= 0,
        lex_cmp(t, j, f, u, g, h) <= 0,
    ensures
        lex_cmp(s, i, e, u, g, h) <= 0,
    decreases e - i,
{
    if i < e {
        if i < e && g < h && j < f && s[i] == t[j] && t[j] == u[g] {
            lemma_lex_cmp_trans(s, i + 1, e, t, j + 1, f, u, g + 1, h);
        }
    }
}

/// Transitivity of identifier precedence.
pub proof fn lemma_ident_cmp_trans(
    s: Seq<u8>,
    i: int,
    e: int,
    t: Seq<u8>,
    j: int,
    f: int,
    u: Seq<u8>,
    g: int,
    h: int,
)
    requires
        ident_cmp(s, i, e, t, j, f) <= 0,
        ident_cmp(t, j, f, u, g, h) <= 0,
    ensures
        ident_cmp(s, i, e, u, g, h) <= 0,
{
    if all_digits(s, i, e) && all_digits(t, j, f) && all_digits(u, g, h) {
        if e - i == f - j && f - j == h - g {
            lemma_lex_cmp_trans(s, i, e, t, j, f, u, g, h);
        }
    } else if !all_digits(s, i, e) && !all_digits(t, j, f) && !all_digits(u, g, h) {
        lemma_lex_cmp_trans(s, i, e, t, j, f, u, g, h);
    }
}

/// Transitivity of prerelease label precedence.
pub proof fn lemma_pre_cmp_trans(s: Seq<u8>, i: int, t: Seq<u8>, j: int, u: Seq<u8>, g: int)
    requires
        0 <= i <= s.len(),
        0 <= j <= t.len(),
        0 <= g <= u.len(),
        pre_cmp_from(s, i, t, j) <= 0,
        pre_cmp_from(t, j, u, g) <= 0,
    ensures
        pre_cmp_from(s, i, u, g) <= 0,
    decreases s.len() - i,
{
    let e = ident_end(s, i);
    let f = ident_end(t, j);
    let h = ident_end(u, g);
    lemma_ident_end(s, i);
    lemma_ident_end(t, j);
    lemma_ident_end(u, g);
    let cab = ident_cmp(s, i, e, t, j, f);
    let cbc = ident_cmp(t, j, f, u, g, h);
    let cac = ident_cmp(s, i, e, u, g, h);
    if cab > 0 || cbc > 0 {
        // Outside the preconditions.
    } else {
        lemma_ident_cmp_trans(s, i, e, t, j, f, u, g, h);
        if cac < 0 {
        } else {
            // The first and third identifiers compare equal, so they hold
            // the same bytes; the middle one then equals both.
            lemma_ident_cmp_zero(s, i, e, u, g, h);
            lemma_lex_cmp_congruent(u, g, h, s, i, e, t, j, f);
            assert forall|m: int| 0 <= m < h - g implies #[trigger] u[g + m] == s[i + m] by {
                assert(s[i + m] == u[g + m]);
            }
            assert(all_digits(u, g, h) == all_digits(s, i, e)) by {
                if all_digits(u, g, h) {
                    assert forall|k: int| i <= k < e implies is_digit_byte(#[trigger] s[k]) by {
                        assert(s[i + (k - i)] == u[g + (k - i)]);
                    }
                }
                if all_digits(s, i, e) {
                    assert forall|k: int| g <= k < h implies is_digit_byte(#[trigger] u[k]) by {
                        assert(s[i + (k - g)] == u[g + (k - g)]);
                    }
                }
            }
            assert(cbc == -cab) by {
                lemma_ident_cmp_flip(t, j, f, u, g, h);
            }
            assert(cab == 0 && cbc == 0);
            if e == s.len() && h == u.len() {
            } else if e == s.len() {
            } else if h == u.len() {
                // `a` continues while `c` ends: then `b` both continues
                // (from a <= b) and ends (from b <= c), a contradiction.
                assert(f < t.len() || pre_cmp_from(s, i, t, j) == 1);
                assert(f == t.len() || pre_cmp_from(t, j, u, g) == 1);
            } else {
                assert(f < t.len() || pre_cmp_from(s, i, t, j) == 1);
                lemma_pre_cmp_trans(s, e + 1, t, f + 1, u, h + 1);
            }
        }
    }
}

/// Transitivity of version precedence: `spec_cmp` is a total preorder.
pub proof fn lemma_cmp_trans(a: VersionV, b: VersionV, c: VersionV)
    requires
        spec_cmp(a, b) >= 0,
        spec_cmp(b, c) >= 0,
    ensures
        spec_cmp(a, c) >= 0,
{
    if a.major == b.major && b.major == c.major && a.minor == b.minor && b.minor == c.minor
        && a.patch == b.patch && b.patch == c.patch && a.pre.len() != 0 && b.pre.len() != 0
        && c.pre.len() != 0 {
        lemma_pre_cmp_flip(a.pre, 0, b.pre, 0);
        lemma_pre_cmp_flip(b.pre, 0, c.pre, 0);
        lemma_pre_cmp_flip(a.pre, 0, c.pre, 0);
        lemma_pre_cmp_trans(c.pre, 0, b.pre, 0, a.pre, 0);
    }
}

/// Ranges that compare equal lexically hold the same bytes.
pub proof fn lemma_lex_cmp_zero(s: Seq<u8>, i: int, e: int, t: Seq<u8>, j: int, f: int)
    requires
        0 <= i <= e <= s.len(),
        0 <= j <= f <= t.len(),
        lex_cmp(s, i, e, t, j, f) == 0,
    ensures
        e - i == f - j,
        forall|k: int| 0 <= k < e - i ==> #[trigger] s[i + k] == t[j + k],
    decreases e - i,
{
    if i < e && j < f && s[i] == t[j] {
        lemma_lex_cmp_zero(s, i + 1, e, t, j + 1, f);
        assert forall|k: int| 0 <= k < e - i implies #[trigger] s[i + k] == t[j + k] by {
            if k > 0 {
                assert(s[(i + 1) + (k - 1)] == t[(j + 1) + (k - 1)]);
            }
        }
    }
}

pub proof fn lemma_ident_cmp_zero(s: Seq<u8>, i: int, e: int, t: Seq<u8>, j: int, f: int)
    requires
        0 <= i <= e <= s.len(),
        0 <= j <= f <= t.len(),
        ident_cmp(s, i, e, t, j, f) == 0,
    ensures
        e - i == f - j,
        forall|k: int| 0 <= k < e - i ==> #[trigger] s[i + k] == t[j + k],
{
    lemma_lex_cmp_zero(s, i, e, t, j, f);
}

/// Prerelease labels that compare equal are the same byte sequence.
pub proof fn lemma_pre_cmp_zero(s: Seq<u8>, i: int, t: Seq<u8>, j: int)
    requires
        0 <= i <= s.len(),
        0 <= j <= t.len(),
        pre_cmp_from(s, i, t, j) == 0,
    ensures
        s.len() - i == t.len() - j,
        forall|k: int| 0 <= k < s.len() - i ==> #[trigger] s[i + k] == t[j + k],
    decreases s.len() - i,
{
    let e = ident_end(s, i);
    let f = ident_end(t, j);
    lemma_ident_end(s, i);
    lemma_ident_end(t, j);
    lemma_ident_cmp_zero(s, i, e, t, j, f);
    if e == s.len() && f == t.len() {
    } else {
        lemma_pre_cmp_zero(s, e + 1, t, f + 1);
        assert forall|k: int| 0 <= k < s.len() - i implies #[trigger] s[i + k] == t[j + k] by {
            if k < e - i {
            } else if k == e - i {
                assert(s[e] == 46 && t[f] == 46);
            } else {
                assert(s[(e + 1) + (k - (e - i) - 1)] == t[(f + 1) + (k - (e - i) - 1)]);
            }
        }
    }
}

/// Versions that compare equal are equal.
pub proof fn lemma_cmp_zero_is_eq(a: VersionV, b: VersionV)
    requires
        spec_cmp(a, b) == 0,
    ensures
        a == b,
{
    if a.pre.len() == 0 && b.pre.len() == 0 {
        assert(a.pre =~= b.pre);
    } else {
        lemma_pre_cmp_zero(a.pre, 0, b.pre, 0);
        assert forall|k: int| 0 <= k < a.pre.len() implies a.pre[k] == b.pre[k] by {
            assert(a.pre[0 + k] == b.pre[0 + k]);
        }
        assert(a.pre =~= b.pre);
    }
    assert(a =~= b);
}

/// Bounds of `ident_end`, and what its bytes are known to be.
pub proof fn lemma_ident_end(s: Seq<u8>, i: int)
    requires
        0 <= i <= s.len(),
    ensures
        i <= ident_end(s, i) <= s.len(),
        forall|k: int| i <= k < ident_end(s, i) ==> s[k] != 46,
        ident_end(s, i) < s.len() ==> s[ident_end(s, i)] == 46,
    decreases s.len() - i,
{
    if i < s.len() && s[i] != 46 {
        lemma_ident_end(s, i + 1);
    }
}

fn ident_end_x(v: &Vec<u8>, i: usize) -> (e: usize)
    requires
        i <= v@.len(),
    ensures
        e as int == ident_end(v@, i as int),
        i <= e <= v@.len(),
{
    let mut j: usize = i;
    while j < v.len() && v[j] != 46
        invariant
            i <= j <= v@.len(),
            ident_end(v@, i as int) == ident_end(v@, j as int),
        decreases v@.len() - j,
    {
        assert(ident_end(v@, j as int) == ident_end(v@, j + 1));
        j = j + 1;
    }
    assert(ident_end(v@, j as int) == j);
    j
}

fn all_digits_x(v: &Vec<u8>, i: usize, e: usize) -> (r: bool)
    requires
        i <= e <= v@.len(),
    ensures
        r == all_digits(v@, i as int, e as int),
{
    let mut j: usize = i;
    while j < e
        invariant
            i <= j <= e <= v@.len(),
            forall|k: int| i <= k < j ==> is_digit_byte(#[trigger] v@[k]),
        decreases e - j,
    {
        let b = v[j];
        if b < 48 || b > 57 {
            return false;
        }
        j = j + 1;
    }
    true
}

fn lex_cmp_x(v: &Vec<u8>, i: usize, e: usize, w: &Vec<u8>, j: usize, f: usize) -> (r: i8)
    requires
        i <= e <= v@.len(),
        j <= f <= w@.len(),
    ensures
        r as int == lex_cmp(v@, i as int, e as int, w@, j as int, f as int),
{
    let mut a: usize = i;
    let mut b: usize = j;
    loop
        invariant
            i <= a <= e <= v@.len(),
            j <= b <= f <= w@.len(),
            lex_cmp(v@, i as int, e as int, w@, j as int, f as int) == lex_cmp(
                v@,
                a as int,
                e as int,
                w@,
                b as int,
                f as int,
            ),
        decreases e - a,
    {
        if a >= e && b >= f {
            return 0;
        } else if a >= e {
            return -1;
        } else if b >= f {
            return 1;
        } else {
            let x = v[a];
            let y = w[b];
            if x < y {
                return -1;
            } else if x > y {
                return 1;
            }
            assert(lex_cmp(v@, a as int, e as int, w@, b as int, f as int) == lex_cmp(
                v@,
                a + 1,
                e as int,
                w@,
                b + 1,
                f as int,
            ));
            a = a + 1;
            b = b + 1;
        }
    }
}

fn ident_cmp_x(v: &Vec<u8>, i: usize, e: usize, w: &Vec<u8>, j: usize, f: usize) -> (r: i8)
    requires
        i <= e <= v@.len(),
        j <= f <= w@.len(),
    ensures
        r as int == ident_cmp(v@, i as int, e as int, w@, j as int, f as int),
{
    let v_num = all_digits_x(v, i, e);
    let w_num = all_digits_x(w, j, f);
    if v_num && !w_num {
        -1
    } else if !v_num && w_num {
        1
    } else if v_num && w_num && e - i != f - j {
        if e - i < f - j {
            -1
        } else {
            1
        }
    } else {
        lex_cmp_x(v, i, e, w, j, f)
    }
}

fn pre_cmp_x(v: &Vec<u8>, w: &Vec<u8>) -> (r: i8)
    ensures
        r as int == pre_cmp_from(v@, 0, w@, 0),
{
    let mut a: usize = 0;
    let mut b: usize = 0;
    loop
        invariant
            a <= v@.len(),
            b <= w@.len(),
            pre_cmp_from(v@, 0, w@, 0) == pre_cmp_from(v@, a as int, w@, b as int),
        decreases v@.len() - a,
    {
        let e = ident_end_x(v, a);
        let f = ident_end_x(w, b);
        let c = ident_cmp_x(v, a, e, w, b, f);
        if c != 0 {
            return c;
        } else if e == v.len() && f == w.len() {
            return 0;
        } else if e == v.len() {
            return -1;
        } else if f == w.len() {
            return 1;
        }
        proof {
            lemma_ident_end(v@, a as int);
        }
        a = e + 1;
        b = f + 1;
    }
}

/// The decimal digits of `n`, most significant first, no leading zeros.
pub open spec fn dec_bytes(n: nat) -> Seq<u8>
    decreases n,
{
    if n < 10 {
        seq![(n + 48) as u8]
    } else {
        dec_bytes(n / 10).push((n % 10 + 48) as u8)
    }
}

/// The canonical rendering of a version:
/// `major.minor.patch`, then `-` and the prerelease label if one is present.
pub open spec fn version_bytes(v: VersionV) -> Seq<u8> {
    dec_bytes(v.major as nat) + seq![46u8] + dec_bytes(v.minor as nat) + seq![46u8] + dec_bytes(
        v.patch as nat,
    ) + if v.pre.len() == 0 {
        Seq::<u8>::empty()
    } else {
        seq![45u8] + v.pre
    }
}

pub open spec fn version_chars(v: VersionV) -> Seq<char> {
    chars_of(version_bytes(v))
}

pub proof fn lemma_dec_bytes_digits(n: nat)
    ensures
        forall|k: int| 0 <= k < dec_bytes(n).len() ==> is_digit_byte(#[trigger] dec_bytes(n)[k]),
        dec_bytes(n).len() >= 1,
    decreases n,
{
    if n >= 10 {
        lemma_dec_bytes_digits(n / 10);
    }
}

/// Every byte of a well-formed prerelease label is an identifier byte or a dot.
pub proof fn lemma_wf_pre_bytes(s: Seq<u8>, i: int)
    requires
        wf_pre_from(s, i),
    ensures
        forall|k: int| i <= k < s.len() ==> is_ident_byte(#[trigger] s[k]) || s[k] == 46,
    decreases s.len() - i,
{
    let e = ident_end(s, i);
    lemma_ident_end(s, i);
    if e < s.len() {
        lemma_wf_pre_bytes(s, e + 1);
    }
}

/// Appends the decimal rendering of `n`.
fn push_decimal(out: &mut Vec<u8>, n: u64)
    ensures
        final(out)@ == old(out)@ + dec_bytes(n as nat),
    decreases n,
{
    if n < 10 {
        out.push((n as u8) + 48);
        proof {
            assert(out@ =~= old(out)@ + dec_bytes(n as nat));
        }
    } else {
        push_decimal(out, n / 10);
        out.push(((n % 10) as u8) + 48);
        proof {
            assert(out@ =~= old(out)@ + dec_bytes(n as nat));
        }
    }
}

impl Version {
    /// A version whose prerelease label is well formed.
    pub open spec fn wf(&self) -> bool {
        self@.wf()
    }

    /// A stable release: no prerelease label.
    pub fn is_stable(&self) -> (r: bool)
        ensures
            r == self@.is_stable(),
    {
        self.pre.len() == 0
    }

    /// A plain `major.minor.patch` version.
    pub fn new(major: u64, minor: u64, patch: u64) -> (v: Version)
        ensures
            v@ == (VersionV { major, minor, patch, pre: Seq::<u8>::empty() }),
            v.wf(),
    {
        let v = Version { major, minor, patch, pre: Vec::new() };
        proof {
            assert(v@.pre =~= Seq::<u8>::empty());
        }
        v
    }

    /// Three-way semantic-versioning precedence: -1, 0 or 1 as `self` is
    /// below, at or above `other`.
    pub fn cmp_precedence(&self, other: &Version) -> (r: i8)
        ensures
            r as int == spec_cmp(self@, other@),
    {
        if self.major != other.major {
            if self.major < other.major {
                -1
            } else {
                1
            }
        } else if self.minor != other.minor {
            if self.minor < other.minor {
                -1
            } else {
                1
            }
        } else if self.patch != other.patch {
            if self.patch < other.patch {
                -1
            } else {
                1
            }
        } else if self.pre.len() == 0 && other.pre.len() == 0 {
            0
        } else if self.pre.len() == 0 {
            1
        } else if other.pre.len() == 0 {
            -1
        } else {
            pre_cmp_x(&self.pre, &other.pre)
        }
    }

    /// Strict precedence: `self` orders strictly before `other`.
    pub fn lt(&self, other: &Version) -> (r: bool)
        ensures
            r == spec_lt(self@, other@),
    {
        self.cmp_precedence(other) < 0
    }

    /// Equality of the parsed value.
    pub fn eq_version(&self, other: &Version) -> (r: bool)
        ensures
            r == (self@ == other@),
    {
        let c = self.cmp_precedence(other);
        if c == 0 {
            proof {
                lemma_cmp_zero_is_eq(self@, other@);
            }
            true
        } else {
            proof {
                lemma_cmp_flip(self@, other@);
            }
            false
        }
    }

    /// An identical copy.
    pub fn dup(&self) -> (v: Version)
        ensures
            v@ == self@,
    {
        let mut pre: Vec<u8> = Vec::new();
        let mut k: usize = 0;
        while k < self.pre.len()
            invariant
                k <= self.pre@.len(),
                pre@ == self.pre@.take(k as int),
            decreases self.pre@.len() - k,
        {
            pre.push(self.pre[k]);
            proof {
                assert(pre@ =~= self.pre@.take(k + 1));
            }
            k = k + 1;
        }
        proof {
            assert(pre@ =~= self.pre@);
        }
        let v = Version { major: self.major, minor: self.minor, patch: self.patch, pre };
        proof {
            assert(v@ =~= self@);
        }
        v
    }
}

/// Whether `v` is a well-formed prerelease label.
pub fn check_prerelease(v: &Vec<u8>) -> (r: bool)
    ensures
        r == wf_pre(v@),
{
    if v.len() == 0 {
        return true;
    }
    let mut i: usize = 0;
    loop
        invariant
            i <= v@.len(),
            wf_pre(v@) == wf_pre_from(v@, i as int),
        decreases v@.len() - i,
    {
        let e = ident_end_x(v, i);
        if e == i {
            return false;
        }
        let mut k: usize = i;
        while k < e
            invariant
                i <= k <= e <= v@.len(),
                e as int == ident_end(v@, i as int),
                wf_pre(v@) == wf_pre_from(v@, i as int),
                forall|m: int| i <= m < k ==> is_ident_byte(#[trigger] v@[m]),
            decreases e - k,
        {
            let b = v[k];
            if !((48 <= b && b <= 57) || (65 <= b && b <= 90) || (97 <= b && b <= 122) || b == 45)
            {
                proof {
                    assert(!is_ident_byte(v@[k as int]));
                    assert(!valid_ident(v@, i as int, e as int));
                }
                return false;
            }
            k = k + 1;
        }
        if e - i > 1 && v[i] == 48 && all_digits_x(v, i, e) {
            proof {
                assert(!valid_ident(v@, i as int, e as int));
            }
            return false;
        }
        proof {
            assert(valid_ident(v@, i as int, e as int));
        }
        if e == v.len() {
            return true;
        }
        i = e + 1;
    }
}

impl Version {
    /// A version with the given prerelease label, if the label is well formed.
    pub fn with_prerelease(major: u64, minor: u64, patch: u64, pre: Vec<u8>) -> (r: Option<
        Version,
    >)
        ensures
            match r {
                Some(v) => wf_pre(pre@) && v@ == (VersionV { major, minor, patch, pre: pre@ })
                    && v.wf(),
                None => !wf_pre(pre@),
            },
    {
        if check_prerelease(&pre) {
            Some(Version { major, minor, patch, pre })
        } else {
            None
        }
    }

    /// The canonical text of this version, e.g. `0.14.1` or `0.15.0-alpha.1`.
    pub fn to_version_string(&self) -> (s: String)
        requires
            self.wf(),
        ensures
            s@ == version_chars(self@),
    {
        let mut buf: Vec<u8> = Vec::new();
        push_decimal(&mut buf, self.major);
        buf.push(46);
        push_decimal(&mut buf, self.minor);
        buf.push(46);
        push_decimal(&mut buf, self.patch);
        if self.pre.len() > 0 {
            buf.push(45);
            let mut k: usize = 0;
            while k < self.pre.len()
                invariant
                    k <= self.pre@.len(),
                    buf@ == dec_bytes(self@.major as nat) + seq![46u8] + dec_bytes(
                        self@.minor as nat,
                    ) + seq![46u8] + dec_bytes(self@.patch as nat) + seq![45u8] + self.pre@.take(
                        k as int,
                    ),
                decreases self.pre@.len() - k,
            {
                buf.push(self.pre[k]);
                proof {
                    assert(self.pre@.take(k as int).push(self.pre@[k as int]) =~= self.pre@.take(
                        k + 1,
                    ));
                    assert(buf@ =~= dec_bytes(self@.major as nat) + seq![46u8] + dec_bytes(
                        self@.minor as nat,
                    ) + seq![46u8] + dec_bytes(self@.patch as nat) + seq![45u8] + self.pre@.take(
                        k + 1,
                    ));
                }
                k = k + 1;
            }
            proof {
                assert(self.pre@.take(self.pre@.len() as int) =~= self.pre@);
            }
        }
        proof {
            assert(buf@ =~= version_bytes(self@));
            lemma_dec_bytes_digits(self@.major as nat);
            lemma_dec_bytes_digits(self@.minor as nat);
            lemma_dec_bytes_digits(self@.patch as nat);
            if self.pre@.len() > 0 {
                lemma_wf_pre_bytes(self.pre@, 0);
            }
            assert forall|k: int| 0 <= k < buf@.len() implies buf@[k] < 128 by {
                assert(version_bytes(self@)[k] == buf@[k]);
            }
        }
        ascii_bytes_to_string(buf)
    }
}

/// What `semver::Version::parse` makes of a tag text: the parsed value,
/// or nothing when the text is not a valid semantic version.
pub uninterp spec fn semver_parsed(s: Seq<char>) -> Option<VersionV>;

/// Relies on semver::Version::parse: the result depends on the text alone;
/// a parsed prerelease label is a dot-separated list of nonempty
/// `[0-9A-Za-z-]` identifiers in which an all-digit identifier has no
/// leading zero. Build metadata after `+` is dropped here, as precedence
/// ignores it.
#[verifier::external_body]
pub fn parse_semver(s: &str) -> (r: Option<Version>)
    ensures
        match r {
            Some(v) => semver_parsed(s@) == Some(v@) && v.wf(),
            None => semver_parsed(s@) is None,
        },
{
    match semver::Version::parse(s) {
        Ok(v) => Some(
            Version {
                major: v.major,
                minor: v.minor,
                patch: v.patch,
                pre: v.pre.as_str().as_bytes().to_vec(),
            },
        ),
        Err(_) => None,
    }
}

} // verus!
