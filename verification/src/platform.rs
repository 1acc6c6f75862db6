//! Host platform detection helpers: reading the Ubuntu release number out
//! of `lsb-release` text, and the default target OS it implies. The file
//! I/O and the compile-time host dispatch live with the caller; the text
//! parsing and the decision are here.

use vstd::prelude::*;

use crate::asset::TargetOS;
use crate::scan::{digits_value, lemma_digits_value_mono};
use crate::version::{all_digits, is_digit_byte};

verus! {

/// Position of the first `b` at or after `i`, or the end of `s`.
pub open spec fn find_byte(s: Seq<u8>, i: int, b: u8) -> int
    decreases s.len() - i,
{
    if i < 0 || i >= s.len() || s[i] == b {
        i
    } else {
        find_byte(s, i + 1, b)
    }
}

pub open spec fn lower_byte(b: u8) -> u8 {
    if 65 <= b <= 90 {
        (b + 32) as u8
    } else {
        b
    }
}

/// ASCII case-insensitive equality.
pub open spec fn ieq_bytes(a: Seq<u8>, b: Seq<u8>) -> bool {
    a.len() == b.len() && forall|k: int|
        0 <= k < a.len() ==> lower_byte(#[trigger] a[k]) == lower_byte(b[k])
}

/// `needle` occurs somewhere in `hay`.
pub open spec fn contains_seq(hay: Seq<u8>, needle: Seq<u8>) -> bool {
    exists|p: int|
        0 <= p && p + needle.len() <= hay.len() && #[trigger] hay.subrange(p, p + needle.len())
            == needle
}

/// The bytes of `RELEASE`, `DESCRIPTION` and `Ubuntu 20.04`.
pub open spec fn release_lit() -> Seq<u8> {
    seq![82u8, 69u8, 76u8, 69u8, 65u8, 83u8, 69u8]
}

pub open spec fn description_lit() -> Seq<u8> {
    seq![68u8, 69u8, 83u8, 67u8, 82u8, 73u8, 80u8, 84u8, 73u8, 79u8, 78u8]
}

pub open spec fn ubuntu_2004_lit() -> Seq<u8> {
    seq![85u8, 98u8, 117u8, 110u8, 116u8, 117u8, 32u8, 50u8, 48u8, 46u8, 48u8, 52u8]
}

/// The number a value parses to as a `u32`: an optional leading `+`,
/// then at least one digit, nothing else, and no overflow.
pub open spec fn spec_parse_u32(v: Seq<u8>) -> Option<u32> {
    let d = if v.len() > 0 && v[0] == 43 {
        v.skip(1)
    } else {
        v
    };
    if d.len() == 0 || !all_digits(d, 0, d.len() as int) || digits_value(d, 0, d.len() as int)
        > u32::MAX {
        None
    } else {
        Some(digits_value(d, 0, d.len() as int) as u32)
    }
}

/// A value of the form `<major>.<minor>` with both parts `u32` numbers.
pub open spec fn spec_parse_major_minor(v: Seq<u8>) -> Option<(u32, u32)> {
    let dot = find_byte(v, 0, 46);
    if dot == v.len() {
        None
    } else {
        match (spec_parse_u32(v.subrange(0, dot)), spec_parse_u32(
            v.subrange(dot + 1, v.len() as int),
        )) {
            (Some(major), Some(minor)) => Some((major, minor)),
            _ => None,
        }
    }
}

/// What one `key=value` line of lsb-release text yields: the parsed
/// `<major>.<minor>` of a `RELEASE` value, or `(20, 4)` for a
/// `DESCRIPTION` value naming `Ubuntu 20.04`. Keys compare
/// case-insensitively; anything else, or a malformed value, yields
/// nothing and the caller moves on.
pub open spec fn spec_line_result(line: Seq<u8>) -> Option<(u32, u32)> {
    let eq = find_byte(line, 0, 61);
    if eq == line.len() {
        None
    } else {
        let key = line.subrange(0, eq);
        let value = line.subrange(eq + 1, line.len() as int);
        if ieq_bytes(key, release_lit()) {
            spec_parse_major_minor(value)
        } else if ieq_bytes(key, description_lit()) && contains_seq(value, ubuntu_2004_lit()) {
            Some((20u32, 4u32))
        } else {
            None
        }
    }
}

/// The Ubuntu release the text reveals: the first line that yields one
/// decides. Lines end at `\n`; a trailing `\r` is dropped.
pub open spec fn spec_lsb_release(s: Seq<u8>, i: int) -> Option<(u32, u32)>
    decreases s.len() + 1 - i,
    via spec_lsb_release_decreases
{
    if i < 0 || i >= s.len() {
        None
    } else {
        let e = find_byte(s, i, 10);
        let le = if e > i && s[e - 1] == 13 {
            e - 1
        } else {
            e
        };
        match spec_line_result(s.subrange(i, le)) {
            Some(r) => Some(r),
            None => spec_lsb_release(s, e + 1),
        }
    }
}

#[via_fn]
proof fn spec_lsb_release_decreases(s: Seq<u8>, i: int) {
    if 0 <= i < s.len() {
        lemma_find_byte(s, i, 10);
    }
}

/// Bounds and content of `find_byte`.
pub proof fn lemma_find_byte(s: Seq<u8>, i: int, b: u8)
    requires
        0 <= i <= s.len(),
    ensures
        i <= find_byte(s, i, b) <= s.len(),
        forall|k: int| i <= k < find_byte(s, i, b) ==> s[k] != b,
        find_byte(s, i, b) < s.len() ==> s[find_byte(s, i, b)] == b,
    decreases s.len() - i,
{
    if i < s.len() && s[i] != b {
        lemma_find_byte(s, i + 1, b);
    }
}

fn find_byte_x(v: &Vec<u8>, i: usize, b: u8) -> (e: usize)
    requires
        i <= v@.len(),
    ensures
        e as int == find_byte(v@, i as int, b),
        i <= e <= v@.len(),
{
    let mut j: usize = i;
    while j < v.len() && v[j] != b
        invariant
            i <= j <= v@.len(),
            find_byte(v@, i as int, b) == find_byte(v@, j as int, b),
        decreases v@.len() - j,
    {
        assert(find_byte(v@, j as int, b) == find_byte(v@, j + 1, b));
        j = j + 1;
    }
    assert(find_byte(v@, j as int, b) == j);
    j
}

/// The bytes `v[lo..hi)` as their own vector.
fn copy_range(v: &Vec<u8>, lo: usize, hi: usize) -> (r: Vec<u8>)
    requires
        lo <= hi <= v@.len(),
    ensures
        r@ == v@.subrange(lo as int, hi as int),
{
    let mut r: Vec<u8> = Vec::new();
    let mut k: usize = lo;
    while k < hi
        invariant
            lo <= k <= hi <= v@.len(),
            r@ == v@.subrange(lo as int, k as int),
        decreases hi - k,
    {
        r.push(v[k]);
        proof {
            assert(r@ =~= v@.subrange(lo as int, k + 1));
        }
        k = k + 1;
    }
    r
}

fn bytes_ieq(a: &Vec<u8>, b: &Vec<u8>) -> (r: bool)
    ensures
        r == ieq_bytes(a@, b@),
{
    if a.len() != b.len() {
        return false;
    }
    let mut k: usize = 0;
    while k < a.len()
        invariant
            k <= a@.len(),
            a@.len() == b@.len(),
            forall|m: int| 0 <= m < k ==> lower_byte(#[trigger] a@[m]) == lower_byte(b@[m]),
        decreases a@.len() - k,
    {
        let x = a[k];
        let y = b[k];
        let lx: u8 = if 65 <= x && x <= 90 {
            x + 32
        } else {
            x
        };
        let ly: u8 = if 65 <= y && y <= 90 {
            y + 32
        } else {
            y
        };
        if lx != ly {
            return false;
        }
        k = k + 1;
    }
    true
}

fn contains_x(hay: &Vec<u8>, needle: &Vec<u8>) -> (r: bool)
    ensures
        r == contains_seq(hay@, needle@),
{
    if needle.len() > hay.len() {
        proof {
            assert(!contains_seq(hay@, needle@));
        }
        return false;
    }
    let mut p: usize = 0;
    while p <= hay.len() - needle.len()
        invariant
            needle@.len() <= hay@.len(),
            p <= hay@.len() - needle@.len() + 1,
            forall|q: int|
                0 <= q < p ==> #[trigger] hay@.subrange(q, q + needle@.len()) != needle@,
        decreases hay@.len() - needle@.len() + 1 - p,
    {
        let mut k: usize = 0;
        let mut all: bool = true;
        while k < needle.len()
            invariant
                p + needle@.len() <= hay@.len(),
                hay@.len() <= usize::MAX,
                k <= needle@.len(),
                all == (forall|m: int| 0 <= m < k ==> hay@[p + m] == #[trigger] needle@[m]),
            decreases needle@.len() - k,
        {
            if hay[p + k] != needle[k] {
                all = false;
                k = needle.len();
            } else {
                k = k + 1;
            }
        }
        if all {
            proof {
                assert(hay@.subrange(p as int, p + needle@.len()) =~= needle@);
            }
            return true;
        }
        proof {
            assert(hay@.subrange(p as int, p + needle@.len()) != needle@) by {
                if hay@.subrange(p as int, p + needle@.len()) == needle@ {
                    assert forall|m: int| 0 <= m < needle@.len() implies hay@[p + m]
                        == #[trigger] needle@[m] by {
                        assert(hay@.subrange(p as int, p + needle@.len())[m] == hay@[p + m]);
                    }
                }
            }
        }
        p = p + 1;
    }
    proof {
        assert forall|q: int| 0 <= q && q + needle@.len() <= hay@.len() implies #[trigger] hay@.subrange(q, q + needle@.len()) != needle@ by {}
    }
    false
}

fn parse_u32_x(v: &Vec<u8>) -> (r: Option<u32>)
    ensures
        r == spec_parse_u32(v@),
{
    let d: Vec<u8> = if v.len() > 0 && v[0] == 43 {
        let c = copy_range(v, 1, v.len());
        proof {
            assert(c@ =~= v@.skip(1));
        }
        c
    } else {
        copy_range(v, 0, v.len())
    };
    proof {
        if !(v@.len() > 0 && v@[0] == 43) {
            assert(d@ =~= v@);
        }
    }
    if d.len() == 0 {
        return None;
    }
    let mut k: usize = 0;
    while k < d.len()
        invariant
            k <= d@.len(),
            d@.len() > 0,
            d@ == (if v@.len() > 0 && v@[0] == 43 {
                v@.skip(1)
            } else {
                v@
            }),
            forall|m: int| 0 <= m < k ==> is_digit_byte(#[trigger] d@[m]),
        decreases d@.len() - k,
    {
        let b = d[k];
        if b < 48 || b > 57 {
            return None;
        }
        k = k + 1;
    }
    let mut val: u32 = 0;
    let mut j: usize = 0;
    while j < d.len()
        invariant
            j <= d@.len(),
            d@.len() > 0,
            d@ == (if v@.len() > 0 && v@[0] == 43 {
                v@.skip(1)
            } else {
                v@
            }),
            all_digits(d@, 0, d@.len() as int),
            val as nat == digits_value(d@, 0, j as int),
        decreases d@.len() - j,
    {
        let dd: u32 = (d[j] - 48) as u32;
        if val > 429496729 || dd > u32::MAX - val * 10 {
            proof {
                assert(digits_value(d@, 0, j + 1) == digits_value(d@, 0, j as int) * 10 + (d@[j
                    as int] - 48) as nat);
                lemma_digits_value_mono(d@, 0, j + 1, d@.len() as int);
            }
            return None;
        }
        val = val * 10 + dd;
        proof {
            assert(val as nat == digits_value(d@, 0, j + 1));
        }
        j = j + 1;
    }
    Some(val)
}

fn parse_major_minor_x(v: &Vec<u8>) -> (r: Option<(u32, u32)>)
    ensures
        r == spec_parse_major_minor(v@),
{
    let dot = find_byte_x(v, 0, 46);
    if dot == v.len() {
        return None;
    }
    let major = match parse_u32_x(&copy_range(v, 0, dot)) {
        Some(x) => x,
        None => {
            return None;
        },
    };
    let minor = match parse_u32_x(&copy_range(v, dot + 1, v.len())) {
        Some(x) => x,
        None => {
            return None;
        },
    };
    Some((major, minor))
}

fn line_result_x(line: &Vec<u8>) -> (r: Option<(u32, u32)>)
    ensures
        r == spec_line_result(line@),
{
    let eq = find_byte_x(line, 0, 61);
    if eq == line.len() {
        return None;
    }
    let key = copy_range(line, 0, eq);
    let value = copy_range(line, eq + 1, line.len());
    let mut release_needle: Vec<u8> = Vec::new();
    release_needle.push(82);
    release_needle.push(69);
    release_needle.push(76);
    release_needle.push(69);
    release_needle.push(65);
    release_needle.push(83);
    release_needle.push(69);
    proof {
        assert(release_needle@ =~= release_lit());
    }
    if bytes_ieq(&key, &release_needle) {
        return parse_major_minor_x(&value);
    }
    let mut desc_needle: Vec<u8> = Vec::new();
    desc_needle.push(68);
    desc_needle.push(69);
    desc_needle.push(83);
    desc_needle.push(67);
    desc_needle.push(82);
    desc_needle.push(73);
    desc_needle.push(80);
    desc_needle.push(84);
    desc_needle.push(73);
    desc_needle.push(79);
    desc_needle.push(78);
    proof {
        assert(desc_needle@ =~= description_lit());
    }
    let mut ubuntu_needle: Vec<u8> = Vec::new();
    ubuntu_needle.push(85);
    ubuntu_needle.push(98);
    ubuntu_needle.push(117);
    ubuntu_needle.push(110);
    ubuntu_needle.push(116);
    ubuntu_needle.push(117);
    ubuntu_needle.push(32);
    ubuntu_needle.push(50);
    ubuntu_needle.push(48);
    ubuntu_needle.push(46);
    ubuntu_needle.push(48);
    ubuntu_needle.push(52);
    proof {
        assert(ubuntu_needle@ =~= ubuntu_2004_lit());
    }
    if bytes_ieq(&key, &desc_needle) && contains_x(&value, &ubuntu_needle) {
        return Some((20, 4));
    }
    None
}

/// The Ubuntu release named by lsb-release text: the first line whose
/// key is `RELEASE` decides with its parsed `<major>.<minor>` value, and
/// a `DESCRIPTION` line naming `Ubuntu 20.04` decides as `(20, 4)`.
pub fn ubuntu_release_from_lsb(text: &Vec<u8>) -> (r: Option<(u32, u32)>)
    ensures
        r == spec_lsb_release(text@, 0),
{
    let mut i: usize = 0;
    while i < text.len()
        invariant
            i <= text@.len(),
            spec_lsb_release(text@, 0) == spec_lsb_release(text@, i as int),
        decreases text@.len() - i,
    {
        let e = find_byte_x(text, i, 10);
        let le = if e > i && text[e - 1] == 13 {
            e - 1
        } else {
            e
        };
        let line = copy_range(text, i, le);
        match line_result_x(&line) {
            Some(r) => {
                return Some(r);
            },
            None => {},
        }
        proof {
            lemma_find_byte(text@, i as int, 10);
        }
        proof {
            assert(spec_line_result(text@.subrange(i as int, le as int)) is None);
            assert(spec_lsb_release(text@, i as int) == spec_lsb_release(text@, e + 1));
        }
        if e == text.len() {
            return None;
        }
        i = e + 1;
    }
    None
}

/// The default target OS on a Linux host, from the detected Ubuntu
/// release: Ubuntu from 20.4 on, plain Linux otherwise.
pub fn default_os_for_linux(ubuntu: Option<(u32, u32)>) -> (r: TargetOS)
    ensures
        r == (match ubuntu {
            Some((major, minor)) => if (major == 20 && minor >= 4) || major > 20 {
                TargetOS::Ubuntu
            } else {
                TargetOS::Linux
            },
            None => TargetOS::Linux,
        }),
{
    match ubuntu {
        Some((major, minor)) => {
            if (major == 20 && minor >= 4) || major > 20 {
                TargetOS::Ubuntu
            } else {
                TargetOS::Linux
            }
        },
        None => TargetOS::Linux,
    }
}

} // verus!
