//! Semantic versions as plain `major.minor.patch` triples: verified parsing
//! from and rendering to their canonical decimal form, ordering, and the
//! version-requirement test delegated to the semver crate.

use vstd::prelude::*;
use vstd::string::{StrSliceExecFns, StringExecFns};
use crate::strutil::{dec_of, digit_char, u64_to_string};

verus! {

/// A semantic version. Pre-release and build metadata are not modeled; the
/// catalog logic reads only the numeric triple.
#[derive(Clone, Copy, PartialEq, Eq, Structural, Debug, Hash)]
pub struct Version {
    pub major: u64,
    pub minor: u64,
    pub patch: u64,
}

/// The canonical rendering `major.minor.patch`.
pub open spec fn version_str_of(v: Version) -> Seq<char> {
    dec_of(v.major as int) + seq!['.'] + dec_of(v.minor as int) + seq!['.'] + dec_of(
        v.patch as int,
    )
}

/// Strict lexicographic order on the numeric triple.
pub open spec fn version_lt(a: Version, b: Version) -> bool {
    a.major < b.major || (a.major == b.major && (a.minor < b.minor || (a.minor == b.minor
        && a.patch < b.patch)))
}

pub open spec fn version_le(a: Version, b: Version) -> bool {
    version_lt(a, b) || a == b
}

pub open spec fn is_digit(c: char) -> bool {
    '0' <= c && c <= '9'
}

pub open spec fn digit_val(c: char) -> int {
    c as int - '0' as int
}

pub open spec fn all_digits(s: Seq<char>) -> bool {
    forall|i: int| 0 <= i < s.len() ==> is_digit(#[trigger] s[i])
}

/// The numeric value of a digit run.
pub open spec fn num_val(s: Seq<char>) -> int
    decreases s.len(),
{
    if s.len() == 0 {
        0
    } else {
        num_val(s.drop_last()) * 10 + digit_val(s.last())
    }
}

/// A canonical numeric segment: non-empty, digits only, no leading zero, and
/// a value that fits in a `u64`.
pub open spec fn is_num_seg(s: Seq<char>) -> bool {
    &&& s.len() > 0
    &&& all_digits(s)
    &&& (s.len() == 1 || s[0] != '0')
    &&& num_val(s) <= u64::MAX
}

/// A decomposition of `s` into three canonical segments at dots `a < b`.
pub open spec fn version_decomp(s: Seq<char>, a: int, b: int) -> bool {
    &&& 0 < a
    &&& a + 1 < b
    &&& b + 1 < s.len()
    &&& s[a] == '.'
    &&& s[b] == '.'
    &&& is_num_seg(s.subrange(0, a))
    &&& is_num_seg(s.subrange(a + 1, b))
    &&& is_num_seg(s.subrange(b + 1, s.len() as int))
}

/// `s` is a well-formed canonical version string.
pub open spec fn valid_version_str(s: Seq<char>) -> bool {
    exists|a: int, b: int| version_decomp(s, a, b)
}

proof fn lemma_num_val_nonneg(s: Seq<char>)
    requires
        all_digits(s),
    ensures
        num_val(s) >= 0,
    decreases s.len(),
{
    if s.len() > 0 {
        assert(all_digits(s.drop_last())) by {
            assert(forall|i: int|
                0 <= i < s.drop_last().len() ==> s.drop_last()[i] == #[trigger] s[i]);
        }
        lemma_num_val_nonneg(s.drop_last());
    }
}

proof fn lemma_num_val_pos(s: Seq<char>)
    requires
        all_digits(s),
        s.len() >= 1,
        s[0] != '0',
    ensures
        num_val(s) >= 1,
    decreases s.len(),
{
    if s.len() == 1 {
        assert(is_digit(s[0]));
    } else {
        assert(all_digits(s.drop_last())) by {
            assert(forall|i: int|
                0 <= i < s.drop_last().len() ==> s.drop_last()[i] == #[trigger] s[i]);
        }
        assert(s.drop_last()[0] == s[0]);
        lemma_num_val_pos(s.drop_last());
        assert(is_digit(s.last()));
    }
}

/// Canonical segments are exactly the decimal renderings: a segment renders
/// back to itself.
pub proof fn lemma_dec_of_num_val(s: Seq<char>)
    requires
        s.len() > 0,
        all_digits(s),
        s.len() == 1 || s[0] != '0',
    ensures
        dec_of(num_val(s)) == s,
    decreases s.len(),
{
    if s.len() == 1 {
        assert(is_digit(s[0]));
        assert(s.drop_last().len() == 0);
        assert(num_val(s.drop_last()) == 0);
        assert(num_val(s) == digit_val(s[0]));
        assert(digit_char(digit_val(s[0])) == s[0]);
        assert(dec_of(num_val(s)) =~= s);
    } else {
        let t = s.drop_last();
        assert(all_digits(t)) by {
            assert(forall|i: int| 0 <= i < t.len() ==> t[i] == #[trigger] s[i]);
        }
        assert(t[0] == s[0]);
        lemma_num_val_pos(t);
        lemma_dec_of_num_val(t);
        assert(is_digit(s.last()));
        let d = digit_val(s.last());
        assert(num_val(s) == num_val(t) * 10 + d);
        assert(num_val(s) >= 10) by {
            assert(num_val(t) >= 1);
            assert(num_val(t) * 10 >= 10) by (nonlinear_arith)
                requires
                    num_val(t) >= 1,
            ;
        }
        assert(num_val(s) / 10 == num_val(t) && num_val(s) % 10 == d) by (nonlinear_arith)
            requires
                num_val(s) == num_val(t) * 10 + d,
                0 <= d < 10,
                num_val(t) >= 0,
        ;
        assert(digit_char(d) == s.last());
        assert(dec_of(num_val(s)) == dec_of(num_val(t)) + seq![s.last()]);
        assert(t + seq![s.last()] =~= s);
    }
}

/// A prefix of a digit run never exceeds the value of the whole run.
proof fn lemma_num_val_prefix_le(s: Seq<char>, j: int)
    requires
        all_digits(s),
        0 <= j <= s.len(),
    ensures
        num_val(s.take(j)) <= num_val(s),
    decreases s.len() - j,
{
    if j == s.len() {
        assert(s.take(j) =~= s);
    } else {
        let t = s.take(j + 1);
        assert(t.drop_last() =~= s.take(j));
        assert(t.last() == s[j]);
        assert(is_digit(s[j]));
        assert(all_digits(s.take(j))) by {
            assert(forall|i: int|
                0 <= i < s.take(j).len() ==> s.take(j)[i] == #[trigger] s[i]);
        }
        lemma_num_val_nonneg(s.take(j));
        assert(num_val(t) == num_val(s.take(j)) * 10 + digit_val(s[j]));
        assert(num_val(s.take(j)) * 10 >= num_val(s.take(j))) by (nonlinear_arith)
            requires
                num_val(s.take(j)) >= 0,
        ;
        lemma_num_val_prefix_le(s, j + 1);
    }
}

impl Version {
    pub fn new(major: u64, minor: u64, patch: u64) -> (r: Version)
        ensures
            r == (Version { major, minor, patch }),
    {
        Version { major, minor, patch }
    }

    /// Renders the version in its canonical `major.minor.patch` form.
    pub fn to_string(&self) -> (r: String)
        ensures
            r@ == version_str_of(*self),
    {
        let mut s = u64_to_string(self.major);
        s.push('.');
        let minor_s = u64_to_string(self.minor);
        s.append(minor_s.as_str());
        s.push('.');
        let patch_s = u64_to_string(self.patch);
        s.append(patch_s.as_str());
        assert(s@ =~= version_str_of(*self));
        s
    }

    /// Compares two versions; `true` exactly when `self` is strictly older.
    pub fn lt(&self, other: &Version) -> (r: bool)
        ensures
            r == version_lt(*self, *other),
    {
        if self.major != other.major {
            self.major < other.major
        } else if self.minor != other.minor {
            self.minor < other.minor
        } else {
            self.patch < other.patch
        }
    }

    /// Parses a canonical `major.minor.patch` string; returns `None` exactly
    /// on inputs that are not of that form.
    pub fn parse(s: &str) -> (r: Option<Version>)
        ensures
            match r {
                Some(v) => valid_version_str(s@) && s@ == version_str_of(v),
                None => !valid_version_str(s@),
            },
    {
        let n = s.unicode_len();
        // Locate the dots; a valid string has exactly two.
        let mut dot_count: usize = 0;
        let mut a: usize = 0;
        let mut b: usize = 0;
        let mut c: usize = 0;
        let mut i: usize = 0;
        while i < n
            invariant
                n == s@.len(),
                i <= n,
                dot_count <= i,
                dot_count >= 1 ==> a < i && s@[a as int] == '.',
                dot_count >= 2 ==> a < b < i && s@[b as int] == '.',
                dot_count >= 3 ==> b < c < i && s@[c as int] == '.',
                forall|k: int|
                    0 <= k < i && #[trigger] s@[k] == '.' ==> k == a || k == b || k == c
                        || dot_count > 3,
                dot_count == 0 ==> forall|k: int| 0 <= k < i ==> #[trigger] s@[k] != '.',
                dot_count == 1 ==> forall|k: int|
                    0 <= k < i && k != a ==> #[trigger] s@[k] != '.',
                dot_count == 2 ==> forall|k: int|
                    0 <= k < i && k != a && k != b ==> #[trigger] s@[k] != '.',
            decreases n - i,
        {
            if s.get_char(i) == '.' {
                if dot_count == 0 {
                    a = i;
                } else if dot_count == 1 {
                    b = i;
                } else if dot_count == 2 {
                    c = i;
                }
                dot_count = dot_count + 1;
            }
            i = i + 1;
        }
        if dot_count != 2 {
            proof {
                if valid_version_str(s@) {
                    let (x, y) = choose|x: int, y: int| version_decomp(s@, x, y);
                    assert(s@[x] == '.' && s@[y] == '.');
                    if dot_count < 2 {
                        // fewer than two dots, yet x and y are distinct dots
                        assert(false);
                    } else {
                        // at least three dots: one of a, b, c avoids {x, y}
                        let p: int = if a != x && a != y {
                            a as int
                        } else if b != x && b != y {
                            b as int
                        } else {
                            c as int
                        };
                        assert(0 <= p < s@.len() && s@[p] == '.' && p != x && p != y);
                        if p < x {
                            assert(is_digit(s@.subrange(0, x)[p]));
                        } else if p < y {
                            assert(is_digit(s@.subrange(x + 1, y)[p - x - 1]));
                        } else {
                            assert(is_digit(s@.subrange(y + 1, s@.len() as int)[p - y - 1]));
                        }
                        assert(false);
                    }
                }
            }
            return None;
        }
        // Exactly two dots, at a < b: any decomposition must split there.
        assert(valid_version_str(s@) ==> version_decomp(s@, a as int, b as int)) by {
            if valid_version_str(s@) {
                let (x, y) = choose|x: int, y: int| version_decomp(s@, x, y);
                assert(s@[x] == '.' && s@[y] == '.');
                assert(x == a && y == b);
            }
        }
        let major = match Self::parse_segment(s, 0, a) {
            Some(v) => v,
            None => {
                return None;
            },
        };
        let minor = match Self::parse_segment(s, a + 1, b) {
            Some(v) => v,
            None => {
                return None;
            },
        };
        let patch = match Self::parse_segment(s, b + 1, n) {
            Some(v) => v,
            None => {
                return None;
            },
        };
        let v = Version { major, minor, patch };
        proof {
            assert(version_decomp(s@, a as int, b as int));
            lemma_dec_of_num_val(s@.subrange(0, a as int));
            lemma_dec_of_num_val(s@.subrange(a + 1, b as int));
            lemma_dec_of_num_val(s@.subrange(b + 1, s@.len() as int));
            assert(s@ =~= version_str_of(v));
        }
        Some(v)
    }

    /// Parses one canonical numeric segment `s[from..to]`.
    fn parse_segment(s: &str, from: usize, to: usize) -> (r: Option<u64>)
        requires
            from <= to <= s@.len(),
        ensures
            match r {
                Some(v) => is_num_seg(s@.subrange(from as int, to as int)) && v == num_val(
                    s@.subrange(from as int, to as int),
                ),
                None => !is_num_seg(s@.subrange(from as int, to as int)),
            },
    {
        let ghost seg = s@.subrange(from as int, to as int);
        if from == to {
            return None;
        }
        let first = s.get_char(from);
        if to - from > 1 && first == '0' {
            assert(seg[0] == '0');
            return None;
        }
        let mut val: u64 = 0;
        let mut i: usize = from;
        while i < to
            invariant
                from <= i <= to <= s@.len(),
                seg == s@.subrange(from as int, to as int),
                all_digits(seg.take(i - from)),
                val == num_val(seg.take(i - from)),
            decreases to - i,
        {
            let c = s.get_char(i);
            let cu = c as u32;
            if cu < 48 || cu > 57 {
                assert(!is_digit(seg[i - from]));
                return None;
            }
            assert(is_digit(c) && seg[i - from] == c);
            let d = (cu - 48) as u64;
            assert(d == digit_val(c));
            if val > (u64::MAX - d) / 10 {
                proof {
                    let t = seg.take(i - from + 1);
                    assert(t.drop_last() =~= seg.take(i - from));
                    assert(t.last() == seg[i - from]);
                    assert(num_val(t) == val * 10 + d);
                    assert(val * 10 + d > u64::MAX) by (nonlinear_arith)
                        requires
                            val > (u64::MAX - d) / 10,
                            0 <= d < 10,
                    ;
                    if is_num_seg(seg) {
                        assert(all_digits(seg));
                        lemma_num_val_prefix_le(seg, i - from + 1);
                        assert(num_val(seg) > u64::MAX);
                        assert(false);
                    }
                }
                return None;
            }
            proof {
                let t = seg.take(i - from + 1);
                assert(t.drop_last() =~= seg.take(i - from));
                assert(t.last() == seg[i - from]);
                assert(val * 10 + d <= u64::MAX) by (nonlinear_arith)
                    requires
                        val <= (u64::MAX - d) / 10,
                        0 <= d < 10,
                ;
                assert(all_digits(t)) by {
                    assert(forall|k: int|
                        0 <= k < t.len() ==> t[k] == #[trigger] seg.take(i - from + 1)[k]);
                }
            }
            val = val * 10 + d;
            i = i + 1;
        }
        assert(seg.take(to - from) =~= seg);
        assert(seg.len() == 1 || seg[0] != '0');
        Some(val)
    }
}

// ------------------------------------------------------------------------
// Requirement ranges (trusted, via the semver crate)
// ------------------------------------------------------------------------

/// Whether `req` parses as a semver requirement range; named result of
/// `semver::VersionReq::parse`.
pub uninterp spec fn req_well_formed(req: Seq<char>) -> bool;

/// Whether the version `major.minor.patch` satisfies the range `req`; named
/// result of `semver::VersionReq::matches`.
pub uninterp spec fn req_matches(req: Seq<char>, major: u64, minor: u64, patch: u64) -> bool;

/// Relies on semver's `VersionReq::parse` and `VersionReq::matches`: both are
/// functions of their arguments alone. Returns `None` exactly when `req` is
/// not a valid range.
#[verifier::external_body]
pub fn version_req_matches(req: &str, v: &Version) -> (r: Option<bool>)
    ensures
        r is Some <==> req_well_formed(req@),
        match r {
            Some(m) => m == req_matches(req@, v.major, v.minor, v.patch),
            None => true,
        },
{
    match semver::VersionReq::parse(req) {
        Ok(range) => Some(range.matches(&semver::Version::new(v.major, v.minor, v.patch))),
        Err(_) => None,
    }
}

} // verus!
