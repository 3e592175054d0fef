//! Character-level string helpers: equality, substring search, prefix
//! tests, and decimal formatting, all specified over `Seq<char>`.

use vstd::prelude::*;
use vstd::string::StrSliceExecFns;

verus! {

/// True when `needle` occurs in `hay` starting at position `i`.
pub open spec fn occurs_at(hay: Seq<char>, needle: Seq<char>, i: int) -> bool {
    0 <= i && i + needle.len() <= hay.len() && hay.subrange(i, i + needle.len()) == needle
}

/// True when `needle` occurs somewhere in `hay`.
pub open spec fn contains_seq(hay: Seq<char>, needle: Seq<char>) -> bool {
    exists|i: int| occurs_at(hay, needle, i)
}

/// True when `p` is a prefix of `s`.
pub open spec fn has_prefix(s: Seq<char>, p: Seq<char>) -> bool {
    p.len() <= s.len() && s.subrange(0, p.len() as int) == p
}

/// Character-by-character string equality, decided over the views.
pub fn str_eq(a: &str, b: &str) -> (r: bool)
    ensures
        r == (a@ == b@),
{
    let n = a.unicode_len();
    let m = b.unicode_len();
    if n != m {
        assert(a@ != b@) by {
            assert(a@.len() != b@.len());
        }
        return false;
    }
    let mut i: usize = 0;
    while i < n
        invariant
            n == a@.len(),
            n == b@.len(),
            i <= n,
            forall|j: int| 0 <= j < i ==> a@[j] == b@[j],
        decreases n - i,
    {
        if a.get_char(i) != b.get_char(i) {
            assert(a@ != b@) by {
                assert(a@[i as int] != b@[i as int]);
            }
            return false;
        }
        i = i + 1;
    }
    assert(a@ =~= b@);
    true
}

/// Substring search: does `needle` occur anywhere in `hay`?
pub fn str_contains(hay: &str, needle: &str) -> (r: bool)
    ensures
        r == contains_seq(hay@, needle@),
{
    let h = hay.unicode_len();
    let n = needle.unicode_len();
    if n > h {
        assert(!contains_seq(hay@, needle@)) by {
            assert forall|i: int| !occurs_at(hay@, needle@, i) by {
                if 0 <= i && i + needle@.len() <= hay@.len() {
                    assert(false);
                }
            }
        }
        return false;
    }
    if n == 0 {
        assert(occurs_at(hay@, needle@, 0)) by {
            assert(hay@.subrange(0, 0) =~= needle@);
        }
        return true;
    }
    let mut i: usize = 0;
    while i <= h - n
        invariant
            h == hay@.len(),
            n == needle@.len(),
            1 <= n <= h,
            i <= h - n + 1,
            forall|k: int| 0 <= k < i ==> !occurs_at(hay@, needle@, k),
        decreases h - n + 1 - i,
    {
        let mut j: usize = 0;
        let mut mismatch = false;
        while j < n
            invariant
                h == hay@.len(),
                n == needle@.len(),
                1 <= n <= h,
                i <= h - n,
                j <= n,
                !mismatch ==> forall|t: int| 0 <= t < j ==> hay@[i + t] == needle@[t],
                mismatch ==> !occurs_at(hay@, needle@, i as int),
            decreases n - j,
        {
            if hay.get_char(i + j) != needle.get_char(j) {
                assert(!occurs_at(hay@, needle@, i as int)) by {
                    if occurs_at(hay@, needle@, i as int) {
                        assert(hay@.subrange(i as int, i + needle@.len())[j as int] == needle@[j as int]);
                    }
                }
                mismatch = true;
                j = n;
            } else {
                j = j + 1;
            }
        }
        if !mismatch {
            assert(occurs_at(hay@, needle@, i as int)) by {
                assert(hay@.subrange(i as int, i + needle@.len()) =~= needle@);
            }
            return true;
        }
        i = i + 1;
    }
    assert(!contains_seq(hay@, needle@)) by {
        assert forall|k: int| !occurs_at(hay@, needle@, k) by {
            if 0 <= k && k + needle@.len() <= hay@.len() {
                assert(k < i);
            }
        }
    }
    false
}

/// Prefix test, decided over the views.
pub fn str_has_prefix(s: &str, p: &str) -> (r: bool)
    ensures
        r == has_prefix(s@, p@),
{
    let n = s.unicode_len();
    let m = p.unicode_len();
    if m > n {
        return false;
    }
    let mut i: usize = 0;
    while i < m
        invariant
            n == s@.len(),
            m == p@.len(),
            m <= n,
            i <= m,
            forall|j: int| 0 <= j < i ==> s@[j] == p@[j],
        decreases m - i,
    {
        if s.get_char(i) != p.get_char(i) {
            assert(!has_prefix(s@, p@)) by {
                if has_prefix(s@, p@) {
                    assert(s@.subrange(0, p@.len() as int)[i as int] == p@[i as int]);
                }
            }
            return false;
        }
        i = i + 1;
    }
    assert(s@.subrange(0, p@.len() as int) =~= p@);
    true
}

// ------------------------------------------------------------------------
// Decimal formatting
// ------------------------------------------------------------------------

/// The decimal digit character for `d` in 0..10.
pub open spec fn digit_char(d: int) -> char {
    if d == 0 { '0' }
    else if d == 1 { '1' }
    else if d == 2 { '2' }
    else if d == 3 { '3' }
    else if d == 4 { '4' }
    else if d == 5 { '5' }
    else if d == 6 { '6' }
    else if d == 7 { '7' }
    else if d == 8 { '8' }
    else { '9' }
}

/// The canonical decimal rendering of a non-negative integer.
pub open spec fn dec_of(n: int) -> Seq<char>
    decreases n,
{
    if n < 10 {
        seq![digit_char(n)]
    } else {
        dec_of(n / 10) + seq![digit_char(n % 10)]
    }
}

/// Relies on alloc's `String::push`: appends exactly the given character.
pub assume_specification[ String::push ](s: &mut String, c: char)
    ensures
        final(s)@ == old(s)@.push(c),
;

fn digit_of(d: u64) -> (c: char)
    requires
        d < 10,
    ensures
        c == digit_char(d as int),
{
    match d {
        0 => '0',
        1 => '1',
        2 => '2',
        3 => '3',
        4 => '4',
        5 => '5',
        6 => '6',
        7 => '7',
        8 => '8',
        _ => '9',
    }
}

fn push_dec(n: u64, out: &mut String)
    ensures
        final(out)@ == old(out)@ + dec_of(n as int),
    decreases n,
{
    if n >= 10 {
        push_dec(n / 10, out);
        let c = digit_of(n % 10);
        out.push(c);
        assert(out@ =~= old(out)@ + dec_of(n as int));
    } else {
        let c = digit_of(n);
        out.push(c);
        assert(out@ =~= old(out)@ + dec_of(n as int));
    }
}

/// The decimal rendering of `n`, exactly `dec_of(n)`.
pub fn u64_to_string(n: u64) -> (r: String)
    ensures
        r@ == dec_of(n as int),
{
    let mut s = String::new();
    push_dec(n, &mut s);
    assert(s@ =~= dec_of(n as int));
    s
}

// ------------------------------------------------------------------------
// Case folding (trusted)
// ------------------------------------------------------------------------

/// The lowercase folding that `str::to_lowercase` computes; it depends on the
/// characters of its argument alone.
pub uninterp spec fn lower_of(s: Seq<char>) -> Seq<char>;

/// Relies on std's `str::to_lowercase`: the result is a function of the
/// characters of `s` alone, and an empty input gives an empty result.
#[verifier::external_body]
pub fn lowercase(s: &str) -> (r: String)
    ensures
        r@ == lower_of(s@),
        s@.len() == 0 ==> r@.len() == 0,
{
    s.to_lowercase()
}

/// The uppercase folding that `str::to_uppercase` computes; it depends on the
/// characters of its argument alone.
pub uninterp spec fn upper_of(s: Seq<char>) -> Seq<char>;

/// Relies on std's `str::to_uppercase`: the result is a function of the
/// characters of `s` alone.
#[verifier::external_body]
pub fn uppercase(s: &str) -> (r: String)
    ensures
        r@ == upper_of(s@),
{
    s.to_uppercase()
}

} // verus!
