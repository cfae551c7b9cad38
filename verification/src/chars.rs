//! Character-sequence utilities shared by the codec and the text helpers.
//!
//! All text manipulation in this crate happens on `Vec<char>`, whose view is
//! the same `Seq<char>` that `String` and `&str` expose, so contracts stated
//! over string views carry over directly.

use vstd::prelude::*;
use vstd::string::StrSliceExecFns;

verus! {

/// The whitespace characters this crate recognizes when trimming a line.
pub open spec fn is_ws(c: char) -> bool {
    c == ' ' || c == '\t' || c == '\r' || c == '\n'
}

/// Executable test matching `is_ws`.
pub fn is_ws_char(c: char) -> (b: bool)
    ensures
        b == is_ws(c),
{
    c == ' ' || c == '\t' || c == '\r' || c == '\n'
}

/// Collects the characters of a string slice into a vector with the same view.
pub fn chars_of(s: &str) -> (v: Vec<char>)
    ensures
        v@ == s@,
{
    let n = s.unicode_len();
    let mut v: Vec<char> = Vec::new();
    let mut i: usize = 0;
    while i < n
        invariant
            n == s@.len(),
            i <= n,
            v@ == s@.take(i as int),
        decreases n - i,
    {
        let c = s.get_char(i);
        v.push(c);
        i = i + 1;
        proof {
            assert(v@ =~= s@.take(i as int));
        }
    }
    proof {
        assert(s@.take(n as int) =~= s@);
    }
    v
}

/// Appends every character of `s` to `dst`.
pub fn push_chars_of(dst: &mut Vec<char>, s: &str)
    ensures
        final(dst)@ == old(dst)@ + s@,
{
    let n = s.unicode_len();
    let mut i: usize = 0;
    while i < n
        invariant
            n == s@.len(),
            i <= n,
            dst@ == old(dst)@ + s@.take(i as int),
        decreases n - i,
    {
        let c = s.get_char(i);
        dst.push(c);
        i = i + 1;
        proof {
            assert(old(dst)@ + s@.take(i as int) =~= (old(dst)@ + s@.take(i - 1)).push(
                s@[i - 1],
            ));
        }
    }
    proof {
        assert(s@.take(n as int) =~= s@);
    }
}

/// Relies on `String: FromIterator<char>`: collecting an iterator of
/// characters yields the string made of exactly those characters in order.
#[verifier::external_body]
pub(crate) fn string_of(v: &Vec<char>) -> (s: String)
    ensures
        s@ == v@,
{
    v.iter().collect()
}

/// A sequence made only of whitespace.
pub open spec fn is_blank(t: Seq<char>) -> bool {
    forall|i: int| 0 <= i < t.len() ==> is_ws(#[trigger] t[i])
}

/// `t` with leading and trailing whitespace removed.
pub open spec fn trim(t: Seq<char>) -> Seq<char>
    decreases t.len(),
{
    if t.len() == 0 {
        t
    } else if is_ws(t[0]) {
        trim(t.drop_first())
    } else if is_ws(t[t.len() - 1]) {
        trim(t.drop_last())
    } else {
        t
    }
}

/// Trims leading and trailing whitespace from a character vector.
pub fn trim_chars(t: &Vec<char>) -> (r: Vec<char>)
    ensures
        r@ == trim(t@),
{
    let mut lo: usize = 0;
    let mut hi: usize = t.len();
    proof {
        assert(t@.subrange(0, t@.len() as int) =~= t@);
    }
    while lo < hi && is_ws_char(t[lo])
        invariant
            lo <= hi <= t.len(),
            trim(t@) == trim(t@.subrange(lo as int, hi as int)),
            hi == t.len(),
        decreases hi - lo,
    {
        proof {
            lemma_trim_drop_first(t@.subrange(lo as int, hi as int));
            assert(t@.subrange(lo as int, hi as int).drop_first() =~= t@.subrange(
                lo as int + 1,
                hi as int,
            ));
        }
        lo = lo + 1;
    }
    while lo < hi && is_ws_char(t[hi - 1])
        invariant
            lo <= hi <= t.len(),
            trim(t@) == trim(t@.subrange(lo as int, hi as int)),
            lo < hi ==> !is_ws(t@[lo as int]),
        decreases hi - lo,
    {
        proof {
            lemma_trim_drop_last(t@.subrange(lo as int, hi as int));
            assert(t@.subrange(lo as int, hi as int).drop_last() =~= t@.subrange(
                lo as int,
                hi as int - 1,
            ));
        }
        hi = hi - 1;
    }
    let mut r: Vec<char> = Vec::new();
    let mut i: usize = lo;
    while i < hi
        invariant
            lo <= i <= hi <= t.len(),
            r@ == t@.subrange(lo as int, i as int),
        decreases hi - i,
    {
        r.push(t[i]);
        i = i + 1;
        proof {
            assert(r@ =~= t@.subrange(lo as int, i as int));
        }
    }
    proof {
        let m = t@.subrange(lo as int, hi as int);
        if m.len() > 0 {
            assert(!is_ws(m[0]));
            assert(!is_ws(m[m.len() - 1]));
        }
        assert(trim(m) == m);
    }
    r
}

proof fn lemma_trim_drop_first(t: Seq<char>)
    requires
        t.len() > 0,
        is_ws(t[0]),
    ensures
        trim(t) == trim(t.drop_first()),
{
}

proof fn lemma_trim_drop_last(t: Seq<char>)
    requires
        t.len() > 0,
        !is_ws(t[0]),
        is_ws(t[t.len() - 1]),
    ensures
        trim(t) == trim(t.drop_last()),
{
}

/// A sequence that is already free of leading and trailing whitespace trims
/// to itself.
pub proof fn lemma_trim_noop(t: Seq<char>)
    requires
        t.len() > 0 ==> !is_ws(t[0]) && !is_ws(t[t.len() - 1]),
    ensures
        trim(t) == t,
{
}

/// Element-wise equality of two character vectors.
pub fn eq_chars(a: &Vec<char>, b: &Vec<char>) -> (r: bool)
    ensures
        r == (a@ == b@),
{
    if a.len() != b.len() {
        return false;
    }
    let mut i: usize = 0;
    while i < a.len()
        invariant
            a@.len() == b@.len(),
            i <= a@.len(),
            forall|j: int| 0 <= j < i ==> a@[j] == #[trigger] b@[j],
        decreases a@.len() - i,
    {
        if a[i] != b[i] {
            return false;
        }
        i = i + 1;
    }
    proof {
        assert(a@ =~= b@);
    }
    true
}

/// `needle` occurs contiguously inside `hay`.
pub open spec fn contains_seq(hay: Seq<char>, needle: Seq<char>) -> bool {
    exists|i: int|
        0 <= i && i + needle.len() <= hay.len() && #[trigger] hay.subrange(i, i + needle.len())
            == needle
}

/// Substring search: reports whether `needle` occurs inside `hay`.
pub fn contains_chars(hay: &Vec<char>, needle: &Vec<char>) -> (b: bool)
    ensures
        b == contains_seq(hay@, needle@),
{
    let n = needle.len();
    let h = hay.len();
    if n > h {
        proof {
            assert(!contains_seq(hay@, needle@));
        }
        return false;
    }
    let mut start: usize = 0;
    while start <= h - n
        invariant
            n == needle@.len(),
            h == hay@.len(),
            n <= h,
            start <= h - n + 1,
            forall|i: int|
                0 <= i < start ==> #[trigger] hay@.subrange(i, i + needle@.len()) != needle@,
        decreases h + 1 - n - start,
    {
        let mut k: usize = 0;
        let mut all_eq = true;
        while k < n
            invariant
                n == needle@.len(),
                h == hay@.len(),
                start + n <= h,
                k <= n,
                all_eq ==> forall|j: int|
                    0 <= j < k ==> hay@[start + j] == #[trigger] needle@[j],
                !all_eq ==> exists|j: int|
                    0 <= j < n && hay@[start + j] != #[trigger] needle@[j],
            decreases n - k,
        {
            if hay[start + k] != needle[k] {
                all_eq = false;
            }
            k = k + 1;
        }
        if all_eq {
            proof {
                assert(hay@.subrange(start as int, start as int + needle@.len())
                    =~= needle@);
            }
            return true;
        }
        proof {
            let j = choose|j: int|
                0 <= j < n && hay@[start + j] != #[trigger] needle@[j];
            assert(hay@.subrange(start as int, start as int + needle@.len())[j]
                == hay@[start + j]);
            assert(hay@.subrange(start as int, start as int + needle@.len()) != needle@);
        }
        start = start + 1;
    }
    proof {
        assert(!contains_seq(hay@, needle@));
    }
    false
}

} // verus!
