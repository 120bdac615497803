//! Character-level text helpers.
//!
//! The listing text is analysed as a sequence of characters. The helpers
//! here move between `String` / `&str` and `Vec<char>`, and provide the
//! verified comparisons (equality, prefix, substring search) that the
//! parser and the noise filter are specified with.

use vstd::prelude::*;
use vstd::string::StrSliceExecFns;

verus! {

/// Turns a string slice into the vector of its characters.
pub fn str_to_chars(s: &str) -> (r: Vec<char>)
    ensures
        r@ == s@,
{
    let n: usize = s.unicode_len();
    let mut r: Vec<char> = Vec::new();
    let mut i: usize = 0;
    while i < n
        invariant
            i <= n,
            n == s@.len(),
            r@ == s@.subrange(0, i as int),
        decreases n - i,
    {
        r.push(s.get_char(i));
        i = i + 1;
        proof {
            assert(r@ =~= s@.subrange(0, i as int));
        }
    }
    proof {
        assert(r@ =~= s@);
    }
    r
}

/// Relies on `String::push`: appends the given character to the end of
/// the string.
#[verifier::external_body]
fn push_char(s: &mut String, c: char)
    ensures
        final(s)@ == old(s)@.push(c),
{
    s.push(c);
}

/// Builds the string holding exactly the given characters.
pub fn chars_to_string(v: &Vec<char>) -> (r: String)
    ensures
        r@ == v@,
{
    let mut r: String = String::new();
    let mut i: usize = 0;
    while i < v.len()
        invariant
            i <= v@.len(),
            r@ == v@.subrange(0, i as int),
        decreases v@.len() - i,
    {
        push_char(&mut r, v[i]);
        i = i + 1;
        proof {
            assert(r@ =~= v@.subrange(0, i as int));
        }
    }
    proof {
        assert(r@ =~= v@);
    }
    r
}

/// Copies the characters of `v` between `from` (inclusive) and `to`
/// (exclusive).
pub fn subrange_vec(v: &Vec<char>, from: usize, to: usize) -> (r: Vec<char>)
    requires
        from <= to <= v@.len(),
    ensures
        r@ == v@.subrange(from as int, to as int),
{
    let mut r: Vec<char> = Vec::new();
    let mut i: usize = from;
    while i < to
        invariant
            from <= i <= to <= v@.len(),
            r@ == v@.subrange(from as int, i as int),
        decreases to - i,
    {
        r.push(v[i]);
        i = i + 1;
        proof {
            assert(r@ =~= v@.subrange(from as int, i as int));
        }
    }
    r
}

/// Whether the characters of `v` are exactly those of the literal.
pub fn eq_lit(v: &Vec<char>, lit: &str) -> (r: bool)
    ensures
        r == (v@ == lit@),
{
    let n: usize = lit.unicode_len();
    if v.len() != n {
        return false;
    }
    let mut i: usize = 0;
    while i < n
        invariant
            i <= n,
            n == lit@.len(),
            v@.len() == n,
            forall|k: int| 0 <= k < i ==> v@[k] == lit@[k],
        decreases n - i,
    {
        if v[i] != lit.get_char(i) {
            return false;
        }
        i = i + 1;
    }
    proof {
        assert(v@ =~= lit@);
    }
    true
}

/// `p` occurs at the front of `s`.
pub open spec fn has_prefix(s: Seq<char>, p: Seq<char>) -> bool {
    p.len() <= s.len() && (forall|i: int| 0 <= i < p.len() ==> s[i] == p[i])
}

/// Whether the characters of `v` start with the literal.
pub fn starts_with_lit(v: &Vec<char>, lit: &str) -> (r: bool)
    ensures
        r == has_prefix(v@, lit@),
{
    let n: usize = lit.unicode_len();
    if v.len() < n {
        return false;
    }
    let mut i: usize = 0;
    while i < n
        invariant
            i <= n,
            n == lit@.len(),
            v@.len() >= n,
            forall|k: int| 0 <= k < i ==> v@[k] == lit@[k],
        decreases n - i,
    {
        if v[i] != lit.get_char(i) {
            return false;
        }
        i = i + 1;
    }
    true
}

/// `p` occurs in `s` starting at position `i`.
pub open spec fn match_at(s: Seq<char>, p: Seq<char>, i: int) -> bool {
    0 <= i && i + p.len() <= s.len() && (forall|j: int| 0 <= j < p.len() ==> s[i + j] == p[j])
}

/// `p` occurs somewhere in `s`.
pub open spec fn contains_seq(s: Seq<char>, p: Seq<char>) -> bool {
    exists|i: int| match_at(s, p, i)
}

/// Whether the literal occurs at position `at` of `v`.
fn matches_at(v: &Vec<char>, lit: &str, at: usize) -> (r: bool)
    requires
        at + lit@.len() <= v@.len(),
    ensures
        r == match_at(v@, lit@, at as int),
{
    let n: usize = lit.unicode_len();
    let vn: usize = v.len();
    let mut j: usize = 0;
    while j < n
        invariant
            j <= n,
            n == lit@.len(),
            at + n <= vn,
            vn == v@.len(),
            forall|k: int| 0 <= k < j ==> v@[at + k] == lit@[k],
        decreases n - j,
    {
        if v[at + j] != lit.get_char(j) {
            return false;
        }
        j = j + 1;
    }
    true
}

/// Whether the literal occurs anywhere in the characters of `v`.
pub fn contains_lit(v: &Vec<char>, lit: &str) -> (r: bool)
    ensures
        r == contains_seq(v@, lit@),
{
    let n: usize = lit.unicode_len();
    if v.len() < n {
        proof {
            assert(forall|k: int| !match_at(v@, lit@, k));
        }
        return false;
    }
    let vn: usize = v.len();
    let last: usize = vn - n;
    let mut i: usize = 0;
    while i <= last
        invariant
            i <= last + 1,
            last + n == vn,
            vn == v@.len(),
            n == lit@.len(),
            forall|k: int| 0 <= k < i ==> !match_at(v@, lit@, k),
        decreases last - i + 1,
    {
        if matches_at(v, lit, i) {
            return true;
        }
        i = i + 1;
    }
    proof {
        assert(forall|k: int| !match_at(v@, lit@, k));
    }
    false
}

/// Index of the last occurrence of `c` in `s`, or `-1` when absent.
pub open spec fn last_index_of(s: Seq<char>, c: char) -> int
    decreases s.len(),
{
    if s.len() == 0 {
        -1
    } else if s.last() == c {
        s.len() - 1
    } else {
        last_index_of(s.drop_last(), c)
    }
}

/// The last occurrence, when there is one, lies in range, holds `c`, and
/// nothing after it does; when there is none, no position holds `c`.
pub proof fn lemma_last_index_of(s: Seq<char>, c: char)
    ensures
        last_index_of(s, c) == -1 ==> (forall|i: int| 0 <= i < s.len() ==> s[i] != c),
        last_index_of(s, c) != -1 ==> {
            let r = last_index_of(s, c);
            &&& 0 <= r < s.len()
            &&& s[r] == c
            &&& (forall|i: int| r < i < s.len() ==> s[i] != c)
        },
    decreases s.len(),
{
    if s.len() > 0 && s.last() != c {
        lemma_last_index_of(s.drop_last(), c);
        let r: int = last_index_of(s, c);
        if r == -1 {
            assert forall|i: int| 0 <= i < s.len() implies s[i] != c by {
                if i < s.len() - 1 {
                    assert(s.drop_last()[i] == s[i]);
                }
            }
        } else {
            assert(s.drop_last()[r] == s[r]);
            assert forall|i: int| r < i < s.len() implies s[i] != c by {
                if i < s.len() - 1 {
                    assert(s.drop_last()[i] == s[i]);
                }
            }
        }
    }
}

/// Position of the last occurrence of `c` among the characters of `v`.
pub fn find_last(v: &Vec<char>, c: char) -> (r: Option<usize>)
    ensures
        match r {
            Some(j) => last_index_of(v@, c) == j,
            None => last_index_of(v@, c) == -1,
        },
{
    let mut i: usize = v.len();
    proof {
        assert(v@.take(i as int) =~= v@);
    }
    while i > 0
        invariant
            i <= v@.len(),
            last_index_of(v@, c) == last_index_of(v@.take(i as int), c),
        decreases i,
    {
        i = i - 1;
        if v[i] == c {
            proof {
                assert(v@.take(i + 1).last() == v@[i as int]);
            }
            return Some(i);
        }
        proof {
            assert(v@.take(i + 1).drop_last() =~= v@.take(i as int));
            assert(v@.take(i + 1).last() == v@[i as int]);
        }
    }
    None
}

} // verus!
