//! Line-level text operations.
//!
//! Trimming, separator normalization, splitting into lines, and decimal
//! number parsing, specified over character sequences. The whitespace set
//! and the case handling are ASCII: the listing keys and numbers that the
//! parser inspects are ASCII text.

use vstd::prelude::*;
use crate::chars::subrange_vec;

verus! {

/// The characters stripped from line ends: the code points with the
/// Unicode `White_Space` property (what `str::trim` strips).
pub open spec fn is_space_char(c: char) -> bool {
    let u = c as u32;
    ||| (0x09 <= u && u <= 0x0D)
    ||| u == 0x20
    ||| u == 0x85
    ||| u == 0xA0
    ||| u == 0x1680
    ||| (0x2000 <= u && u <= 0x200A)
    ||| u == 0x2028
    ||| u == 0x2029
    ||| u == 0x202F
    ||| u == 0x205F
    ||| u == 0x3000
}

fn is_space(c: char) -> (r: bool)
    ensures
        r == is_space_char(c),
{
    let u: u32 = c as u32;
    (0x09 <= u && u <= 0x0D) || u == 0x20 || u == 0x85 || u == 0xA0 || u == 0x1680 || (0x2000 <= u
        && u <= 0x200A) || u == 0x2028 || u == 0x2029 || u == 0x202F || u == 0x205F || u == 0x3000
}

/// `s` without its leading whitespace.
pub open spec fn trim_front(s: Seq<char>) -> Seq<char>
    decreases s.len(),
{
    if s.len() > 0 && is_space_char(s[0]) {
        trim_front(s.drop_first())
    } else {
        s
    }
}

/// `s` without its trailing whitespace.
pub open spec fn trim_back(s: Seq<char>) -> Seq<char>
    decreases s.len(),
{
    if s.len() > 0 && is_space_char(s.last()) {
        trim_back(s.drop_last())
    } else {
        s
    }
}

/// `s` without leading and trailing whitespace.
pub open spec fn trim_spec(s: Seq<char>) -> Seq<char> {
    trim_back(trim_front(s))
}

/// The characters of `v` with leading and trailing whitespace removed.
pub fn trimmed(v: &Vec<char>) -> (r: Vec<char>)
    ensures
        r@ == trim_spec(v@),
{
    let n: usize = v.len();
    let mut a: usize = 0;
    proof {
        assert(v@.subrange(0, n as int) =~= v@);
    }
    while a < n && is_space(v[a])
        invariant
            a <= n,
            n == v@.len(),
            trim_front(v@) == trim_front(v@.subrange(a as int, n as int)),
        decreases n - a,
    {
        proof {
            assert(v@.subrange(a as int, n as int).drop_first() =~= v@.subrange(
                a as int + 1,
                n as int,
            ));
        }
        a = a + 1;
    }
    proof {
        assert(trim_front(v@) == v@.subrange(a as int, n as int));
    }
    let mut b: usize = n;
    while b > a && is_space(v[b - 1])
        invariant
            a <= b <= n,
            n == v@.len(),
            trim_front(v@) == v@.subrange(a as int, n as int),
            trim_back(v@.subrange(a as int, n as int)) == trim_back(
                v@.subrange(a as int, b as int),
            ),
        decreases b,
    {
        proof {
            assert(v@.subrange(a as int, b as int).drop_last() =~= v@.subrange(
                a as int,
                b as int - 1,
            ));
        }
        b = b - 1;
    }
    proof {
        assert(trim_back(v@.subrange(a as int, b as int)) == v@.subrange(a as int, b as int));
    }
    subrange_vec(v, a, b)
}

/// Separator normalization: every backslash becomes a forward slash.
pub open spec fn normalize_seq(s: Seq<char>) -> Seq<char> {
    s.map_values(|c: char| if c == '\\' { '/' } else { c })
}

/// The characters of `v` with every backslash replaced by `/`.
pub fn normalize_chars(v: &Vec<char>) -> (r: Vec<char>)
    ensures
        r@ == normalize_seq(v@),
{
    let mut r: Vec<char> = Vec::new();
    let mut i: usize = 0;
    while i < v.len()
        invariant
            i <= v@.len(),
            r@.len() == i,
            forall|k: int| 0 <= k < i ==> r@[k] == (if v@[k] == '\\' { '/' } else { v@[k] }),
        decreases v@.len() - i,
    {
        let c: char = v[i];
        if c == '\\' {
            r.push('/');
        } else {
            r.push(c);
        }
        i = i + 1;
    }
    proof {
        assert(r@ =~= normalize_seq(v@));
    }
    r
}

/// The lines of `s`, split at every line feed. Splitting the empty text
/// yields one empty line; a trailing line feed yields a final empty line.
pub open spec fn split_lines_spec(s: Seq<char>) -> Seq<Seq<char>>
    decreases s.len(),
{
    if s.len() == 0 {
        seq![Seq::<char>::empty()]
    } else if s[0] == '\n' {
        seq![Seq::<char>::empty()] + split_lines_spec(s.drop_first())
    } else {
        let rest = split_lines_spec(s.drop_first());
        seq![seq![s[0]] + rest[0]] + rest.drop_first()
    }
}

/// Splitting always yields at least one line.
pub proof fn lemma_split_lines_len(s: Seq<char>)
    ensures
        split_lines_spec(s).len() >= 1,
    decreases s.len(),
{
    if s.len() > 0 {
        lemma_split_lines_len(s.drop_first());
    }
}

/// When the first `j` characters of `s` hold no line feed and position `j`
/// is a line feed (or the end), the split starts with that first line.
pub proof fn lemma_split_first_line(s: Seq<char>, j: int)
    requires
        0 <= j <= s.len(),
        forall|k: int| 0 <= k < j ==> s[k] != '\n',
        j == s.len() || s[j] == '\n',
    ensures
        j < s.len() ==> split_lines_spec(s) == seq![s.take(j)] + split_lines_spec(s.skip(j + 1)),
        j == s.len() ==> split_lines_spec(s) == seq![s],
    decreases j,
{
    lemma_split_lines_len(s);
    if j == 0 {
        if 0 < s.len() {
            assert(s.take(0) =~= Seq::<char>::empty());
            assert(s.skip(1) =~= s.drop_first());
        } else {
            assert(s =~= Seq::<char>::empty());
        }
    } else {
        let t = s.drop_first();
        lemma_split_lines_len(t);
        assert(forall|k: int| 0 <= k < j - 1 ==> #[trigger] t[k] == s[k + 1]);
        lemma_split_first_line(t, j - 1);
        if j < s.len() {
            assert(t.skip(j) =~= s.skip(j + 1));
            let rest = split_lines_spec(t);
            assert(rest == seq![t.take(j - 1)] + split_lines_spec(t.skip(j)));
            assert(rest[0] == t.take(j - 1));
            assert(seq![s[0]] + t.take(j - 1) =~= s.take(j));
            assert(rest.drop_first() =~= split_lines_spec(t.skip(j)));
            assert(split_lines_spec(s) =~= seq![s.take(j)] + split_lines_spec(s.skip(j + 1)));
        } else {
            let rest = split_lines_spec(t);
            assert(rest == seq![t]);
            assert(seq![s[0]] + t =~= s);
            assert(rest.drop_first() =~= Seq::<Seq<char>>::empty());
            assert(split_lines_spec(s) =~= seq![s]);
        }
    }
}

/// The lines of `v`, split at every line feed.
pub fn split_lines(v: &Vec<char>) -> (r: Vec<Vec<char>>)
    ensures
        r@.map_values(|l: Vec<char>| l@) == split_lines_spec(v@),
{
    let n: usize = v.len();
    let mut r: Vec<Vec<char>> = Vec::new();
    let mut start: usize = 0;
    let mut i: usize = 0;
    proof {
        assert(v@.skip(0) =~= v@);
    }
    while i < n
        invariant
            start <= i <= n,
            n == v@.len(),
            forall|k: int| start <= k < i ==> v@[k] != '\n',
            split_lines_spec(v@) == r@.map_values(|l: Vec<char>| l@) + split_lines_spec(
                v@.skip(start as int),
            ),
        decreases n - i,
    {
        if v[i] == '\n' {
            let line: Vec<char> = subrange_vec(v, start, i);
            proof {
                let tail = v@.skip(start as int);
                assert(forall|k: int|
                    0 <= k < i - start ==> #[trigger] tail[k] == v@[k + start] && tail[k] != '\n');
                assert(tail[i - start] == v@[i as int]);
                lemma_split_first_line(tail, i - start);
                assert(tail.take(i - start) =~= v@.subrange(start as int, i as int));
                assert(tail.skip(i - start + 1) =~= v@.skip(i as int + 1));
            }
            let ghost oldmap = r@.map_values(|l: Vec<char>| l@);
            r.push(line);
            proof {
                assert(r@.map_values(|l: Vec<char>| l@) =~= oldmap + seq![line@]);
                assert(oldmap + (seq![line@] + split_lines_spec(v@.skip(i as int + 1))) =~= (
                oldmap + seq![line@]) + split_lines_spec(v@.skip(i as int + 1)));
            }
            start = i + 1;
        }
        i = i + 1;
    }
    let line: Vec<char> = subrange_vec(v, start, n);
    proof {
        let tail = v@.skip(start as int);
        assert(forall|k: int|
            0 <= k < n - start ==> #[trigger] tail[k] == v@[k + start] && tail[k] != '\n');
        lemma_split_first_line(tail, n - start);
        assert(tail =~= v@.subrange(start as int, n as int));
    }
    let ghost oldmap = r@.map_values(|l: Vec<char>| l@);
    r.push(line);
    proof {
        assert(r@.map_values(|l: Vec<char>| l@) =~= oldmap + seq![line@]);
        assert(oldmap + seq![line@] =~= split_lines_spec(v@));
    }
    r
}

/// A decimal digit.
pub open spec fn is_digit_char(c: char) -> bool {
    48 <= c as u32 && c as u32 <= 57
}

/// The value of a decimal digit.
pub open spec fn digit_val(c: char) -> int {
    c as u32 - 48
}

/// The value of a run of decimal digits, most significant first.
pub open spec fn dec_val(s: Seq<char>) -> int
    decreases s.len(),
{
    if s.len() == 0 {
        0
    } else {
        dec_val(s.drop_last()) * 10 + digit_val(s.last())
    }
}

/// Every character is a decimal digit.
pub open spec fn all_digits(s: Seq<char>) -> bool {
    forall|i: int| 0 <= i < s.len() ==> is_digit_char(s[i])
}

/// What parsing an unsigned 64-bit decimal number accepts: an optional
/// leading `+`, then one or more digits, whose value fits in a `u64`.
pub open spec fn parse_u64_spec(s: Seq<char>) -> Option<u64> {
    let digits = if s.len() > 0 && s[0] == '+' {
        s.drop_first()
    } else {
        s
    };
    if digits.len() > 0 && all_digits(digits) && dec_val(digits) <= u64::MAX as int {
        Some(dec_val(digits) as u64)
    } else {
        None
    }
}

/// The value of a digit run is nonnegative and no smaller than the value
/// of any of its prefixes.
pub proof fn lemma_dec_val_prefix(s: Seq<char>, j: int)
    requires
        all_digits(s),
        0 <= j <= s.len(),
    ensures
        0 <= dec_val(s.take(j)) <= dec_val(s),
    decreases s.len(),
{
    if s.len() == 0 {
        assert(s.take(j) =~= s);
    } else if j == s.len() {
        assert(s.take(j) =~= s);
        lemma_dec_val_prefix(s.drop_last(), s.len() - 1);
        assert(s.drop_last().take(s.len() - 1) =~= s.drop_last());
    } else {
        assert(forall|k: int|
            0 <= k < s.len() - 1 ==> #[trigger] s.drop_last()[k] == s[k]);
        lemma_dec_val_prefix(s.drop_last(), j);
        assert(s.drop_last().take(j) =~= s.take(j));
    }
}

/// Parses the characters of `v` as an unsigned 64-bit decimal number.
pub fn parse_u64_chars(v: &Vec<char>) -> (r: Option<u64>)
    ensures
        r == parse_u64_spec(v@),
{
    let n: usize = v.len();
    let has_sign: bool = n > 0 && v[0] == '+';
    let start: usize = if has_sign {
        1
    } else {
        0
    };
    let ghost digits: Seq<char> = v@.skip(start as int);
    proof {
        if has_sign {
            assert(v@.skip(1) =~= v@.drop_first());
        } else {
            assert(v@.skip(0) =~= v@);
        }
    }
    if n == start {
        return None;
    }
    let mut acc: u64 = 0;
    let mut i: usize = start;
    proof {
        assert(digits.take(0) =~= Seq::<char>::empty());
    }
    while i < n
        invariant
            start <= i <= n,
            n == v@.len(),
            start <= 1,
            digits == (if v@.len() > 0 && v@[0] == '+' {
                v@.drop_first()
            } else {
                v@
            }),
            digits.len() == n - start,
            forall|k: int| 0 <= k < digits.len() ==> digits[k] == v@[k + start],
            all_digits(digits.take(i - start)),
            acc as int == dec_val(digits.take(i - start)),
        decreases n - i,
    {
        let c: char = v[i];
        let cu: u32 = c as u32;
        if cu < 48 || cu > 57 {
            proof {
                assert(digits[i - start] == c);
                assert(!is_digit_char(digits[i - start]));
                assert(!all_digits(digits));
            }
            return None;
        }
        let d: u64 = (cu - 48) as u64;
        proof {
            assert(digits.take(i - start + 1).drop_last() =~= digits.take(i - start));
            assert(digits.take(i - start + 1).last() == c);
            assert(is_digit_char(c));
            assert forall|k: int| 0 <= k < i - start + 1 implies is_digit_char(
                #[trigger] digits.take(i - start + 1)[k],
            ) by {
                if k < i - start {
                    assert(digits.take(i - start + 1)[k] == digits.take(i - start)[k]);
                } else {
                    assert(digits.take(i - start + 1)[k] == c);
                }
            }
            assert(all_digits(digits.take(i - start + 1)));
        }
        let acc10: Option<u64> = acc.checked_mul(10);
        match acc10 {
            None => {
                proof {
                    if all_digits(digits) {
                        assert(dec_val(digits.take(i - start + 1)) > u64::MAX as int);
                        lemma_dec_val_prefix(digits, i - start + 1);
                        assert(dec_val(digits) > u64::MAX as int);
                    }
                    assert(parse_u64_spec(v@) is None);
                }
                return None;
            },
            Some(a10) => {
                let sum: Option<u64> = a10.checked_add(d);
                match sum {
                    None => {
                        proof {
                            if all_digits(digits) {
                                assert(dec_val(digits.take(i - start + 1)) > u64::MAX as int);
                                lemma_dec_val_prefix(digits, i - start + 1);
                                assert(dec_val(digits) > u64::MAX as int);
                            }
                            assert(parse_u64_spec(v@) is None);
                        }
                        return None;
                    },
                    Some(s2) => {
                        acc = s2;
                    },
                }
            },
        }
        i = i + 1;
    }
    proof {
        assert(digits.take(n - start) =~= digits);
    }
    Some(acc)
}

} // verus!
