//! Verified text utilities: decimal parsing, character search, string
//! splitting and substring search over `&str` values viewed as
//! sequences of characters.

use vstd::prelude::*;
use vstd::string::StrSliceExecFns;

verus! {

/// A decimal digit in the ASCII range.
pub open spec fn is_digit_char(c: char) -> bool {
    48 <= c as int <= 57
}

/// Numeric value of a decimal digit character.
pub open spec fn digit_val(c: char) -> nat {
    (c as int - 48) as nat
}

/// Every character of the sequence is a decimal digit.
pub open spec fn all_digits(s: Seq<char>) -> bool {
    forall|i: int| 0 <= i < s.len() ==> is_digit_char(s[i])
}

/// Value of a digit sequence read as a base-10 numeral.
pub open spec fn dec_val(s: Seq<char>) -> nat
    decreases s.len(),
{
    if s.len() == 0 {
        0
    } else {
        dec_val(s.drop_last()) * 10 + digit_val(s.last())
    }
}

proof fn lemma_dec_val_take_succ(s: Seq<char>, i: int)
    requires
        0 <= i < s.len(),
    ensures
        dec_val(s.take(i + 1)) == dec_val(s.take(i)) * 10 + digit_val(s[i]),
{
    assert(s.take(i + 1).drop_last() =~= s.take(i));
    assert(s.take(i + 1).last() == s[i]);
}

proof fn lemma_dec_val_take_monotone(s: Seq<char>, k: int)
    requires
        0 <= k <= s.len(),
    ensures
        dec_val(s.take(k)) <= dec_val(s),
    decreases s.len() - k,
{
    if k < s.len() {
        lemma_dec_val_take_succ(s, k);
        lemma_dec_val_take_monotone(s, k + 1);
    } else {
        assert(s.take(k) =~= s);
    }
}

/// Whether the character is a decimal digit.
pub fn is_digit(c: char) -> (r: bool)
    ensures
        r == is_digit_char(c),
{
    let n = c as u32;
    48 <= n && n <= 57
}

/// Parse a non-empty string of decimal digits into its numeric value.
/// Returns `None` on an empty string, a non-digit character, or a
/// value that does not fit in 64 bits.
#[verifier::loop_isolation(false)]
pub fn parse_decimal(s: &str) -> (r: Option<u64>)
    ensures
        match r {
            Some(v) => s@.len() >= 1 && all_digits(s@) && dec_val(s@) == v as nat,
            None => s@.len() == 0 || !all_digits(s@) || dec_val(s@) > u64::MAX,
        },
{
    let n = s.unicode_len();
    if n == 0 {
        return None;
    }
    let mut acc: u64 = 0;
    let mut i: usize = 0;
    while i < n
        invariant
            0 <= i <= n,
            all_digits(s@.take(i as int)),
            acc as nat == dec_val(s@.take(i as int)),
        decreases n - i,
    {
        let c = s.get_char(i);
        let code = c as u32;
        if code < 48 || code > 57 {
            assert(!all_digits(s@)) by {
                assert(!is_digit_char(s@[i as int]));
            }
            return None;
        }
        let d: u64 = (code - 48) as u64;
        proof {
            lemma_dec_val_take_succ(s@, i as int);
        }
        let wide: u128 = (acc as u128) * 10 + (d as u128);
        if wide > u64::MAX as u128 {
            assert(s@.len() == 0 || !all_digits(s@) || dec_val(s@) > u64::MAX) by {
                if all_digits(s@) {
                    lemma_dec_val_take_monotone(s@, i as int + 1);
                }
            }
            return None;
        }
        acc = wide as u64;
        i = i + 1;
    }
    proof {
        assert(s@.take(n as int) =~= s@);
    }
    Some(acc)
}

/// Character-wise equality of two string slices.
#[verifier::loop_isolation(false)]
pub fn str_eq(a: &str, b: &str) -> (r: bool)
    ensures
        r == (a@ == b@),
{
    let n = a.unicode_len();
    if n != b.unicode_len() {
        return false;
    }
    let mut i: usize = 0;
    while i < n
        invariant
            0 <= i <= n,
            n == a@.len(),
            n == b@.len(),
            forall|j: int| 0 <= j < i ==> a@[j] == b@[j],
        decreases n - i,
    {
        if a.get_char(i) != b.get_char(i) {
            assert(a@ != b@);
            return false;
        }
        i = i + 1;
    }
    proof {
        assert(a@ =~= b@);
    }
    true
}

/// Index of the first occurrence of `sep`, or -1 if absent.
pub open spec fn find_char(s: Seq<char>, sep: char) -> int
    decreases s.len(),
{
    if s.len() == 0 {
        -1
    } else if s[0] == sep {
        0
    } else {
        let r = find_char(s.drop_first(), sep);
        if r < 0 {
            -1
        } else {
            r + 1
        }
    }
}

pub proof fn lemma_find_char(s: Seq<char>, sep: char)
    ensures
        find_char(s, sep) < 0 ==> forall|i: int| 0 <= i < s.len() ==> s[i] != sep,
        find_char(s, sep) >= 0 ==> 0 <= find_char(s, sep) < s.len() && s[find_char(s, sep)]
            == sep && (forall|i: int| 0 <= i < find_char(s, sep) ==> s[i] != sep),
    decreases s.len(),
{
    if s.len() == 0 {
    } else if s[0] == sep {
    } else {
        lemma_find_char(s.drop_first(), sep);
        let r = find_char(s, sep);
        if r >= 0 {
            assert forall|i: int| 0 <= i < r implies s[i] != sep by {
                if i > 0 {
                    assert(s.drop_first()[i - 1] != sep);
                }
            }
        } else {
            assert forall|i: int| 0 <= i < s.len() implies s[i] != sep by {
                if i > 0 {
                    assert(s.drop_first()[i - 1] != sep);
                }
            }
        }
    }
}

/// First occurrence of a character in a string slice.
#[verifier::loop_isolation(false)]
pub fn find_char_in(s: &str, sep: char) -> (r: Option<usize>)
    ensures
        match r {
            Some(i) => i as int == find_char(s@, sep),
            None => find_char(s@, sep) < 0,
        },
{
    let n = s.unicode_len();
    let mut i: usize = 0;
    while i < n
        invariant
            0 <= i <= n,
            n == s@.len(),
            forall|j: int| 0 <= j < i ==> s@[j] != sep,
        decreases n - i,
    {
        if s.get_char(i) == sep {
            proof {
                lemma_find_char(s@, sep);
            }
            return Some(i);
        }
        i = i + 1;
    }
    proof {
        lemma_find_char(s@, sep);
    }
    None
}

/// The groups obtained by splitting at every occurrence of `sep`.
/// Splitting never yields an empty group list; separators at the ends
/// produce empty groups, as `str::split` does.
pub open spec fn split_seq(s: Seq<char>, sep: char) -> Seq<Seq<char>>
    decreases s.len(),
{
    let r = find_char(s, sep);
    if 0 <= r && r < s.len() {
        seq![s.take(r)] + split_seq(s.skip(r + 1), sep)
    } else {
        seq![s]
    }
}

pub proof fn lemma_split_seq_len(s: Seq<char>, sep: char)
    ensures
        split_seq(s, sep).len() >= 1,
    decreases s.len(),
{
    let r = find_char(s, sep);
    if 0 <= r && r < s.len() {
        lemma_split_seq_len(s.skip(r + 1), sep);
    }
}

/// Split a string at every occurrence of `sep`.
#[verifier::loop_isolation(false)]
pub fn split_str(s: &str, sep: char) -> (r: Vec<String>)
    ensures
        r.deep_view() == split_seq(s@, sep),
    decreases s@.len(),
{
    let n = s.unicode_len();
    match find_char_in(s, sep) {
        None => {
            let mut v: Vec<String> = Vec::new();
            v.push(s.to_owned());
            proof {
                assert(v.deep_view() =~= split_seq(s@, sep));
            }
            v
        },
        Some(i) => {
            proof {
                lemma_find_char(s@, sep);
            }
            let head = s.substring_char(0, i);
            let tail = s.substring_char(i + 1, n);
            let mut v: Vec<String> = Vec::new();
            v.push(head.to_owned());
            let mut rest = split_str(tail, sep);
            v.append(&mut rest);
            proof {
                assert(s@.take(i as int) =~= s@.subrange(0, i as int));
                assert(v.deep_view() =~= split_seq(s@, sep));
            }
            v
        },
    }
}

/// `p` occurs as a contiguous subsequence of `s`.
pub open spec fn contains_seq(s: Seq<char>, p: Seq<char>) -> bool {
    exists|i: int| 0 <= i && i + p.len() <= s.len() && (#[trigger] s.subrange(i, i + p.len()))
        == p
}

/// Substring search: whether `p` occurs anywhere inside `s`.
#[verifier::loop_isolation(false)]
pub fn str_contains(s: &str, p: &str) -> (r: bool)
    ensures
        r == contains_seq(s@, p@),
{
    let n = s.unicode_len();
    let m = p.unicode_len();
    if m > n {
        return false;
    }
    if m == 0 {
        proof {
            assert(s@.subrange(0, 0 + p@.len() as int) =~= p@);
            assert(contains_seq(s@, p@));
        }
        return true;
    }
    let mut i: usize = 0;
    while i <= n - m
        invariant
            m <= n,
            n == s@.len(),
            m == p@.len(),
            0 <= i <= n - m + 1,
            forall|ii: int| 0 <= ii < i ==> (#[trigger] s@.subrange(ii, ii + m as int)) != p@,
        decreases n - m - i + 1,
    {
        let mut j: usize = 0;
        let mut is_match = true;
        while j < m
            invariant
                0 <= j <= m,
                i + m <= n,
                is_match ==> forall|jj: int| 0 <= jj < j ==> s@[i + jj] == p@[jj],
                !is_match ==> s@.subrange(i as int, i as int + m as int) != p@,
            decreases m - j,
        {
            if is_match && s.get_char(i + j) != p.get_char(j) {
                proof {
                    assert(s@.subrange(i as int, i as int + m as int)[j as int] == s@[i + j]);
                }
                is_match = false;
            }
            j = j + 1;
        }
        if is_match {
            proof {
                assert(s@.subrange(i as int, i as int + m as int) =~= p@);
            }
            return true;
        }
        i = i + 1;
    }
    false
}

} // verus!
