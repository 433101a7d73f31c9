//! Character-level helpers shared by the record grammars: ASCII digits and
//! the numbers they spell.

use vstd::prelude::*;
use vstd::string::*;

verus! {

pub open spec fn is_digit(c: char) -> bool {
    '0' <= c && c <= '9'
}

pub open spec fn digit_value(c: char) -> nat {
    ((c as u32) - ('0' as u32)) as nat
}

/// Every character is an ASCII digit.
pub open spec fn all_digits(s: Seq<char>) -> bool {
    forall|i: int| 0 <= i < s.len() ==> is_digit(#[trigger] s[i])
}

/// The decimal number that a run of digits spells (leading zeros allowed).
pub open spec fn digits_value(s: Seq<char>) -> nat
    decreases s.len(),
{
    if s.len() == 0 {
        0
    } else {
        digits_value(s.drop_last()) * 10 + digit_value(s.last())
    }
}

/// The length of the run of digits that starts at `start`.
pub open spec fn digit_run(s: Seq<char>, start: int) -> nat
    decreases s.len() - start,
{
    if start < 0 || start >= s.len() || !is_digit(s[start]) {
        0
    } else {
        1 + digit_run(s, start + 1)
    }
}

pub proof fn lemma_digits_value_grows(s: Seq<char>, c: char)
    requires
        is_digit(c),
    ensures
        digits_value(s.push(c)) >= 10 * digits_value(s),
        digits_value(s.push(c)) == 10 * digits_value(s) + digit_value(c),
{
    assert(s.push(c).drop_last() =~= s);
}

/// A run of digits from `start` up to a non-digit (or the end) at `end`.
pub proof fn lemma_digit_run_stops(s: Seq<char>, start: int, end: int)
    requires
        0 <= start <= end <= s.len(),
        all_digits(s.subrange(start, end)),
        end < s.len() ==> !is_digit(s[end]),
    ensures
        digit_run(s, start) == end - start,
    decreases end - start,
{
    if start < end {
        assert(is_digit(s.subrange(start, end)[0]));
        assert forall|i: int| 0 <= i < end - (start + 1) implies is_digit(
            #[trigger] s.subrange(start + 1, end)[i],
        ) by {
            assert(s.subrange(start + 1, end)[i] == s.subrange(start, end)[i + 1]);
        }
        lemma_digit_run_stops(s, start + 1, end);
    }
}

/// Reads the run of digits at `start`: where it ends, and its value when
/// that fits in a `usize`.
pub fn scan_number(s: &str, start: usize) -> (r: (usize, Option<usize>))
    requires
        start <= s@.len(),
    ensures
        r.0 == start + digit_run(s@, start as int),
        r.0 <= s@.len(),
        r.0 < s@.len() ==> !is_digit(s@[r.0 as int]),
        all_digits(s@.subrange(start as int, r.0 as int)),
        match r.1 {
            Some(v) => v == digits_value(s@.subrange(start as int, r.0 as int)),
            None => digits_value(s@.subrange(start as int, r.0 as int)) > usize::MAX,
        },
{
    let len = s.unicode_len();
    let mut i: usize = start;
    let mut value: Option<usize> = Some(0);
    proof {
        assert(s@.subrange(start as int, start as int) =~= Seq::<char>::empty());
    }
    while i < len && is_ascii_digit(s.get_char(i))
        invariant
            len == s@.len(),
            start <= i <= len,
            digit_run(s@, start as int) == (i - start) + digit_run(s@, i as int),
            all_digits(s@.subrange(start as int, i as int)),
            match value {
                Some(v) => v == digits_value(s@.subrange(start as int, i as int)),
                None => digits_value(s@.subrange(start as int, i as int)) > usize::MAX,
            },
        decreases len - i,
    {
        let c = s.get_char(i);
        let d = (c as u32 - '0' as u32) as usize;
        proof {
            let t = s@.subrange(start as int, i as int);
            assert(s@.subrange(start as int, i + 1) =~= t.push(c));
            lemma_digits_value_grows(t, c);
        }
        value = match value {
            Some(v) => match v.checked_mul(10) {
                Some(w) => w.checked_add(d),
                None => None,
            },
            None => None,
        };
        i = i + 1;
    }
    (i, value)
}

/// Whether `pat` stands in `s` at position `at`.
pub fn matches_at(s: &str, at: usize, pat: &str) -> (r: bool)
    requires
        at <= s@.len(),
    ensures
        r == (at + pat@.len() <= s@.len() && s@.subrange(at as int, at + pat@.len()) == pat@),
{
    let len = s.unicode_len();
    let n = pat.unicode_len();
    if n > len - at {
        return false;
    }
    let mut k: usize = 0;
    while k < n
        invariant
            len == s@.len(),
            n == pat@.len(),
            at + n <= len,
            k <= n,
            forall|m: int| 0 <= m < k ==> s@[at + m] == pat@[m],
        decreases n - k,
    {
        if s.get_char(at + k) != pat.get_char(k) {
            proof {
                assert(s@.subrange(at as int, at + n)[k as int] == s@[at + k]);
            }
            return false;
        }
        k = k + 1;
    }
    proof {
        assert(s@.subrange(at as int, at + n) =~= pat@);
    }
    true
}

/// Whether `a` and `b` hold the same characters.
pub fn same_text(a: &str, b: &str) -> (r: bool)
    ensures
        r == (a@ == b@),
{
    let r = a.unicode_len() == b.unicode_len() && matches_at(a, 0, b);
    proof {
        if a@.len() == b@.len() {
            assert(a@.subrange(0, a@.len() as int) =~= a@);
        }
    }
    r
}

pub fn is_ascii_digit(c: char) -> (r: bool)
    ensures
        r == is_digit(c),
{
    '0' <= c && c <= '9'
}

} // verus!
