//! Chains of joltage adapters: the histogram of gaps along the sorted chain,
//! and the number of ways to pick a sub-chain from the outlet to the device.

use std::collections::VecDeque;
use crate::text::{all_digits, digits_value, scan_number};
use vstd::prelude::*;

verus! {

/// The largest step in joltage that two connected adapters may differ by.
pub const ALLOWED_JOLT_DIFF: u32 = 3;

/// Strictly ascending ratings, each above the outlet's rating of 0.
pub open spec fn is_adapter_sequence(s: Seq<u32>) -> bool {
    &&& forall|i: int, j: int| 0 <= i < j < s.len() ==> s[i] < s[j]
    &&& s.len() > 0 ==> s[0] > 0
}

/// The rating just below position `i`: the outlet (0) for the first adapter.
pub open spec fn prev_rating(s: Seq<u32>, i: int) -> int {
    if i == 0 {
        0
    } else {
        s[i - 1] as int
    }
}

/// The step up in joltage into the adapter at position `i`.
pub open spec fn gap(s: Seq<u32>, i: int) -> int {
    s[i] - prev_rating(s, i)
}

/// An adapter sequence whose every step (from the outlet on) is at most 3.
pub open spec fn is_adapter_chain(s: Seq<u32>) -> bool {
    &&& is_adapter_sequence(s)
    &&& forall|i: int| 0 <= i < s.len() ==> gap(s, i) <= ALLOWED_JOLT_DIFF
}

/// How many of the first `n` steps have size `d`.
pub open spec fn gap_count(s: Seq<u32>, d: int, n: int) -> nat
    decreases n,
{
    if n <= 0 {
        0
    } else {
        gap_count(s, d, n - 1) + if gap(s, n - 1) == d {
            1nat
        } else {
            0nat
        }
    }
}

/// 1 when the adapter at `i` can plug straight into the outlet.
pub open spec fn from_outlet(s: Seq<u32>, i: int) -> nat {
    if s[i] <= ALLOWED_JOLT_DIFF {
        1
    } else {
        0
    }
}

/// The number of ways to reach the adapter at `i` from the outlet, through
/// ascending adapters each within 3 jolts of the one before.
pub open spec fn ways_to(s: Seq<u32>, i: int) -> nat
    decreases i, 1int,
{
    if i < 0 || i >= s.len() {
        0
    } else {
        from_outlet(s, i) + via(s, i, 1) + via(s, i, 2) + via(s, i, 3)
    }
}

/// The ways to reach `i` whose last step comes from the adapter `k` places
/// before it (0 when that adapter is missing or too far below).
pub open spec fn via(s: Seq<u32>, i: int, k: int) -> nat
    decreases i, 0int,
{
    if 1 <= k && 0 <= i - k && i < s.len() && s[i] - s[i - k] <= ALLOWED_JOLT_DIFF {
        ways_to(s, i - k)
    } else {
        0
    }
}

/// `via(s, i, 1) + ... + via(s, i, n)`.
pub open spec fn vias(s: Seq<u32>, i: int, n: int) -> nat
    decreases n,
{
    if n <= 0 {
        0
    } else {
        vias(s, i, n - 1) + via(s, i, n)
    }
}

/// The number of distinct arrangements of adapters from the outlet to the
/// device (3 above the highest adapter, so reached only from the last one).
pub open spec fn arrangements(s: Seq<u32>) -> nat {
    ways_to(s, s.len() - 1)
}

proof fn lemma_rating_bound(s: Seq<u32>, i: int)
    requires
        is_adapter_sequence(s),
        0 <= i < s.len(),
    ensures
        s[i] >= i + 1,
    decreases i,
{
    if i > 0 {
        lemma_rating_bound(s, i - 1);
    }
}

proof fn lemma_gap_count_bound(s: Seq<u32>, d: int, n: int)
    requires
        n >= 0,
    ensures
        gap_count(s, d, n) <= n,
    decreases n,
{
    if n > 0 {
        lemma_gap_count_bound(s, d, n - 1);
    }
}

/// Whether the ratings are strictly ascending and above 0.
pub fn check_adapter_sequence(input: &[u32]) -> (r: bool)
    ensures
        r == is_adapter_sequence(input@),
{
    let mut i: usize = 0;
    let mut prev: u32 = 0;
    while i < input.len()
        invariant
            i <= input@.len(),
            i == 0 ==> prev == 0,
            i > 0 ==> prev == input@[i - 1],
            forall|a: int, b: int| 0 <= a < b < i ==> input@[a] < input@[b],
            i > 0 ==> input@[0] > 0,
        decreases input@.len() - i,
    {
        if input[i] <= prev {
            return false;
        }
        proof {
            assert forall|a: int, b: int| 0 <= a < b < i + 1 implies input@[a] < input@[b] by {
                if b == i && a < i - 1 {
                    assert(input@[a] < input@[i - 1]);
                }
            }
        }
        prev = input[i];
        i = i + 1;
    }
    true
}

/// Whether the ratings form a chain from the outlet: strictly ascending,
/// above 0, and no step larger than 3.
pub fn check_adapter_chain(input: &[u32]) -> (r: bool)
    ensures
        r == is_adapter_chain(input@),
{
    if !check_adapter_sequence(input) {
        return false;
    }
    let mut i: usize = 0;
    while i < input.len()
        invariant
            is_adapter_sequence(input@),
            i <= input@.len(),
            forall|k: int| 0 <= k < i ==> gap(input@, k) <= ALLOWED_JOLT_DIFF,
        decreases input@.len() - i,
    {
        let prev: u32 = if i == 0 {
            0
        } else {
            input[i - 1]
        };
        proof {
            if i > 0 {
                assert(input@[i - 1] < input@[i as int]);
            }
        }
        if input[i] - prev > ALLOWED_JOLT_DIFF {
            proof {
                assert(gap(input@, i as int) > ALLOWED_JOLT_DIFF);
            }
            return false;
        }
        i = i + 1;
    }
    true
}

/// Reads one rating: a non-empty run of digits and nothing else, whose
/// value fits in a `u32`.
pub fn parse_rating(line: &str) -> (r: Option<u32>)
    ensures
        match r {
            Some(v) => line@.len() > 0 && all_digits(line@) && v == digits_value(line@),
            None => !(line@.len() > 0 && all_digits(line@) && digits_value(line@) <= u32::MAX),
        },
{
    let len = line.unicode_len();
    let (end, value) = scan_number(line, 0);
    proof {
        assert(line@.subrange(0, line@.len() as int) =~= line@);
        if end < len {
            assert(!all_digits(line@));
        }
    }
    if len == 0 || end != len {
        return None;
    }
    match value {
        Some(v) => if v <= u32::MAX as usize {
            Some(v as u32)
        } else {
            None
        },
        None => None,
    }
}

/// Tallies the steps of size 1, 2 and 3 along the chain, starting from the
/// outlet; the slot for 3 starts at 1 for the final step into the device.
pub fn find_jolt_differences(input: &[u32]) -> (r: [u64; 3])
    requires
        is_adapter_chain(input@),
    ensures
        r[0] == gap_count(input@, 1, input@.len() as int),
        r[1] == gap_count(input@, 2, input@.len() as int),
        r[2] == gap_count(input@, 3, input@.len() as int) + 1,
{
    if input.len() > 0 {
        proof {
            lemma_rating_bound(input@, input@.len() - 1);
        }
    }
    let mut differences: [u64; 3] = [0, 0, 1];
    let mut prev: u32 = 0;
    let mut i: usize = 0;
    while i < input.len()
        invariant
            is_adapter_chain(input@),
            i <= input@.len() <= u32::MAX,
            i < input@.len() ==> prev == prev_rating(input@, i as int),
            differences[0] == gap_count(input@, 1, i as int),
            differences[1] == gap_count(input@, 2, i as int),
            differences[2] == gap_count(input@, 3, i as int) + 1,
        decreases input@.len() - i,
    {
        let j = input[i];
        proof {
            lemma_gap_count_bound(input@, 1, i as int);
            lemma_gap_count_bound(input@, 2, i as int);
            lemma_gap_count_bound(input@, 3, i as int);
            assert(gap(input@, i as int) <= 3);
            if i > 0 {
                assert(input@[i - 1] < input@[i as int]);
            }
        }
        let diff = (j - prev) as usize;
        if diff == 1 {
            differences[0] = differences[0] + 1;
        } else if diff == 2 {
            differences[1] = differences[1] + 1;
        } else {
            differences[2] = differences[2] + 1;
        }
        prev = j;
        i = i + 1;
    }
    differences
}

/// The product of the number of 1-jolt steps and the number of 3-jolt steps
/// (the step into the device included).
pub fn multiply_jolt_differences(input: &[u32]) -> (r: u64)
    requires
        is_adapter_chain(input@),
    ensures
        r == gap_count(input@, 1, input@.len() as int) * (gap_count(
            input@,
            3,
            input@.len() as int,
        ) + 1),
{
    let differences = find_jolt_differences(input);
    proof {
        if input@.len() > 0 {
            lemma_rating_bound(input@, input@.len() - 1);
        }
        lemma_gap_count_bound(input@, 1, input@.len() as int);
        lemma_gap_count_bound(input@, 3, input@.len() as int);
        let a = differences[0] as int;
        let b = differences[2] as int;
        assert(a * b <= u32::MAX * (u32::MAX + 1)) by (nonlinear_arith)
            requires
                0 <= a <= u32::MAX,
                0 <= b <= u32::MAX + 1,
        ;
    }
    differences[0] * differences[2]
}

/// The ways to reach adapter `i`, given the counts for the (at most 3)
/// adapters before it, most recent first. `None` when that number does not
/// fit in a `u64`.
pub fn count_arrangements_to(jolts: &[u32], i: usize, arrangements_to: &VecDeque<u64>) -> (r:
    Option<u64>)
    requires
        is_adapter_sequence(jolts@),
        i < jolts@.len(),
        arrangements_to@.len() >= if i < 3 {
            i as int
        } else {
            3
        },
        forall|k: int|
            0 <= k < 3 && k < i ==> #[trigger] arrangements_to@[k] == ways_to(jolts@, i - 1 - k),
    ensures
        match r {
            Some(v) => v == ways_to(jolts@, i as int),
            None => ways_to(jolts@, i as int) > u64::MAX,
        },
{
    let window: usize = if i > (ALLOWED_JOLT_DIFF as usize) {
        ALLOWED_JOLT_DIFF as usize
    } else {
        i
    };
    // Count an extra 1 if the adapter can plug straight into the outlet.
    let mut count: u64 = if jolts[i] > ALLOWED_JOLT_DIFF {
        0
    } else {
        1
    };
    proof {
        assert(ways_to(jolts@, i as int) == from_outlet(jolts@, i as int) + vias(jolts@, i as int, 3))
            by {
            reveal_with_fuel(vias, 4);
        }
        assert(vias(jolts@, i as int, window as int) == vias(jolts@, i as int, 3)) by {
            reveal_with_fuel(vias, 4);
        }
    }
    let mut k: usize = 1;
    while k <= window
        invariant
            is_adapter_sequence(jolts@),
            i < jolts@.len(),
            window <= 3,
            window <= i,
            1 <= k <= window + 1,
            arrangements_to@.len() >= window,
            forall|m: int| 0 <= m < 3 && m < i ==> #[trigger] arrangements_to@[m] == ways_to(jolts@, i - 1 - m),
            ways_to(jolts@, i as int) == from_outlet(jolts@, i as int) + vias(
                jolts@,
                i as int,
                window as int,
            ),
            count == from_outlet(jolts@, i as int) + vias(jolts@, i as int, k - 1),
        decreases window + 1 - k,
    {
        let j = i - k;
        proof {
            assert(jolts@[j as int] < jolts@[i as int]);
            assert(vias(jolts@, i as int, window as int) >= vias(jolts@, i as int, k as int)) by {
                reveal_with_fuel(vias, 4);
            }
        }
        if jolts[i] - jolts[j] <= ALLOWED_JOLT_DIFF {
            match count.checked_add(arrangements_to[k - 1]) {
                Some(c) => {
                    count = c;
                },
                None => {
                    return None;
                },
            }
        }
        k = k + 1;
    }
    Some(count)
}

/// The number of arrangements of the whole chain; `None` when some adapter
/// along the way is reached in more ways than a `u64` holds.
pub fn find_num_arrangements(input: &[u32]) -> (r: Option<u64>)
    requires
        is_adapter_sequence(input@),
        input@.len() > 0,
    ensures
        match r {
            Some(v) => v == arrangements(input@),
            None => exists|k: int| 0 <= k < input@.len() && ways_to(input@, k) > u64::MAX,
        },
{
    // Only the counts of the last 3 adapters can matter: anything earlier is
    // more than 3 jolts below the adapter being counted.
    let mut arrangements_to: VecDeque<u64> = VecDeque::with_capacity(
        ALLOWED_JOLT_DIFF as usize,
    );
    let mut i: usize = 0;
    while i < input.len()
        invariant
            is_adapter_sequence(input@),
            i <= input@.len(),
            arrangements_to@.len() == if i < 3 {
                i as int
            } else {
                3
            },
            forall|k: int|
                0 <= k < arrangements_to@.len() ==> arrangements_to@[k] == ways_to(
                    input@,
                    i - 1 - k,
                ),
        decreases input@.len() - i,
    {
        let total = match count_arrangements_to(input, i, &arrangements_to) {
            Some(t) => t,
            None => {
                return None;
            },
        };
        if arrangements_to.len() == 3 {
            arrangements_to.pop_back();
        }
        arrangements_to.push_front(total);
        i = i + 1;
    }
    arrangements_to.pop_front()
}

} // verus!
