use vstd::prelude::*;

verus! {

/// The error a failing on-bot test returns.
#[derive(Debug, Clone, Copy, PartialEq, Eq)]
pub struct TestError;

/// The number of `true` entries among the first `n` of `s`.
pub open spec fn count_passed(s: Seq<bool>, n: int) -> int
    decreases n,
{
    if n <= 0 {
        0
    } else {
        count_passed(s, n - 1) + if s[n - 1] {
            1int
        } else {
            0int
        }
    }
}

/// The passed and the failed tests among `results`, counted.
pub fn test_summary(results: &[bool]) -> (r: (usize, usize))
    ensures
        r.0 == count_passed(results@, results@.len() as int),
        r.0 + r.1 == results@.len(),
{
    let mut n_passed: usize = 0;
    let mut n_failed: usize = 0;
    let mut i: usize = 0;
    while i < results.len()
        invariant
            i <= results@.len(),
            n_passed == count_passed(results@, i as int),
            n_passed + n_failed == i,
        decreases results@.len() - i,
    {
        if results[i] {
            n_passed = n_passed + 1;
        } else {
            n_failed = n_failed + 1;
        }
        i = i + 1;
    }
    (n_passed, n_failed)
}

} // verus!
