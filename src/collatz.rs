//! A bounded-iteration numeric transform, used as the demonstration workload
//! of the map.

use vstd::prelude::*;

verus! {

/// One step of the sequence: halve an even value, else triple it and add one.
pub open spec fn collatz_step(n: int) -> int {
    if n % 2 == 0 {
        n / 2
    } else {
        3 * n + 1
    }
}

/// Runs the sequence from `n` until it reaches 1 or `budget` steps are spent,
/// and gives the value reached with the number of steps taken.
pub open spec fn settle(n: int, budget: nat) -> (int, nat)
    decreases budget,
{
    if n == 1 || budget == 0 {
        (n, 0)
    } else {
        let (v, k) = settle(collatz_step(n), (budget - 1) as nat);
        (v, k + 1)
    }
}

/// Every value computed on the way, within `budget` steps, fits in a `u64`.
pub open spec fn stays_in_range(n: int, budget: nat) -> bool
    decreases budget,
{
    if n == 1 || budget == 0 {
        true
    } else {
        collatz_step(n) <= u64::MAX && stays_in_range(collatz_step(n), (budget - 1) as nat)
    }
}

/// The number of steps to reach 1, or the value reached when the budget ran
/// out first.
pub open spec fn transform_spec(n: int, max_iter: nat) -> int {
    let (v, k) = settle(n, max_iter);
    if v == 1 {
        k as int
    } else {
        v
    }
}

/// Counts the steps from `n` to 1, giving up after `max_iter` steps; when it
/// gives up, it returns the value reached instead of a count.
pub fn transform_number(n: u64, max_iter: usize) -> (r: u64)
    requires
        stays_in_range(n as int, max_iter as nat),
    ensures
        r as int == transform_spec(n as int, max_iter as nat),
{
    let ghost start = n as int;
    let mut n = n;
    let mut count: usize = 0;
    while n != 1 && count < max_iter
        invariant
            count <= max_iter,
            stays_in_range(n as int, (max_iter - count) as nat),
            settle(start, max_iter as nat).0 == settle(n as int, (max_iter - count) as nat).0,
            settle(start, max_iter as nat).1 == settle(n as int, (max_iter - count) as nat).1
                + count,
        decreases max_iter - count,
    {
        n = if n % 2 == 0 {
            n / 2
        } else {
            n * 3 + 1
        };
        count += 1;
    }
    if n == 1 {
        count as u64
    } else {
        n
    }
}

} // verus!
