//! The Fibonacci sequence in 32 bits.

use vstd::prelude::*;

verus! {

/// The Fibonacci sequence: 0, 1, 1, 2, 3, 5, ...
pub open spec fn fib(n: nat) -> nat
    decreases n,
{
    if n == 0 {
        0
    } else if n == 1 {
        1
    } else {
        fib((n - 1) as nat) + fib((n - 2) as nat)
    }
}

/// The sequence never decreases.
pub proof fn lemma_fib_monotonic(i: nat, j: nat)
    requires
        i <= j,
    ensures
        fib(i) <= fib(j),
    decreases j,
{
    if i < j {
        if j >= 2 {
            lemma_fib_monotonic(i, (j - 1) as nat);
        }
    }
}

/// The `n`-th Fibonacci number, or `None` when it does not fit in 32 bits.
pub fn fibo(n: u32) -> (value: Option<u32>)
    ensures
        fib(n as nat) <= u32::MAX ==> value == Some(fib(n as nat) as u32),
        fib(n as nat) > u32::MAX ==> value.is_none(),
{
    if n == 0 {
        return Some(0);
    }
    if n == 1 {
        return Some(1);
    }
    let mut previous: u32 = 0;
    let mut current: u32 = 1;
    let mut i: u32 = 1;
    while i < n
        invariant
            1 <= i <= n,
            previous == fib((i - 1) as nat),
            current == fib(i as nat),
        decreases n - i,
    {
        match current.checked_add(previous) {
            None => {
                proof {
                    lemma_fib_monotonic((i + 1) as nat, n as nat);
                }
                return None;
            },
            Some(next) => {
                previous = current;
                current = next;
            },
        }
        i = i + 1;
    }
    Some(current)
}

} // verus!
