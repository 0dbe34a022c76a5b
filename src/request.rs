use vstd::prelude::*;

verus! {

/// Whether the largest part value has been set (it starts out as 0).
pub fn check_max(n: u8) -> (r: bool)
    ensures
        r == (n > 0),
{
    n > 0
}

/// Whether a command received exactly `n` arguments.
pub fn check_args(xs: &Vec<u64>, n: usize) -> (r: bool)
    ensures
        r == (xs@.len() == n),
{
    xs.len() == n
}

} // verus!
