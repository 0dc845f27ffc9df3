use vstd::prelude::*;

verus! {

/// The smallest radix among 2, 3 and 5 that divides `n`, or `n` itself.
pub open spec fn spec_smallest_factor(n: usize) -> usize {
    if n % 2 == 0 {
        2
    } else if n % 3 == 0 {
        3
    } else if n % 5 == 0 {
        5
    } else {
        n
    }
}

/// Picks the radix of the next butterfly stage of a mixed-radix FFT.
pub fn smallest_factor(n: usize) -> (p: usize)
    ensures
        p == spec_smallest_factor(n),
{
    let radices: [usize; 3] = [2, 3, 5];
    let mut i: usize = 0;
    while i < 3
        invariant
            0 <= i <= 3,
            radices@ == seq![2usize, 3usize, 5usize],
            forall|k: int| 0 <= k < i ==> n % radices@[k] != 0,
        decreases 3 - i,
    {
        let p = radices[i];
        if n % p == 0 {
            return p;
        }
        i += 1;
    }
    n
}

} // verus!
