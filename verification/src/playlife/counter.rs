use vstd::prelude::*;

verus! {

/// Counter struct for various timers.
#[derive(Clone, Copy, Debug, PartialEq, Eq, Structural)]
pub struct Counter(pub usize);

impl Counter {
    /// The value that `decr` leaves: one less, but never below zero.
    pub open spec fn decremented(n: usize) -> usize {
        if n > 0 { (n - 1) as usize } else { 0 }
    }

    /// The value after `k` decrements from `n`.
    pub open spec fn after_decrements(n: usize, k: nat) -> usize
        decreases k,
    {
        if k == 0 {
            n
        } else {
            Self::decremented(Self::after_decrements(n, (k - 1) as nat))
        }
    }

    /// Counting down `k` times from `n` gives `n - k`, and stays at zero
    /// once there.
    pub proof fn lemma_count_down(n: usize, k: nat)
        ensures
            k <= n ==> Self::after_decrements(n, k) == n - k,
            k >= n ==> Self::after_decrements(n, k) == 0,
        decreases k,
    {
        if k > 0 {
            Self::lemma_count_down(n, (k - 1) as nat);
        }
    }

    /// True if the counter has reached 0.
    pub fn is_zero(&self) -> (z: bool)
        ensures
            z == (self.0 == 0),
    {
        self.0 == 0
    }

    /// Reduce the count by 1 if non-zero.
    pub fn decr(self) -> (r: Self)
        ensures
            r.0 == Self::decremented(self.0),
    {
        if self.0 > 0 {
            Counter(self.0 - 1)
        } else {
            self
        }
    }
}

} // verus!
