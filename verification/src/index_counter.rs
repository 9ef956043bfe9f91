//! A modular index into a fixed-capacity buffer: it advances by one and
//! wraps to zero when it reaches the capacity.

use vstd::prelude::*;

verus! {

/// A cursor into a buffer of `max_size` slots. The index always stays
/// strictly below `max_size`.
pub struct IndexCounter {
    pub index: usize,
    pub max_size: usize,
}

/// The index one step after `i` in a buffer of `cap` slots: `i + 1`,
/// wrapped to `0` at the capacity.
pub open spec fn inc_spec(i: int, cap: int) -> int {
    if i + 1 >= cap {
        0
    } else {
        i + 1
    }
}

/// The index `n` steps after `i` in a buffer of `cap` slots.
pub open spec fn inc_n(i: int, cap: int, n: nat) -> int
    decreases n,
{
    if n == 0 {
        i
    } else {
        inc_spec(inc_n(i, cap, (n - 1) as nat), cap)
    }
}

impl IndexCounter {
    /// The counter is well formed when its index lies inside the buffer.
    pub open spec fn wf(self) -> bool {
        self.index < self.max_size
    }

    /// Advances the index by one, wrapping to zero at the capacity, and
    /// returns the unwrapped successor of the old index.
    pub fn increment(&mut self) -> (r: usize)
        requires
            old(self).wf(),
        ensures
            final(self).wf(),
            final(self).max_size == old(self).max_size,
            r == old(self).index + 1,
            final(self).index == inc_spec(old(self).index as int, old(self).max_size as int),
    {
        let next_val = self.index + 1;
        if next_val >= self.max_size {
            self.index = 0;
        } else {
            self.index = next_val;
        }
        next_val
    }
}

proof fn lemma_inc_n_adds(i: int, cap: int, n: nat)
    requires
        0 <= i < cap,
        n <= cap,
    ensures
        inc_n(i, cap, n) == if i + n < cap {
            i + n
        } else {
            i + n - cap
        },
    decreases n,
{
    if n > 0 {
        lemma_inc_n_adds(i, cap, (n - 1) as nat);
    }
}

/// Cyclic law: a counter over `cap` slots that is incremented `cap` times
/// returns to its initial index.
pub proof fn lemma_increment_cycles(i: int, cap: int)
    requires
        0 <= i < cap,
    ensures
        inc_n(i, cap, cap as nat) == i,
{
    lemma_inc_n_adds(i, cap, cap as nat);
}

} // verus!
