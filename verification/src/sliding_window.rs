//! A lazy, single-pass sliding window over a borrowed slice.
//!
//! Each call to [`SlidingWindow::next`] yields the current window contents
//! together with a tag describing how the window just changed shape: it grows
//! one element at a time until it reaches its capacity (`Expanded`), then
//! slides forward at fixed size (`Maintained`), and finally shrinks while the
//! tail of the input drains (`Shrinked`).

use vstd::prelude::*;
use vstd::slice::slice_subrange;

verus! {

/// How the window changed shape on the step that produced it.
#[derive(Debug, PartialEq, Eq, Structural, Clone, Copy)]
pub enum SlidingWindowState {
    Expanded,
    Maintained,
    Shrinked,
}

/// One transition of the window shape, as a pure function of the remaining
/// input length, the current window size, and the capacity. Returns the tag
/// of the step together with the new remaining length and the new window
/// size; the window slides forward by one element exactly when the remaining
/// length decreases. `None` means the sequence of windows has ended.
pub open spec fn spec_window_step(rem: int, size: int, cap: int) -> Option<(SlidingWindowState, int, int)> {
    if (rem == 0 && size == 0) || cap == 0 {
        None
    } else if size < rem && size < cap {
        Some((SlidingWindowState::Expanded, rem, size + 1))
    } else if cap < rem && size == cap {
        Some((SlidingWindowState::Maintained, rem - 1, size))
    } else if size == rem && rem > 1 {
        Some((SlidingWindowState::Shrinked, rem - 1, size - 1))
    } else {
        None
    }
}

/// A finite, non-restartable producer of window snapshots over `v`.
pub struct SlidingWindow<'a, T> {
    v: &'a [T],
    size: usize,
    capacity: usize,
}

impl<'a, T> SlidingWindow<'a, T> {
    /// The input elements not yet slid past, of which the first
    /// `window_size()` form the current window.
    pub closed spec fn remaining(&self) -> Seq<T> {
        self.v@
    }

    /// Current window length.
    pub closed spec fn window_size(&self) -> int {
        self.size as int
    }

    /// Configured fixed capacity the window grows up to.
    pub closed spec fn capacity(&self) -> int {
        self.capacity as int
    }

    pub fn new(slice: &'a [T], capacity: usize) -> (w: Self)
        ensures
            w.remaining() == slice@,
            w.window_size() == 0,
            w.capacity() == capacity,
    {
        SlidingWindow { v: slice, size: 0, capacity }
    }

    /// Performs one window transition, exactly as [`spec_window_step`]
    /// describes it, and returns the new window contents with the tag of the
    /// step taken; returns `None`, changing nothing, once the sequence ends.
    pub fn next(&mut self) -> (r: Option<(&'a [T], SlidingWindowState)>)
        ensures
            final(self).capacity() == old(self).capacity(),
            match spec_window_step(old(self).remaining().len() as int, old(self).window_size(), old(self).capacity()) {
                None => {
                    &&& r is None
                    &&& final(self).remaining() == old(self).remaining()
                    &&& final(self).window_size() == old(self).window_size()
                },
                Some((st, new_rem, new_size)) => {
                    &&& r matches Some(p)
                    &&& p.1 == st
                    &&& final(self).remaining() == old(self).remaining().skip(old(self).remaining().len() - new_rem)
                    &&& final(self).window_size() == new_size
                    &&& p.0@ == final(self).remaining().take(new_size)
                },
            },
    {
        if (self.v.len() == 0 && self.size == 0) || self.capacity == 0 {
            return None;
        }
        let state: SlidingWindowState;
        if self.size < self.v.len() && self.size < self.capacity {
            state = SlidingWindowState::Expanded;
            self.size = self.size + 1;
        } else if self.capacity < self.v.len() && self.size == self.capacity {
            state = SlidingWindowState::Maintained;
            self.v = slice_subrange(self.v, 1, self.v.len());
        } else if self.size == self.v.len() && self.v.len() > 1 {
            state = SlidingWindowState::Shrinked;
            self.size = self.size - 1;
            self.v = slice_subrange(self.v, 1, self.v.len());
        } else {
            return None;
        }
        let window = slice_subrange(self.v, 0, self.size);
        proof {
            assert(self.remaining() =~= old(self).remaining().skip(old(self).remaining().len() - self.v@.len()));
            assert(window@ =~= self.remaining().take(self.size as int));
        }
        Some((window, state))
    }
}

/// The whole sequence of state tags the window passes through, from a fresh
/// window over an input of length `n`, iterating [`spec_window_step`] until
/// it ends; the fuel is any bound above the number of steps taken.
pub open spec fn spec_window_states_from(rem: int, size: int, cap: int, fuel: nat) -> Seq<SlidingWindowState>
    decreases fuel,
{
    if fuel == 0 {
        Seq::empty()
    } else {
        match spec_window_step(rem, size, cap) {
            None => Seq::empty(),
            Some((st, new_rem, new_size)) => seq![st] + spec_window_states_from(new_rem, new_size, cap, (fuel - 1) as nat),
        }
    }
}

/// The state tags of a window of capacity `cap` driven over an input of
/// length `n` until its sequence ends.
pub open spec fn spec_window_states(n: int, cap: int) -> Seq<SlidingWindowState> {
    spec_window_states_from(n, 0, cap, (2 * n + 2) as nat)
}

/// How many steps the window takes in all over an input of length `n`.
pub open spec fn spec_window_total(n: int, cap: int) -> int {
    if n <= 0 || cap <= 0 {
        0
    } else if n == 1 {
        1
    } else {
        n + (if n < cap { n } else { cap }) - 1
    }
}

/// Remaining input length before the step with index `k`.
spec fn spec_adv_rem(n: int, cap: int, k: int) -> int {
    let m = if n < cap { n } else { cap };
    n - (if k - m > 0 { k - m } else { 0 })
}

/// Window size before the step with index `k`.
spec fn spec_adv_size(n: int, cap: int, k: int) -> int {
    let m = if n < cap { n } else { cap };
    (if k < m { k } else { m }) - (if k - n > 0 { k - n } else { 0 })
}

/// From the state reached after `k` steps, the remaining steps follow the
/// closed form: the rest of the first `min(n, cap)` steps expand, steps up
/// to `n` maintain, and the final `min(n, cap) - 1` steps shrink.
proof fn lemma_window_states_suffix(n: int, cap: int, k: int, fuel: nat)
    requires
        n >= 2,
        cap >= 1,
        0 <= k <= spec_window_total(n, cap),
        fuel >= spec_window_total(n, cap) - k,
    ensures
        ({
            let ss = spec_window_states_from(spec_adv_rem(n, cap, k), spec_adv_size(n, cap, k), cap, fuel);
            let m = if n < cap { n } else { cap };
            &&& ss.len() == spec_window_total(n, cap) - k
            &&& forall|j: int| 0 <= j < ss.len() ==> #[trigger] ss[j]
                    == (if k + j < m { SlidingWindowState::Expanded }
                        else if k + j < n { SlidingWindowState::Maintained }
                        else { SlidingWindowState::Shrinked })
        }),
    decreases spec_window_total(n, cap) - k,
{
    let total = spec_window_total(n, cap);
    let m = if n < cap { n } else { cap };
    let rem = spec_adv_rem(n, cap, k);
    let size = spec_adv_size(n, cap, k);
    if k == total {
        assert(rem == 1 && size == 1);
        assert(spec_window_step(rem, size, cap) is None);
    } else {
        let st = if k < m { SlidingWindowState::Expanded }
            else if k < n { SlidingWindowState::Maintained }
            else { SlidingWindowState::Shrinked };
        assert(spec_window_step(rem, size, cap)
            == Some((st, spec_adv_rem(n, cap, k + 1), spec_adv_size(n, cap, k + 1))));
        lemma_window_states_suffix(n, cap, k + 1, (fuel - 1) as nat);
        let ss = spec_window_states_from(rem, size, cap, fuel);
        let rest = spec_window_states_from(spec_adv_rem(n, cap, k + 1), spec_adv_size(n, cap, k + 1), cap, (fuel - 1) as nat);
        assert(ss == seq![st] + rest);
        assert forall|j: int| 0 <= j < ss.len() implies #[trigger] ss[j]
                == (if k + j < m { SlidingWindowState::Expanded }
                    else if k + j < n { SlidingWindowState::Maintained }
                    else { SlidingWindowState::Shrinked }) by {
            if j > 0 {
                assert(ss[j] == rest[j - 1]);
            }
        }
    }
}

/// Window-state law: over an input of length `n`, the window takes
/// [`spec_window_total`] steps in all; the first `min(n, cap)` of them are
/// `Expanded`, the last `min(n, cap) - 1` of them are `Shrinked`, and every
/// step in between is `Maintained`.
pub proof fn lemma_window_state_correctness(n: int, cap: int)
    requires
        0 <= n,
        0 <= cap,
    ensures
        ({
            let ss = spec_window_states(n, cap);
            let m = if n < cap { n } else { cap };
            &&& ss.len() == spec_window_total(n, cap)
            &&& forall|k: int| 0 <= k < m ==> #[trigger] ss[k] == SlidingWindowState::Expanded
            &&& forall|k: int| m <= k < n && k < ss.len() ==> #[trigger] ss[k] == SlidingWindowState::Maintained
            &&& forall|k: int| n <= k < ss.len() ==> #[trigger] ss[k] == SlidingWindowState::Shrinked
        }),
{
    if n == 0 || cap == 0 {
        assert(spec_window_step(n, 0, cap) is None);
        assert(spec_window_states(n, cap) =~= Seq::<SlidingWindowState>::empty());
    } else if n == 1 {
        assert(spec_window_step(1, 0, cap) == Some((SlidingWindowState::Expanded, 1int, 1int)));
        assert(spec_window_step(1, 1, cap) is None);
        assert(spec_window_states_from(1, 1, cap, 3) =~= Seq::<SlidingWindowState>::empty());
        assert(spec_window_states(n, cap) =~= seq![SlidingWindowState::Expanded]);
    } else {
        lemma_window_states_suffix(n, cap, 0, (2 * n + 2) as nat);
        assert(spec_adv_rem(n, cap, 0) == n && spec_adv_size(n, cap, 0) == 0);
    }
}

} // verus!
