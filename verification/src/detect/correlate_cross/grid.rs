//! Counting over the last half to full window, on a grid of half windows.

use vstd::prelude::*;

verus! {

/// One more, cut off at the largest `u32`.
pub open spec fn one_more(n: u32) -> u32 {
    if n == u32::MAX {
        n
    } else {
        (n + 1) as u32
    }
}

/// The sum, cut off at the largest `u32`.
pub open spec fn count_sum(a: u32, b: u32) -> u32 {
    if a + b > u32::MAX {
        u32::MAX
    } else {
        (a + b) as u32
    }
}

/// Count over the last half-to-full window. A bucket is half a window; the counts of bucket `idx`
/// and of the one before it are kept.
#[derive(Debug, Clone, Copy, PartialEq, Eq, Structural)]
pub struct HalfWindowCount {
    pub idx: u64,
    pub cur: u32,
    pub prev: u32,
}

impl HalfWindowCount {
    /// The count before anything was counted.
    pub open spec fn zero() -> HalfWindowCount {
        HalfWindowCount { idx: 0, cur: 0, prev: 0 }
    }

    /// What was counted in a bucket, as far as it is kept.
    pub open spec fn bucket(self, b: int) -> u32 {
        if b == self.idx {
            self.cur
        } else if b + 1 == self.idx {
            self.prev
        } else {
            0
        }
    }

    /// What was counted in the current bucket and the one before it.
    pub open spec fn in_window(self, now_idx: u64) -> u32 {
        if now_idx <= self.idx {
            count_sum(self.prev, self.cur)
        } else if now_idx == self.idx + 1 {
            self.cur
        } else {
            0
        }
    }

    /// The count after one more in bucket `idx`; one older than the kept buckets is dropped.
    pub open spec fn counted(self, idx: u64) -> HalfWindowCount {
        if idx + 1 == self.idx {
            HalfWindowCount { prev: one_more(self.prev), ..self }
        } else if idx < self.idx {
            self
        } else if idx == self.idx {
            HalfWindowCount { cur: one_more(self.cur), ..self }
        } else {
            HalfWindowCount {
                idx,
                cur: 1,
                prev: if idx == self.idx + 1 {
                    self.cur
                } else {
                    0
                },
            }
        }
    }

    /// The count in the window that ends in bucket `now_idx`.
    pub fn total(&self, now_idx: u64) -> (r: u32)
        ensures
            r == self.in_window(now_idx),
    {
        if now_idx <= self.idx {
            self.prev.saturating_add(self.cur)
        } else if now_idx - self.idx == 1 {
            self.cur
        } else {
            0
        }
    }

    /// Count one in bucket `idx`; buckets older than the previous one are dropped.
    pub fn add_at(&mut self, idx: u64)
        ensures
            *final(self) == old(self).counted(idx),
    {
        if idx < self.idx {
            if self.idx - idx == 1 {
                self.prev = self.prev.saturating_add(1);
            }
            return;
        }
        if idx != self.idx {
            self.prev = if idx - self.idx == 1 {
                self.cur
            } else {
                0
            };
            self.cur = 0;
            self.idx = idx;
        }
        self.cur = self.cur.saturating_add(1);
    }
}

impl Default for HalfWindowCount {
    fn default() -> (r: Self)
        ensures
            r == HalfWindowCount::zero(),
    {
        HalfWindowCount { idx: 0, cur: 0, prev: 0 }
    }
}

/// Counting changes the bucket it is for and no other one that is kept afterwards.
pub proof fn law_count_lands_in_its_bucket(c: HalfWindowCount, idx: u64, b: int)
    requires
        b >= c.counted(idx).idx - 1,
    ensures
        c.counted(idx).bucket(b) == (if b == idx {
            one_more(c.bucket(b))
        } else {
            c.bucket(b)
        }),
{
}

/// The count of a window is that of its two buckets: nothing older is in it.
pub proof fn law_window_is_its_two_buckets(c: HalfWindowCount, now_idx: u64)
    requires
        c.idx <= now_idx,
    ensures
        c.in_window(now_idx) == count_sum(
            c.bucket(now_idx - 1),
            c.bucket(now_idx as int),
        ),
{
}

/// What is counted shows in the window of its bucket and in the next one, and in none after it. One
/// more in the current bucket is one more in the window, short of the largest count.
pub proof fn law_counts_last_for_a_window(c: HalfWindowCount, idx: u64)
    requires
        c.idx <= idx,
        idx < u64::MAX - 1,
        c.in_window(idx) < u32::MAX,
    ensures
        c.counted(idx).in_window(idx) == c.in_window(idx) + 1,
        c.counted(idx).in_window((idx + 1) as u64) == c.in_window((idx + 1) as u64) + 1,
        c.counted(idx).in_window((idx + 2) as u64) == 0,
        c.in_window((idx + 1) as u64) <= c.in_window(idx),
        c.in_window((idx + 2) as u64) == 0,
        HalfWindowCount::zero().in_window(idx) == 0,
{
}

/// A count for the bucket before the current one shows in the window as well, an older one does not.
pub proof fn law_late_counts_go_to_their_own_bucket(c: HalfWindowCount, idx: u64)
    requires
        idx < c.idx,
        c.in_window(c.idx) < u32::MAX,
    ensures
        c.counted(idx).in_window(c.idx) == c.in_window(c.idx) + (if idx + 1 == c.idx {
            1int
        } else {
            0int
        }),
        c.counted(idx).idx == c.idx,
        c.idx < u64::MAX ==> c.counted(idx).in_window((c.idx + 1) as u64) == c.in_window(
            (c.idx + 1) as u64,
        ),
{
}

} // verus!
