//! Which collection indices should be resident around the shown image, and
//! in which order they should be loaded.
use vstd::prelude::*;

verus! {

/// `v` clamped into `[lo, hi]` (for `lo <= hi`).
pub open spec fn clamp(v: int, lo: int, hi: int) -> int {
    if v < lo {
        lo
    } else if v > hi {
        hi
    } else {
        v
    }
}

pub open spec fn min_int(a: int, b: int) -> int {
    if a <= b { a } else { b }
}

pub open spec fn max_int(a: int, b: int) -> int {
    if a >= b { a } else { b }
}

pub open spec fn dist(a: int, b: int) -> int {
    if a >= b { a - b } else { b - a }
}

/// The indices of `[start, end]` by priority: first those at or ahead of
/// `pivot`, nearest first, then those behind it, nearest first.
pub open spec fn load_order(pivot: int, start: int, end: int) -> Seq<usize> {
    let a = max_int(start, pivot);
    let b = min_int(end, pivot - 1);
    let n_ahead = if a <= end { end - a + 1 } else { 0 };
    let n_behind = if start <= b { b - start + 1 } else { 0 };
    Seq::new(n_ahead as nat, |i: int| (a + i) as usize) + Seq::new(
        n_behind as nat,
        |i: int| (b - i) as usize,
    )
}

/// Configuration of the prefetch window.
///
/// Moving the shown index within `buffer_zone_count` of the pivot keeps the
/// pivot; the resident window reaches `load_behind_count` further behind and
/// `load_ahead_count` further ahead of the buffer zone.
pub struct ImageLoadingPolicy {
    pub buffer_zone_count: usize,
    pub load_behind_count: usize,
    pub load_ahead_count: usize,
}

impl ImageLoadingPolicy {
    pub open spec fn in_buffer_zone(&self, pivot: int, shown: int) -> bool {
        pivot - self.buffer_zone_count <= shown <= pivot + self.buffer_zone_count
    }

    /// The pivot after showing `shown`: kept inside the buffer zone, else reset.
    pub open spec fn next_pivot(&self, pivot: int, shown: int) -> int {
        if self.in_buffer_zone(pivot, shown) {
            pivot
        } else {
            shown
        }
    }

    pub open spec fn window_start(&self, pivot: int, n: int) -> int {
        clamp(pivot - self.buffer_zone_count - self.load_behind_count, 0, n - 1)
    }

    pub open spec fn window_end(&self, pivot: int, n: int) -> int {
        clamp(pivot + self.buffer_zone_count + self.load_ahead_count, 0, n - 1)
    }

    /// The resident indices around `pivot` in a collection of `n`, by priority.
    pub open spec fn resident(&self, pivot: int, n: int) -> Seq<usize> {
        load_order(pivot, self.window_start(pivot, n), self.window_end(pivot, n))
    }

    pub open spec fn max_count(&self) -> int {
        1 + 2 * self.buffer_zone_count + self.load_behind_count + self.load_ahead_count
    }

    pub fn new(buffer_zone_count: usize, load_behind_count: usize, load_ahead_count: usize) -> (r:
        ImageLoadingPolicy)
        ensures
            r.buffer_zone_count == buffer_zone_count,
            r.load_behind_count == load_behind_count,
            r.load_ahead_count == load_ahead_count,
    {
        ImageLoadingPolicy { buffer_zone_count, load_behind_count, load_ahead_count }
    }

    /// The largest number of indices that can be resident at once.
    pub fn max_loaded_image_count(&self) -> (r: usize)
        requires
            self.max_count() <= usize::MAX,
        ensures
            r == self.max_count(),
    {
        1 + self.buffer_zone_count * 2 + self.load_behind_count + self.load_ahead_count
    }

    /// New pivot, and the indices to keep resident in order of priority.
    pub fn get_load_set(&self, pivot: usize, shown_idx: usize, max: usize) -> (r: (usize, Vec<usize>))
        requires
            max > 0,
        ensures
            r.0 == self.next_pivot(pivot as int, shown_idx as int),
            r.1@ == self.resident(r.0 as int, max as int),
    {
        let (lo, hi) = self.buffer_zone_range(pivot);
        if lo <= shown_idx && shown_idx <= hi {
            (pivot, self.load_set_around_pivot(pivot, max))
        } else {
            (shown_idx, self.load_set_around_pivot(shown_idx, max))
        }
    }

    /// The buffer zone around `pivot`, cut to the range of `usize`.
    pub fn buffer_zone_range(&self, pivot: usize) -> (r: (usize, usize))
        ensures
            r.0 == max_int(0, pivot - self.buffer_zone_count),
            r.1 == min_int(usize::MAX as int, pivot + self.buffer_zone_count),
    {
        let bz = self.buffer_zone_count;
        let start = if pivot >= bz {
            pivot - bz
        } else {
            0
        };
        let end = if bz <= usize::MAX - pivot {
            pivot + bz
        } else {
            usize::MAX
        };
        (start, end)
    }

    /// The resident indices around `pivot` in a collection of `max`, by priority.
    pub fn load_set_around_pivot(&self, pivot: usize, max: usize) -> (r: Vec<usize>)
        requires
            max > 0,
        ensures
            r@ == self.resident(pivot as int, max as int),
    {
        let bz = self.buffer_zone_count;
        let behind = self.load_behind_count;
        let ahead = self.load_ahead_count;
        let last = max - 1;
        let mut start: usize = if pivot <= bz {
            0
        } else if pivot - bz <= behind {
            0
        } else {
            pivot - bz - behind
        };
        if start > last {
            start = last;
        }
        let end: usize = if pivot >= last {
            last
        } else if bz >= last - pivot {
            last
        } else if ahead >= last - pivot - bz {
            last
        } else {
            pivot + bz + ahead
        };
        assert(start == self.window_start(pivot as int, max as int));
        assert(end == self.window_end(pivot as int, max as int));
        let first_ahead: usize = if start > pivot {
            start
        } else {
            pivot
        };
        let mut idxs: Vec<usize> = Vec::new();
        let mut i: usize = first_ahead;
        if first_ahead <= end {
            while i <= end
                invariant
                    first_ahead <= i <= end + 1,
                    end < max,
                    idxs@.len() == i - first_ahead,
                    forall|k: int| 0 <= k < idxs@.len() ==> idxs@[k] == first_ahead + k,
                decreases end + 1 - i,
            {
                idxs.push(i);
                i = i + 1;
            }
        }
        let n_ahead = idxs.len();
        let top: usize = if end < pivot {
            end + 1
        } else {
            pivot
        };
        let mut j: usize = top;
        while j > start
            invariant
                start <= j <= top,
                top <= pivot,
                idxs@.len() == n_ahead + (top - j),
                forall|k: int| 0 <= k < n_ahead ==> idxs@[k] == first_ahead + k,
                forall|k: int| n_ahead <= k < idxs@.len() ==> idxs@[k] == top - 1 - (k - n_ahead),
            decreases j,
        {
            j = j - 1;
            idxs.push(j);
        }
        assert(idxs@ =~= self.resident(pivot as int, max as int));
        idxs
    }
}

/// The resident set always holds the shown index, and never more indices
/// than `max_count`.
pub proof fn lemma_resident_contains_shown(
    policy: ImageLoadingPolicy,
    pivot: int,
    shown: int,
    n: int,
)
    requires
        0 <= pivot,
        0 <= shown < n <= usize::MAX,
    ensures
        policy.resident(policy.next_pivot(pivot, shown), n).contains(shown as usize),
        policy.resident(policy.next_pivot(pivot, shown), n).len() <= policy.max_count(),
{
    let p = policy.next_pivot(pivot, shown);
    let start = policy.window_start(p, n);
    let end = policy.window_end(p, n);
    let r = policy.resident(p, n);
    let a = max_int(start, p);
    let b = min_int(end, p - 1);
    let n_ahead = if a <= end { end - a + 1 } else { 0 };
    assert(start <= shown <= end);
    if shown >= p {
        assert(r[shown - a] == shown as usize);
    } else {
        assert(r[n_ahead + (b - shown)] == shown as usize);
    }
}

/// Indices at or ahead of the pivot come before those behind it, and on one
/// side an index nearer to the pivot comes before a farther one.
pub proof fn lemma_resident_priority(policy: ImageLoadingPolicy, pivot: int, n: int, i: int, j: int)
    requires
        0 <= pivot,
        0 < n <= usize::MAX,
        0 <= i < policy.resident(pivot, n).len(),
        0 <= j < policy.resident(pivot, n).len(),
    ensures
        ({
            let r = policy.resident(pivot, n);
            &&& (r[i] >= pivot && r[j] < pivot) ==> i < j
            &&& ((r[i] >= pivot) == (r[j] >= pivot) && dist(r[i] as int, pivot) < dist(
                r[j] as int,
                pivot,
            )) ==> i < j
        }),
{
}

impl ImageLoadingPolicy {
    /// The pivot after a sequence of calls showing `shown[0]`, `shown[1]`, ...
    pub open spec fn pivot_after(&self, pivot: int, shown: Seq<int>) -> int
        decreases shown.len(),
    {
        if shown.len() == 0 {
            pivot
        } else {
            self.pivot_after(self.next_pivot(pivot, shown[0]), shown.drop_first())
        }
    }
}

/// While every shown index stays inside the buffer zone, the pivot never moves.
pub proof fn lemma_pivot_stable(policy: ImageLoadingPolicy, pivot: int, shown: Seq<int>)
    requires
        forall|k: int| 0 <= k < shown.len() ==> policy.in_buffer_zone(pivot, #[trigger] shown[k]),
    ensures
        policy.pivot_after(pivot, shown) == pivot,
    decreases shown.len(),
{
    if shown.len() > 0 {
        assert(policy.in_buffer_zone(pivot, shown[0]));
        let rest = shown.drop_first();
        assert forall|k: int| 0 <= k < rest.len() implies policy.in_buffer_zone(
            pivot,
            #[trigger] rest[k],
        ) by {
            assert(rest[k] == shown[k + 1]);
        }
        lemma_pivot_stable(policy, pivot, rest);
    }
}

/// Every resident index lies in the collection, and none occurs twice.
pub proof fn lemma_resident_in_range(policy: ImageLoadingPolicy, pivot: int, n: int)
    requires
        0 <= pivot,
        0 < n <= usize::MAX,
    ensures
        forall|i: int|
            0 <= i < policy.resident(pivot, n).len() ==> #[trigger] policy.resident(pivot, n)[i] < n,
        forall|i: int, j: int|
            0 <= i < j < policy.resident(pivot, n).len() ==> policy.resident(pivot, n)[i]
                != policy.resident(pivot, n)[j],
{
}

} // verus!
