//! Finding the first run of pairwise-distinct characters in a signal.

use vstd::prelude::*;

verus! {

/// All bytes of the window differ from one another.
pub open spec fn all_distinct(w: Seq<u8>) -> bool {
    forall|i: int, j: int| 0 <= i < j < w.len() ==> w[i] != w[j]
}

fn window_distinct(s: &[u8], a: usize, b: usize) -> (r: bool)
    requires
        a <= b <= s@.len(),
    ensures
        r == all_distinct(s@.subrange(a as int, b as int)),
{
    let ghost w = s@.subrange(a as int, b as int);
    let mut i: usize = a;
    while i < b
        invariant
            a <= i <= b <= s@.len(),
            w == s@.subrange(a as int, b as int),
            forall|i0: int, j0: int| 0 <= i0 < j0 < w.len() && i0 < i - a ==> #[trigger] w[i0] != #[trigger] w[j0],
        decreases b - i,
    {
        let mut j: usize = i + 1;
        while j < b
            invariant
                a <= i < j <= b <= s@.len(),
                w == s@.subrange(a as int, b as int),
                forall|j0: int| i - a < j0 < j - a ==> w[i - a] != #[trigger] w[j0],
            decreases b - j,
        {
            if s[i] == s[j] {
                proof {
                    assert(w[i - a] == s@[i as int]);
                    assert(w[j - a] == s@[j as int]);
                }
                return false;
            }
            j = j + 1;
        }
        i = i + 1;
    }
    true
}

/// The position just after the first window of `marker_size` pairwise
/// distinct bytes, scanning from the left; `None` when no window qualifies.
pub fn find_marker_position(s: &[u8], marker_size: usize) -> (r: Option<usize>)
    requires
        marker_size >= 1,
    ensures
        match r {
            Some(p) => {
                &&& marker_size <= p <= s@.len()
                &&& all_distinct(s@.subrange(p - marker_size, p as int))
                &&& forall|q: int|
                    marker_size <= q < p ==> !#[trigger] all_distinct(s@.subrange(q - marker_size, q))
            },
            None => forall|q: int|
                marker_size <= q <= s@.len() ==> !#[trigger] all_distinct(
                    s@.subrange(q - marker_size, q),
                ),
        },
{
    let n = s.len();
    if n < marker_size {
        return None;
    }
    let mut start: usize = 0;
    while start <= n - marker_size
        invariant
            marker_size >= 1,
            marker_size <= n == s@.len(),
            start <= n - marker_size + 1,
            forall|q: int|
                marker_size <= q < start + marker_size ==> !#[trigger] all_distinct(
                    s@.subrange(q - marker_size, q),
                ),
        decreases n - start,
    {
        if window_distinct(s, start, start + marker_size) {
            return Some(start + marker_size);
        }
        start = start + 1;
    }
    None
}

} // verus!
