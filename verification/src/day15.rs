//! Sensor coverage over a grid of integer positions.
//!
//! Each sensor detects everything within a fixed Manhattan-distance radius of
//! its position.  For a fixed row, the covered positions of one sensor form a
//! closed interval; subtracting every sensor's interval from the full row
//! leaves the positions no sensor can see.  Scanning the rows of a bounded
//! square for the first uncovered position locates the hidden beacon.

use vstd::prelude::*;

verus! {

/// A position in the plane, as `(x, y)`.
pub type Coord = (isize, isize);

/// Absolute value of a mathematical integer.
pub open spec fn abs(x: int) -> int {
    if x < 0 {
        -x
    } else {
        x
    }
}

/// Manhattan distance between two positions, as a mathematical integer.
pub open spec fn spec_manhattan(a: Coord, b: Coord) -> int {
    abs(a.0 - b.0) + abs(a.1 - b.1)
}

/// Manhattan distance between two positions.
pub fn manhattan_distance(a: Coord, b: Coord) -> (r: isize)
    requires
        spec_manhattan(a, b) <= isize::MAX,
    ensures
        r == spec_manhattan(a, b),
{
    let dx = if a.0 >= b.0 {
        a.0 - b.0
    } else {
        b.0 - a.0
    };
    let dy = if a.1 >= b.1 {
        a.1 - b.1
    } else {
        b.1 - a.1
    };
    dx + dy
}

/// A sensor, its nearest beacon, and the derived detection radius.
#[derive(Clone, Copy, Debug)]
pub struct Sensor {
    pub position: Coord,
    pub closest_beacon: Coord,
    pub usable_range: isize,
}

impl Sensor {
    /// The radius really is the Manhattan distance to the nearest beacon.
    pub open spec fn wf(self) -> bool {
        self.usable_range == spec_manhattan(self.position, self.closest_beacon)
    }

    /// All the arithmetic on this sensor's coordinates stays within `isize`.
    pub open spec fn fits(self) -> bool {
        &&& self.position.0 - self.usable_range >= isize::MIN
        &&& self.position.0 + self.usable_range <= isize::MAX
        &&& self.position.1 - self.usable_range >= isize::MIN
        &&& self.position.1 + self.usable_range <= isize::MAX
    }

    /// Whether this sensor's disk contains the point `(x, y)`.
    pub open spec fn spec_covers(self, x: int, y: int) -> bool {
        abs(self.position.0 - x) + abs(self.position.1 - y) <= self.usable_range
    }

    pub fn new(position: Coord, closest_beacon: Coord) -> (s: Sensor)
        requires
            spec_manhattan(position, closest_beacon) <= isize::MAX,
        ensures
            s.position == position,
            s.closest_beacon == closest_beacon,
            s.wf(),
    {
        Sensor { position, closest_beacon, usable_range: manhattan_distance(position, closest_beacon) }
    }

    pub fn covers(&self, point: Coord) -> (r: bool)
        requires
            spec_manhattan(self.position, point) <= isize::MAX,
        ensures
            r == self.spec_covers(point.0 as int, point.1 as int),
    {
        manhattan_distance(self.position, point) <= self.usable_range
    }

    /// The interval of x positions this sensor covers on row `y`, if it
    /// reaches that row at all.
    pub fn range_for_row(&self, y: isize) -> (r: Option<Interval>)
        requires
            self.wf(),
            self.fits(),
            abs(self.position.1 - y) <= isize::MAX,
        ensures
            match r {
                Some(iv) => {
                    &&& abs(self.position.1 - y) <= self.usable_range
                    &&& iv.start == self.position.0 - (self.usable_range - abs(self.position.1 - y))
                    &&& iv.end == self.position.0 + (self.usable_range - abs(self.position.1 - y))
                    &&& iv.start <= iv.end
                },
                None => abs(self.position.1 - y) > self.usable_range,
            },
            forall|x: int| (match r {
                Some(iv) => contains(iv, x),
                None => false,
            }) <==> self.spec_covers(x, y as int),
    {
        let y_diff = if self.position.1 >= y {
            self.position.1 - y
        } else {
            y - self.position.1
        };
        if y_diff > self.usable_range {
            None
        } else {
            let remaining_distance = self.usable_range - y_diff;
            Some(Interval { start: self.position.0 - remaining_distance, end: self.position.0 + remaining_distance })
        }
    }
}

/// A closed interval `[start, end]` of x positions; empty when `start > end`.
#[derive(Clone, Copy, Debug, PartialEq, Eq, Structural)]
pub struct Interval {
    pub start: isize,
    pub end: isize,
}

/// Whether `x` lies in the closed interval `iv`.
pub open spec fn contains(iv: Interval, x: int) -> bool {
    iv.start <= x <= iv.end
}

/// The well-formedness invariant of an uncovered-interval list: every interval
/// is non-empty, and consecutive intervals are sorted and separated by at
/// least one missing position.
pub open spec fn wf_intervals(s: Seq<Interval>) -> bool {
    &&& forall|i: int| 0 <= i < s.len() ==> s[i].start <= s[i].end
    &&& forall|i: int| 0 <= i < s.len() - 1 ==> s[i].end + 1 < s[i + 1].start
}

/// Whether `x` lies in some interval of the list.
pub open spec fn covered_by(s: Seq<Interval>, x: int) -> bool {
    exists|i: int| 0 <= i < s.len() && contains(s[i], x)
}

/// `b` covers exactly what `a` covers outside of `range`.
pub open spec fn covers_minus(a: Seq<Interval>, b: Seq<Interval>, range: Interval) -> bool {
    forall|x: int|
        #![trigger covered_by(b, x)]
        #![trigger covered_by(a, x)]
        covered_by(b, x) <==> covered_by(a, x) && !contains(range, x)
}

proof fn lemma_covers_minus_intro(a: Seq<Interval>, b: Seq<Interval>, range: Interval)
    requires
        forall|x: int|
            #![trigger covered_by(b, x)]
            #![trigger covered_by(a, x)]
            covered_by(b, x) <==> covered_by(a, x) && !contains(range, x),
    ensures
        covers_minus(a, b, range),
{
}

proof fn lemma_covers_minus_elim(a: Seq<Interval>, b: Seq<Interval>, range: Interval, x: int)
    requires
        covers_minus(a, b, range),
    ensures
        covered_by(b, x) <==> covered_by(a, x) && !contains(range, x),
{
}

proof fn lemma_covered_push(s: Seq<Interval>, iv: Interval, x: int)
    ensures
        covered_by(s.push(iv), x) <==> covered_by(s, x) || contains(iv, x),
{
    if covered_by(s.push(iv), x) {
        let i = choose|i: int| 0 <= i < s.push(iv).len() && contains(s.push(iv)[i], x);
        if i < s.len() {
            assert(contains(s[i], x));
        } else {
            assert(contains(iv, x));
        }
    }
    if covered_by(s, x) {
        let i = choose|i: int| 0 <= i < s.len() && contains(s[i], x);
        assert(contains(s.push(iv)[i], x));
    }
    if contains(iv, x) {
        assert(contains(s.push(iv)[s.len() as int], x));
    }
}

proof fn lemma_wf_starts(s: Seq<Interval>, i: int, j: int)
    requires
        wf_intervals(s),
        0 <= i <= j < s.len(),
    ensures
        s[i].start <= s[j].start,
        i < j ==> s[i].end + 1 < s[j].start,
    decreases j - i,
{
    if i < j {
        lemma_wf_starts(s, i, j - 1);
    }
}

/// Two well-formed interval lists that cover the same positions are the same
/// list: the invariant makes the representation canonical.
pub proof fn lemma_wf_canonical(a: Seq<Interval>, b: Seq<Interval>)
    requires
        wf_intervals(a),
        wf_intervals(b),
        forall|x: int| covered_by(a, x) <==> covered_by(b, x),
    ensures
        a =~= b,
    decreases a.len(),
{
    if a.len() == 0 && b.len() == 0 {
    } else if a.len() == 0 {
        assert(contains(b[0], b[0].start as int));
        assert(covered_by(b, b[0].start as int));
        assert(false);
    } else if b.len() == 0 {
        assert(contains(a[0], a[0].start as int));
        assert(covered_by(a, a[0].start as int));
        assert(false);
    } else {
        // equal first starts: each is the least covered position
        assert(contains(a[0], a[0].start as int));
        assert(covered_by(a, a[0].start as int));
        assert(contains(b[0], b[0].start as int));
        assert(covered_by(b, b[0].start as int));
        assert forall|x: int| covered_by(a, x) implies x >= a[0].start by {
            let i = choose|i: int| 0 <= i < a.len() && contains(a[i], x);
            lemma_wf_starts(a, 0, i);
        }
        assert forall|x: int| covered_by(b, x) implies x >= b[0].start by {
            let i = choose|i: int| 0 <= i < b.len() && contains(b[i], x);
            lemma_wf_starts(b, 0, i);
        }
        assert(a[0].start == b[0].start);
        // equal first ends: one past the shorter end would be covered on one
        // side only
        if a[0].end < b[0].end {
            let x = a[0].end + 1;
            assert(contains(b[0], x));
            assert(covered_by(b, x));
            let i = choose|i: int| 0 <= i < a.len() && contains(a[i], x);
            assert(i > 0);
            lemma_wf_starts(a, 0, i);
            assert(false);
        }
        if b[0].end < a[0].end {
            let x = b[0].end + 1;
            assert(contains(a[0], x));
            assert(covered_by(a, x));
            let i = choose|i: int| 0 <= i < b.len() && contains(b[i], x);
            assert(i > 0);
            lemma_wf_starts(b, 0, i);
            assert(false);
        }
        assert(a[0] == b[0]);
        // the tails cover the same positions; recurse
        let at = a.subrange(1, a.len() as int);
        let bt = b.subrange(1, b.len() as int);
        assert forall|x: int| covered_by(at, x) <==> covered_by(a, x) && x > a[0].end by {
            if covered_by(at, x) {
                let i = choose|i: int| 0 <= i < at.len() && contains(at[i], x);
                assert(contains(a[i + 1], x));
                lemma_wf_starts(a, 0, i + 1);
            }
            if covered_by(a, x) && x > a[0].end {
                let i = choose|i: int| 0 <= i < a.len() && contains(a[i], x);
                assert(i > 0);
                assert(contains(at[i - 1], x));
            }
        }
        assert forall|x: int| covered_by(bt, x) <==> covered_by(b, x) && x > b[0].end by {
            if covered_by(bt, x) {
                let i = choose|i: int| 0 <= i < bt.len() && contains(bt[i], x);
                assert(contains(b[i + 1], x));
                lemma_wf_starts(b, 0, i + 1);
            }
            if covered_by(b, x) && x > b[0].end {
                let i = choose|i: int| 0 <= i < b.len() && contains(b[i], x);
                assert(i > 0);
                assert(contains(bt[i - 1], x));
            }
        }
        lemma_wf_canonical(at, bt);
        assert(at == bt);
        assert forall|i: int| 0 <= i < a.len() implies a[i] == b[i] by {
            if i > 0 {
                assert(a[i] == at[i - 1]);
                assert(b[i] == bt[i - 1]);
            }
        }
        assert(a =~= b);
    }
}

/// Subtracting the same interval twice yields the same interval list as
/// subtracting it once, for any well-formed results of the two subtractions.
pub proof fn lemma_remove_range_idempotent(
    row0: Seq<Interval>,
    row1: Seq<Interval>,
    row2: Seq<Interval>,
    range: Interval,
)
    requires
        wf_intervals(row1),
        wf_intervals(row2),
        covers_minus(row0, row1, range),
        covers_minus(row1, row2, range),
    ensures
        row1 =~= row2,
{
    assert forall|x: int| covered_by(row1, x) <==> covered_by(row2, x) by {
        lemma_covers_minus_elim(row0, row1, range, x);
        lemma_covers_minus_elim(row1, row2, range, x);
    }
    lemma_wf_canonical(row1, row2);
}

/// Subtracts the closed interval `range` from the list `row` of disjoint
/// intervals: afterwards the list covers exactly the positions it covered
/// before, minus those of `range`.  An empty `range` leaves `row` unchanged.
#[verifier::rlimit(50)]
pub fn remove_range(row: &mut Vec<Interval>, range: Interval)
    requires
        wf_intervals(old(row)@),
    ensures
        wf_intervals(final(row)@),
        covers_minus(old(row)@, final(row)@, range),
        range.start > range.end ==> final(row)@ == old(row)@,
{
    if range.start > range.end {
        proof {
            assert forall|x: int|
                covered_by(row@, x) <==> covered_by(row@, x) && !contains(range, x) by {}
            assert(covers_minus(row@, row@, range));
        }
        return ;
    }
    let mut out: Vec<Interval> = Vec::new();
    let n = row.len();
    let mut j: usize = 0;
    while j < n
        invariant
            wf_intervals(row@),
            range.start <= range.end,
            n == row@.len(),
            j <= n,
            wf_intervals(out@),
            covers_minus(row@.take(j as int), out@, range),
            out@.len() > 0 && j < n ==> out@.last().end + 1 < row@[j as int].start,
        decreases n - j,
    {
        let r = row[j];
        let ghost prev = out@;
        if r.end < range.start || r.start > range.end {
            // untouched: no overlap with the removed range
            out.push(r);
        } else {
            if r.start < range.start {
                // the part of `r` before the removed range survives
                out.push(Interval { start: r.start, end: range.start - 1 });
            }
            if r.end > range.end {
                // the part of `r` after the removed range survives
                out.push(Interval { start: range.end + 1, end: r.end });
            }
        }
        proof {
            assert(row@.take(j as int + 1) =~= row@.take(j as int).push(r));
            let left = Interval { start: r.start, end: (range.start - 1) as isize };
            let right = Interval { start: (range.end + 1) as isize, end: r.end };
            assert forall|x: int|
                covered_by(out@, x) <==> covered_by(prev, x) || (contains(r, x) && !contains(
                    range,
                    x,
                )) by {
                if r.end < range.start || r.start > range.end {
                    lemma_covered_push(prev, r, x);
                } else if r.start < range.start && r.end > range.end {
                    lemma_covered_push(prev, left, x);
                    lemma_covered_push(prev.push(left), right, x);
                } else if r.start < range.start {
                    lemma_covered_push(prev, left, x);
                } else if r.end > range.end {
                    lemma_covered_push(prev, right, x);
                }
            }
            assert forall|x: int|
                #![trigger covered_by(out@, x)]
                #![trigger covered_by(row@.take(j as int + 1), x)]
                covered_by(out@, x) <==> covered_by(row@.take(j as int + 1), x) && !contains(
                    range,
                    x,
                ) by {
                lemma_covered_push(row@.take(j as int), r, x);
                assert(covered_by(out@, x) <==> covered_by(prev, x) || (contains(r, x)
                    && !contains(range, x)));
                assert(covered_by(prev, x) <==> covered_by(row@.take(j as int), x) && !contains(
                    range,
                    x,
                ));
            }
            lemma_covers_minus_intro(row@.take(j as int + 1), out@, range);
        }
        j = j + 1;
    }
    proof {
        assert(row@.take(n as int) =~= row@);
    }
    *row = out;
}


/// Whether some sensor of the list covers the point `(x, y)`.
pub open spec fn any_covers(sensors: Seq<Sensor>, x: int, y: int) -> bool {
    exists|i: int| 0 <= i < sensors.len() && sensors[i].spec_covers(x, y)
}

/// Every sensor of the list is well formed and its coordinates admit the
/// interval arithmetic.
pub open spec fn all_fit(sensors: Seq<Sensor>) -> bool {
    forall|i: int| 0 <= i < sensors.len() ==> (#[trigger] sensors[i]).wf() && sensors[i].fits()
}

/// `row` holds exactly the positions of `0..=area_size` that no sensor of the
/// list covers on row `y`.
pub open spec fn uncovered_row(
    sensors: Seq<Sensor>,
    area_size: int,
    y: int,
    row: Seq<Interval>,
) -> bool {
    forall|x: int|
        #![trigger covered_by(row, x)]
        #![trigger any_covers(sensors, x, y)]
        covered_by(row, x) <==> 0 <= x <= area_size && !any_covers(sensors, x, y)
}

proof fn lemma_uncovered_row_intro(sensors: Seq<Sensor>, area_size: int, y: int, row: Seq<Interval>)
    requires
        forall|x: int|
            #![trigger covered_by(row, x)]
            #![trigger any_covers(sensors, x, y)]
            covered_by(row, x) <==> 0 <= x <= area_size && !any_covers(sensors, x, y),
    ensures
        uncovered_row(sensors, area_size, y, row),
{
}

proof fn lemma_any_covers_push(sensors: Seq<Sensor>, s: Sensor, x: int, y: int)
    ensures
        any_covers(sensors.push(s), x, y) <==> any_covers(sensors, x, y) || s.spec_covers(x, y),
{
    if any_covers(sensors.push(s), x, y) {
        let i = choose|i: int| 0 <= i < sensors.push(s).len() && sensors.push(s)[i].spec_covers(x, y);
        if i < sensors.len() {
            assert(sensors[i].spec_covers(x, y));
        } else {
            assert(s.spec_covers(x, y));
        }
    }
    if any_covers(sensors, x, y) {
        let i = choose|i: int| 0 <= i < sensors.len() && sensors[i].spec_covers(x, y);
        assert(sensors.push(s)[i].spec_covers(x, y));
    }
    if s.spec_covers(x, y) {
        assert(sensors.push(s)[sensors.len() as int].spec_covers(x, y));
    }
}

/// Starts from the single interval `[0, area_size]` and subtracts every
/// sensor's coverage of row `y`; what is left are the uncovered positions of
/// that row, as a well-formed interval list.
pub fn remove_covered_ranges(area_size: isize, y: isize, sensors: &Vec<Sensor>) -> (row: Vec<
    Interval,
>)
    requires
        0 <= area_size,
        all_fit(sensors@),
        forall|i: int|
            0 <= i < sensors@.len() ==> abs((#[trigger] sensors@[i]).position.1 - y) <= isize::MAX,
    ensures
        wf_intervals(row@),
        uncovered_row(sensors@, area_size as int, y as int, row@),
{
    let mut row: Vec<Interval> = Vec::new();
    row.push(Interval { start: 0, end: area_size });
    proof {
        assert(contains(row@[0], 0) || true);
        assert forall|x: int|
            #![trigger covered_by(row@, x)]
            #![trigger any_covers(sensors@.take(0), x, y as int)]
            covered_by(row@, x) <==> 0 <= x <= area_size && !any_covers(
                sensors@.take(0),
                x,
                y as int,
            ) by {
            if covered_by(row@, x) {
                let i = choose|i: int| 0 <= i < row@.len() && contains(row@[i], x);
                assert(i == 0);
            }
            if 0 <= x <= area_size {
                assert(contains(row@[0], x));
            }
            if any_covers(sensors@.take(0), x, y as int) {
                let i = choose|i: int|
                    0 <= i < sensors@.take(0).len() && sensors@.take(0)[i].spec_covers(x, y as int);
                assert(false);
            }
        }
    }
    let n = sensors.len();
    let mut k: usize = 0;
    while k < n
        invariant
            0 <= area_size,
            all_fit(sensors@),
            forall|i: int|
                0 <= i < sensors@.len() ==> abs(
                    (#[trigger] sensors@[i]).position.1 - y,
                ) <= isize::MAX,
            n == sensors@.len(),
            k <= n,
            wf_intervals(row@),
            uncovered_row(sensors@.take(k as int), area_size as int, y as int, row@),
        decreases n - k,
    {
        let s = sensors[k];
        let ghost prev = row@;
        let range_opt = s.range_for_row(y);
        match range_opt {
            Some(range) => {
                remove_range(&mut row, range);
                proof {
                    assert(sensors@.take(k as int + 1) =~= sensors@.take(k as int).push(s));
                    assert forall|x: int|
                        #![trigger covered_by(row@, x)]
                        #![trigger any_covers(sensors@.take(k as int + 1), x, y as int)]
                        covered_by(row@, x) <==> 0 <= x <= area_size && !any_covers(
                            sensors@.take(k as int + 1),
                            x,
                            y as int,
                        ) by {
                        lemma_covers_minus_elim(prev, row@, range, x);
                        assert(covered_by(prev, x) <==> 0 <= x <= area_size && !any_covers(
                            sensors@.take(k as int),
                            x,
                            y as int,
                        ));
                        lemma_any_covers_push(sensors@.take(k as int), s, x, y as int);
                        assert(contains(range, x) <==> s.spec_covers(x, y as int));
                    }
                    lemma_uncovered_row_intro(
                        sensors@.take(k as int + 1),
                        area_size as int,
                        y as int,
                        row@,
                    );
                }
            },
            None => {
                proof {
                    assert(sensors@.take(k as int + 1) =~= sensors@.take(k as int).push(s));
                    assert forall|x: int|
                        #![trigger covered_by(row@, x)]
                        #![trigger any_covers(sensors@.take(k as int + 1), x, y as int)]
                        covered_by(row@, x) <==> 0 <= x <= area_size && !any_covers(
                            sensors@.take(k as int + 1),
                            x,
                            y as int,
                        ) by {
                        assert(covered_by(prev, x) <==> 0 <= x <= area_size && !any_covers(
                            sensors@.take(k as int),
                            x,
                            y as int,
                        ));
                        lemma_any_covers_push(sensors@.take(k as int), s, x, y as int);
                        assert(!s.spec_covers(x, y as int));
                    }
                    lemma_uncovered_row_intro(
                        sensors@.take(k as int + 1),
                        area_size as int,
                        y as int,
                        row@,
                    );
                }
            },
        }
        k = k + 1;
    }
    proof {
        assert(sensors@.take(n as int) =~= sensors@);
    }
    row
}

/// Every position of `0..=area_size` on row `y` is covered by some sensor.
pub open spec fn row_covered(sensors: Seq<Sensor>, area_size: int, y: int) -> bool {
    forall|x: int| 0 <= x <= area_size ==> any_covers(sensors, x, y)
}

/// Scans the rows `0..=area_size` in increasing order and returns the first
/// uncovered position found, scanning each row from the left; `None` when the
/// whole square is covered.
pub fn find_uncovered_tile(area_size: isize, sensors: &Vec<Sensor>) -> (r: Option<Coord>)
    requires
        0 <= area_size < isize::MAX,
        all_fit(sensors@),
        forall|i: int|
            0 <= i < sensors@.len() ==> (#[trigger] sensors@[i]).position.1 - area_size
                >= -isize::MAX,
    ensures
        match r {
            Some(p) => {
                &&& 0 <= p.0 <= area_size
                &&& 0 <= p.1 <= area_size
                &&& !any_covers(sensors@, p.0 as int, p.1 as int)
                &&& forall|yy: int| 0 <= yy < p.1 ==> row_covered(sensors@, area_size as int, yy)
                &&& forall|xx: int| 0 <= xx < p.0 ==> any_covers(sensors@, xx, p.1 as int)
            },
            None => forall|yy: int|
                0 <= yy <= area_size ==> row_covered(sensors@, area_size as int, yy),
        },
{
    let mut y: isize = 0;
    while y <= area_size
        invariant
            0 <= y <= area_size + 1,
            0 <= area_size < isize::MAX,
            all_fit(sensors@),
            forall|i: int|
                0 <= i < sensors@.len() ==> (#[trigger] sensors@[i]).position.1 - area_size
                    >= -isize::MAX,
            forall|yy: int| 0 <= yy < y ==> row_covered(sensors@, area_size as int, yy),
        decreases area_size - y + 1,
    {
        let not_covered = remove_covered_ranges(area_size, y, sensors);
        if not_covered.len() > 0 {
            let first = not_covered[0];
            proof {
                assert(contains(not_covered@[0], first.start as int));
                assert(covered_by(not_covered@, first.start as int));
                assert forall|xx: int| 0 <= xx < first.start implies any_covers(
                    sensors@,
                    xx,
                    y as int,
                ) by {
                    if !any_covers(sensors@, xx, y as int) {
                        assert(covered_by(not_covered@, xx));
                        let i = choose|i: int|
                            0 <= i < not_covered@.len() && contains(not_covered@[i], xx);
                        lemma_wf_starts(not_covered@, 0, i);
                    }
                }
            }
            return Some((first.start, y));
        }
        proof {
            assert forall|x: int| 0 <= x <= area_size implies any_covers(sensors@, x, y as int) by {
                assert(!covered_by(not_covered@, x));
            }
        }
        y = y + 1;
    }
    None
}


/// Whether some sensor's recorded nearest beacon sits at `(x, y)`.
pub open spec fn has_beacon_at(sensors: Seq<Sensor>, x: int, y: int) -> bool {
    exists|i: int|
        0 <= i < sensors.len() && (#[trigger] sensors[i]).closest_beacon.0 == x
            && sensors[i].closest_beacon.1 == y
}

/// How many positions of `lo..=hi` on row `y` some sensor covers.
pub open spec fn spec_count_covered(sensors: Seq<Sensor>, y: int, lo: int, hi: int) -> int
    decreases hi + 1 - lo,
{
    if lo > hi {
        0
    } else {
        spec_count_covered(sensors, y, lo, hi - 1) + if any_covers(sensors, hi, y) {
            1int
        } else {
            0int
        }
    }
}

/// How many positions of `lo..=hi` on row `y` hold a recorded beacon.
pub open spec fn spec_count_beacons(sensors: Seq<Sensor>, y: int, lo: int, hi: int) -> int
    decreases hi + 1 - lo,
{
    if lo > hi {
        0
    } else {
        spec_count_beacons(sensors, y, lo, hi - 1) + if has_beacon_at(sensors, hi, y) {
            1int
        } else {
            0int
        }
    }
}

/// The leftmost x position any sensor's disk reaches.
pub open spec fn spec_min_reach(sensors: Seq<Sensor>) -> int
    recommends
        sensors.len() > 0,
    decreases sensors.len(),
{
    let v = sensors.last().position.0 - sensors.last().usable_range;
    if sensors.len() <= 1 {
        v
    } else {
        let rest = spec_min_reach(sensors.drop_last());
        if rest <= v {
            rest
        } else {
            v
        }
    }
}

/// The rightmost x position any sensor's disk reaches.
pub open spec fn spec_max_reach(sensors: Seq<Sensor>) -> int
    recommends
        sensors.len() > 0,
    decreases sensors.len(),
{
    let v = sensors.last().position.0 + sensors.last().usable_range;
    if sensors.len() <= 1 {
        v
    } else {
        let rest = spec_max_reach(sensors.drop_last());
        if rest >= v {
            rest
        } else {
            v
        }
    }
}

/// Bound on sensor and beacon coordinates under which all the row-scanning
/// arithmetic stays well inside `isize`, on either pointer width.
pub const COORD_LIMIT: isize = 0x0800_0000;

/// The sensor's own and its beacon's coordinates are within `COORD_LIMIT`.
pub open spec fn in_working_range(s: Sensor) -> bool {
    &&& -COORD_LIMIT <= s.position.0 <= COORD_LIMIT
    &&& -COORD_LIMIT <= s.position.1 <= COORD_LIMIT
    &&& -COORD_LIMIT <= s.closest_beacon.0 <= COORD_LIMIT
    &&& -COORD_LIMIT <= s.closest_beacon.1 <= COORD_LIMIT
}

/// Every sensor is well formed with coordinates within `COORD_LIMIT`.
pub open spec fn all_small(sensors: Seq<Sensor>) -> bool {
    forall|i: int|
        0 <= i < sensors.len() ==> (#[trigger] sensors[i]).wf() && in_working_range(sensors[i])
}

proof fn lemma_small_fits(s: Sensor)
    requires
        s.wf(),
        in_working_range(s),
    ensures
        s.fits(),
        0 <= s.usable_range <= 4 * COORD_LIMIT,
{
}

/// Whether any sensor of the list covers the point `(x, y)`, as executable
/// code.
fn covers_any(sensors: &Vec<Sensor>, x: isize, y: isize) -> (r: bool)
    requires
        forall|i: int|
            0 <= i < sensors@.len() ==> spec_manhattan(
                (#[trigger] sensors@[i]).position,
                (x, y),
            ) <= isize::MAX,
    ensures
        r == any_covers(sensors@, x as int, y as int),
{
    let n = sensors.len();
    let mut i: usize = 0;
    while i < n
        invariant
            n == sensors@.len(),
            i <= n,
            forall|i0: int|
                0 <= i0 < sensors@.len() ==> spec_manhattan(
                    (#[trigger] sensors@[i0]).position,
                    (x, y),
                ) <= isize::MAX,
            forall|j: int| 0 <= j < i ==> !(#[trigger] sensors@[j]).spec_covers(x as int, y as int),
        decreases n - i,
    {
        if sensors[i].covers((x, y)) {
            return true;
        }
        i = i + 1;
    }
    proof {
        if any_covers(sensors@, x as int, y as int) {
            let j = choose|j: int|
                0 <= j < sensors@.len() && sensors@[j].spec_covers(x as int, y as int);
            assert(false);
        }
    }
    false
}

/// Whether any recorded beacon sits at `(x, y)`, as executable code.
fn beacon_at(sensors: &Vec<Sensor>, x: isize, y: isize) -> (r: bool)
    ensures
        r == has_beacon_at(sensors@, x as int, y as int),
{
    let n = sensors.len();
    let mut i: usize = 0;
    while i < n
        invariant
            n == sensors@.len(),
            i <= n,
            forall|j: int|
                0 <= j < i ==> !((#[trigger] sensors@[j]).closest_beacon.0 == x
                    && sensors@[j].closest_beacon.1 == y),
        decreases n - i,
    {
        let b = sensors[i].closest_beacon;
        if b.0 == x && b.1 == y {
            return true;
        }
        i = i + 1;
    }
    proof {
        if has_beacon_at(sensors@, x as int, y as int) {
            let j = choose|j: int|
                0 <= j < sensors@.len() && (#[trigger] sensors@[j]).closest_beacon.0 == x as int
                    && sensors@[j].closest_beacon.1 == y as int;
            assert(false);
        }
    }
    false
}

fn min_reach(sensors: &Vec<Sensor>) -> (r: isize)
    requires
        sensors@.len() > 0,
        all_small(sensors@),
    ensures
        r == spec_min_reach(sensors@),
        -5 * COORD_LIMIT <= r <= 5 * COORD_LIMIT,
{
    proof {
        lemma_small_fits(sensors@[0]);
    }
    let s0 = sensors[0];
    let mut m: isize = s0.position.0 - s0.usable_range;
    let n = sensors.len();
    let mut k: usize = 1;
    proof {
        assert(sensors@.take(1).last() == sensors@[0]);
        assert(sensors@.take(1).len() == 1);
    }
    while k < n
        invariant
            n == sensors@.len(),
            1 <= k <= n,
            all_small(sensors@),
            m == spec_min_reach(sensors@.take(k as int)),
            -5 * COORD_LIMIT <= m <= 5 * COORD_LIMIT,
        decreases n - k,
    {
        proof {
            lemma_small_fits(sensors@[k as int]);
        }
        let s = sensors[k];
        let v = s.position.0 - s.usable_range;
        if v < m {
            m = v;
        }
        proof {
            assert(sensors@.take(k as int + 1).drop_last() =~= sensors@.take(k as int));
            assert(sensors@.take(k as int + 1).last() == sensors@[k as int]);
        }
        k = k + 1;
    }
    proof {
        assert(sensors@.take(n as int) =~= sensors@);
    }
    m
}

fn max_reach(sensors: &Vec<Sensor>) -> (r: isize)
    requires
        sensors@.len() > 0,
        all_small(sensors@),
    ensures
        r == spec_max_reach(sensors@),
        -5 * COORD_LIMIT <= r <= 5 * COORD_LIMIT,
{
    proof {
        lemma_small_fits(sensors@[0]);
    }
    let s0 = sensors[0];
    let mut m: isize = s0.position.0 + s0.usable_range;
    let n = sensors.len();
    let mut k: usize = 1;
    proof {
        assert(sensors@.take(1).last() == sensors@[0]);
        assert(sensors@.take(1).len() == 1);
    }
    while k < n
        invariant
            n == sensors@.len(),
            1 <= k <= n,
            all_small(sensors@),
            m == spec_max_reach(sensors@.take(k as int)),
            -5 * COORD_LIMIT <= m <= 5 * COORD_LIMIT,
        decreases n - k,
    {
        proof {
            lemma_small_fits(sensors@[k as int]);
        }
        let s = sensors[k];
        let v = s.position.0 + s.usable_range;
        if v > m {
            m = v;
        }
        proof {
            assert(sensors@.take(k as int + 1).drop_last() =~= sensors@.take(k as int));
            assert(sensors@.take(k as int + 1).last() == sensors@[k as int]);
        }
        k = k + 1;
    }
    proof {
        assert(sensors@.take(n as int) =~= sensors@);
    }
    m
}

proof fn lemma_count_covered_bounds(sensors: Seq<Sensor>, y: int, lo: int, hi: int)
    ensures
        0 <= spec_count_covered(sensors, y, lo, hi),
        spec_count_covered(sensors, y, lo, hi) <= if lo > hi {
            0int
        } else {
            hi - lo + 1
        },
    decreases hi + 1 - lo,
{
    if lo <= hi {
        lemma_count_covered_bounds(sensors, y, lo, hi - 1);
    }
}

/// On any row, there are at least as many covered positions as recorded
/// beacons: a beacon is always inside its own sensor's disk.
proof fn lemma_beacons_le_covered(sensors: Seq<Sensor>, y: int, lo: int, hi: int)
    requires
        forall|i: int| 0 <= i < sensors.len() ==> (#[trigger] sensors[i]).wf(),
    ensures
        0 <= spec_count_beacons(sensors, y, lo, hi),
        spec_count_beacons(sensors, y, lo, hi) <= spec_count_covered(sensors, y, lo, hi),
    decreases hi + 1 - lo,
{
    if lo <= hi {
        lemma_beacons_le_covered(sensors, y, lo, hi - 1);
        if has_beacon_at(sensors, hi, y) {
            let i = choose|i: int|
                0 <= i < sensors.len() && (#[trigger] sensors[i]).closest_beacon.0 == hi
                    && sensors[i].closest_beacon.1 == y;
            assert(sensors[i].spec_covers(hi, y));
            assert(any_covers(sensors, hi, y));
        }
    }
}


/// Failure of the coverage analysis, as the scan reports it.
#[derive(Clone, Copy, Debug, PartialEq, Eq, Structural)]
pub enum CoverageError {
    /// The sensor list is empty, so the scanned strip has no bounds.
    NoSensors,
    /// Every position of the square is covered: there is no gap.
    GapNotFound,
}

/// `(x, y)` is the first uncovered position of the square of side
/// `area_size`, scanning rows upward and each row from the left.
pub open spec fn is_first_gap(sensors: Seq<Sensor>, area_size: int, x: int, y: int) -> bool {
    &&& 0 <= x <= area_size
    &&& 0 <= y <= area_size
    &&& !any_covers(sensors, x, y)
    &&& forall|yy: int| 0 <= yy < y ==> row_covered(sensors, area_size, yy)
    &&& forall|xx: int| 0 <= xx < x ==> any_covers(sensors, xx, y)
}

/// Full analysis of a sensor report over the square `0..=area_size`: counts
/// the positions of the middle row that are covered but hold no recorded
/// beacon, and locates the single uncovered position, returning its tuning
/// frequency `x * 4000000 + y`.
pub fn day15(sensors: &Vec<Sensor>, area_size: isize) -> (r: Result<
    (usize, isize),
    CoverageError,
>)
    requires
        0 <= area_size <= COORD_LIMIT,
        all_small(sensors@),
        4000000 * area_size + area_size <= isize::MAX,
    ensures
        match r {
            Ok(p) => {
                &&& sensors@.len() > 0
                &&& p.0 == spec_count_covered(
                    sensors@,
                    area_size as int / 2,
                    spec_min_reach(sensors@),
                    spec_max_reach(sensors@),
                ) - spec_count_beacons(
                    sensors@,
                    area_size as int / 2,
                    spec_min_reach(sensors@),
                    spec_max_reach(sensors@),
                )
                &&& exists|x: int, y: int|
                    is_first_gap(sensors@, area_size as int, x, y) && p.1 == 4000000 * x + y
            },
            Err(CoverageError::NoSensors) => sensors@.len() == 0,
            Err(CoverageError::GapNotFound) => {
                &&& sensors@.len() > 0
                &&& forall|yy: int|
                    0 <= yy <= area_size ==> row_covered(sensors@, area_size as int, yy)
            },
        },
{
    if sensors.len() == 0 {
        return Err(CoverageError::NoSensors);
    }
    proof {
        assert forall|i: int| 0 <= i < sensors@.len() implies (#[trigger] sensors@[i]).fits()
            && 0 <= sensors@[i].usable_range <= 4 * COORD_LIMIT by {
            lemma_small_fits(sensors@[i]);
        }
    }
    let min_x = min_reach(sensors);
    let max_x = max_reach(sensors);
    let row = area_size / 2;
    let ghost y_i = row as int;
    let mut covered: usize = 0;
    let mut beacons: usize = 0;
    let mut x = min_x;
    while x <= max_x
        invariant
            all_small(sensors@),
            sensors@.len() > 0,
            0 <= area_size <= COORD_LIMIT,
            -5 * COORD_LIMIT <= min_x <= 5 * COORD_LIMIT,
            -5 * COORD_LIMIT <= max_x <= 5 * COORD_LIMIT,
            min_x <= x <= max_x + 1,
            0 <= row <= COORD_LIMIT,
            y_i == row as int,
            covered == spec_count_covered(sensors@, y_i, min_x as int, x as int - 1),
            beacons == spec_count_beacons(sensors@, y_i, min_x as int, x as int - 1),
            beacons <= covered,
            covered <= x - min_x,
        decreases max_x - x + 1,
    {
        proof {
            assert forall|i: int| 0 <= i < sensors@.len() implies spec_manhattan(
                (#[trigger] sensors@[i]).position,
                (x, row),
            ) <= isize::MAX by {
                lemma_small_fits(sensors@[i]);
            }
        }
        if covers_any(sensors, x, row) {
            covered = covered + 1;
        }
        if beacon_at(sensors, x, row) {
            beacons = beacons + 1;
        }
        proof {
            lemma_beacons_le_covered(sensors@, y_i, min_x as int, x as int);
        }
        x = x + 1;
    }
    let part1 = covered - beacons;
    proof {
        assert forall|i: int| 0 <= i < sensors@.len() implies (#[trigger] sensors@[i]).position.1
            - area_size >= -isize::MAX by {
            lemma_small_fits(sensors@[i]);
        }
    }
    let gap = find_uncovered_tile(area_size, sensors);
    match gap {
        Some(p) => {
            let part2 = p.0 * 4000000 + p.1;
            proof {
                assert(is_first_gap(sensors@, area_size as int, p.0 as int, p.1 as int));
            }
            Ok((part1, part2))
        },
        None => Err(CoverageError::GapNotFound),
    }
}

/// The analysis with the full-size square of the real puzzle input.
pub fn day15_input(sensors: &Vec<Sensor>) -> (r: Result<(usize, isize), CoverageError>)
    requires
        all_small(sensors@),
        4000000 * 4000000 + 4000000 <= isize::MAX,
    ensures
        match r {
            Ok(p) => {
                &&& sensors@.len() > 0
                &&& p.0 == spec_count_covered(
                    sensors@,
                    2000000,
                    spec_min_reach(sensors@),
                    spec_max_reach(sensors@),
                ) - spec_count_beacons(
                    sensors@,
                    2000000,
                    spec_min_reach(sensors@),
                    spec_max_reach(sensors@),
                )
                &&& exists|x: int, y: int|
                    is_first_gap(sensors@, 4000000, x, y) && p.1 == 4000000 * x + y
            },
            Err(CoverageError::NoSensors) => sensors@.len() == 0,
            Err(CoverageError::GapNotFound) => {
                &&& sensors@.len() > 0
                &&& forall|yy: int| 0 <= yy <= 4000000 ==> row_covered(sensors@, 4000000, yy)
            },
        },
{
    day15(sensors, 4000000)
}

/// The analysis with the small square of the worked example.
pub fn day15_example(sensors: &Vec<Sensor>) -> (r: Result<(usize, isize), CoverageError>)
    requires
        all_small(sensors@),
    ensures
        match r {
            Ok(p) => {
                &&& sensors@.len() > 0
                &&& p.0 == spec_count_covered(
                    sensors@,
                    10,
                    spec_min_reach(sensors@),
                    spec_max_reach(sensors@),
                ) - spec_count_beacons(
                    sensors@,
                    10,
                    spec_min_reach(sensors@),
                    spec_max_reach(sensors@),
                )
                &&& exists|x: int, y: int|
                    is_first_gap(sensors@, 20, x, y) && p.1 == 4000000 * x + y
            },
            Err(CoverageError::NoSensors) => sensors@.len() == 0,
            Err(CoverageError::GapNotFound) => {
                &&& sensors@.len() > 0
                &&& forall|yy: int| 0 <= yy <= 20 ==> row_covered(sensors@, 20, yy)
            },
        },
{
    day15(sensors, 20)
}

} // verus!
