//! Shortest paths over an elevation grid.
//!
//! A walker may move to an orthogonally adjacent cell whenever the destination
//! is at most one level higher than where it stands.  A breadth-first search
//! by frontier layers records, for every cell, the exact length of the
//! shortest legal walk from the start cell; a cell's distance is written once
//! and never overwritten.

use vstd::prelude::*;

verus! {

/// Grid coordinates, as `(row, column)`.
pub type Coord = (usize, usize);

/// A rectangular grid of elevation levels.
pub struct Grid {
    pub cells: Vec<Vec<u8>>,
}

impl Grid {
    pub open spec fn height(self) -> int {
        self.cells@.len() as int
    }

    pub open spec fn width(self) -> int {
        self.cells@[0]@.len() as int
    }

    /// Non-empty and rectangular.
    pub open spec fn wf(self) -> bool {
        &&& self.cells@.len() > 0
        &&& self.cells@[0]@.len() > 0
        &&& forall|i: int|
            0 <= i < self.cells@.len() ==> (#[trigger] self.cells@[i])@.len()
                == self.cells@[0]@.len()
    }

    pub open spec fn in_bounds(self, c: Coord) -> bool {
        c.0 < self.height() && c.1 < self.width()
    }

    pub open spec fn elev(self, c: Coord) -> u8 {
        self.cells@[c.0 as int]@[c.1 as int]
    }

    /// Builds a grid after checking that the rows form a non-empty rectangle.
    pub fn new(cells: Vec<Vec<u8>>) -> (r: Result<Grid, GridError>)
        ensures
            match r {
                Ok(g) => g.cells@ == cells@ && g.wf(),
                Err(GridError::Malformed) => cells@.len() == 0 || cells@[0]@.len() == 0
                    || exists|i: int|
                    0 <= i < cells@.len() && (#[trigger] cells@[i])@.len() != cells@[0]@.len(),
            },
    {
        if cells.len() == 0 {
            return Err(GridError::Malformed);
        }
        let w = cells[0].len();
        if w == 0 {
            return Err(GridError::Malformed);
        }
        let mut i: usize = 1;
        while i < cells.len()
            invariant
                1 <= i <= cells@.len(),
                w == cells@[0]@.len(),
                forall|k: int| 0 <= k < i ==> (#[trigger] cells@[k])@.len() == w,
            decreases cells@.len() - i,
        {
            if cells[i].len() != w {
                return Err(GridError::Malformed);
            }
            i = i + 1;
        }
        Ok(Grid { cells })
    }

    pub fn height_exec(&self) -> (r: usize)
        ensures
            r == self.height(),
    {
        self.cells.len()
    }

    pub fn width_exec(&self) -> (r: usize)
        requires
            self.wf(),
        ensures
            r == self.width(),
    {
        self.cells[0].len()
    }
}

/// A malformed elevation map.
#[derive(Clone, Copy, Debug, PartialEq, Eq, Structural)]
pub enum GridError {
    /// Empty input, an empty first row, or rows of unequal length.
    Malformed,
}

/// A single legal step: both cells in bounds, orthogonally adjacent, and the
/// destination at most one level above the source.
pub open spec fn step_ok(g: Grid, a: Coord, b: Coord) -> bool {
    &&& g.in_bounds(a)
    &&& g.in_bounds(b)
    &&& ((a.0 == b.0 && (b.1 == a.1 + 1 || b.1 + 1 == a.1)) || (a.1 == b.1 && (b.0 == a.0 + 1
        || b.0 + 1 == a.0)))
    &&& g.elev(b) <= g.elev(a) + 1
}

/// A legal walk: non-empty, starting in bounds, each step legal.
pub open spec fn path_ok(g: Grid, p: Seq<Coord>) -> bool {
    &&& p.len() >= 1
    &&& g.in_bounds(p[0])
    &&& forall|i: int| 0 <= i < p.len() - 1 ==> step_ok(g, #[trigger] p[i], p[i + 1])
}

/// A legal walk from `s` to `e`.
pub open spec fn connects(g: Grid, p: Seq<Coord>, s: Coord, e: Coord) -> bool {
    path_ok(g, p) && p[0] == s && p.last() == e
}

/// `e` can be reached from `s` in exactly `n` steps.
pub open spec fn reach_in(g: Grid, s: Coord, e: Coord, n: nat) -> bool {
    exists|p: Seq<Coord>| connects(g, p, s, e) && p.len() == n + 1
}

/// `d` is the length of the shortest legal walk from `s` to `e`.
pub open spec fn dist_is(g: Grid, s: Coord, e: Coord, d: nat) -> bool {
    reach_in(g, s, e, d) && forall|k: nat| k < d ==> !reach_in(g, s, e, k)
}

proof fn lemma_reach_zero(g: Grid, s: Coord, e: Coord)
    ensures
        reach_in(g, s, e, 0) <==> (s == e && g.in_bounds(s)),
{
    if reach_in(g, s, e, 0) {
        let p = choose|p: Seq<Coord>| connects(g, p, s, e) && p.len() == 0 + 1;
        assert(p.last() == p[0]);
    }
    if s == e && g.in_bounds(s) {
        let p = seq![s];
        assert(p[0] == s && p.last() == e);
        assert(connects(g, p, s, e) && p.len() == 0 + 1);
    }
}

proof fn lemma_extend(g: Grid, s: Coord, c: Coord, nb: Coord, n: nat)
    requires
        reach_in(g, s, c, n),
        step_ok(g, c, nb),
    ensures
        reach_in(g, s, nb, n + 1),
{
    let p = choose|p: Seq<Coord>| connects(g, p, s, c) && p.len() == n + 1;
    let q = p.push(nb);
    assert(q[0] == p[0]);
    assert(q.last() == nb);
    assert forall|i: int| 0 <= i < q.len() - 1 implies step_ok(g, #[trigger] q[i], q[i + 1]) by {
        if i < p.len() - 1 {
            assert(q[i] == p[i]);
            assert(q[i + 1] == p[i + 1]);
            assert(step_ok(g, p[i], p[i + 1]));
        } else {
            assert(q[i] == p.last());
            assert(q[i + 1] == nb);
        }
    }
    assert(connects(g, q, s, nb) && q.len() == (n + 1) + 1);
}

proof fn lemma_min_reach(g: Grid, s: Coord, e: Coord, n: nat)
    requires
        reach_in(g, s, e, n),
    ensures
        exists|d: nat| d <= n && #[trigger] dist_is(g, s, e, d),
    decreases n,
{
    if forall|k: nat| k < n ==> !reach_in(g, s, e, k) {
        assert(dist_is(g, s, e, n));
    } else {
        let k = choose|k: nat| k < n && reach_in(g, s, e, k);
        lemma_min_reach(g, s, e, k);
        let d = choose|d: nat| d <= k && #[trigger] dist_is(g, s, e, d);
        assert(d <= n && dist_is(g, s, e, d));
    }
}

proof fn lemma_pred(g: Grid, s: Coord, e: Coord, d: nat)
    requires
        dist_is(g, s, e, d),
        d >= 1,
    ensures
        exists|m: Coord| #[trigger] step_ok(g, m, e) && dist_is(g, s, m, (d - 1) as nat),
{
    let p = choose|p: Seq<Coord>| connects(g, p, s, e) && p.len() == d + 1;
    let m = p[p.len() - 2];
    let q = p.take(p.len() - 1);
    assert(q[0] == p[0]);
    assert(q.last() == m);
    assert forall|i: int| 0 <= i < q.len() - 1 implies step_ok(g, #[trigger] q[i], q[i + 1]) by {
        assert(q[i] == p[i]);
        assert(q[i + 1] == p[i + 1]);
        assert(step_ok(g, p[i], p[i + 1]));
    }
    assert(step_ok(g, p[p.len() - 2], p[p.len() - 1]));
    assert(p.last() == p[p.len() - 1]);
    assert(step_ok(g, m, e));
    assert(connects(g, q, s, m) && q.len() == ((d - 1) as nat) + 1);
    assert(reach_in(g, s, m, (d - 1) as nat));
    lemma_min_reach(g, s, m, (d - 1) as nat);
    let d2 = choose|d2: nat| d2 <= (d - 1) as nat && #[trigger] dist_is(g, s, m, d2);
    if d2 < d - 1 {
        lemma_extend(g, s, m, e, d2);
        assert(reach_in(g, s, e, (d2 + 1) as nat));
        assert(((d2 + 1) as nat) < d);
        assert(false);
    }
    assert(dist_is(g, s, m, (d - 1) as nat));
}

proof fn lemma_dist_unique(g: Grid, s: Coord, e: Coord, d1: nat, d2: nat)
    requires
        dist_is(g, s, e, d1),
        dist_is(g, s, e, d2),
    ensures
        d1 == d2,
{
}

/// What the breadth-first search proves of a reached cell: the recorded
/// distance is realised by some legal walk, and no shorter walk exists.
pub proof fn lemma_dist_is_shortest(g: Grid, s: Coord, e: Coord, d: nat)
    requires
        dist_is(g, s, e, d),
    ensures
        exists|p: Seq<Coord>| connects(g, p, s, e) && p.len() == d + 1,
        forall|p: Seq<Coord>| connects(g, p, s, e) ==> p.len() >= d + 1,
{
    assert forall|p: Seq<Coord>| connects(g, p, s, e) implies p.len() >= d + 1 by {
        if p.len() < d + 1 {
            let n = (p.len() - 1) as nat;
            assert(connects(g, p, s, e) && p.len() == n + 1);
            assert(reach_in(g, s, e, n));
            assert(false);
        }
    }
}


/// The cell's entry in a distance map.
pub open spec fn entry(dmap: Seq<Vec<Option<u32>>>, cell: Coord) -> Option<u32> {
    dmap[cell.0 as int]@[cell.1 as int]
}

/// The distance map has one entry per grid cell.
pub open spec fn shape_ok(g: Grid, dmap: Seq<Vec<Option<u32>>>) -> bool {
    &&& dmap.len() == g.height()
    &&& forall|r: int| 0 <= r < dmap.len() ==> (#[trigger] dmap[r])@.len() == g.width()
}

/// Every recorded distance is at most `bound` and is the cell's true
/// shortest-walk distance from `s`.
pub open spec fn recorded_ok(g: Grid, s: Coord, dmap: Seq<Vec<Option<u32>>>, bound: nat) -> bool {
    forall|cell: Coord|
        g.in_bounds(cell) ==> match #[trigger] entry(dmap, cell) {
            Some(d) => d <= bound && dist_is(g, s, cell, d as nat),
            None => true,
        }
}

/// Every cell whose true distance is at most `bound` has it recorded.
pub open spec fn complete_upto(g: Grid, s: Coord, dmap: Seq<Vec<Option<u32>>>, bound: nat) -> bool {
    forall|cell: Coord, d: nat|
        g.in_bounds(cell) && d <= bound && #[trigger] dist_is(g, s, cell, d) ==> entry(dmap, cell)
            == Some(d as u32)
}

/// Whether `cell` occurs in the list `f`.
pub open spec fn in_list(f: Seq<Coord>, cell: Coord) -> bool {
    exists|j: int| 0 <= j < f.len() && f[j] == cell
}

/// The list `f` holds exactly the in-bounds cells recorded with value `v`.
pub open spec fn next_matches(g: Grid, dmap: Seq<Vec<Option<u32>>>, f: Seq<Coord>, v: u32) -> bool {
    forall|cell: Coord|
        #![trigger entry(dmap, cell)]
        #![trigger in_list(f, cell)]
        g.in_bounds(cell) ==> ((entry(dmap, cell) == Some(v)) <==> in_list(f, cell))
}

/// The list `f` holds exactly the cells at distance `i` from `s`.
pub open spec fn frontier_exact(g: Grid, s: Coord, f: Seq<Coord>, i: nat) -> bool {
    forall|cell: Coord|
        #![trigger in_list(f, cell)]
        #![trigger dist_is(g, s, cell, i)]
        in_list(f, cell) <==> (g.in_bounds(cell) && dist_is(g, s, cell, i))
}

/// Every cell of the list is in bounds.
pub open spec fn all_in_bounds(g: Grid, f: Seq<Coord>) -> bool {
    forall|j: int| 0 <= j < f.len() ==> g.in_bounds(#[trigger] f[j])
}

/// Recorded entries are never overwritten.
pub open spec fn keeps_some(g: Grid, a: Seq<Vec<Option<u32>>>, b: Seq<Vec<Option<u32>>>) -> bool {
    forall|cell: Coord|
        g.in_bounds(cell) && (#[trigger] entry(a, cell)) is Some ==> entry(b, cell) == entry(
            a,
            cell,
        )
}

/// Every legal step away from the first `jn` cells of `f` leads to a recorded
/// cell.
pub open spec fn processed_upto(
    g: Grid,
    f: Seq<Coord>,
    jn: int,
    dmap: Seq<Vec<Option<u32>>>,
) -> bool {
    forall|jj: int, nb: Coord|
        0 <= jj < jn && #[trigger] step_ok(g, f[jj], nb) ==> entry(dmap, nb) is Some
}

/// Orthogonal adjacency of two coordinates.
pub open spec fn adjacent(a: Coord, b: Coord) -> bool {
    (a.0 == b.0 && (b.1 == a.1 + 1 || b.1 + 1 == a.1)) || (a.1 == b.1 && (b.0 == a.0 + 1 || b.0 + 1
        == a.0))
}

/// How many entries of one row are still unset.
pub open spec fn unset_in_row(row: Seq<Option<u32>>) -> nat
    decreases row.len(),
{
    if row.len() == 0 {
        0
    } else {
        unset_in_row(row.drop_last()) + if row.last() is None {
            1nat
        } else {
            0nat
        }
    }
}

/// How many entries of the whole map are still unset.
pub open spec fn unset_count(dmap: Seq<Vec<Option<u32>>>) -> nat
    decreases dmap.len(),
{
    if dmap.len() == 0 {
        0
    } else {
        unset_count(dmap.drop_last()) + unset_in_row(dmap.last()@)
    }
}

proof fn lemma_unset_in_row_update(row: Seq<Option<u32>>, c: int, v: u32)
    requires
        0 <= c < row.len(),
        row[c] is None,
    ensures
        unset_in_row(row.update(c, Some(v))) == unset_in_row(row) - 1,
    decreases row.len(),
{
    let row2 = row.update(c, Some(v));
    if c == row.len() - 1 {
        assert(row2.drop_last() =~= row.drop_last());
        assert(row2.last() == Some(v));
    } else {
        assert(row2.drop_last() =~= row.drop_last().update(c, Some(v)));
        assert(row2.last() == row.last());
        lemma_unset_in_row_update(row.drop_last(), c, v);
    }
}

proof fn lemma_unset_count_update(dmap: Seq<Vec<Option<u32>>>, r: int, row2: Vec<Option<u32>>, c: int, v: u32)
    requires
        0 <= r < dmap.len(),
        0 <= c < dmap[r]@.len(),
        dmap[r]@[c] is None,
        row2@ == dmap[r]@.update(c, Some(v)),
    ensures
        unset_count(dmap.update(r, row2)) == unset_count(dmap) - 1,
    decreases dmap.len(),
{
    let d2 = dmap.update(r, row2);
    if r == dmap.len() - 1 {
        assert(d2.drop_last() =~= dmap.drop_last());
        assert(d2.last() == row2);
        lemma_unset_in_row_update(dmap[r]@, c, v);
    } else {
        assert(d2.drop_last() =~= dmap.drop_last().update(r, row2));
        assert(d2.last() == dmap.last());
        assert(dmap.drop_last()[r]@ == dmap[r]@);
        lemma_unset_count_update(dmap.drop_last(), r, row2, c, v);
    }
}

proof fn lemma_unset_in_row_full(row: Seq<Option<u32>>)
    requires
        forall|c: int| 0 <= c < row.len() ==> (#[trigger] row[c]) is None,
    ensures
        unset_in_row(row) == row.len(),
    decreases row.len(),
{
    if row.len() > 0 {
        lemma_unset_in_row_full(row.drop_last());
    }
}

proof fn lemma_unset_in_row_le(row: Seq<Option<u32>>)
    ensures
        unset_in_row(row) <= row.len(),
    decreases row.len(),
{
    if row.len() > 0 {
        lemma_unset_in_row_le(row.drop_last());
    }
}

proof fn lemma_unset_count_full(dmap: Seq<Vec<Option<u32>>>, w: nat)
    requires
        forall|r: int|
            0 <= r < dmap.len() ==> (#[trigger] dmap[r])@.len() == w && forall|c: int|
                0 <= c < dmap[r]@.len() ==> (#[trigger] dmap[r]@[c]) is None,
    ensures
        unset_count(dmap) == dmap.len() * w,
    decreases dmap.len(),
{
    if dmap.len() == 0 {
        assert(dmap.len() * w == 0) by (nonlinear_arith)
            requires
                dmap.len() == 0,
        ;
    } else {
        lemma_unset_count_full(dmap.drop_last(), w);
        lemma_unset_in_row_full(dmap.last()@);
        let n = dmap.len();
        assert((n - 1) * w + w == n * w) by (nonlinear_arith);
    }
}

proof fn lemma_unset_count_le(dmap: Seq<Vec<Option<u32>>>, w: nat)
    requires
        forall|r: int| 0 <= r < dmap.len() ==> (#[trigger] dmap[r])@.len() == w,
    ensures
        unset_count(dmap) <= dmap.len() * w,
    decreases dmap.len(),
{
    if dmap.len() == 0 {
        assert(dmap.len() * w == 0) by (nonlinear_arith)
            requires
                dmap.len() == 0,
        ;
    } else {
        lemma_unset_count_le(dmap.drop_last(), w);
        lemma_unset_in_row_le(dmap.last()@);
        let n = dmap.len();
        assert((n - 1) * w + w == n * w) by (nonlinear_arith);
    }
}

proof fn lemma_dist_in_bounds(g: Grid, s: Coord, cell: Coord, d: nat)
    requires
        dist_is(g, s, cell, d),
    ensures
        g.in_bounds(cell),
{
    let p = choose|p: Seq<Coord>| connects(g, p, s, cell) && p.len() == d + 1;
    if p.len() == 1 {
        assert(cell == p[0]);
    } else {
        assert(step_ok(g, p[p.len() - 2], p[p.len() - 1]));
        assert(p.last() == p[p.len() - 1]);
    }
}

proof fn lemma_layer_nonempty(g: Grid, s: Coord, cell: Coord, d: nat, k: nat)
    requires
        dist_is(g, s, cell, d),
        k <= d,
    ensures
        exists|c2: Coord| #[trigger] dist_is(g, s, c2, k) && g.in_bounds(c2),
    decreases d - k,
{
    if k == d {
        lemma_dist_in_bounds(g, s, cell, d);
        assert(dist_is(g, s, cell, k) && g.in_bounds(cell));
    } else {
        lemma_pred(g, s, cell, d);
        let m = choose|m: Coord| #[trigger] step_ok(g, m, cell) && dist_is(g, s, m, (d - 1) as nat);
        lemma_layer_nonempty(g, s, m, (d - 1) as nat, k);
    }
}

proof fn lemma_in_list_push(f: Seq<Coord>, v: Coord, cell: Coord)
    ensures
        in_list(f.push(v), cell) <==> in_list(f, cell) || cell == v,
{
    if in_list(f.push(v), cell) {
        let j = choose|j: int| 0 <= j < f.push(v).len() && f.push(v)[j] == cell;
        if j < f.len() {
            assert(f[j] == cell);
        }
    }
    if in_list(f, cell) {
        let j = choose|j: int| 0 <= j < f.len() && f[j] == cell;
        assert(f.push(v)[j] == cell);
    }
    if cell == v {
        assert(f.push(v)[f.len() as int] == cell);
    }
}


/// The four candidate steps out of a cell, paired with their source; an
/// underflowing coordinate is replaced by `usize::MAX`, which no grid can
/// contain.
pub fn steps_from(c: Coord) -> (r: [(Coord, Coord); 4])
    requires
        c.0 < usize::MAX,
        c.1 < usize::MAX,
    ensures
        forall|k: int| 0 <= k < 4 ==> (#[trigger] r[k]).0 == c,
        r[0].1 == ((c.0 + 1) as usize, c.1),
        r[1].1 == ((if c.0 > 0 {
            (c.0 - 1) as usize
        } else {
            usize::MAX
        }), c.1),
        r[2].1 == (c.0, (c.1 + 1) as usize),
        r[3].1 == (c.0, (if c.1 > 0 {
            (c.1 - 1) as usize
        } else {
            usize::MAX
        })),
{
    [
        ((c.0, c.1), (c.0 + 1, c.1)),
        ((c.0, c.1), (if c.0 > 0 { c.0 - 1 } else { usize::MAX }, c.1)),
        ((c.0, c.1), (c.0, c.1 + 1)),
        ((c.0, c.1), (c.0, if c.1 > 0 { c.1 - 1 } else { usize::MAX })),
    ]
}

/// Whether a walker standing on `from` may step onto `to`: `to` must be in
/// bounds and at most one level higher.  Adjacency is the caller's concern.
pub fn reachable(from: Coord, to: Coord, grid: &Grid) -> (r: bool)
    requires
        grid.wf(),
        grid.in_bounds(from),
    ensures
        r == (grid.in_bounds(to) && grid.elev(to) <= grid.elev(from) + 1),
{
    if to.0 >= grid.cells.len() || to.1 >= grid.cells[0].len() {
        false
    } else {
        grid.cells[to.0][to.1] as u32 <= grid.cells[from.0][from.1] as u32 + 1
    }
}

/// Examines one candidate step of the breadth-first expansion: when it is
/// legal and leads to an unrecorded cell, records the next layer's distance
/// there and queues the cell.
fn visit(
    grid: &Grid,
    distances: &mut Vec<Vec<Option<u32>>>,
    next: &mut Vec<Coord>,
    cur: Coord,
    to: Coord,
    dnext: u32,
    Ghost(start): Ghost<Coord>,
    Ghost(ii): Ghost<nat>,
)
    requires
        grid.wf(),
        grid.in_bounds(start),
        grid.in_bounds(cur),
        shape_ok(*grid, old(distances)@),
        dnext as nat == ii + 1,
        dist_is(*grid, start, cur, ii),
        grid.in_bounds(to) ==> adjacent(cur, to),
        recorded_ok(*grid, start, old(distances)@, ii + 1),
        complete_upto(*grid, start, old(distances)@, ii),
        next_matches(*grid, old(distances)@, old(next)@, dnext),
        all_in_bounds(*grid, old(next)@),
    ensures
        shape_ok(*grid, final(distances)@),
        recorded_ok(*grid, start, final(distances)@, ii + 1),
        complete_upto(*grid, start, final(distances)@, ii),
        next_matches(*grid, final(distances)@, final(next)@, dnext),
        all_in_bounds(*grid, final(next)@),
        keeps_some(*grid, old(distances)@, final(distances)@),
        unset_count(final(distances)@) + final(next)@.len() == unset_count(old(distances)@) + old(
            next,
        )@.len(),
        step_ok(*grid, cur, to) ==> entry(final(distances)@, to) is Some,
{
    let ghost dmap0 = distances@;
    if reachable(cur, to, grid) {
        let recorded = distances[to.0][to.1].is_some();
        if !recorded {
            let ghost row0 = distances@[to.0 as int]@;
            distances[to.0][to.1] = Some(dnext);
            next.push(to);
            proof {
                let d2 = distances@;
                assert(d2[to.0 as int]@ =~= dmap0[to.0 as int]@.update(to.1 as int, Some(dnext)));
                assert(d2 =~= dmap0.update(to.0 as int, d2[to.0 as int]));
                lemma_unset_count_update(
                    dmap0,
                    to.0 as int,
                    d2[to.0 as int],
                    to.1 as int,
                    dnext,
                );
                // the newly recorded cell really is at distance ii + 1
                lemma_extend(*grid, start, cur, to, ii);
                assert forall|k: nat| k < ii + 1 implies !reach_in(*grid, start, to, k) by {
                    if reach_in(*grid, start, to, k) {
                        lemma_min_reach(*grid, start, to, k);
                        let d = choose|d: nat| d <= k && #[trigger] dist_is(*grid, start, to, d);
                        assert(entry(dmap0, to) == Some(d as u32));
                        assert(false);
                    }
                }
                assert(dist_is(*grid, start, to, (ii + 1) as nat));
                // entries other than `to` are unchanged
                assert forall|cell: Coord|
                    grid.in_bounds(cell) && cell != to implies entry(d2, cell) == entry(
                    dmap0,
                    cell,
                ) by {
                    if cell.0 == to.0 {
                        assert(entry(d2, cell) == d2[cell.0 as int]@[cell.1 as int]);
                    }
                }
                assert(entry(d2, to) == Some(dnext));
                assert forall|cell: Coord| grid.in_bounds(cell) implies match entry(d2, cell) {
                    Some(d) => d <= ii + 1 && dist_is(*grid, start, cell, d as nat),
                    None => true,
                } by {
                    if cell != to {
                        assert(entry(d2, cell) == entry(dmap0, cell));
                    }
                }
                assert forall|cell: Coord, d: nat|
                    grid.in_bounds(cell) && d <= ii && #[trigger] dist_is(*grid, start, cell, d)
                    implies entry(d2, cell) == Some(d as u32) by {
                    assert(entry(dmap0, cell) == Some(d as u32));
                    assert(cell != to);
                }
                assert forall|cell: Coord| grid.in_bounds(cell) implies ((entry(d2, cell) == Some(
                    dnext,
                )) <==> in_list(next@, cell)) by {
                    lemma_in_list_push(old(next)@, to, cell);
                    if cell != to {
                        assert(entry(d2, cell) == entry(dmap0, cell));
                    }
                }
            }
        }
    }
    proof {
        if step_ok(*grid, cur, to) {
            assert(grid.in_bounds(to));
            assert(grid.elev(to) <= grid.elev(cur) + 1);
        }
    }
}


proof fn lemma_keeps_trans(
    g: Grid,
    a: Seq<Vec<Option<u32>>>,
    b: Seq<Vec<Option<u32>>>,
    c: Seq<Vec<Option<u32>>>,
)
    requires
        keeps_some(g, a, b),
        keeps_some(g, b, c),
    ensures
        keeps_some(g, a, c),
{
    assert forall|cell: Coord|
        g.in_bounds(cell) && (#[trigger] entry(a, cell)) is Some implies entry(c, cell) == entry(
        a,
        cell,
    ) by {
        assert(entry(b, cell) == entry(a, cell));
    }
}

/// Breadth-first search from `start`: returns a map that records, for every
/// cell the walker can reach, the exact length of the shortest legal walk
/// from `start`, and nothing for the unreachable cells.
pub fn distances_from(grid: &Grid, start: Coord) -> (distances: Vec<Vec<Option<u32>>>)
    requires
        grid.wf(),
        grid.in_bounds(start),
        grid.height() * grid.width() <= u32::MAX,
    ensures
        shape_ok(*grid, distances@),
        forall|cell: Coord|
            grid.in_bounds(cell) ==> match #[trigger] entry(distances@, cell) {
                Some(d) => dist_is(*grid, start, cell, d as nat),
                None => forall|n: nat| !reach_in(*grid, start, cell, n),
            },
{
    let h = grid.cells.len();
    let w = grid.cells[0].len();
    proof {
        assert(h * w >= 1) by (nonlinear_arith)
            requires
                h >= 1,
                w >= 1,
        ;
        assert(h <= h * w && w <= h * w) by (nonlinear_arith)
            requires
                h >= 1,
                w >= 1,
        ;
    }
    let mut distances: Vec<Vec<Option<u32>>> = Vec::new();
    let mut r: usize = 0;
    while r < h
        invariant
            r <= h,
            distances@.len() == r,
            forall|k: int|
                0 <= k < r ==> (#[trigger] distances@[k])@.len() == w && forall|c: int|
                    0 <= c < distances@[k]@.len() ==> (#[trigger] distances@[k]@[c]) is None,
        decreases h - r,
    {
        let row: Vec<Option<u32>> = vec![None; w];
        distances.push(row);
        r = r + 1;
    }
    proof {
        lemma_unset_count_full(distances@, w as nat);
    }
    let ghost dinit = distances@;
    distances[start.0][start.1] = Some(0);
    let mut frontier: Vec<Coord> = Vec::new();
    frontier.push(start);
    let mut i: u32 = 0;
    proof {
        let d0 = distances@;
        assert(d0[start.0 as int]@ =~= dinit[start.0 as int]@.update(start.1 as int, Some(0u32)));
        assert(d0 =~= dinit.update(start.0 as int, d0[start.0 as int]));
        lemma_unset_count_update(dinit, start.0 as int, d0[start.0 as int], start.1 as int, 0);
        lemma_reach_zero(*grid, start, start);
        assert(dist_is(*grid, start, start, 0));
        // only the start cell is recorded, with its exact distance 0
        assert forall|cell: Coord|
            grid.in_bounds(cell) && cell != start implies entry(d0, cell) is None by {
            if cell.0 == start.0 {
                assert(entry(d0, cell) == d0[cell.0 as int]@[cell.1 as int]);
            } else {
                assert(entry(d0, cell) == dinit[cell.0 as int]@[cell.1 as int]);
            }
        }
        assert(entry(d0, start) == Some(0u32));
        assert forall|cell: Coord| grid.in_bounds(cell) implies match entry(d0, cell) {
            Some(d) => d <= 0 && dist_is(*grid, start, cell, d as nat),
            None => true,
        } by {
            if cell != start {
                assert(entry(d0, cell) is None);
            }
        }
        assert forall|cell: Coord, d: nat|
            grid.in_bounds(cell) && d <= 0 && #[trigger] dist_is(*grid, start, cell, d) implies
            entry(d0, cell) == Some(d as u32) by {
            lemma_reach_zero(*grid, start, cell);
            assert(cell == start);
        }
        assert forall|cell: Coord|
            #![trigger in_list(frontier@, cell)]
            #![trigger dist_is(*grid, start, cell, 0nat)]
            in_list(frontier@, cell) <==> (grid.in_bounds(cell) && dist_is(
            *grid,
            start,
            cell,
            0nat,
        )) by {
            if in_list(frontier@, cell) {
                let j = choose|j: int| 0 <= j < frontier@.len() && frontier@[j] == cell;
                assert(cell == start);
            }
            if grid.in_bounds(cell) && dist_is(*grid, start, cell, 0nat) {
                lemma_reach_zero(*grid, start, cell);
                assert(frontier@[0] == cell);
            }
        }
        assert(frontier_exact(*grid, start, frontier@, 0nat));
        assert(unset_count(d0) == h * w - 1);
    }
    while frontier.len() > 0
        invariant
            grid.wf(),
            grid.in_bounds(start),
            h == grid.height(),
            w == grid.width(),
            grid.height() * grid.width() <= u32::MAX,
            shape_ok(*grid, distances@),
            recorded_ok(*grid, start, distances@, i as nat),
            complete_upto(*grid, start, distances@, i as nat),
            frontier_exact(*grid, start, frontier@, i as nat),
            all_in_bounds(*grid, frontier@),
            frontier@.len() > 0 ==> (i as int) < h * w - unset_count(distances@),
        decreases unset_count(distances@) + frontier@.len(),
    {
        let ghost unset0 = unset_count(distances@);
        let ghost dmap_at_head = distances@;
        let dnext = i + 1;
        let mut next: Vec<Coord> = Vec::new();
        let mut j: usize = 0;
        proof {
            assert forall|cell: Coord| grid.in_bounds(cell) implies match entry(
                distances@,
                cell,
            ) {
                Some(d) => d <= i as nat + 1 && dist_is(*grid, start, cell, d as nat),
                None => true,
            } by {}
            assert forall|cell: Coord| grid.in_bounds(cell) implies ((entry(distances@, cell)
                == Some(dnext)) <==> in_list(next@, cell)) by {
                if entry(distances@, cell) == Some(dnext) {
                    assert(dnext <= i);
                    assert(false);
                }
                if in_list(next@, cell) {
                    let jj = choose|jj: int| 0 <= jj < next@.len() && next@[jj] == cell;
                    assert(false);
                }
            }
        }
        while j < frontier.len()
            invariant
                grid.wf(),
                grid.in_bounds(start),
                h == grid.height(),
                w == grid.width(),
                grid.height() * grid.width() <= u32::MAX,
                j <= frontier@.len(),
                dnext as nat == i as nat + 1,
                shape_ok(*grid, distances@),
                recorded_ok(*grid, start, distances@, i as nat + 1),
                complete_upto(*grid, start, distances@, i as nat),
                frontier_exact(*grid, start, frontier@, i as nat),
                all_in_bounds(*grid, frontier@),
                next_matches(*grid, distances@, next@, dnext),
                all_in_bounds(*grid, next@),
                keeps_some(*grid, dmap_at_head, distances@),
                unset_count(distances@) + next@.len() == unset0,
                processed_upto(*grid, frontier@, j as int, distances@),
            decreases frontier@.len() - j,
        {
            let cur = frontier[j];
            proof {
                assert(frontier@[j as int] == cur);
                assert(in_list(frontier@, cur));
                assert(dist_is(*grid, start, cur, i as nat));
            }
            let steps = steps_from(cur);
            let ghost d0 = distances@;
            visit(grid, &mut distances, &mut next, cur, steps[0].1, dnext, Ghost(start), Ghost(i as nat));
            let ghost d1 = distances@;
            visit(grid, &mut distances, &mut next, cur, steps[1].1, dnext, Ghost(start), Ghost(i as nat));
            let ghost d2 = distances@;
            visit(grid, &mut distances, &mut next, cur, steps[2].1, dnext, Ghost(start), Ghost(i as nat));
            let ghost d3 = distances@;
            visit(grid, &mut distances, &mut next, cur, steps[3].1, dnext, Ghost(start), Ghost(i as nat));
            let ghost d4 = distances@;
            proof {
                lemma_keeps_trans(*grid, d0, d1, d2);
                lemma_keeps_trans(*grid, d0, d2, d3);
                lemma_keeps_trans(*grid, d0, d3, d4);
                lemma_keeps_trans(*grid, dmap_at_head, d0, d4);
                assert forall|nb: Coord| step_ok(*grid, cur, nb) implies entry(d4, nb) is Some by {
                    if nb.0 == cur.0 + 1 && nb.1 == cur.1 {
                        assert(nb == steps[0].1);
                        assert(entry(d1, nb) is Some);
                        assert(entry(d4, nb) == entry(d1, nb));
                    } else if nb.0 + 1 == cur.0 && nb.1 == cur.1 {
                        assert(nb == steps[1].1);
                        assert(entry(d2, nb) is Some);
                        assert(entry(d4, nb) == entry(d2, nb));
                    } else if nb.0 == cur.0 && nb.1 == cur.1 + 1 {
                        assert(nb == steps[2].1);
                        assert(entry(d3, nb) is Some);
                        assert(entry(d4, nb) == entry(d3, nb));
                    } else {
                        assert(nb.0 == cur.0 && nb.1 + 1 == cur.1);
                        assert(nb == steps[3].1);
                        assert(entry(d4, nb) is Some);
                    }
                }
                assert forall|jj: int, nb: Coord|
                    0 <= jj < j as int + 1 && #[trigger] step_ok(*grid, frontier@[jj], nb)
                    implies entry(d4, nb) is Some by {
                    if jj < j as int {
                        assert(entry(d0, nb) is Some);
                        assert(entry(d4, nb) == entry(d0, nb));
                    } else {
                        assert(frontier@[jj] == cur);
                    }
                }
            }
            j = j + 1;
        }
        proof {
            // the next frontier is exactly the layer at distance i + 1
            assert forall|cell: Coord|
                #![trigger in_list(next@, cell)]
                #![trigger dist_is(*grid, start, cell, (i as nat + 1) as nat)]
                in_list(next@, cell) <==> (grid.in_bounds(cell) && dist_is(
                *grid,
                start,
                cell,
                (i as nat + 1) as nat,
            )) by {
                if in_list(next@, cell) {
                    let jj = choose|jj: int| 0 <= jj < next@.len() && next@[jj] == cell;
                    assert(grid.in_bounds(cell));
                    assert(entry(distances@, cell) == Some(dnext));
                    assert(dist_is(*grid, start, cell, dnext as nat));
                }
                if grid.in_bounds(cell) && dist_is(*grid, start, cell, (i as nat + 1) as nat) {
                    lemma_pred(*grid, start, cell, (i as nat + 1) as nat);
                    let m = choose|m: Coord| #[trigger] step_ok(*grid, m, cell) && dist_is(
                        *grid,
                        start,
                        m,
                        i as nat,
                    );
                    lemma_dist_in_bounds(*grid, start, m, i as nat);
                    assert(in_list(frontier@, m));
                    let jj = choose|jj: int| 0 <= jj < frontier@.len() && frontier@[jj] == m;
                    assert(step_ok(*grid, frontier@[jj], cell));
                    assert(entry(distances@, cell) is Some);
                    let dv = entry(distances@, cell)->0;
                    assert(dist_is(*grid, start, cell, dv as nat));
                    lemma_dist_unique(*grid, start, cell, dv as nat, (i as nat + 1) as nat);
                    assert(entry(distances@, cell) == Some(dnext));
                    assert(in_list(next@, cell));
                }
            }
            assert(frontier_exact(*grid, start, next@, (i as nat + 1) as nat));
            // completeness rises to the new layer
            assert forall|cell: Coord, d: nat|
                grid.in_bounds(cell) && d <= i as nat + 1 && #[trigger] dist_is(
                    *grid,
                    start,
                    cell,
                    d,
                ) implies entry(distances@, cell) == Some(d as u32) by {
                if d <= i as nat {
                    assert(entry(dmap_at_head, cell) == Some(d as u32));
                    assert(entry(distances@, cell) == Some(d as u32));
                } else {
                    assert(d == i as nat + 1);
                    assert(in_list(next@, cell));
                }
            }
            // the layer index stays below the number of recorded cells
            if next@.len() > 0 {
                assert((dnext as int) < h * w - unset_count(distances@));
            }
            assert(unset_count(distances@) + next@.len() == unset0);
            assert(unset_count(distances@) <= unset0);
        }
        frontier = next;
        i = dnext;
    }
    proof {
        assert forall|cell: Coord| grid.in_bounds(cell) implies match entry(distances@, cell) {
            Some(d) => dist_is(*grid, start, cell, d as nat),
            None => forall|n: nat| !reach_in(*grid, start, cell, n),
        } by {
            match entry(distances@, cell) {
                Some(d) => {
                    assert(dist_is(*grid, start, cell, d as nat));
                },
                None => {
                    assert forall|n: nat| !reach_in(*grid, start, cell, n) by {
                        if reach_in(*grid, start, cell, n) {
                            lemma_min_reach(*grid, start, cell, n);
                            let d = choose|d: nat|
                                d <= n && #[trigger] dist_is(*grid, start, cell, d);
                            if d <= i as nat {
                                assert(entry(distances@, cell) == Some(d as u32));
                                assert(false);
                            } else {
                                lemma_layer_nonempty(*grid, start, cell, d, i as nat);
                                let c2 = choose|c2: Coord|
                                    #[trigger] dist_is(*grid, start, c2, i as nat)
                                        && grid.in_bounds(c2);
                                assert(in_list(frontier@, c2));
                                let jj = choose|jj: int|
                                    0 <= jj < frontier@.len() && frontier@[jj] == c2;
                                assert(false);
                            }
                        }
                    }
                },
            }
        }
    }
    distances
}


/// The minimum number of legal steps from `start` to `end`, or `None` when no
/// legal walk connects them.
pub fn shortest_path(grid: &Grid, start: Coord, end: Coord) -> (r: Option<u32>)
    requires
        grid.wf(),
        grid.in_bounds(start),
        grid.in_bounds(end),
        grid.height() * grid.width() <= u32::MAX,
    ensures
        match r {
            Some(d) => dist_is(*grid, start, end, d as nat),
            None => forall|n: nat| !reach_in(*grid, start, end, n),
        },
{
    let distances = distances_from(grid, start);
    proof {
        assert(entry(distances@, end) == distances@[end.0 as int]@[end.1 as int]);
    }
    distances[end.0][end.1]
}

/// Failure of the grid search.
#[derive(Clone, Copy, Debug, PartialEq, Eq, Structural)]
pub enum SearchError {
    /// No legal walk leads from the given start to the end cell.
    NoPathFromStart,
    /// No lowest-elevation cell has a legal walk to the end cell.
    NoPathFromLowest,
}

/// `v` is the least walk length to `end` over all lowest-elevation cells.
pub open spec fn min_dist_from_lowest(g: Grid, end: Coord, v: nat) -> bool {
    &&& exists|c: Coord|
        g.in_bounds(c) && g.elev(c) == 0 && #[trigger] dist_is(g, c, end, v)
    &&& forall|c: Coord, k: nat|
        g.in_bounds(c) && g.elev(c) == 0 && #[trigger] dist_is(g, c, end, k) ==> v <= k
}

/// Whether `cell` comes strictly before `(r, c)` in row-major order.
pub open spec fn scanned_before(cell: Coord, r: int, c: int) -> bool {
    (cell.0 as int) < r || ((cell.0 as int) == r && (cell.1 as int) < c)
}

/// Both answers of the elevation puzzle: the shortest walk from `start` to
/// `end`, and the shortest walk to `end` from any cell at the lowest
/// elevation.
pub fn day12(grid: &Grid, start: Coord, end: Coord) -> (res: Result<(u32, u32), SearchError>)
    requires
        grid.wf(),
        grid.in_bounds(start),
        grid.in_bounds(end),
        grid.height() * grid.width() <= u32::MAX,
    ensures
        match res {
            Ok(p) => {
                &&& dist_is(*grid, start, end, p.0 as nat)
                &&& min_dist_from_lowest(*grid, end, p.1 as nat)
            },
            Err(SearchError::NoPathFromStart) => forall|n: nat| !reach_in(*grid, start, end, n),
            Err(SearchError::NoPathFromLowest) => forall|c: Coord, n: nat|
                grid.in_bounds(c) && grid.elev(c) == 0 ==> !#[trigger] reach_in(*grid, c, end, n),
        },
{
    let part1 = match shortest_path(grid, start, end) {
        Some(d) => d,
        None => {
            return Err(SearchError::NoPathFromStart);
        },
    };
    let h = grid.cells.len();
    let w = grid.cells[0].len();
    let mut best: Option<u32> = None;
    let mut r: usize = 0;
    while r < h
        invariant
            grid.wf(),
            grid.in_bounds(end),
            h == grid.height(),
            w == grid.width(),
            grid.height() * grid.width() <= u32::MAX,
            r <= h,
            match best {
                Some(b) => {
                    &&& exists|c: Coord|
                        grid.in_bounds(c) && scanned_before(c, r as int, 0) && grid.elev(c) == 0
                            && #[trigger] dist_is(*grid, c, end, b as nat)
                    &&& forall|c: Coord, k: nat|
                        grid.in_bounds(c) && scanned_before(c, r as int, 0) && grid.elev(c) == 0
                            && #[trigger] dist_is(*grid, c, end, k) ==> b as nat <= k
                },
                None => forall|c: Coord, n: nat|
                    grid.in_bounds(c) && scanned_before(c, r as int, 0) && grid.elev(c) == 0
                        ==> !#[trigger] reach_in(*grid, c, end, n),
            },
        decreases h - r,
    {
        let mut c: usize = 0;
        while c < w
            invariant
                grid.wf(),
                grid.in_bounds(end),
                h == grid.height(),
                w == grid.width(),
                grid.height() * grid.width() <= u32::MAX,
                r < h,
                c <= w,
                match best {
                    Some(b) => {
                        &&& exists|cc: Coord|
                            grid.in_bounds(cc) && scanned_before(cc, r as int, c as int)
                                && grid.elev(cc) == 0 && #[trigger] dist_is(
                                *grid,
                                cc,
                                end,
                                b as nat,
                            )
                        &&& forall|cc: Coord, k: nat|
                            grid.in_bounds(cc) && scanned_before(cc, r as int, c as int)
                                && grid.elev(cc) == 0 && #[trigger] dist_is(*grid, cc, end, k)
                                ==> b as nat <= k
                    },
                    None => forall|cc: Coord, n: nat|
                        grid.in_bounds(cc) && scanned_before(cc, r as int, c as int) && grid.elev(
                            cc,
                        ) == 0 ==> !#[trigger] reach_in(*grid, cc, end, n),
                },
            decreases w - c,
        {
            if grid.cells[r][c] == 0 {
                let d_opt = shortest_path(grid, (r, c), end);
                proof {
                    assert(forall|cc: Coord|
                        scanned_before(cc, r as int, c as int + 1) && !scanned_before(
                            cc,
                            r as int,
                            c as int,
                        ) ==> cc == (r, c));
                }
                match d_opt {
                    Some(d) => {
                        match best {
                            Some(b) => {
                                if d < b {
                                    best = Some(d);
                                }
                            },
                            None => {
                                best = Some(d);
                            },
                        }
                    },
                    None => {},
                }
            } else {
                proof {
                    assert(forall|cc: Coord|
                        scanned_before(cc, r as int, c as int + 1) && !scanned_before(
                            cc,
                            r as int,
                            c as int,
                        ) ==> cc == (r, c));
                }
            }
            c = c + 1;
        }
        proof {
            assert(forall|cc: Coord|
                grid.in_bounds(cc) && scanned_before(cc, r as int + 1, 0) ==> scanned_before(
                    cc,
                    r as int,
                    w as int,
                ));
        }
        r = r + 1;
    }
    proof {
        assert(forall|cc: Coord|
            grid.in_bounds(cc) ==> scanned_before(cc, h as int, 0));
    }
    match best {
        Some(b) => {
            proof {
                let cc = choose|cc: Coord|
                    grid.in_bounds(cc) && scanned_before(cc, h as int, 0) && grid.elev(cc) == 0
                        && #[trigger] dist_is(*grid, cc, end, b as nat);
                assert(grid.in_bounds(cc) && grid.elev(cc) == 0 && dist_is(
                    *grid,
                    cc,
                    end,
                    b as nat,
                ));
                assert forall|c2: Coord, k: nat|
                    grid.in_bounds(c2) && grid.elev(c2) == 0 && #[trigger] dist_is(
                        *grid,
                        c2,
                        end,
                        k,
                    ) implies b as nat <= k by {
                    assert(scanned_before(c2, h as int, 0));
                }
                assert(min_dist_from_lowest(*grid, end, b as nat));
            }
            Ok((part1, b))
        },
        None => Err(SearchError::NoPathFromLowest),
    }
}

} // verus!
