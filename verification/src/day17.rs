//! Rocks falling in a narrow chamber.
//!
//! Shapes of rock are pushed sideways by wind and fall one row at a time
//! until they would overlap the walls, the floor, or settled rock; then they
//! stop and become part of the tower.

use vstd::prelude::*;

verus! {

/// The chamber is seven units wide.
pub const TOWER_WIDTH: isize = 7;

/// A position in the chamber: `x` across, `y` up from the floor.
#[derive(Clone, Copy, Debug, PartialEq, Eq, Structural, Hash)]
pub struct Coord {
    pub x: isize,
    pub y: isize,
}

impl Coord {
    pub fn add(self, rhs: Coord) -> (r: Coord)
        requires
            isize::MIN <= self.x + rhs.x <= isize::MAX,
            isize::MIN <= self.y + rhs.y <= isize::MAX,
        ensures
            r.x == self.x + rhs.x,
            r.y == self.y + rhs.y,
    {
        Coord { x: self.x + rhs.x, y: self.y + rhs.y }
    }
}

/// The two directions the wind blows from.
#[derive(Debug, Clone, Copy, PartialEq, Eq, Structural)]
pub enum Wind {
    Left,
    Right,
}

impl Wind {
    /// The unit offset the wind pushes a shape by.
    pub open spec fn spec_offset(self) -> (int, int) {
        match self {
            Wind::Left => (-1int, 0int),
            Wind::Right => (1int, 0int),
        }
    }

    pub fn offset(&self) -> (r: Coord)
        ensures
            (r.x as int, r.y as int) == self.spec_offset(),
    {
        match *self {
            Wind::Left => Coord { x: -1, y: 0 },
            Wind::Right => Coord { x: 1, y: 0 },
        }
    }
}

/// A falling shape: the positions of its rock cells.
pub type Shape = Vec<Coord>;

/// The settled rock, one row of seven cells per unit of height.
pub struct Tower {
    pub rows: Vec<Vec<bool>>,
}

impl Tower {
    /// Every row has one cell per unit of width.
    pub open spec fn wf(self) -> bool {
        forall|i: int| 0 <= i < self.rows@.len() ==> (#[trigger] self.rows@[i])@.len() == 7
    }

    /// Whether the cell at `(x, y)` holds settled rock.
    pub open spec fn spec_is_rock(self, x: int, y: int) -> bool {
        0 <= y < self.rows@.len() && 0 <= x < 7 && self.rows@[y]@[x]
    }

    pub fn with_height_capacity(capacity: usize) -> (t: Tower)
        ensures
            t.rows@.len() == 0,
            t.wf(),
    {
        Tower { rows: Vec::with_capacity(capacity) }
    }

    pub fn is_rock(&self, c: &Coord) -> (r: bool)
        requires
            self.wf(),
            0 <= c.x < 7,
            c.y >= 0,
        ensures
            r == self.spec_is_rock(c.x as int, c.y as int),
    {
        (c.y as usize) < self.rows.len() && self.rows[c.y as usize][c.x as usize]
    }

    pub fn height(&self) -> (r: isize)
        requires
            self.rows@.len() <= isize::MAX,
        ensures
            r == self.rows@.len(),
    {
        self.rows.len() as isize
    }

    /// Marks one cell as rock, adding a fresh row when the cell sits just
    /// above the current top.
    pub fn insert(&mut self, c: &Coord)
        requires
            old(self).wf(),
            0 <= c.x < 7,
            0 <= c.y <= old(self).rows@.len(),
            old(self).rows@.len() < isize::MAX,
        ensures
            final(self).wf(),
            c.y < old(self).rows@.len() ==> {
                &&& final(self).rows@.len() == old(self).rows@.len()
                &&& final(self).rows@[c.y as int]@ == old(self).rows@[c.y as int]@.update(
                    c.x as int,
                    true,
                )
                &&& forall|i: int|
                    0 <= i < old(self).rows@.len() && i != c.y ==> (#[trigger] final(self).rows@[i])@ == old(self).rows@[i]@
            },
            c.y == old(self).rows@.len() ==> {
                &&& final(self).rows@.len() == old(self).rows@.len() + 1
                &&& (forall|x: int|
                    0 <= x < 7 ==> (#[trigger] final(self).rows@[c.y as int]@[x]) == (x == c.x))
                &&& forall|i: int|
                    0 <= i < old(self).rows@.len() ==> (#[trigger] final(self).rows@[i])@ == old(
                        self,
                    ).rows@[i]@
            },
    {
        let ghost rows0 = self.rows@;
        let rows_to_insert: isize = c.y - self.height() + 1;
        if rows_to_insert > 0 {
            let mut fresh: Vec<bool> = Vec::new();
            let mut k: usize = 0;
            while k < 7
                invariant
                    k <= 7,
                    fresh@.len() == k,
                    forall|j: int| 0 <= j < k ==> !(#[trigger] fresh@[j]),
                decreases 7 - k,
            {
                fresh.push(false);
                k = k + 1;
            }
            self.rows.push(fresh);
        }
        let ghost rows1 = self.rows@;
        self.rows[c.y as usize][c.x as usize] = true;
        proof {
            assert(self.rows@[c.y as int]@ =~= rows1[c.y as int]@.update(c.x as int, true));
            assert(self.rows@ =~= rows1.update(c.y as int, self.rows@[c.y as int]));
            if c.y < rows0.len() {
                assert forall|i: int|
                    0 <= i < rows0.len() && i != c.y implies #[trigger] self.rows@[i]@
                    == rows0[i]@ by {
                    assert(self.rows@[i] == rows0[i]);
                }
            } else {
                assert forall|i: int|
                    0 <= i < rows0.len() implies #[trigger] self.rows@[i]@ == rows0[i]@ by {
                    assert(self.rows@[i] == rows0[i]);
                }
            }
        }
    }
}

/// Whether `(x, y)` lies outside the chamber: in a wall or under the floor.
pub open spec fn hits_wall(x: int, y: int) -> bool {
    y < 0 || x < 0 || x > 6
}

/// Whether the shape, moved by `off`, overlaps a wall, the floor, or rock.
pub open spec fn shape_collides(tower: Tower, shape: Seq<Coord>, off: (int, int)) -> bool {
    exists|i: int|
        0 <= i < shape.len() && {
            let x = (#[trigger] shape[i]).x + off.0;
            let y = shape[i].y + off.1;
            hits_wall(x, y) || tower.spec_is_rock(x, y)
        }
}

/// All coordinates of the shape, moved by `off`, stay within `isize`.
pub open spec fn shape_fits(shape: Seq<Coord>, off: (int, int)) -> bool {
    forall|i: int|
        0 <= i < shape.len() ==> {
            &&& isize::MIN <= (#[trigger] shape[i]).x + off.0 <= isize::MAX
            &&& isize::MIN <= shape[i].y + off.1 <= isize::MAX
        }
}

/// The shape at its entry position: two above the tower's top.
pub fn spawn(shape: &Shape, height: isize) -> (r: Shape)
    requires
        shape_fits(shape@, (0, height as int)),
    ensures
        r@.len() == shape@.len(),
        forall|i: int|
            0 <= i < shape@.len() ==> (#[trigger] r@[i]).x == shape@[i].x && r@[i].y == shape@[i].y
                + height,
{
    let mut out: Vec<Coord> = Vec::new();
    let n = shape.len();
    let mut i: usize = 0;
    while i < n
        invariant
            n == shape@.len(),
            i <= n,
            shape_fits(shape@, (0, height as int)),
            out@.len() == i,
            forall|k: int|
                0 <= k < i ==> (#[trigger] out@[k]).x == shape@[k].x && out@[k].y == shape@[k].y
                    + height,
        decreases n - i,
    {
        let c = shape[i];
        out.push(c.add(Coord { x: 0, y: height }));
        i = i + 1;
    }
    out
}

/// Whether the shape, moved by `offset`, would overlap anything.
pub fn collides(shape: &Shape, offset: Coord, tower: &Tower) -> (r: bool)
    requires
        tower.wf(),
        shape_fits(shape@, (offset.x as int, offset.y as int)),
    ensures
        r == shape_collides(*tower, shape@, (offset.x as int, offset.y as int)),
{
    let n = shape.len();
    let mut i: usize = 0;
    while i < n
        invariant
            n == shape@.len(),
            i <= n,
            tower.wf(),
            shape_fits(shape@, (offset.x as int, offset.y as int)),
            forall|k: int|
                0 <= k < i ==> {
                    let x = (#[trigger] shape@[k]).x + offset.x;
                    let y = shape@[k].y + offset.y;
                    !hits_wall(x as int, y as int) && !tower.spec_is_rock(x as int, y as int)
                },
        decreases n - i,
    {
        let c = shape[i].add(offset);
        if c.y < 0 || c.x < 0 || c.x > TOWER_WIDTH - 1 {
            return true;
        }
        if tower.is_rock(&c) {
            return true;
        }
        i = i + 1;
    }
    proof {
        if shape_collides(*tower, shape@, (offset.x as int, offset.y as int)) {
            let k = choose|k: int|
                0 <= k < shape@.len() && {
                    let x = (#[trigger] shape@[k]).x + offset.x;
                    let y = shape@[k].y + offset.y;
                    hits_wall(x as int, y as int) || tower.spec_is_rock(x as int, y as int)
                };
            assert(false);
        }
    }
    false
}

/// Moves every cell of the shape by `offset`.
pub fn move_shape(shape: &mut Shape, offset: Coord)
    requires
        shape_fits(old(shape)@, (offset.x as int, offset.y as int)),
    ensures
        final(shape)@.len() == old(shape)@.len(),
        forall|i: int|
            0 <= i < old(shape)@.len() ==> (#[trigger] final(shape)@[i]).x == old(shape)@[i].x
                + offset.x && final(shape)@[i].y == old(shape)@[i].y + offset.y,
{
    let n = shape.len();
    let mut i: usize = 0;
    while i < n
        invariant
            n == shape@.len(),
            n == old(shape)@.len(),
            i <= n,
            shape_fits(old(shape)@, (offset.x as int, offset.y as int)),
            forall|k: int| i <= k < n ==> #[trigger] shape@[k] == old(shape)@[k],
            forall|k: int|
                0 <= k < i ==> (#[trigger] shape@[k]).x == old(shape)@[k].x + offset.x
                    && shape@[k].y == old(shape)@[k].y + offset.y,
        decreases n - i,
    {
        let c = shape[i];
        let moved = c.add(offset);
        shape[i] = moved;
        i = i + 1;
    }
}

/// Pushes the shape sideways by the next wind, when nothing blocks it, and
/// advances the wind index cyclically.
pub fn apply_wind(shape: &mut Shape, tower: &Tower, wind_index: &mut usize, winds: &Vec<Wind>)
    requires
        tower.wf(),
        winds@.len() > 0,
        *old(wind_index) < winds@.len(),
        shape_fits(old(shape)@, winds@[*old(wind_index) as int].spec_offset()),
    ensures
        *final(wind_index) == (*old(wind_index) + 1) % (winds@.len() as int),
        ({
            let off = winds@[*old(wind_index) as int].spec_offset();
            if !shape_collides(*tower, old(shape)@, off) {
                final(shape)@.len() == old(shape)@.len() && forall|i: int|
                    0 <= i < old(shape)@.len() ==> (#[trigger] final(shape)@[i]).x == old(
                        shape,
                    )@[i].x + off.0 && final(shape)@[i].y == old(shape)@[i].y + off.1
            } else {
                final(shape)@ == old(shape)@
            }
        }),
{
    let wind = winds[*wind_index];
    let wlen = winds.len();
    let offset = wind.offset();
    if !collides(shape, offset, tower) {
        move_shape(shape, offset);
    }
    *wind_index = (*wind_index + 1) % wlen;
}

/// Lets the shape fall one row when nothing blocks it; reports whether it
/// fell.
pub fn fall(shape: &mut Shape, tower: &Tower) -> (r: bool)
    requires
        tower.wf(),
        shape_fits(old(shape)@, (0, -1)),
    ensures
        r == !shape_collides(*tower, old(shape)@, (0, -1)),
        if r {
            final(shape)@.len() == old(shape)@.len() && forall|i: int|
                0 <= i < old(shape)@.len() ==> (#[trigger] final(shape)@[i]).x == old(
                    shape,
                )@[i].x && final(shape)@[i].y == old(shape)@[i].y - 1
        } else {
            final(shape)@ == old(shape)@
        },
{
    let offset = Coord { x: 0, y: -1 };
    let falls = !collides(shape, offset, tower);
    if falls {
        move_shape(shape, offset);
    }
    falls
}

/// The tower height after the first `k` cells of the shape are inserted.
pub open spec fn len_after(l: nat, shape: Seq<Coord>, k: int) -> nat
    decreases k,
{
    if k <= 0 {
        l
    } else {
        let l2 = len_after(l, shape, k - 1);
        if shape[k - 1].y == l2 {
            l2 + 1
        } else {
            l2
        }
    }
}

/// Every cell of the shape lands inside the walls and at most one row above
/// the tower as it has grown so far.
pub open spec fn stop_ok(tower: Tower, shape: Seq<Coord>) -> bool {
    forall|k: int|
        0 <= k < shape.len() ==> {
            &&& 0 <= (#[trigger] shape[k]).x < 7
            &&& 0 <= shape[k].y <= len_after(tower.rows@.len(), shape, k)
        }
}

/// Settles the shape: afterwards a cell is rock exactly when it was rock
/// before or the shape covers it.
pub fn stop_shape(shape: &Shape, tower: &mut Tower)
    requires
        old(tower).wf(),
        stop_ok(*old(tower), shape@),
        old(tower).rows@.len() + shape@.len() < isize::MAX,
    ensures
        final(tower).wf(),
        forall|x: int, y: int|
            #![trigger final(tower).spec_is_rock(x, y)]
            final(tower).spec_is_rock(x, y) <==> (old(tower).spec_is_rock(x, y) || exists|i: int|
                0 <= i < shape@.len() && ((#[trigger] shape@[i]).x == x && shape@[i].y == y)),
{
    let n = shape.len();
    let mut k: usize = 0;
    while k < n
        invariant
            n == shape@.len(),
            k <= n,
            tower.wf(),
            stop_ok(*old(tower), shape@),
            old(tower).rows@.len() + shape@.len() < isize::MAX,
            tower.rows@.len() == len_after(old(tower).rows@.len(), shape@, k as int),
            old(tower).rows@.len() <= tower.rows@.len() <= old(tower).rows@.len() + k,
            forall|x: int, y: int|
                #![trigger tower.spec_is_rock(x, y)]
                tower.spec_is_rock(x, y) <==> (old(tower).spec_is_rock(x, y) || exists|i: int|
                    0 <= i < k && ((#[trigger] shape@[i]).x == x && shape@[i].y == y)),
        decreases n - k,
    {
        let c = shape[k];
        let ghost t0 = *tower;
        tower.insert(&c);
        proof {
            assert forall|x: int, y: int|
                #![trigger tower.spec_is_rock(x, y)]
                tower.spec_is_rock(x, y) <==> (old(tower).spec_is_rock(x, y) || exists|i: int|
                    0 <= i < k as int + 1 && ((#[trigger] shape@[i]).x == x && shape@[i].y
                        == y)) by {
                if tower.spec_is_rock(x, y) {
                    if !(x == c.x && y == c.y) {
                        assert(t0.spec_is_rock(x, y));
                    } else {
                        assert(shape@[k as int].x == x && shape@[k as int].y == y);
                    }
                }
                if t0.spec_is_rock(x, y) {
                    assert(tower.spec_is_rock(x, y));
                }
                if exists|i: int|
                    0 <= i < k as int + 1 && ((#[trigger] shape@[i]).x == x && shape@[i].y == y) {
                    let i = choose|i: int|
                        0 <= i < k as int + 1 && ((#[trigger] shape@[i]).x == x && shape@[i].y
                            == y);
                    if i < k {
                        assert(t0.spec_is_rock(x, y));
                        assert(tower.spec_is_rock(x, y));
                    } else {
                        assert(tower.spec_is_rock(c.x as int, c.y as int));
                    }
                }
            }
        }
        k = k + 1;
    }
}

} // verus!
