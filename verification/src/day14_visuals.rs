//! The sand simulation driven one grain-step at a time, for animated
//! rendering: the cave keeps its dimensions beside its tiles, and falling
//! grains wait in a queue.

use std::collections::VecDeque;

use vstd::prelude::*;

verus! {

/// Grid coordinates, as `(column, depth)`.
pub type Coord = (usize, usize);

#[derive(Debug, Clone, Copy, PartialEq, Eq, Structural)]
pub enum Tile {
    Air,
    Rock,
    Sand,
    FlowingSand,
}

/// The cave with its dimensions, column by column.
pub struct Cave {
    pub dimensions: (usize, usize),
    pub tiles: Vec<Vec<Tile>>,
}

impl Cave {
    /// The tile at `(x, y)`.
    pub open spec fn spec_tile(self, x: int, y: int) -> Tile {
        self.tiles@[x]@[y]
    }

    /// The dimensions match the tile columns.
    pub open spec fn wf(self) -> bool {
        &&& self.tiles@.len() == self.dimensions.0
        &&& self.dimensions.0 > 0
        &&& self.dimensions.1 > 0
        &&& forall|x: int|
            0 <= x < self.tiles@.len() ==> (#[trigger] self.tiles@[x])@.len() == self.dimensions.1
    }

    pub open spec fn spec_in_bounds(self, c: Coord) -> bool {
        c.0 < self.dimensions.0 && c.1 < self.dimensions.1
    }

    /// A cave of the given width and height, all air.
    pub fn new(dimensions: (usize, usize)) -> (r: Cave)
        requires
            dimensions.0 > 0,
            dimensions.1 > 0,
        ensures
            r.wf(),
            r.dimensions == dimensions,
            forall|x: int, y: int|
                0 <= x < dimensions.0 && 0 <= y < dimensions.1 ==> #[trigger] r.spec_tile(x, y)
                    == Tile::Air,
    {
        let (width, height) = dimensions;
        let mut tiles: Vec<Vec<Tile>> = Vec::new();
        let mut x: usize = 0;
        while x < width
            invariant
                x <= width,
                tiles@.len() == x,
                forall|k: int|
                    0 <= k < x ==> (#[trigger] tiles@[k])@.len() == height && forall|y: int|
                        0 <= y < height ==> (#[trigger] tiles@[k]@[y]) == Tile::Air,
            decreases width - x,
        {
            let mut col: Vec<Tile> = Vec::new();
            let mut y: usize = 0;
            while y < height
                invariant
                    y <= height,
                    col@.len() == y,
                    forall|k: int| 0 <= k < y ==> (#[trigger] col@[k]) == Tile::Air,
                decreases height - y,
            {
                col.push(Tile::Air);
                y = y + 1;
            }
            tiles.push(col);
            x = x + 1;
        }
        Cave { dimensions, tiles }
    }

    pub fn width(&self) -> (r: usize)
        ensures
            r == self.dimensions.0,
    {
        self.dimensions.0
    }

    pub fn height(&self) -> (r: usize)
        ensures
            r == self.dimensions.1,
    {
        self.dimensions.1
    }

    /// Sets one tile.
    pub fn set_tile(&mut self, c: Coord, t: Tile)
        requires
            old(self).wf(),
            old(self).spec_in_bounds(c),
        ensures
            final(self).wf(),
            final(self).dimensions == old(self).dimensions,
            forall|x: int, y: int|
                0 <= x < old(self).dimensions.0 && 0 <= y < old(self).dimensions.1
                    ==> #[trigger] final(self).spec_tile(x, y) == if x == c.0 && y == c.1 {
                    t
                } else {
                    old(self).spec_tile(x, y)
                },
    {
        let ghost t0 = self.tiles@;
        self.tiles[c.0][c.1] = t;
        proof {
            assert(self.tiles@[c.0 as int]@ =~= t0[c.0 as int]@.update(c.1 as int, t));
            assert(self.tiles@ =~= t0.update(c.0 as int, self.tiles@[c.0 as int]));
            assert forall|x: int, y: int|
                0 <= x < old(self).dimensions.0 && 0 <= y < old(self).dimensions.1 implies
                #[trigger] self.spec_tile(x, y) == if x == c.0 && y == c.1 {
                t
            } else {
                old(self).spec_tile(x, y)
            } by {
                if x != c.0 {
                    assert(self.tiles@[x] == t0[x]);
                }
            }
        }
    }
}

/// Queues a new grain at the source when the source tile is free.
pub fn add_sand(cave: &Cave, source_pos: Coord, sand_grains: &mut VecDeque<Coord>)
    requires
        cave.wf(),
        cave.spec_in_bounds(source_pos),
    ensures
        final(sand_grains)@ == if cave.spec_tile(source_pos.0 as int, source_pos.1 as int)
            == Tile::Air {
            old(sand_grains)@.push(source_pos)
        } else {
            old(sand_grains)@
        },
{
    if matches!(cave.tiles[source_pos.0][source_pos.1], Tile::Air) {
        sand_grains.push_back(source_pos);
    }
}

/// How one grain of sand moves.
#[derive(Debug, Clone, Copy, PartialEq, Eq)]
pub enum SandMovement {
    Move(Coord),
    Rest,
    EndlessAbyss,
}

/// The single-step movement rule: fall straight, else down-left, else
/// down-right, else rest; the bottom row drops into the abyss.
pub open spec fn spec_sand_physics(cave: Cave, pos: Coord) -> SandMovement {
    let x = pos.0 as int;
    let y = pos.1 as int;
    if y == cave.dimensions.1 - 1 {
        SandMovement::EndlessAbyss
    } else if cave.spec_tile(x, y + 1) == Tile::Air {
        SandMovement::Move((pos.0, (pos.1 + 1) as usize))
    } else if x > 0 && cave.spec_tile(x - 1, y + 1) == Tile::Air {
        SandMovement::Move(((pos.0 - 1) as usize, (pos.1 + 1) as usize))
    } else if x < cave.dimensions.0 - 1 && cave.spec_tile(x + 1, y + 1) == Tile::Air {
        SandMovement::Move(((pos.0 + 1) as usize, (pos.1 + 1) as usize))
    } else {
        SandMovement::Rest
    }
}

/// One movement step of a falling grain.
pub fn sand_physics(cave: &Cave, pos: Coord) -> (r: SandMovement)
    requires
        cave.wf(),
        cave.spec_in_bounds(pos),
    ensures
        r == spec_sand_physics(*cave, pos),
{
    let (x, y) = pos;
    if y == cave.height() - 1 {
        SandMovement::EndlessAbyss
    } else if matches!(cave.tiles[x][y + 1], Tile::Air) {
        SandMovement::Move((x, y + 1))
    } else if x > 0 && matches!(cave.tiles[x - 1][y + 1], Tile::Air) {
        SandMovement::Move((x - 1, y + 1))
    } else if x < cave.width() - 1 && matches!(cave.tiles[x + 1][y + 1], Tile::Air) {
        SandMovement::Move((x + 1, y + 1))
    } else {
        SandMovement::Rest
    }
}

/// Advances the front grain of the queue by one step and reports what to
/// draw: the grain's new position and the tile it shows there.
pub fn process_sand(cave: &mut Cave, sand_grains: &mut VecDeque<Coord>) -> (r: Option<
    (Coord, Tile),
>)
    requires
        old(cave).wf(),
        forall|i: int|
            0 <= i < old(sand_grains)@.len() ==> old(cave).spec_in_bounds(
                #[trigger] old(sand_grains)@[i],
            ),
    ensures
        final(cave).wf(),
        final(cave).dimensions == old(cave).dimensions,
        forall|i: int|
            0 <= i < final(sand_grains)@.len() ==> final(cave).spec_in_bounds(
                #[trigger] final(sand_grains)@[i],
            ),
        old(sand_grains)@.len() == 0 ==> r is None && final(sand_grains)@ == old(sand_grains)@
            && final(cave).tiles@ == old(cave).tiles@,
        old(sand_grains)@.len() > 0 ==> ({
            let grain = old(sand_grains)@[0];
            match spec_sand_physics(*old(cave), grain) {
                SandMovement::Move(p) => {
                    &&& r == Some((p, Tile::FlowingSand))
                    &&& final(sand_grains)@ == seq![p] + old(sand_grains)@
                    &&& final(cave).tiles@ == old(cave).tiles@
                },
                SandMovement::Rest => {
                    &&& r == Some((grain, Tile::Sand))
                    &&& final(sand_grains)@ == old(sand_grains)@.skip(1)
                    &&& forall|x: int, y: int|
                        0 <= x < old(cave).dimensions.0 && 0 <= y < old(cave).dimensions.1
                            ==> #[trigger] final(cave).spec_tile(x, y) == if x == grain.0 && y
                            == grain.1 {
                            Tile::Sand
                        } else {
                            old(cave).spec_tile(x, y)
                        }
                },
                SandMovement::EndlessAbyss => {
                    &&& r is None
                    &&& final(sand_grains)@ == old(sand_grains)@.skip(1)
                    &&& final(cave).tiles@ == old(cave).tiles@
                },
            }
        }),
{
    if sand_grains.len() == 0 {
        return None;
    }
    let grain = sand_grains[0];
    let result = sand_physics(cave, grain);
    match result {
        SandMovement::Move(new_pos) => {
            sand_grains.push_front(new_pos);
            proof {
                assert(sand_grains@ =~= seq![new_pos] + old(sand_grains)@);
            }
            Some((new_pos, Tile::FlowingSand))
        },
        SandMovement::Rest => {
            cave.set_tile(grain, Tile::Sand);
            sand_grains.pop_front();
            Some((grain, Tile::Sand))
        },
        SandMovement::EndlessAbyss => {
            sand_grains.pop_front();
            None
        },
    }
}

/// Turns the whole bottom row to rock.
pub fn add_bedrock(cave: &mut Cave)
    requires
        old(cave).wf(),
    ensures
        final(cave).wf(),
        final(cave).dimensions == old(cave).dimensions,
        forall|x: int, y: int|
            0 <= x < old(cave).dimensions.0 && 0 <= y < old(cave).dimensions.1
                ==> #[trigger] final(cave).spec_tile(x, y) == if y == old(cave).dimensions.1 - 1 {
                Tile::Rock
            } else {
                old(cave).spec_tile(x, y)
            },
{
    let max_y = cave.height() - 1;
    let w = cave.width();
    let mut x: usize = 0;
    while x < w
        invariant
            cave.wf(),
            cave.dimensions == old(cave).dimensions,
            w == cave.dimensions.0,
            max_y == cave.dimensions.1 - 1,
            x <= w,
            forall|x0: int, y0: int|
                0 <= x0 < old(cave).dimensions.0 && 0 <= y0 < old(cave).dimensions.1
                    ==> #[trigger] cave.spec_tile(x0, y0) == if y0 == max_y && x0 < x {
                    Tile::Rock
                } else {
                    old(cave).spec_tile(x0, y0)
                },
        decreases w - x,
    {
        cave.set_tile((x, max_y), Tile::Rock);
        x = x + 1;
    }
}

} // verus!
