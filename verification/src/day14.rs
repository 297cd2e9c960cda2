//! Falling sand in a cave of rock.
//!
//! A grain enters at the source and falls: straight down when free, else
//! diagonally down-left, else down-right, else it rests.  A grain that
//! reaches the bottom row falls into the abyss; a blocked source admits no
//! further grain.

use vstd::prelude::*;

verus! {

/// Grid coordinates, as `(column, depth)`.
pub type Coord = (usize, usize);

#[derive(Debug, Clone, Copy, PartialEq, Eq, Structural)]
pub enum Tile {
    Air,
    Rock,
    Sand,
}

/// The cave, column by column.
pub type Cave = Vec<Vec<Tile>>;

/// The tile at `(x, y)`.
pub open spec fn tile(cave: Seq<Vec<Tile>>, x: int, y: int) -> Tile {
    cave[x]@[y]
}

/// Non-empty columns, all of one height.
pub open spec fn cave_wf(cave: Seq<Vec<Tile>>) -> bool {
    &&& cave.len() > 0
    &&& cave[0]@.len() > 0
    &&& forall|x: int| 0 <= x < cave.len() ==> (#[trigger] cave[x])@.len() == cave[0]@.len()
}

pub open spec fn cave_in_bounds(cave: Seq<Vec<Tile>>, c: Coord) -> bool {
    c.0 < cave.len() && c.1 < cave[0]@.len()
}

/// How one grain of sand at `pos` moves, with the source block checked
/// first.
#[derive(Debug, Clone, Copy, PartialEq, Eq)]
pub enum SandMovement {
    Move(Coord),
    Rest,
    EndlessAbyss,
    SourceBlocked,
}

/// The single-step movement rule.
pub open spec fn spec_sand_physics(cave: Seq<Vec<Tile>>, pos: Coord, source: Coord) -> SandMovement {
    let x = pos.0 as int;
    let y = pos.1 as int;
    if tile(cave, source.0 as int, source.1 as int) != Tile::Air {
        SandMovement::SourceBlocked
    } else if y == cave[0]@.len() - 1 {
        SandMovement::EndlessAbyss
    } else if tile(cave, x, y + 1) == Tile::Air {
        SandMovement::Move((pos.0, (pos.1 + 1) as usize))
    } else if x > 0 && tile(cave, x - 1, y + 1) == Tile::Air {
        SandMovement::Move(((pos.0 - 1) as usize, (pos.1 + 1) as usize))
    } else if x < cave.len() - 1 && tile(cave, x + 1, y + 1) == Tile::Air {
        SandMovement::Move(((pos.0 + 1) as usize, (pos.1 + 1) as usize))
    } else {
        SandMovement::Rest
    }
}

/// Where a grain released at `pos` ends, and how.
pub open spec fn spec_settle(cave: Seq<Vec<Tile>>, pos: Coord, source: Coord) -> (
    SandMovement,
    Coord,
)
    recommends
        cave_wf(cave),
        cave_in_bounds(cave, pos),
    decreases cave[0]@.len() - pos.1,
{
    match spec_sand_physics(cave, pos, source) {
        SandMovement::Move(p) => if pos.1 < p.1 <= cave[0]@.len() - 1 {
            spec_settle(cave, p, source)
        } else {
            (SandMovement::Rest, p)
        },
        m => (m, pos),
    }
}

/// One movement step of a falling grain.
pub fn sand_physics(cave: &Cave, pos: Coord, source_pos: Coord) -> (r: SandMovement)
    requires
        cave_wf(cave@),
        cave_in_bounds(cave@, pos),
        cave_in_bounds(cave@, source_pos),
    ensures
        r == spec_sand_physics(cave@, pos, source_pos),
{
    let x = pos.0;
    let y = pos.1;
    if cave[source_pos.0][source_pos.1] != Tile::Air {
        SandMovement::SourceBlocked
    } else if y == cave[0].len() - 1 {
        SandMovement::EndlessAbyss
    } else if cave[x][y + 1] == Tile::Air {
        SandMovement::Move((x, y + 1))
    } else if x > 0 && cave[x - 1][y + 1] == Tile::Air {
        SandMovement::Move((x - 1, y + 1))
    } else if x < cave.len() - 1 && cave[x + 1][y + 1] == Tile::Air {
        SandMovement::Move((x + 1, y + 1))
    } else {
        SandMovement::Rest
    }
}

/// Releases one grain at the source and lets it fall until it rests, falls
/// off, or finds the source blocked.  Returns whether the cave accepted the
/// grain.
pub fn add_sand(cave: &mut Cave, source_pos: Coord) -> (r: bool)
    requires
        cave_wf(old(cave)@),
        cave_in_bounds(old(cave)@, source_pos),
    ensures
        cave_wf(final(cave)@),
        ({
            let (m, p) = spec_settle(old(cave)@, source_pos, source_pos);
            &&& r == (m != SandMovement::EndlessAbyss && m != SandMovement::SourceBlocked)
            &&& final(cave)@.len() == old(cave)@.len()
            &&& forall|x: int|
                0 <= x < old(cave)@.len() ==> (#[trigger] final(cave)@[x])@.len() == old(
                    cave,
                )@[x]@.len()
            &&& (m is Rest ==> cave_in_bounds(old(cave)@, p) && forall|x: int, y: int|
                0 <= x < old(cave)@.len() && 0 <= y < old(cave)@[x]@.len() ==> #[trigger] tile(
                    final(cave)@,
                    x,
                    y,
                ) == if x == p.0 && y == p.1 {
                    Tile::Sand
                } else {
                    tile(old(cave)@, x, y)
                })
            &&& (!(m is Rest) ==> final(cave)@ == old(cave)@)
        }),
{
    let mut sand_pos = source_pos;
    let height = cave[0].len();
    let mut result = sand_physics(cave, sand_pos, source_pos);
    while matches!(result, SandMovement::Move(_))
        invariant
            height == cave@[0]@.len(),
            cave_wf(cave@),
            cave@ == old(cave)@,
            cave_in_bounds(cave@, sand_pos),
            cave_in_bounds(cave@, source_pos),
            result == spec_sand_physics(cave@, sand_pos, source_pos),
            spec_settle(cave@, sand_pos, source_pos) == spec_settle(cave@, source_pos, source_pos),
        decreases cave@[0]@.len() - sand_pos.1,
    {
        let new_pos = match result {
            SandMovement::Move(p) => p,
            _ => sand_pos,
        };
        proof {
            assert(spec_sand_physics(cave@, sand_pos, source_pos) is Move);
            assert(result == SandMovement::Move(new_pos));
            assert(sand_pos.1 + 1 <= usize::MAX);
            assert(new_pos.1 == sand_pos.1 + 1);
            assert(new_pos.1 <= cave@[0]@.len() - 1);
            assert(spec_settle(cave@, sand_pos, source_pos) == spec_settle(
                cave@,
                new_pos,
                source_pos,
            ));
        }
        sand_pos = new_pos;
        result = sand_physics(cave, sand_pos, source_pos);
    }
    proof {
        assert(spec_settle(cave@, sand_pos, source_pos) == (result, sand_pos));
    }
    if matches!(result, SandMovement::Rest) {
        let ghost cave0 = cave@;
        cave[sand_pos.0][sand_pos.1] = Tile::Sand;
        proof {
            assert(cave@[sand_pos.0 as int]@ =~= cave0[sand_pos.0 as int]@.update(
                sand_pos.1 as int,
                Tile::Sand,
            ));
            assert(cave@ =~= cave0.update(sand_pos.0 as int, cave@[sand_pos.0 as int]));
            assert forall|x: int, y: int|
                0 <= x < cave0.len() && 0 <= y < cave0[x]@.len() implies #[trigger] tile(
                cave@,
                x,
                y,
            ) == if x == sand_pos.0 && y == sand_pos.1 {
                Tile::Sand
            } else {
                tile(cave0, x, y)
            } by {
                if x != sand_pos.0 {
                    assert(cave@[x] == cave0[x]);
                }
            }
        }
    }
    match result {
        SandMovement::EndlessAbyss | SandMovement::SourceBlocked => false,
        _ => true,
    }
}

/// Turns the whole bottom row to rock.
pub fn add_bedrock(cave: &mut Cave)
    requires
        cave_wf(old(cave)@),
    ensures
        cave_wf(final(cave)@),
        final(cave)@.len() == old(cave)@.len(),
        forall|x: int|
            0 <= x < old(cave)@.len() ==> (#[trigger] final(cave)@[x])@ == old(
                cave,
            )@[x]@.update(old(cave)@[0]@.len() - 1, Tile::Rock),
{
    let max_y = cave[0].len() - 1;
    let n = cave.len();
    let mut x: usize = 0;
    while x < n
        invariant
            cave_wf(cave@),
            n == cave@.len(),
            x <= n,
            max_y == old(cave)@[0]@.len() - 1,
            cave@[0]@.len() == old(cave)@[0]@.len(),
            forall|k: int|
                0 <= k < x ==> (#[trigger] cave@[k])@ == old(cave)@[k]@.update(
                    old(cave)@[0]@.len() - 1,
                    Tile::Rock,
                ),
            forall|k: int| x <= k < n ==> #[trigger] cave@[k]@ == old(cave)@[k]@,
        decreases n - x,
    {
        let ghost cave0 = cave@;
        cave[x][max_y] = Tile::Rock;
        proof {
            assert(cave@[x as int]@ =~= cave0[x as int]@.update(max_y as int, Tile::Rock));
            assert(cave0[x as int]@ == old(cave)@[x as int]@);
            assert forall|k: int| 0 <= k < n && k != x implies cave@[k] == cave0[k] by {}
        }
        x = x + 1;
    }
}

} // verus!
