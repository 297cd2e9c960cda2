//! Surface area of a lava droplet made of unit cubes.

use vstd::prelude::*;

verus! {

/// A cube position in space.
#[derive(Debug, PartialEq, Eq, Hash, Clone, Copy, Structural)]
pub struct Coord {
    pub x: isize,
    pub y: isize,
    pub z: isize,
}

impl Coord {
    pub fn add(self, rhs: Coord) -> (r: Coord)
        requires
            isize::MIN <= self.x + rhs.x <= isize::MAX,
            isize::MIN <= self.y + rhs.y <= isize::MAX,
            isize::MIN <= self.z + rhs.z <= isize::MAX,
        ensures
            r.x == self.x + rhs.x,
            r.y == self.y + rhs.y,
            r.z == self.z + rhs.z,
    {
        Coord { x: self.x + rhs.x, y: self.y + rhs.y, z: self.z + rhs.z }
    }
}

/// What a recorded cube is made of.
#[derive(Debug, PartialEq, Eq, Hash, Clone, Copy, Structural)]
pub enum Matter {
    Lava,
    ExteriorAir,
}

/// The recorded cubes, each position at most once.
pub type CubeMap = Vec<(Coord, Matter)>;

/// Absolute value of a mathematical integer.
pub open spec fn abs(x: int) -> int {
    if x < 0 {
        -x
    } else {
        x
    }
}

/// Whether two cubes share a face.
pub open spec fn touches(a: Coord, b: Coord) -> bool {
    abs(a.x - b.x) + abs(a.y - b.y) + abs(a.z - b.z) == 1
}

/// Coordinates small enough for the distance arithmetic.
pub open spec fn small(c: Coord) -> bool {
    &&& -0x0800_0000 <= c.x <= 0x0800_0000
    &&& -0x0800_0000 <= c.y <= 0x0800_0000
    &&& -0x0800_0000 <= c.z <= 0x0800_0000
}

pub open spec fn all_small(cubes: Seq<(Coord, Matter)>) -> bool {
    forall|i: int| 0 <= i < cubes.len() ==> small((#[trigger] cubes[i]).0)
}

/// How many recorded cubes share a face with `c`.
pub open spec fn spec_count_touching(cubes: Seq<(Coord, Matter)>, c: Coord) -> int
    decreases cubes.len(),
{
    if cubes.len() == 0 {
        0
    } else {
        spec_count_touching(cubes.drop_last(), c) + if touches(cubes.last().0, c) {
            1int
        } else {
            0int
        }
    }
}

/// How many recorded exterior-air cubes share a face with `c`.
pub open spec fn spec_count_touching_air(cubes: Seq<(Coord, Matter)>, c: Coord) -> int
    decreases cubes.len(),
{
    if cubes.len() == 0 {
        0
    } else {
        spec_count_touching_air(cubes.drop_last(), c) + if touches(cubes.last().0, c)
            && cubes.last().1 == Matter::ExteriorAir {
            1int
        } else {
            0int
        }
    }
}

fn is_touching(a: &Coord, b: &Coord) -> (r: bool)
    requires
        small(*a),
        small(*b),
    ensures
        r == touches(*a, *b),
{
    let dx = if a.x >= b.x {
        a.x - b.x
    } else {
        b.x - a.x
    };
    let dy = if a.y >= b.y {
        a.y - b.y
    } else {
        b.y - a.y
    };
    let dz = if a.z >= b.z {
        a.z - b.z
    } else {
        b.z - a.z
    };
    dx + dy + dz == 1
}

/// Counts the recorded cubes that share a face with `cube`, whatever they
/// are made of.
pub fn count_neighboring_lava(cube: &Coord, cubes: &CubeMap) -> (r: usize)
    requires
        small(*cube),
        all_small(cubes@),
    ensures
        r == spec_count_touching(cubes@, *cube),
{
    let n = cubes.len();
    let mut count: usize = 0;
    let mut i: usize = 0;
    while i < n
        invariant
            n == cubes@.len(),
            i <= n,
            small(*cube),
            all_small(cubes@),
            count == spec_count_touching(cubes@.take(i as int), *cube),
            count <= i,
        decreases n - i,
    {
        proof {
            assert(cubes@.take(i as int + 1).drop_last() =~= cubes@.take(i as int));
            assert(cubes@.take(i as int + 1).last() == cubes@[i as int]);
        }
        let c = cubes[i].0;
        if is_touching(&c, cube) {
            count = count + 1;
        }
        i = i + 1;
    }
    proof {
        assert(cubes@.take(n as int) =~= cubes@);
    }
    count
}

/// Counts the recorded exterior-air cubes that share a face with `cube`.
pub fn count_neighboring_air(cube: &Coord, cubes: &CubeMap) -> (r: usize)
    requires
        small(*cube),
        all_small(cubes@),
    ensures
        r == spec_count_touching_air(cubes@, *cube),
{
    let n = cubes.len();
    let mut count: usize = 0;
    let mut i: usize = 0;
    while i < n
        invariant
            n == cubes@.len(),
            i <= n,
            small(*cube),
            all_small(cubes@),
            count == spec_count_touching_air(cubes@.take(i as int), *cube),
            count <= i,
        decreases n - i,
    {
        proof {
            assert(cubes@.take(i as int + 1).drop_last() =~= cubes@.take(i as int));
            assert(cubes@.take(i as int + 1).last() == cubes@[i as int]);
        }
        let c = cubes[i].0;
        let m = cubes[i].1;
        if matches!(m, Matter::ExteriorAir) {
            if is_touching(&c, cube) {
                count = count + 1;
            }
        }
        i = i + 1;
    }
    proof {
        assert(cubes@.take(n as int) =~= cubes@);
    }
    count
}

/// One of the three coordinate axes.
#[derive(Debug, Clone, Copy, PartialEq, Eq, Structural)]
pub enum Axis {
    X,
    Y,
    Z,
}

/// The chosen coordinate of a position.
pub open spec fn axis_of(c: Coord, axis: Axis) -> int {
    match axis {
        Axis::X => c.x as int,
        Axis::Y => c.y as int,
        Axis::Z => c.z as int,
    }
}

/// The least chosen coordinate among the recorded cubes.
pub open spec fn spec_min_axis(cubes: Seq<(Coord, Matter)>, axis: Axis) -> int
    recommends
        cubes.len() > 0,
    decreases cubes.len(),
{
    let v = axis_of(cubes.last().0, axis);
    if cubes.len() <= 1 {
        v
    } else {
        let rest = spec_min_axis(cubes.drop_last(), axis);
        if rest <= v {
            rest
        } else {
            v
        }
    }
}

/// The greatest chosen coordinate among the recorded cubes.
pub open spec fn spec_max_axis(cubes: Seq<(Coord, Matter)>, axis: Axis) -> int
    recommends
        cubes.len() > 0,
    decreases cubes.len(),
{
    let v = axis_of(cubes.last().0, axis);
    if cubes.len() <= 1 {
        v
    } else {
        let rest = spec_max_axis(cubes.drop_last(), axis);
        if rest >= v {
            rest
        } else {
            v
        }
    }
}

fn axis_value(c: &Coord, axis: Axis) -> (r: isize)
    ensures
        r == axis_of(*c, axis),
{
    match axis {
        Axis::X => c.x,
        Axis::Y => c.y,
        Axis::Z => c.z,
    }
}

/// The least and greatest chosen coordinate among the recorded cubes.
pub fn minmax(cubes: &CubeMap, axis: Axis) -> (r: (isize, isize))
    requires
        cubes@.len() > 0,
    ensures
        r.0 == spec_min_axis(cubes@, axis),
        r.1 == spec_max_axis(cubes@, axis),
{
    let first = cubes[0].0;
    let mut lo = axis_value(&first, axis);
    let mut hi = lo;
    let n = cubes.len();
    let mut i: usize = 1;
    proof {
        assert(cubes@.take(1).last() == cubes@[0]);
        assert(cubes@.take(1).len() == 1);
    }
    while i < n
        invariant
            n == cubes@.len(),
            1 <= i <= n,
            lo == spec_min_axis(cubes@.take(i as int), axis),
            hi == spec_max_axis(cubes@.take(i as int), axis),
        decreases n - i,
    {
        proof {
            assert(cubes@.take(i as int + 1).drop_last() =~= cubes@.take(i as int));
            assert(cubes@.take(i as int + 1).last() == cubes@[i as int]);
        }
        let c = cubes[i].0;
        let v = axis_value(&c, axis);
        if v < lo {
            lo = v;
        }
        if v > hi {
            hi = v;
        }
        i = i + 1;
    }
    proof {
        assert(cubes@.take(n as int) =~= cubes@);
    }
    (lo, hi)
}

} // verus!
