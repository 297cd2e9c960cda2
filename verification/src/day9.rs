//! Rope physics: how a knot follows the knot ahead of it.

use vstd::prelude::*;
use crate::parsing::{find_byte, first_at, is_digits, digits_val, parse_u64, slice_suffix};

verus! {

/// A planar position or offset.
#[derive(Clone, Copy, Debug, PartialEq, Eq, Structural)]
pub struct Coord(pub i32, pub i32);

impl Coord {
    pub fn add(self, o: Coord) -> (r: Coord)
        requires
            i32::MIN <= self.0 + o.0 <= i32::MAX,
            i32::MIN <= self.1 + o.1 <= i32::MAX,
        ensures
            r.0 == self.0 + o.0,
            r.1 == self.1 + o.1,
    {
        Coord(self.0 + o.0, self.1 + o.1)
    }

    pub fn sub(self, o: Coord) -> (r: Coord)
        requires
            i32::MIN <= self.0 - o.0 <= i32::MAX,
            i32::MIN <= self.1 - o.1 <= i32::MAX,
        ensures
            r.0 == self.0 - o.0,
            r.1 == self.1 - o.1,
    {
        Coord(self.0 - o.0, self.1 - o.1)
    }
}

/// One parsed movement instruction.
#[derive(Clone, Copy, Debug, PartialEq, Eq, Structural)]
pub struct Step {
    pub offset: Coord,
    pub count: u32,
}

/// The unit step towards zero-difference: the sign of `pos`.
pub open spec fn spec_towards(pos: int) -> int {
    if pos > 0 {
        1
    } else if pos < 0 {
        -1
    } else {
        0
    }
}

pub fn towards(pos: i32) -> (r: i32)
    ensures
        r == spec_towards(pos as int),
{
    if pos > 0 {
        1
    } else if pos < 0 {
        -1
    } else {
        0
    }
}

/// Where the tail knot moves, given the head knot's position: it steps once
/// towards the head whenever it trails by two on either axis.
pub open spec fn spec_rope_step(head: Coord, tail: Coord) -> (int, int) {
    let dx = head.0 - tail.0;
    let dy = head.1 - tail.1;
    if dx == 2 {
        (tail.0 + 1, tail.1 + spec_towards(dy))
    } else if dx == -2 {
        (tail.0 - 1, tail.1 + spec_towards(dy))
    } else if dy == 2 {
        (tail.0 + spec_towards(dx), tail.1 + 1)
    } else if dy == -2 {
        (tail.0 + spec_towards(dx), tail.1 - 1)
    } else {
        (tail.0 as int, tail.1 as int)
    }
}

pub fn rope_physics_step(head: Coord, tail: Coord) -> (r: Coord)
    requires
        i32::MIN <= head.0 - tail.0 <= i32::MAX,
        i32::MIN <= head.1 - tail.1 <= i32::MAX,
    ensures
        (r.0 as int, r.1 as int) == spec_rope_step(head, tail),
{
    let d = head.sub(tail);
    if d.0 == 2 {
        Coord(tail.0 + 1, tail.1 + towards(d.1))
    } else if d.0 == -2 {
        Coord(tail.0 - 1, tail.1 + towards(d.1))
    } else if d.1 == 2 {
        Coord(tail.0 + towards(d.0), tail.1 + 1)
    } else if d.1 == -2 {
        Coord(tail.0 + towards(d.0), tail.1 - 1)
    } else {
        tail
    }
}

/// The offset of a direction letter.
pub open spec fn offset_of_dir(b: u8) -> Option<(int, int)> {
    if b == 85 {
        Some((0int, 1int))
    } else if b == 68 {
        Some((0int, -1int))
    } else if b == 76 {
        Some((-1int, 0int))
    } else if b == 82 {
        Some((1int, 0int))
    } else {
        None
    }
}

/// A line is acceptable when it has no space (it is skipped) or has the
/// shape `<dir> <count>` with a known direction letter and a count that
/// fits.
pub open spec fn step_line_ok(s: Seq<u8>) -> bool {
    let i = first_at(s, 32);
    i < 0 || (i == 1 && offset_of_dir(s[0]) is Some && is_digits(s.skip(2)) && digits_val(
        s.skip(2),
    ) <= u32::MAX)
}

/// The step parsed from one line, if the line holds one.
pub open spec fn spec_step_of_line(s: Seq<u8>) -> Option<Step> {
    let i = first_at(s, 32);
    if i < 0 {
        None
    } else {
        let o = offset_of_dir(s[0])->0;
        Some(Step { offset: Coord(o.0 as i32, o.1 as i32), count: digits_val(s.skip(2)) as u32 })
    }
}

/// The steps parsed from all the lines, in order.
pub open spec fn spec_parse_steps(lines: Seq<Seq<u8>>) -> Seq<Step>
    decreases lines.len(),
{
    if lines.len() == 0 {
        Seq::empty()
    } else {
        spec_parse_steps(lines.drop_last()) + match spec_step_of_line(lines.last()) {
            Some(st) => seq![st],
            None => Seq::empty(),
        }
    }
}

/// Parses the movement instructions; a line without a space is skipped.
pub fn parse_steps(lines: &Vec<Vec<u8>>) -> (r: Vec<Step>)
    requires
        forall|k: int| 0 <= k < lines@.len() ==> step_line_ok((#[trigger] lines@[k])@),
    ensures
        r@ == spec_parse_steps(lines@.map_values(|l: Vec<u8>| l@)),
{
    let ghost lseq = lines@.map_values(|l: Vec<u8>| l@);
    let mut out: Vec<Step> = Vec::new();
    let n = lines.len();
    let mut k: usize = 0;
    while k < n
        invariant
            n == lines@.len(),
            k <= n,
            lseq == lines@.map_values(|l: Vec<u8>| l@),
            forall|k0: int| 0 <= k0 < lines@.len() ==> step_line_ok((#[trigger] lines@[k0])@),
            out@ == spec_parse_steps(lseq.take(k as int)),
        decreases n - k,
    {
        let line = &lines[k];
        proof {
            assert(lseq[k as int] == lines@[k as int]@);
            assert(lseq.take(k as int + 1).drop_last() =~= lseq.take(k as int));
            assert(lseq.take(k as int + 1).last() == lseq[k as int]);
        }
        match find_byte(line.as_slice(), 32) {
            Some(_i) => {
                let dir = line[0];
                let offset = if dir == 85 {
                    Coord(0, 1)
                } else if dir == 68 {
                    Coord(0, -1)
                } else if dir == 76 {
                    Coord(-1, 0)
                } else {
                    Coord(1, 0)
                };
                let num = slice_suffix(line.as_slice(), 2);
                let count = match parse_u64(num) {
                    Some(v) => v as u32,
                    None => 0,
                };
                out.push(Step { offset, count });
            },
            None => {},
        }
        k = k + 1;
    }
    proof {
        assert(lseq.take(n as int) =~= lseq);
    }
    out
}

} // verus!
