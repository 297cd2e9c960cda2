//! A two-instruction video system: tracking the register over cycles and
//! rendering the screen.

use vstd::prelude::*;
use crate::parsing::{find_byte, first_at, is_signed_digits, signed_val, parse_i64, slice_suffix, push_char};

verus! {

#[derive(Debug, Copy, Clone, PartialEq, Eq, Structural)]
pub enum Instruction {
    NoOp,
    AddX(i32),
}

impl Instruction {
    /// The register value after the instruction.
    pub open spec fn spec_apply(self, x: int) -> int {
        match self {
            Instruction::NoOp => x,
            Instruction::AddX(v) => x + v,
        }
    }

    pub fn apply(&self, x: i32) -> (r: i32)
        requires
            i32::MIN <= self.spec_apply(x as int) <= i32::MAX,
        ensures
            r == self.spec_apply(x as int),
    {
        match self {
            Instruction::NoOp => x,
            Instruction::AddX(v) => x + v,
        }
    }

    /// How many cycles the instruction takes.
    pub open spec fn spec_cycle_count(self) -> int {
        match self {
            Instruction::NoOp => 1,
            Instruction::AddX(_) => 2,
        }
    }

    pub fn cycle_count(&self) -> (r: i32)
        ensures
            r == self.spec_cycle_count(),
    {
        match self {
            Instruction::NoOp => 1,
            Instruction::AddX(_) => 2,
        }
    }
}

/// Whether the signal strength is sampled at this cycle.
pub fn is_interesting(cycle: usize) -> (r: bool)
    ensures
        r == (cycle == 20 || cycle == 60 || cycle == 100 || cycle == 140 || cycle == 180 || cycle
            == 220),
{
    cycle == 20 || cycle == 60 || cycle == 100 || cycle == 140 || cycle == 180 || cycle == 220
}

/// A line is acceptable when it is not of the shape `addx <n>`, in which case
/// it reads as a no-op, or its argument is a number that fits an `i32`.
pub open spec fn instr_line_ok(s: Seq<u8>) -> bool {
    (first_at(s, 32) == 4 && s.take(4) == seq![97u8, 100u8, 100u8, 120u8]) ==> (is_signed_digits(
        s.skip(5),
    ) && i32::MIN <= signed_val(s.skip(5)) <= i32::MAX)
}

/// The instruction read from one line.
pub open spec fn spec_instr_of_line(s: Seq<u8>) -> Instruction {
    if first_at(s, 32) == 4 && s.take(4) == seq![97u8, 100u8, 100u8, 120u8] {
        Instruction::AddX(signed_val(s.skip(5)) as i32)
    } else {
        Instruction::NoOp
    }
}

/// Reads the program: every line that is not `addx <n>` is a no-op.
pub fn parse_instructions(lines: &Vec<Vec<u8>>) -> (r: Vec<Instruction>)
    requires
        forall|k: int| 0 <= k < lines@.len() ==> instr_line_ok((#[trigger] lines@[k])@),
    ensures
        r@.len() == lines@.len(),
        forall|k: int| 0 <= k < lines@.len() ==> r@[k] == spec_instr_of_line(
            (#[trigger] lines@[k])@,
        ),
{
    let mut out: Vec<Instruction> = Vec::new();
    let n = lines.len();
    let mut k: usize = 0;
    while k < n
        invariant
            n == lines@.len(),
            k <= n,
            forall|k0: int| 0 <= k0 < lines@.len() ==> instr_line_ok((#[trigger] lines@[k0])@),
            out@.len() == k,
            forall|k0: int| 0 <= k0 < k ==> out@[k0] == spec_instr_of_line(
                (#[trigger] lines@[k0])@,
            ),
        decreases n - k,
    {
        let line = &lines[k];
        let instr = match find_byte(line.as_slice(), 32) {
            Some(i) => {
                if i == 4 && line[0] == 97 && line[1] == 100 && line[2] == 100 && line[3] == 120 {
                    proof {
                        assert(line@.take(4) =~= seq![97u8, 100u8, 100u8, 120u8]);
                    }
                    let num = slice_suffix(line.as_slice(), 5);
                    match parse_i64(num) {
                        Some(v) => {
                            if i32::MIN as i64 <= v && v <= i32::MAX as i64 {
                                Instruction::AddX(v as i32)
                            } else {
                                Instruction::NoOp
                            }
                        },
                        None => Instruction::NoOp,
                    }
                } else {
                    proof {
                        if line@.take(4) == seq![97u8, 100u8, 100u8, 120u8] && i == 4 {
                            assert(line@.take(4)[0] == 97 && line@.take(4)[1] == 100 && line@.take(
                                4,
                            )[2] == 100 && line@.take(4)[3] == 120);
                            assert(false);
                        }
                    }
                    Instruction::NoOp
                }
            },
            None => Instruction::NoOp,
        };
        out.push(instr);
        k = k + 1;
    }
    out
}

/// The lit-or-dark character of one cycle: lit when the three-wide sprite at
/// the register position overlaps the beam position.
pub open spec fn pixel(cycle: int, x: int) -> char {
    let pos = (cycle - 1) % 40;
    if -1 <= pos - x <= 1 {
        '#'
    } else {
        '.'
    }
}

/// The rendered characters of the cycles `1..=n`, a newline after every
/// fortieth.
pub open spec fn spec_render_upto(states: Seq<i32>, n: int) -> Seq<char>
    decreases n,
{
    if n <= 0 {
        Seq::empty()
    } else {
        spec_render_upto(states, n - 1) + seq![pixel(n, states[n] as int)] + if n % 40 == 0 {
            seq!['\n']
        } else {
            Seq::empty()
        }
    }
}

/// The whole rendered screen, with a final newline after a partial last row.
pub open spec fn spec_render(states: Seq<i32>) -> Seq<char> {
    let m = states.len() - 1;
    if m <= 0 {
        Seq::empty()
    } else if m % 40 == 0 {
        spec_render_upto(states, m)
    } else {
        spec_render_upto(states, m) + seq!['\n']
    }
}

/// Renders the screen from the per-cycle register values; the entry at index
/// 0 is the state before the first cycle and produces no pixel.
pub fn render_screen(states: &[i32]) -> (r: String)
    ensures
        r@ == spec_render(states@),
{
    let mut s = String::new();
    let n = states.len();
    let mut cycle: usize = 1;
    while cycle < n
        invariant
            1 <= cycle,
            cycle <= n || (cycle == 1 && n == 0),
            n == states@.len(),
            s@ == spec_render_upto(states@, cycle as int - 1),
        decreases n - cycle,
    {
        let x = states[cycle];
        let pos = ((cycle - 1) % 40) as i64;
        let diff = pos - x as i64;
        let ch = if -1 <= diff && diff <= 1 {
            '#'
        } else {
            '.'
        };
        push_char(&mut s, ch);
        proof {
            assert(s@ =~= spec_render_upto(states@, cycle as int - 1) + seq![
                pixel(cycle as int, states@[cycle as int] as int),
            ]);
        }
        if cycle % 40 == 0 {
            push_char(&mut s, '\n');
            proof {
                assert(s@ =~= spec_render_upto(states@, cycle as int - 1) + seq![
                    pixel(cycle as int, states@[cycle as int] as int),
                ] + seq!['\n']);
            }
        } else {
            proof {
                assert(s@ =~= spec_render_upto(states@, cycle as int - 1) + seq![
                    pixel(cycle as int, states@[cycle as int] as int),
                ] + Seq::<char>::empty());
            }
        }
        cycle = cycle + 1;
    }
    if n >= 2 && (n - 1) % 40 != 0 {
        push_char(&mut s, '\n');
        proof {
            assert(s@ =~= spec_render_upto(states@, n as int - 1) + seq!['\n']);
        }
    }
    proof {
        let m = states@.len() - 1;
        if m <= 0 {
            assert(s@ =~= spec_render_upto(states@, 0));
            assert(s@ =~= spec_render(states@));
        } else if m % 40 == 0 {
            assert(s@ =~= spec_render_upto(states@, m));
            assert(s@ =~= spec_render(states@));
        } else {
            assert(s@ =~= spec_render_upto(states@, m) + seq!['\n']);
            assert(s@ =~= spec_render(states@));
        }
    }
    s
}


/// The per-cycle register values produced by the first `k` instructions,
/// and the register after them; index 0 holds the value before the first
/// cycle.
pub open spec fn spec_states(instrs: Seq<Instruction>, k: int) -> (Seq<i32>, int)
    decreases k,
{
    if k <= 0 {
        (seq![1i32], 1)
    } else {
        let (st, x) = spec_states(instrs, k - 1);
        let instr = instrs[k - 1];
        let st2 = if instr is NoOp {
            st.push(x as i32)
        } else {
            st.push(x as i32).push(x as i32)
        };
        (st2, instr.spec_apply(x))
    }
}

/// Every register value along the run fits an `i32`.
pub open spec fn states_fit(instrs: Seq<Instruction>) -> bool {
    forall|k: int|
        0 <= k <= instrs.len() ==> i32::MIN <= (#[trigger] spec_states(instrs, k)).1 <= i32::MAX
}

/// The summed signal strength over the first `k` cycles: at each sampled
/// cycle, the cycle number times the register value.
pub open spec fn spec_signal(states: Seq<i32>, k: int) -> int
    decreases k,
{
    if k <= 0 {
        0
    } else {
        spec_signal(states, k - 1) + if k - 1 == 20 || k - 1 == 60 || k - 1 == 100 || k - 1 == 140
            || k - 1 == 180 || k - 1 == 220 {
            (k - 1) * states[k - 1]
        } else {
            0
        }
    }
}

/// Every partial signal sum, and every sampled product, fits an `i32`.
pub open spec fn signal_fits(states: Seq<i32>) -> bool {
    &&& forall|k: int|
        0 <= k <= states.len() ==> i32::MIN <= #[trigger] spec_signal(states, k) <= i32::MAX
    &&& forall|k: int|
        0 <= k < states.len() && (k == 20 || k == 60 || k == 100 || k == 140 || k == 180 || k
            == 220) ==> i32::MIN <= k * (#[trigger] states[k]) <= i32::MAX
}

/// Runs the program and returns the summed signal strength at the sampled
/// cycles and the rendered screen.
pub fn day10(instructions: &Vec<Instruction>) -> (r: (i32, String))
    requires
        states_fit(instructions@),
        signal_fits(spec_states(instructions@, instructions@.len() as int).0),
    ensures
        ({
            let states = spec_states(instructions@, instructions@.len() as int).0;
            &&& r.0 == spec_signal(states, states.len() as int)
            &&& r.1@ == spec_render(states)
        }),
{
    let n = instructions.len();
    let mut states: Vec<i32> = Vec::new();
    let mut x: i32 = 1;
    states.push(x);
    let mut k: usize = 0;
    proof {
        assert(states@ =~= spec_states(instructions@, 0).0);
    }
    while k < n
        invariant
            k <= n,
            n == instructions@.len(),
            states_fit(instructions@),
            states@ == spec_states(instructions@, k as int).0,
            x == spec_states(instructions@, k as int).1,
        decreases n - k,
    {
        let instr = instructions[k];
        match instr {
            Instruction::NoOp => {
                states.push(x);
            },
            Instruction::AddX(_) => {
                states.push(x);
                states.push(x);
            },
        }
        proof {
            assert(((k + 1) as int) <= instructions@.len());
            assert(i32::MIN <= spec_states(instructions@, k as int + 1).1 <= i32::MAX);
        }
        x = instr.apply(x);
        k = k + 1;
    }
    let m = states.len();
    let mut part1: i32 = 0;
    let mut cycle: usize = 0;
    while cycle < m
        invariant
            cycle <= m,
            m == states@.len(),
            signal_fits(states@),
            part1 == spec_signal(states@, cycle as int),
        decreases m - cycle,
    {
        if is_interesting(cycle) {
            proof {
                assert(i32::MIN <= spec_signal(states@, cycle as int + 1) <= i32::MAX);
            }
            part1 = part1 + (cycle as i32) * states[cycle];
        }
        cycle = cycle + 1;
    }
    let part2 = render_screen(states.as_slice());
    (part1, part2)
}

} // verus!
