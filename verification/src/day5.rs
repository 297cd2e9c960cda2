//! Stacks of crates rearranged by a crane.
//!
//! The drawing of the initial stacks is read column by column; instructions
//! then move crates between stacks, either one at a time (the older crane
//! reverses what it moves) or as one block.

use vstd::prelude::*;
use crate::parsing::{first_at, is_digits, digits_val, find_byte, parse_u64, push_char, slice_range, slice_suffix};

verus! {

/// One rearrangement instruction: move `count` crates from `source` to
/// `dest` (zero-based stack indices).
#[derive(Debug, Clone, Copy, PartialEq, Eq, Structural)]
pub struct Instruction {
    pub count: usize,
    pub source: usize,
    pub dest: usize,
}

/// A moved-from stack ran out of crates.
#[derive(Debug, Clone, Copy, PartialEq, Eq, Structural)]
pub enum StackError {
    /// A stack was empty when the crane reached for a crate, or a line of
    /// the drawing is too short for a stack column.
    BadInput,
}

/// Whether the drawing keeps this byte as a crate name: digits label the
/// stacks and blanks are empty slots, everything else is a crate.
pub open spec fn keeps_byte(b: u8) -> bool {
    !(48 <= b <= 57) && !(b == 32 || b == 9 || b == 10 || b == 13)
}

/// The column position of stack `k` in a drawing line.
pub open spec fn col_of(k: int) -> int {
    4 * k + 1
}

/// The contents of stack `k` after the drawing lines `j..` are read from the
/// bottom line up; the top of the stack is the end of the sequence.
pub open spec fn spec_stack(lines: Seq<Seq<u8>>, k: int, j: int) -> Seq<char>
    decreases lines.len() - j,
{
    if j < 0 || j >= lines.len() {
        Seq::empty()
    } else {
        let rest = spec_stack(lines, k, j + 1);
        if col_of(k) < lines[j].len() && keeps_byte(lines[j][col_of(k)]) {
            rest.push(lines[j][col_of(k)] as char)
        } else {
            rest
        }
    }
}

/// How many stacks a drawing with first line `first` holds.
pub open spec fn spec_stack_count(first: Seq<u8>) -> int {
    first.len() as int / 4 + 1
}

/// Some drawing line is too short for some stack column.
pub open spec fn short_line(lines: Seq<Seq<u8>>, nstacks: int) -> bool {
    exists|j: int, k: int|
        #![trigger lines[j], col_of(k)]
        0 <= j < lines.len() && 0 <= k < nstacks && col_of(k) >= lines[j].len()
}

/// The stacks of crates; the end of each inner vector is the stack's top.
#[derive(Debug)]
pub struct Stacks {
    pub stacks: Vec<Vec<char>>,
}

impl Stacks {
    /// Reads the drawing at the top of the input as stacks of crates.
    pub fn parse(lines: Vec<Vec<u8>>) -> (r: Result<Stacks, StackError>)
        requires
            lines@.len() > 0,
            lines@[0]@.len() <= usize::MAX - 4,
        ensures
            ({
                let lseq = lines@.map_values(|l: Vec<u8>| l@);
                let nstacks = spec_stack_count(lseq[0]);
                match r {
                    Ok(st) => {
                        &&& !short_line(lseq, nstacks)
                        &&& st.stacks@.len() == nstacks
                        &&& forall|k: int|
                            0 <= k < nstacks ==> (#[trigger] st.stacks@[k])@ == spec_stack(
                                lseq,
                                k,
                                0,
                            )
                    },
                    Err(StackError::BadInput) => short_line(lseq, nstacks),
                }
            }),
    {
        let ghost lseq = lines@.map_values(|l: Vec<u8>| l@);
        let nstacks = lines[0].len() / 4 + 1;
        let mut stacks: Vec<Vec<char>> = Vec::new();
        let mut k: usize = 0;
        while k < nstacks
            invariant
                k <= nstacks,
                stacks@.len() == k,
                forall|k0: int| 0 <= k0 < k ==> (#[trigger] stacks@[k0])@.len() == 0,
            decreases nstacks - k,
        {
            stacks.push(Vec::new());
            k = k + 1;
        }
        let n = lines.len();
        let mut j: usize = n;
        while j > 0
            invariant
                j <= n,
                n == lines@.len(),
                lseq == lines@.map_values(|l: Vec<u8>| l@),
                lseq[0].len() <= usize::MAX - 4,
                nstacks == spec_stack_count(lseq[0]),
                stacks@.len() == nstacks,
                forall|k0: int|
                    0 <= k0 < nstacks ==> (#[trigger] stacks@[k0])@ == spec_stack(
                        lseq,
                        k0,
                        j as int,
                    ),
                forall|j0: int, k0: int|
                    #![trigger lseq[j0], col_of(k0)]
                    j <= j0 < n && 0 <= k0 < nstacks ==> col_of(k0) < lseq[j0].len(),
            decreases j,
        {
            j = j - 1;
            let line = &lines[j];
            proof {
                assert(lseq[j as int] == lines@[j as int]@);
            }
            let llen = line.len();
            let mut k: usize = 0;
            while k < nstacks
                invariant
                    k <= nstacks,
                    j < n == lines@.len(),
                    lseq == lines@.map_values(|l: Vec<u8>| l@),
                    lseq[j as int] == lines@[j as int]@,
                    line@ == lseq[j as int],
                    llen == line@.len(),
                    lseq[0].len() <= usize::MAX - 4,
                    nstacks == spec_stack_count(lseq[0]),
                    stacks@.len() == nstacks,
                    forall|j0: int, k0: int|
                        #![trigger lseq[j0], col_of(k0)]
                        j + 1 <= j0 < n && 0 <= k0 < nstacks ==> col_of(k0) < lseq[j0].len(),
                    forall|k0: int|
                        0 <= k0 < k ==> (#[trigger] stacks@[k0])@ == spec_stack(
                            lseq,
                            k0,
                            j as int,
                        ),
                    forall|k0: int|
                        k <= k0 < nstacks ==> (#[trigger] stacks@[k0])@ == spec_stack(
                            lseq,
                            k0,
                            j as int + 1,
                        ),
                    forall|k0: int| 0 <= k0 < k ==> col_of(k0) < lseq[j as int].len(),
                decreases nstacks - k,
            {
                proof {
                    assert(4 * ((lseq[0].len() as int) / 4) <= lseq[0].len()) by (nonlinear_arith);
                }
                if 4 * k + 1 >= llen {
                    proof {
                        assert(col_of(k as int) >= lseq[j as int].len());
                        assert(short_line(lseq, nstacks as int));
                    }
                    return Err(StackError::BadInput);
                }
                let c = line[4 * k + 1];
                let keep = !(c >= 48 && c <= 57) && !(c == 32 || c == 9 || c == 10 || c == 13);
                if keep {
                    let ch = c as char;
                    stacks[k].push(ch);
                }
                proof {
                    assert(stacks@[k as int]@ == spec_stack(lseq, k as int, j as int));
                }
                k = k + 1;
            }
        }
        proof {
            if short_line(lseq, nstacks as int) {
                let (j0, k0) = choose|j0: int, k0: int|
                    #![trigger lseq[j0], col_of(k0)]
                    0 <= j0 < lseq.len() && 0 <= k0 < nstacks && col_of(k0) >= lseq[j0].len();
                assert(false);
            }
        }
        Ok(Stacks { stacks })
    }

    /// The crate on top of each non-empty stack, in stack order.
    pub fn top(&self) -> (r: String)
        ensures
            r@ == spec_tops(self.stacks@.map_values(|s: Vec<char>| s@)),
    {
        let ghost sseq = self.stacks@.map_values(|s: Vec<char>| s@);
        let mut out = String::new();
        let n = self.stacks.len();
        let mut k: usize = 0;
        while k < n
            invariant
                k <= n,
                n == self.stacks@.len(),
                sseq == self.stacks@.map_values(|s: Vec<char>| s@),
                out@ == spec_tops(sseq.take(k as int)),
            decreases n - k,
        {
            proof {
                assert(sseq.take(k as int + 1).drop_last() =~= sseq.take(k as int));
                assert(sseq.take(k as int + 1).last() == sseq[k as int]);
            }
            let st = &self.stacks[k];
            if st.len() > 0 {
                let c = st[st.len() - 1];
                push_char(&mut out, c);
                proof {
                    assert(out@ =~= spec_tops(sseq.take(k as int)).push(sseq[k as int].last()));
                }
            }
            k = k + 1;
        }
        proof {
            assert(sseq.take(n as int) =~= sseq);
        }
        out
    }

    /// Moves the crates one at a time, so they arrive in reverse order.
    /// Fails, with the source emptied onto the destination, when the source
    /// runs out.
    pub fn apply_9000(&mut self, inst: Instruction) -> (r: Result<(), StackError>)
        requires
            inst.source < old(self).stacks@.len(),
            inst.dest < old(self).stacks@.len(),
        ensures
            final(self).stacks@.len() == old(self).stacks@.len(),
            forall|k: int|
                0 <= k < old(self).stacks@.len() && k != inst.source && k != inst.dest
                    ==> (#[trigger] final(self).stacks@[k])@ == old(self).stacks@[k]@,
            inst.source != inst.dest ==> {
                let src = old(self).stacks@[inst.source as int]@;
                let dst = old(self).stacks@[inst.dest as int]@;
                if inst.count <= src.len() {
                    &&& r is Ok
                    &&& final(self).stacks@[inst.source as int]@ == src.take(
                        src.len() - inst.count,
                    )
                    &&& final(self).stacks@[inst.dest as int]@ == dst + src.skip(
                        src.len() - inst.count,
                    ).reverse()
                } else {
                    &&& r is Err
                    &&& final(self).stacks@[inst.source as int]@ == Seq::<char>::empty()
                    &&& final(self).stacks@[inst.dest as int]@ == dst + src.reverse()
                }
            },
            inst.source == inst.dest ==> {
                let src = old(self).stacks@[inst.source as int]@;
                &&& final(self).stacks@[inst.source as int]@ == src
                &&& (r is Ok <==> (inst.count == 0 || src.len() > 0))
            },
    {
        let mut moved: usize = 0;
        let ghost src0 = self.stacks@[inst.source as int]@;
        let ghost dst0 = self.stacks@[inst.dest as int]@;
        while moved < inst.count
            invariant
                inst.source < self.stacks@.len() == old(self).stacks@.len(),
                inst.dest < self.stacks@.len(),
                moved <= inst.count,
                src0 == old(self).stacks@[inst.source as int]@,
                dst0 == old(self).stacks@[inst.dest as int]@,
                forall|k: int|
                    0 <= k < old(self).stacks@.len() && k != inst.source && k != inst.dest
                        ==> (#[trigger] self.stacks@[k])@ == old(self).stacks@[k]@,
                inst.source != inst.dest ==> {
                    &&& moved <= src0.len()
                    &&& self.stacks@[inst.source as int]@ == src0.take(src0.len() - moved)
                    &&& self.stacks@[inst.dest as int]@ == dst0 + src0.skip(
                        src0.len() - moved,
                    ).reverse()
                },
                inst.source == inst.dest ==> self.stacks@[inst.source as int]@ == src0 && (moved
                    > 0 ==> src0.len() > 0),
            decreases inst.count - moved,
        {
            let ghost src_before = self.stacks@[inst.source as int]@;
            let ghost dst_before = self.stacks@[inst.dest as int]@;
            let a = match self.stacks[inst.source].pop() {
                Some(a) => a,
                None => {
                    proof {
                        if inst.source != inst.dest {
                            assert(src0.take(src0.len() - moved).len() == 0);
                            assert(moved == src0.len());
                            assert(self.stacks@[inst.source as int]@ =~= Seq::<char>::empty());
                            assert(src0.skip(0) =~= src0);
                        }
                    }
                    return Err(StackError::BadInput);
                },
            };
            self.stacks[inst.dest].push(a);
            proof {
                if inst.source != inst.dest {
                    assert(self.stacks@[inst.source as int]@ =~= src0.take(
                        src0.len() - (moved + 1),
                    ));
                    assert(src_before.last() == src0[src0.len() - moved - 1]);
                    assert(self.stacks@[inst.dest as int]@ =~= dst0 + src0.skip(
                        src0.len() - (moved + 1),
                    ).reverse()) by {
                        assert(self.stacks@[inst.dest as int]@ == dst_before.push(
                            src0[src0.len() - moved - 1],
                        ));
                        assert(src0.skip(src0.len() - (moved + 1)).reverse() =~= src0.skip(
                            src0.len() - moved,
                        ).reverse().push(src0[src0.len() - moved - 1]));
                    }
                } else {
                    assert(self.stacks@[inst.source as int]@ =~= src0);
                }
            }
            moved = moved + 1;
        }
        proof {
            if inst.source != inst.dest && inst.count <= src0.len() {
                assert(self.stacks@[inst.source as int]@ == src0.take(src0.len() - inst.count));
            }
        }
        Ok(())
    }

    /// Moves the crates as one block, keeping their order.
    pub fn apply_9001(&mut self, inst: Instruction) -> (r: Result<(), StackError>)
        requires
            inst.source < old(self).stacks@.len(),
            inst.dest < old(self).stacks@.len(),
            inst.count <= old(self).stacks@[inst.source as int]@.len(),
        ensures
            r is Ok,
            final(self).stacks@.len() == old(self).stacks@.len(),
            forall|k: int|
                0 <= k < old(self).stacks@.len() && k != inst.source && k != inst.dest
                    ==> (#[trigger] final(self).stacks@[k])@ == old(self).stacks@[k]@,
            inst.source != inst.dest ==> {
                let src = old(self).stacks@[inst.source as int]@;
                let dst = old(self).stacks@[inst.dest as int]@;
                &&& final(self).stacks@[inst.source as int]@ == src.take(src.len() - inst.count)
                &&& final(self).stacks@[inst.dest as int]@ == dst + src.skip(
                    src.len() - inst.count,
                )
            },
            inst.source == inst.dest ==> final(self).stacks@[inst.source as int]@ == old(
                self,
            ).stacks@[inst.source as int]@,
    {
        let ghost src0 = self.stacks@[inst.source as int]@;
        let src = &mut self.stacks[inst.source];
        let at = src.len() - inst.count;
        let mut top_crates = src.split_off(at);
        self.stacks[inst.dest].append(&mut top_crates);
        proof {
            if inst.source == inst.dest {
                assert(self.stacks@[inst.source as int]@ =~= src0);
            }
        }
        Ok(())
    }
}

/// The top crates of the non-empty stacks, in order.
pub open spec fn spec_tops(stacks: Seq<Seq<char>>) -> Seq<char>
    decreases stacks.len(),
{
    if stacks.len() == 0 {
        Seq::empty()
    } else {
        let rest = spec_tops(stacks.drop_last());
        if stacks.last().len() > 0 {
            rest.push(stacks.last().last())
        } else {
            rest
        }
    }
}


/// The space-separated words of a line; splitting never drops a piece, so an
/// empty line yields one empty word.
pub open spec fn spec_words(s: Seq<u8>) -> Seq<Seq<u8>>
    decreases s.len(),
{
    let i = first_at(s, 32);
    if i < 0 || i >= s.len() {
        seq![s]
    } else {
        seq![s.take(i)] + spec_words(s.skip(i + 1))
    }
}

/// A word that reads as a `usize`.
pub open spec fn valid_usize(w: Seq<u8>) -> bool {
    is_digits(w) && digits_val(w) <= usize::MAX
}

/// An instruction line the mover accepts without a fault: it has the six
/// words `move <n> from <s> to <d>`, and a stack number that parses is never
/// zero.
pub open spec fn instr_line_ok(s: Seq<u8>) -> bool {
    let w = spec_words(s);
    &&& w.len() >= 6
    &&& (valid_usize(w[1]) && valid_usize(w[3])) ==> digits_val(w[3]) >= 1
    &&& (valid_usize(w[1]) && valid_usize(w[3]) && digits_val(w[3]) >= 1 && valid_usize(w[5]))
        ==> digits_val(w[5]) >= 1
}

/// The instruction read from one line, if its number words all parse.
pub open spec fn spec_instr_of_line(s: Seq<u8>) -> Option<Instruction> {
    let w = spec_words(s);
    if w.len() >= 6 && valid_usize(w[1]) && valid_usize(w[3]) && digits_val(w[3]) >= 1
        && valid_usize(w[5]) && digits_val(w[5]) >= 1 {
        Some(
            Instruction {
                count: digits_val(w[1]) as usize,
                source: (digits_val(w[3]) - 1) as usize,
                dest: (digits_val(w[5]) - 1) as usize,
            },
        )
    } else {
        None
    }
}

/// Reads one rearrangement instruction; a line whose numbers do not parse is
/// skipped.
pub fn parse_instruction(line: &[u8]) -> (r: Option<Instruction>)
    requires
        instr_line_ok(line@),
    ensures
        r == spec_instr_of_line(line@),
{
    let ghost w = spec_words(line@);
    let mut rest: &[u8] = line;
    let ghost widx: int = 0;
    let mut words: Vec<&[u8]> = Vec::new();
    let mut k: usize = 0;
    while k < 6
        invariant
            k <= 6,
            instr_line_ok(line@),
            w == spec_words(line@),
            w.len() >= 6,
            words@.len() == k,
            forall|k0: int| 0 <= k0 < k ==> (#[trigger] words@[k0])@ == w[k0],
            k < 6 ==> spec_words(rest@) =~= w.skip(k as int),
        decreases 6 - k,
    {
        let _rlen = rest.len();
        match find_byte(rest, 32) {
            Some(i) => {
                let word = slice_range(rest, 0, i);
                proof {
                    assert(word@ =~= rest@.take(i as int));
                    assert(spec_words(rest@)[0] == rest@.take(i as int));
                    assert(w[k as int] == spec_words(rest@)[0]);
                }
                words.push(word);
                let new_rest = slice_suffix(rest, i + 1);
                proof {
                    if k < 5 {
                        assert(spec_words(new_rest@) =~= spec_words(rest@).skip(1));
                        assert(spec_words(rest@).skip(1) =~= w.skip(k as int).skip(1));
                        assert(w.skip(k as int).skip(1) =~= w.skip(k as int + 1));
                    }
                }
                rest = new_rest;
            },
            None => {
                let word = rest;
                proof {
                    assert(spec_words(rest@) =~= seq![rest@]);
                    assert(spec_words(rest@).len() == 1);
                    assert(w.skip(k as int).len() == w.len() - k);
                    assert(w.len() == k + 1);
                    assert(k == 5);
                    assert(w[k as int] == w.skip(k as int)[0]);
                    assert(word@ == w[k as int]);
                }
                words.push(word);
            },
        }
        k = k + 1;
    }
    let count = match parse_u64(words[1]) {
        Some(v) if v <= usize::MAX as u64 => v as usize,
        _ => {
            return None;
        },
    };
    let source = match parse_u64(words[3]) {
        Some(v) if v <= usize::MAX as u64 => v as usize,
        _ => {
            return None;
        },
    };
    let dest = match parse_u64(words[5]) {
        Some(v) if v <= usize::MAX as u64 => v as usize,
        _ => {
            return None;
        },
    };
    Some(Instruction { count, source: source - 1, dest: dest - 1 })
}

/// One move of the older crane, as a function on stack contents; `None` when
/// the source runs dry.
pub open spec fn spec_move_9000(stacks: Seq<Seq<char>>, inst: Instruction) -> Option<
    Seq<Seq<char>>,
> {
    if inst.source >= stacks.len() || inst.dest >= stacks.len() {
        None
    } else {
        let src = stacks[inst.source as int];
        let dst = stacks[inst.dest as int];
        if inst.source == inst.dest {
            if inst.count == 0 || src.len() > 0 {
                Some(stacks)
            } else {
                None
            }
        } else if inst.count <= src.len() {
            Some(
                stacks.update(inst.source as int, src.take(src.len() - inst.count)).update(
                    inst.dest as int,
                    dst + src.skip(src.len() - inst.count).reverse(),
                ),
            )
        } else {
            None
        }
    }
}

/// One move of the newer crane; `None` when the source has too few crates.
pub open spec fn spec_move_9001(stacks: Seq<Seq<char>>, inst: Instruction) -> Option<
    Seq<Seq<char>>,
> {
    if inst.source >= stacks.len() || inst.dest >= stacks.len() {
        None
    } else {
        let src = stacks[inst.source as int];
        let dst = stacks[inst.dest as int];
        if inst.count > src.len() {
            None
        } else if inst.source == inst.dest {
            Some(stacks)
        } else {
            Some(
                stacks.update(inst.source as int, src.take(src.len() - inst.count)).update(
                    inst.dest as int,
                    dst + src.skip(src.len() - inst.count),
                ),
            )
        }
    }
}

/// Folds a run of instructions over the stacks, stopping at the first
/// failing move; `newer` picks the crane.
pub open spec fn spec_run(
    stacks: Seq<Seq<char>>,
    instrs: Seq<Instruction>,
    newer: bool,
) -> Option<Seq<Seq<char>>>
    decreases instrs.len(),
{
    if instrs.len() == 0 {
        Some(stacks)
    } else {
        let step = if newer {
            spec_move_9001(stacks, instrs.first())
        } else {
            spec_move_9000(stacks, instrs.first())
        };
        match step {
            Some(s2) => spec_run(s2, instrs.drop_first(), newer),
            None => None,
        }
    }
}

proof fn lemma_run_snoc(stacks: Seq<Seq<char>>, instrs: Seq<Instruction>, inst: Instruction, newer: bool)
    ensures
        spec_run(stacks, instrs.push(inst), newer) == match spec_run(stacks, instrs, newer) {
            Some(s2) => if newer {
                spec_move_9001(s2, inst)
            } else {
                spec_move_9000(s2, inst)
            },
            None => None,
        },
    decreases instrs.len(),
{
    if instrs.len() == 0 {
        assert(instrs.push(inst).first() == inst);
        assert(instrs.push(inst).drop_first() =~= Seq::<Instruction>::empty());
        let step = if newer {
            spec_move_9001(stacks, inst)
        } else {
            spec_move_9000(stacks, inst)
        };
        match step {
            Some(s2) => {
                assert(spec_run(s2, instrs.push(inst).drop_first(), newer) == Some(s2));
            },
            None => {},
        }
    } else {
        assert(instrs.push(inst).first() == instrs.first());
        assert(instrs.push(inst).drop_first() =~= instrs.drop_first().push(inst));
        let step = if newer {
            spec_move_9001(stacks, instrs.first())
        } else {
            spec_move_9000(stacks, instrs.first())
        };
        match step {
            Some(s2) => {
                lemma_run_snoc(s2, instrs.drop_first(), inst, newer);
            },
            None => {},
        }
    }
}

/// How many drawing lines open the input: everything before the first empty
/// line.
pub open spec fn drawing_len(lines: Seq<Seq<u8>>) -> int
    decreases lines.len(),
{
    if lines.len() == 0 {
        0
    } else if lines[0].len() == 0 {
        0
    } else {
        1 + drawing_len(lines.drop_first())
    }
}

/// The instructions read from the lines, in order, skipping lines whose
/// numbers do not parse.
pub open spec fn spec_instrs(lines: Seq<Seq<u8>>) -> Seq<Instruction>
    decreases lines.len(),
{
    if lines.len() == 0 {
        Seq::empty()
    } else {
        spec_instrs(lines.drop_last()) + match spec_instr_of_line(lines.last()) {
            Some(i) => seq![i],
            None => Seq::empty(),
        }
    }
}

/// The stacks as the drawing describes them.
pub open spec fn spec_initial_stacks(drawing: Seq<Seq<u8>>, nstacks: int) -> Seq<Seq<char>> {
    Seq::new(nstacks as nat, |k: int| spec_stack(drawing, k, 0))
}

/// What the whole puzzle computes: parse the drawing, run every instruction,
/// read the stack tops.  `None` when a move fails.
pub open spec fn spec_day5(lines: Seq<Seq<u8>>, newer: bool) -> Option<Seq<char>> {
    let d = drawing_len(lines);
    let nstacks = spec_stack_count(lines[0]);
    let drawing = lines.take(d);
    let instrs = spec_instrs(
        if d + 1 <= lines.len() {
            lines.skip(d + 1)
        } else {
            Seq::empty()
        },
    );
    if short_line(drawing, nstacks) {
        None
    } else {
        let stacks0 = spec_initial_stacks(drawing, nstacks);
        match spec_run(stacks0, instrs, newer) {
            Some(s2) => Some(spec_tops(s2)),
            None => None,
        }
    }
}

fn run_crane(lines: Vec<Vec<u8>>, newer: bool) -> (r: Result<String, StackError>)
    requires
        lines@.len() > 0,
        lines@[0]@.len() > 0,
        lines@[0]@.len() <= usize::MAX - 4,
        forall|k: int|
            drawing_len(lines@.map_values(|l: Vec<u8>| l@)) < k < lines@.len()
                ==> instr_line_ok((#[trigger] lines@[k])@),
    ensures
        ({
            let lseq = lines@.map_values(|l: Vec<u8>| l@);
            match r {
                Ok(top) => spec_day5(lseq, newer) == Some(top@),
                Err(StackError::BadInput) => spec_day5(lseq, newer) is None,
            }
        }),
{
    let ghost lseq = lines@.map_values(|l: Vec<u8>| l@);
    let n = lines.len();
    // find the empty separator line
    let mut d: usize = 0;
    proof {
        assert(lseq.skip(0) =~= lseq);
    }
    while d < n && lines[d].len() > 0
        invariant
            d <= n,
            n == lines@.len(),
            lseq == lines@.map_values(|l: Vec<u8>| l@),
            forall|k0: int| 0 <= k0 < d ==> (#[trigger] lseq[k0]).len() > 0,
            drawing_len(lseq.skip(d as int)) + d == drawing_len(lseq),
        decreases n - d,
    {
        proof {
            assert(lseq.skip(d as int)[0] == lseq[d as int]);
            assert(lseq[d as int] == lines@[d as int]@);
            assert(lseq.skip(d as int).drop_first() =~= lseq.skip(d as int + 1));
        }
        d = d + 1;
    }
    proof {
        if d < n {
            assert(lseq.skip(d as int)[0] == lseq[d as int]);
            assert(lseq[d as int] == lines@[d as int]@);
            assert(drawing_len(lseq.skip(d as int)) == 0);
        } else {
            assert(lseq.skip(d as int).len() == 0);
        }
        assert(drawing_len(lseq) == d);
    }
    let mut drawing: Vec<Vec<u8>> = Vec::new();
    let mut k: usize = 0;
    while k < d
        invariant
            k <= d <= n,
            n == lines@.len(),
            lseq == lines@.map_values(|l: Vec<u8>| l@),
            drawing@.len() == k,
            forall|i: int| 0 <= i < k ==> (#[trigger] drawing@[i])@ == lseq[i],
        decreases d - k,
    {
        let line = lines[k].clone();
        proof {
            assert(line@ == lseq[k as int]);
        }
        drawing.push(line);
        k = k + 1;
    }
    let ghost dseq = lseq.take(d as int);
    proof {
        let dm = drawing@.map_values(|l: Vec<u8>| l@);
        assert forall|i: int| 0 <= i < d implies dm[i] == dseq[i] by {
            assert(dm[i] == drawing@[i]@);
        }
        assert(dm =~= dseq);
        assert(dseq[0] == lseq[0]);
    }
    let mut stacks = match Stacks::parse(drawing) {
        Ok(st) => st,
        Err(e) => {
            proof {
                assert(short_line(lseq.take(d as int), spec_stack_count(lseq[0])));
            }
            return Err(e);
        },
    };
    let ghost nstacks = spec_stack_count(lseq[0]);
    let ghost stacks0 = spec_initial_stacks(dseq, nstacks);
    proof {
        assert(stacks.stacks@.map_values(|s: Vec<char>| s@) =~= stacks0) by {
            assert forall|k0: int| 0 <= k0 < nstacks implies stacks.stacks@.map_values(
                |s: Vec<char>| s@,
            )[k0] == stacks0[k0] by {
                assert(stacks.stacks@[k0]@ == spec_stack(dseq, k0, 0));
                assert(stacks0[k0] == spec_stack(dseq, k0, 0));
            }
        }
    }
    // run the instructions that follow the separator
    let ghost isrc = if (d as int) + 1 <= lseq.len() {
        lseq.skip(d as int + 1)
    } else {
        Seq::<Seq<u8>>::empty()
    };
    let ghost mut done: Seq<Instruction> = Seq::empty();
    proof {
        assert(isrc.take(0) =~= Seq::<Seq<u8>>::empty());
    }
    if d < n {
        let mut j: usize = d + 1;
        while j < n
            invariant
                d < n,
                d + 1 <= j <= n,
                n == lines@.len(),
                lseq == lines@.map_values(|l: Vec<u8>| l@),
                forall|k0: int|
                    drawing_len(lseq) < k0 < lseq.len() ==> instr_line_ok(
                        (#[trigger] lines@[k0])@,
                    ),
                drawing_len(lseq) == d,
                nstacks == spec_stack_count(lseq[0]),
                stacks0 == spec_initial_stacks(dseq, nstacks),
                dseq == lseq.take(d as int),
                !short_line(dseq, nstacks),
                lseq.len() > 0,
                isrc == lseq.skip(d as int + 1),
                done == spec_instrs(isrc.take(j - d - 1)),
                stacks.stacks@.len() == nstacks,
                spec_run(stacks0, done, newer) == Some(
                    stacks.stacks@.map_values(|s: Vec<char>| s@),
                ),
            decreases n - j,
        {
            let line = &lines[j];
            proof {
                assert(lseq[j as int] == lines@[j as int]@);
                assert(instr_line_ok(lseq[j as int]));
                assert(isrc[j - d - 1] == lseq[j as int]);
                assert(isrc.take(j - d).drop_last() =~= isrc.take(j - d - 1));
                assert(isrc.take(j - d).last() == lseq[j as int]);
            }
            match parse_instruction(line.as_slice()) {
                Some(inst) => {
                    let ghost before = stacks.stacks@.map_values(|s: Vec<char>| s@);
                    if inst.source >= stacks.stacks.len() || inst.dest >= stacks.stacks.len() {
                        proof {
                            lemma_run_snoc(stacks0, done, inst, newer);
                            assert(spec_instrs(isrc.take(j - d)) =~= done.push(inst));
                            lemma_instrs_prefix_none(stacks0, isrc, j - d, newer);
                        }
                        return Err(StackError::BadInput);
                    }
                    if newer {
                        let srclen = stacks.stacks[inst.source].len();
                        if inst.count > srclen {
                            proof {
                                lemma_run_snoc(stacks0, done, inst, newer);
                                assert(spec_instrs(isrc.take(j - d)) =~= done.push(inst));
                                lemma_instrs_prefix_none(stacks0, isrc, j - d, newer);
                            }
                            return Err(StackError::BadInput);
                        }
                        let res = stacks.apply_9001(inst);
                        proof {
                            lemma_run_snoc(stacks0, done, inst, newer);
                            assert(spec_move_9001(before, inst) == Some(
                                stacks.stacks@.map_values(|s: Vec<char>| s@),
                            )) by {
                                let after = stacks.stacks@.map_values(|s: Vec<char>| s@);
                                if inst.source == inst.dest {
                                    assert(after =~= before);
                                } else {
                                    assert(after =~= before.update(
                                        inst.source as int,
                                        before[inst.source as int].take(
                                            before[inst.source as int].len() - inst.count,
                                        ),
                                    ).update(
                                        inst.dest as int,
                                        before[inst.dest as int] + before[
                                            inst.source as int].skip(
                                            before[inst.source as int].len() - inst.count,
                                        ),
                                    ));
                                }
                            }
                            done = done.push(inst);
                            assert(spec_instrs(isrc.take(j - d)) =~= done);
                        }
                        let _ = res;
                    } else {
                        let res = stacks.apply_9000(inst);
                        match res {
                            Ok(_) => {
                                proof {
                                    lemma_run_snoc(stacks0, done, inst, newer);
                                    assert(spec_move_9000(before, inst) == Some(
                                        stacks.stacks@.map_values(|s: Vec<char>| s@),
                                    )) by {
                                        let after = stacks.stacks@.map_values(
                                            |s: Vec<char>| s@,
                                        );
                                        if inst.source == inst.dest {
                                            assert(after =~= before);
                                        } else {
                                            assert(after =~= before.update(
                                                inst.source as int,
                                                before[inst.source as int].take(
                                                    before[inst.source as int].len()
                                                        - inst.count,
                                                ),
                                            ).update(
                                                inst.dest as int,
                                                before[inst.dest as int] + before[
                                                    inst.source as int].skip(
                                                    before[inst.source as int].len()
                                                        - inst.count,
                                                ).reverse(),
                                            ));
                                        }
                                    }
                                    done = done.push(inst);
                                    assert(spec_instrs(isrc.take(j - d)) =~= done);
                                }
                            },
                            Err(e) => {
                                proof {
                                    lemma_run_snoc(stacks0, done, inst, newer);
                                    assert(spec_move_9000(before, inst) is None);
                                    assert(spec_instrs(isrc.take(j - d)) =~= done.push(inst));
                                    lemma_instrs_prefix_none(stacks0, isrc, j - d, newer);
                                }
                                return Err(e);
                            },
                        }
                    }
                },
                None => {
                    proof {
                        assert(spec_instrs(isrc.take(j - d)) =~= done);
                    }
                },
            }
            j = j + 1;
        }
        proof {
            assert(isrc.take(n - d - 1) =~= isrc);
        }
    }
    let top = stacks.top();
    proof {
        assert(spec_day5(lseq, newer) == Some(top@));
    }
    Ok(top)
}

proof fn lemma_instrs_prefix_none(
    stacks0: Seq<Seq<char>>,
    ls: Seq<Seq<u8>>,
    upto: int,
    newer: bool,
)
    requires
        0 <= upto <= ls.len(),
        spec_run(stacks0, spec_instrs(ls.take(upto)), newer) is None,
    ensures
        spec_run(stacks0, spec_instrs(ls), newer) is None,
    decreases ls.len() - upto,
{
    if upto < ls.len() {
        assert(ls.take(upto + 1).drop_last() =~= ls.take(upto));
        assert(ls.take(upto + 1).last() == ls[upto]);
        match spec_instr_of_line(ls[upto]) {
            Some(i) => {
                lemma_run_none_snoc(stacks0, spec_instrs(ls.take(upto)), i, newer);
                assert(spec_instrs(ls.take(upto + 1)) =~= spec_instrs(ls.take(upto)).push(i));
            },
            None => {
                assert(spec_instrs(ls.take(upto + 1)) =~= spec_instrs(ls.take(upto)));
            },
        }
        lemma_instrs_prefix_none(stacks0, ls, upto + 1, newer);
    } else {
        assert(ls.take(upto) =~= ls);
    }
}

proof fn lemma_run_none_snoc(
    stacks0: Seq<Seq<char>>,
    instrs: Seq<Instruction>,
    inst: Instruction,
    newer: bool,
)
    requires
        spec_run(stacks0, instrs, newer) is None,
    ensures
        spec_run(stacks0, instrs.push(inst), newer) is None,
{
    lemma_run_snoc(stacks0, instrs, inst, newer);
}

/// Runs the rearrangement with the older crane and reads the stack tops.
pub fn day5_1(lines: Vec<Vec<u8>>) -> (r: Result<String, StackError>)
    requires
        lines@.len() > 0,
        lines@[0]@.len() > 0,
        lines@[0]@.len() <= usize::MAX - 4,
        forall|k: int|
            drawing_len(lines@.map_values(|l: Vec<u8>| l@)) < k < lines@.len()
                ==> instr_line_ok((#[trigger] lines@[k])@),
    ensures
        ({
            let lseq = lines@.map_values(|l: Vec<u8>| l@);
            match r {
                Ok(top) => spec_day5(lseq, false) == Some(top@),
                Err(StackError::BadInput) => spec_day5(lseq, false) is None,
            }
        }),
{
    run_crane(lines, false)
}

/// Runs the rearrangement with the newer crane and reads the stack tops.
pub fn day5_2(lines: Vec<Vec<u8>>) -> (r: Result<String, StackError>)
    requires
        lines@.len() > 0,
        lines@[0]@.len() > 0,
        lines@[0]@.len() <= usize::MAX - 4,
        forall|k: int|
            drawing_len(lines@.map_values(|l: Vec<u8>| l@)) < k < lines@.len()
                ==> instr_line_ok((#[trigger] lines@[k])@),
    ensures
        ({
            let lseq = lines@.map_values(|l: Vec<u8>| l@);
            match r {
                Ok(top) => spec_day5(lseq, true) == Some(top@),
                Err(StackError::BadInput) => spec_day5(lseq, true) is None,
            }
        }),
{
    run_crane(lines, true)
}

} // verus!
