//! Monkeys inspecting and throwing worry-laden items.
//!
//! Each monkey holds a queue of worry levels; inspecting the front item
//! applies the monkey's operation, lets the keeper's rule lower the worry,
//! and picks a target monkey by divisibility.

use std::collections::VecDeque;

use vstd::prelude::*;

verus! {

/// One side of a monkey's worry operation.
#[derive(Debug, Clone, Copy, PartialEq, Eq, Structural)]
pub enum Operand {
    Literal(u64),
    Old,
}

impl Operand {
    /// The operand's value given the current worry level.
    pub open spec fn spec_get(self, old_val: u64) -> u64 {
        match self {
            Operand::Literal(n) => n,
            Operand::Old => old_val,
        }
    }

    pub fn get(self, old_val: u64) -> (r: u64)
        ensures
            r == self.spec_get(old_val),
    {
        match self {
            Operand::Literal(n) => n,
            Operand::Old => old_val,
        }
    }
}

#[derive(Debug, Clone, Copy, PartialEq, Eq, Structural)]
pub enum Op {
    Plus,
    Times,
}

/// A monkey's worry operation `a <op> b`, where either side may be the item's
/// current worry level.
#[derive(Debug, Clone, Copy, PartialEq, Eq, Structural)]
pub struct Operation {
    pub a: Operand,
    pub op: Op,
    pub b: Operand,
}

impl Operation {
    /// The new worry level, as a mathematical integer.
    pub open spec fn spec_apply(self, w: u64) -> int {
        match self.op {
            Op::Plus => self.a.spec_get(w) + self.b.spec_get(w),
            Op::Times => self.a.spec_get(w) * self.b.spec_get(w),
        }
    }

    pub fn apply(self, w: u64) -> (r: u64)
        requires
            self.spec_apply(w) <= u64::MAX,
        ensures
            r == self.spec_apply(w),
    {
        match self.op {
            Op::Plus => self.a.get(w) + self.b.get(w),
            Op::Times => self.a.get(w) * self.b.get(w),
        }
    }
}

/// Lowers a worry level into `0..2 * ppcm` while keeping its residue modulo
/// every prime factor of `ppcm`.
pub fn decrease_worry_with_ppcm(worry: u64, ppcm: u64) -> (r: u64)
    requires
        ppcm >= 1,
        worry > ppcm ==> ppcm + worry % ppcm <= u64::MAX,
    ensures
        r == if worry > ppcm {
            (worry % ppcm + ppcm) as int
        } else {
            worry as int
        },
{
    if worry > ppcm {
        worry % ppcm + ppcm
    } else {
        worry
    }
}

/// The keeper's rule for lowering worry after an inspection.
#[derive(Debug, Clone, Copy, PartialEq, Eq, Structural)]
pub enum WorryRule {
    /// Relief: the worry level is divided by three.
    DivideByThree,
    /// No relief: the worry level is reduced modulo the product of all the
    /// monkeys' divisors.
    Ppcm(u64),
}

/// What a rule turns a worry level into.
pub open spec fn spec_decrease(rule: WorryRule, w: u64) -> int {
    match rule {
        WorryRule::DivideByThree => w as int / 3,
        WorryRule::Ppcm(p) => if w > p {
            (w % p + p) as int
        } else {
            w as int
        },
    }
}

/// The rule's arithmetic stays in range for the worry level `w`.
pub open spec fn rule_ok(rule: WorryRule, w: u64) -> bool {
    match rule {
        WorryRule::DivideByThree => true,
        WorryRule::Ppcm(p) => p >= 1 && (w > p ==> p + w % p <= u64::MAX),
    }
}

fn apply_rule(rule: WorryRule, w: u64) -> (r: u64)
    requires
        rule_ok(rule, w),
    ensures
        r == spec_decrease(rule, w),
{
    match rule {
        WorryRule::DivideByThree => w / 3,
        WorryRule::Ppcm(p) => decrease_worry_with_ppcm(w, p),
    }
}

/// One monkey: its items, its worry operation, its divisibility test and the
/// two targets, and how many inspections it has made.
pub struct Monkey {
    pub items: VecDeque<u64>,
    pub operation: Operation,
    pub prime_factor: u64,
    pub target: (usize, usize),
    pub inspections: u64,
}

impl Monkey {
    /// Inspects the front item, if any: applies the operation and the
    /// keeper's rule, and says where the item flies.
    pub fn inspect(&mut self, rule: WorryRule) -> (r: Option<(u64, usize)>)
        requires
            old(self).items@.len() > 0 ==> {
                &&& old(self).operation.spec_apply(old(self).items@[0]) <= u64::MAX
                &&& old(self).prime_factor >= 1
                &&& rule_ok(
                    rule,
                    old(self).operation.spec_apply(old(self).items@[0]) as u64,
                )
                &&& old(self).inspections < u64::MAX
            },
    ensures
            match r {
                None => {
                    &&& old(self).items@.len() == 0
                    &&& final(self).items@ == old(self).items@
                    &&& final(self).inspections == old(self).inspections
                    &&& final(self).operation == old(self).operation
                    &&& final(self).prime_factor == old(self).prime_factor
                    &&& final(self).target == old(self).target
                },
                Some(p) => {
                    &&& old(self).items@.len() > 0
                    &&& ({
                        let w1 = old(self).operation.spec_apply(old(self).items@[0]) as u64;
                        let w2 = spec_decrease(rule, w1);
                        &&& p.0 == w2
                        &&& p.1 == if w2 as u64 % old(self).prime_factor == 0 {
                            old(self).target.0
                        } else {
                            old(self).target.1
                        }
                    })
                    &&& final(self).items@ == old(self).items@.subrange(
                        1,
                        old(self).items@.len() as int,
                    )
                    &&& final(self).inspections == old(self).inspections + 1
                    &&& final(self).operation == old(self).operation
                    &&& final(self).prime_factor == old(self).prime_factor
                    &&& final(self).target == old(self).target
                },
            },
    {
        let front = self.items.pop_front();
        let mut item = match front {
            Some(it) => it,
            None => {
                return None;
            },
        };
        self.inspections = self.inspections + 1;
        item = self.operation.apply(item);
        item = apply_rule(rule, item);
        if item % self.prime_factor == 0 {
            Some((item, self.target.0))
        } else {
            Some((item, self.target.1))
        }
    }

    /// Catches an item thrown to this monkey.
    pub fn catch(&mut self, item: u64)
        ensures
            final(self).items@ == old(self).items@.push(item),
            final(self).inspections == old(self).inspections,
            final(self).operation == old(self).operation,
            final(self).prime_factor == old(self).prime_factor,
            final(self).target == old(self).target,
    {
        self.items.push_back(item);
    }
}


/// The unchanging part of one monkey: its operation, divisor, and targets.
pub open spec fn monkey_config(m: Monkey) -> (Operation, u64, (usize, usize)) {
    (m.operation, m.prime_factor, m.target)
}

/// The changing part of one monkey: its items and its inspection count.
pub open spec fn monkey_state(m: Monkey) -> (Seq<u64>, u64) {
    (m.items@, m.inspections)
}

/// One monkey's whole turn: it inspects and throws every item it holds.
/// `None` when a throw would fault: an arithmetic overflow, a target out of
/// range, or a monkey throwing to itself (its queue would never drain).
pub open spec fn spec_turn(
    cfg: Seq<(Operation, u64, (usize, usize))>,
    st: Seq<(Seq<u64>, u64)>,
    m: int,
    rule: WorryRule,
) -> Option<Seq<(Seq<u64>, u64)>>
    decreases st[m].0.len(),
{
    if !(0 <= m < st.len() && st.len() == cfg.len()) {
        None
    } else if st[m].0.len() == 0 {
        Some(st)
    } else {
        let item = st[m].0[0];
        let (op, pf, targets) = cfg[m];
        if op.spec_apply(item) > u64::MAX || pf == 0 || !rule_ok(rule, op.spec_apply(item) as u64)
            || st[m].1 == u64::MAX {
            None
        } else {
            let w2 = spec_decrease(rule, op.spec_apply(item) as u64) as u64;
            let t = if w2 % pf == 0 {
                targets.0
            } else {
                targets.1
            };
            if t == m || t >= st.len() {
                None
            } else {
                let st2 = st.update(m, (st[m].0.drop_first(), (st[m].1 + 1) as u64)).update(
                    t as int,
                    (st[t as int].0.push(w2), st[t as int].1),
                );
                spec_turn(cfg, st2, m, rule)
            }
        }
    }
}

/// One full round: every monkey takes its turn in order.
pub open spec fn spec_round(
    cfg: Seq<(Operation, u64, (usize, usize))>,
    st: Seq<(Seq<u64>, u64)>,
    m: int,
    rule: WorryRule,
) -> Option<Seq<(Seq<u64>, u64)>>
    decreases cfg.len() - m,
{
    if m >= cfg.len() {
        Some(st)
    } else {
        match spec_turn(cfg, st, m, rule) {
            Some(st2) => spec_round(cfg, st2, m + 1, rule),
            None => None,
        }
    }
}

/// The state after `r` full rounds.
pub open spec fn spec_rounds(
    cfg: Seq<(Operation, u64, (usize, usize))>,
    st: Seq<(Seq<u64>, u64)>,
    r: int,
    rule: WorryRule,
) -> Option<Seq<(Seq<u64>, u64)>>
    decreases r,
{
    if r <= 0 {
        Some(st)
    } else {
        match spec_rounds(cfg, st, r - 1, rule) {
            Some(st2) => spec_round(cfg, st2, 0, rule),
            None => None,
        }
    }
}

/// The largest inspection count among the first `k` monkeys.
pub open spec fn spec_max_inspections(st: Seq<(Seq<u64>, u64)>, k: int) -> int
    decreases k,
{
    if k <= 0 {
        0
    } else {
        let prev = spec_max_inspections(st, k - 1);
        if st[k - 1].1 > prev {
            st[k - 1].1 as int
        } else {
            prev
        }
    }
}

/// The largest and second-largest inspection counts among the first `k`
/// monkeys, duplicates counted twice.
pub open spec fn spec_top_two(st: Seq<(Seq<u64>, u64)>, k: int) -> (int, int)
    decreases k,
{
    if k <= 0 {
        (0, 0)
    } else {
        let (hi, lo) = spec_top_two(st, k - 1);
        let v = st[k - 1].1 as int;
        if v > hi {
            (v, hi)
        } else if v > lo {
            (hi, v)
        } else {
            (hi, lo)
        }
    }
}

/// Failure of the monkey simulation.
#[derive(Clone, Copy, Debug, PartialEq, Eq, Structural)]
pub enum MonkeyError {
    /// Fewer than two monkeys: there is no pair of inspection counts.
    TooFewMonkeys,
}

/// Plays the given number of rounds and returns the product of the two
/// largest inspection counts.
pub fn monkey_business(monkeys: Vec<Monkey>, round_count: usize, rule: WorryRule) -> (r: Result<
    u64,
    MonkeyError,
>)
    requires
        ({
            let cfg = monkeys@.map_values(|m: Monkey| monkey_config(m));
            let st0 = monkeys@.map_values(|m: Monkey| monkey_state(m));
            &&& spec_rounds(cfg, st0, round_count as int, rule) is Some
            &&& ({
                let fin = spec_rounds(cfg, st0, round_count as int, rule)->0;
                spec_top_two(fin, fin.len() as int).0 * spec_top_two(fin, fin.len() as int).1
                    <= u64::MAX
            })
        }),
    ensures
        ({
            let cfg = monkeys@.map_values(|m: Monkey| monkey_config(m));
            let st0 = monkeys@.map_values(|m: Monkey| monkey_state(m));
            let fin = spec_rounds(cfg, st0, round_count as int, rule)->0;
            match r {
                Ok(v) => monkeys@.len() >= 2 && v == spec_top_two(fin, fin.len() as int).0
                    * spec_top_two(fin, fin.len() as int).1,
                Err(MonkeyError::TooFewMonkeys) => monkeys@.len() < 2,
            }
        }),
{
    let ghost cfg = monkeys@.map_values(|m: Monkey| monkey_config(m));
    let ghost st0 = monkeys@.map_values(|m: Monkey| monkey_state(m));
    let mut monkeys = monkeys;
    let n = monkeys.len();
    let mut round: usize = 0;
    while round < round_count
        invariant
            round <= round_count,
            n == monkeys@.len(),
            cfg == monkeys@.map_values(|m: Monkey| monkey_config(m)),
            spec_rounds(cfg, st0, round_count as int, rule) is Some,
            spec_rounds(cfg, st0, round as int, rule) == Some(
                monkeys@.map_values(|m: Monkey| monkey_state(m)),
            ),
        decreases round_count - round,
    {
        proof {
            lemma_rounds_prefix_some(cfg, st0, round as int + 1, round_count as int, rule);
        }
        let mut mi: usize = 0;
        let ghost st_round = monkeys@.map_values(|m: Monkey| monkey_state(m));
        proof {
            assert(spec_rounds(cfg, st0, round as int + 1, rule) is Some);
            assert(spec_round(cfg, st_round, 0, rule) is Some);
        }
        while mi < n
            invariant
                mi <= n,
                n == monkeys@.len(),
                cfg == monkeys@.map_values(|m: Monkey| monkey_config(m)),
                spec_round(cfg, st_round, 0, rule) is Some,
                spec_round(
                    cfg,
                    monkeys@.map_values(|m: Monkey| monkey_state(m)),
                    mi as int,
                    rule,
                ) == spec_round(cfg, st_round, 0, rule),
            decreases n - mi,
        {
            proof {
                let cur = monkeys@.map_values(|m: Monkey| monkey_state(m));
                assert(spec_round(cfg, cur, mi as int, rule) is Some);
                assert(spec_turn(cfg, cur, mi as int, rule) is Some);
            }
            loop
                invariant
                    mi < n,
                    n == monkeys@.len(),
                    cfg == monkeys@.map_values(|m: Monkey| monkey_config(m)),
                    spec_turn(
                        cfg,
                        monkeys@.map_values(|m: Monkey| monkey_state(m)),
                        mi as int,
                        rule,
                    ) is Some,
                    spec_round(cfg, st_round, 0, rule) is Some,
                    spec_round(
                        cfg,
                        monkeys@.map_values(|m: Monkey| monkey_state(m)),
                        mi as int,
                        rule,
                    ) == spec_round(cfg, st_round, 0, rule),
                ensures
                    monkeys@.len() == n,
                    cfg == monkeys@.map_values(|m: Monkey| monkey_config(m)),
                    spec_turn(
                        cfg,
                        monkeys@.map_values(|m: Monkey| monkey_state(m)),
                        mi as int,
                        rule,
                    ) == Some(monkeys@.map_values(|m: Monkey| monkey_state(m))),
                    spec_round(
                        cfg,
                        monkeys@.map_values(|m: Monkey| monkey_state(m)),
                        mi as int,
                        rule,
                    ) == spec_round(cfg, st_round, 0, rule),
                decreases monkeys@[mi as int].items@.len(),
            {
                let ghost st_cur = monkeys@.map_values(|m: Monkey| monkey_state(m));
                proof {
                    assert(st_cur[mi as int] == monkey_state(monkeys@[mi as int]));
                    assert(cfg[mi as int] == monkey_config(monkeys@[mi as int]));
                }
                if monkeys[mi].items.len() == 0 {
                    break ;
                }
                let thrown = monkeys[mi].inspect(rule);
                proof {
                    assert(monkeys@[mi as int].items@ == st_cur[mi as int].0.drop_first());
                }
                match thrown {
                    Some((item, target)) => {
                        proof {
                            assert(!(target == mi || target >= n));
                        }
                        monkeys[target].catch(item);
                        proof {
                            let st_new = monkeys@.map_values(|m: Monkey| monkey_state(m));
                            assert(st_new =~= st_cur.update(
                                mi as int,
                                (st_cur[mi as int].0.drop_first(), (st_cur[mi as int].1
                                    + 1) as u64),
                            ).update(
                                target as int,
                                (st_cur[target as int].0.push(item), st_cur[target as int].1),
                            ));
                            assert(spec_turn(cfg, st_cur, mi as int, rule) == spec_turn(
                                cfg,
                                st_new,
                                mi as int,
                                rule,
                            ));
                        }
                    },
                    None => {
                        proof {
                            assert(false);
                        }
                    },
                }
            }
            proof {
                let st_after = monkeys@.map_values(|m: Monkey| monkey_state(m));
                assert(spec_round(cfg, st_after, mi as int, rule) == spec_round(
                    cfg,
                    st_after,
                    mi as int + 1,
                    rule,
                ));
            }
            mi = mi + 1;
        }
        proof {
            let st_fin = monkeys@.map_values(|m: Monkey| monkey_state(m));
            assert(spec_round(cfg, st_fin, n as int, rule) == Some(st_fin));
            assert(spec_round(cfg, st_round, 0, rule) == Some(st_fin));
            assert(spec_rounds(cfg, st0, round as int + 1, rule) == Some(st_fin));
        }
        round = round + 1;
    }
    if n < 2 {
        return Err(MonkeyError::TooFewMonkeys);
    }
    let ghost fin = monkeys@.map_values(|m: Monkey| monkey_state(m));
    proof {
        lemma_top_two_bounds(fin, n as int);
    }
    let mut hi: u64 = 0;
    let mut lo: u64 = 0;
    let mut k: usize = 0;
    while k < n
        invariant
            k <= n,
            n == monkeys@.len(),
            fin == monkeys@.map_values(|m: Monkey| monkey_state(m)),
            (hi as int, lo as int) == spec_top_two(fin, k as int),
        decreases n - k,
    {
        let v = monkeys[k].inspections;
        proof {
            assert(fin[k as int] == monkey_state(monkeys@[k as int]));
        }
        if v > hi {
            lo = hi;
            hi = v;
        } else if v > lo {
            lo = v;
        }
        k = k + 1;
    }
    proof {
        assert(spec_rounds(cfg, st0, round_count as int, rule) == Some(fin));
        lemma_top_two_mul_bound(fin, n as int);
    }
    Ok(hi * lo)
}

proof fn lemma_rounds_prefix_some(
    cfg: Seq<(Operation, u64, (usize, usize))>,
    st: Seq<(Seq<u64>, u64)>,
    r: int,
    rr: int,
    rule: WorryRule,
)
    requires
        0 <= r <= rr,
        spec_rounds(cfg, st, rr, rule) is Some,
    ensures
        spec_rounds(cfg, st, r, rule) is Some,
    decreases rr - r,
{
    if r < rr {
        assert(spec_rounds(cfg, st, rr - 1, rule) is Some);
        lemma_rounds_prefix_some(cfg, st, r, rr - 1, rule);
    }
}

proof fn lemma_top_two_bounds(st: Seq<(Seq<u64>, u64)>, k: int)
    ensures
        0 <= spec_top_two(st, k).1 <= spec_top_two(st, k).0 <= u64::MAX,
    decreases k,
{
    if k > 0 {
        lemma_top_two_bounds(st, k - 1);
    }
}

proof fn lemma_top_two_mul_bound(st: Seq<(Seq<u64>, u64)>, k: int)
    ensures
        0 <= spec_top_two(st, k).0 * spec_top_two(st, k).1,
{
    lemma_top_two_bounds(st, k);
    let (hi, lo) = spec_top_two(st, k);
    assert(0 <= hi * lo) by (nonlinear_arith)
        requires
            hi >= 0,
            lo >= 0,
    ;
}

} // verus!
