//! The largest total carried by one elf: lines hold numbers, blank lines
//! separate the elves.

use vstd::prelude::*;
use crate::parsing::{is_signed_digits, signed_val, parse_i64};

verus! {

/// The value a line stands for: blank lines count as zero.
pub open spec fn line_value(s: Seq<u8>) -> int {
    if s.len() == 0 {
        0
    } else {
        signed_val(s)
    }
}

/// A line the original accepts: blank, or a number that fits an `i32`.
pub open spec fn calorie_line_ok(s: Seq<u8>) -> bool {
    s.len() == 0 || (is_signed_digits(s) && i32::MIN <= signed_val(s) <= i32::MAX)
}

/// The fold state after `k` lines: the running sum of the open group,
/// whether a group is open, and the best completed or open group total.
pub open spec fn spec_groups(lines: Seq<Seq<u8>>, k: int) -> (int, bool, Option<int>)
    decreases k,
{
    if k <= 0 {
        (0, false, None)
    } else {
        let (cur, open, best) = spec_groups(lines, k - 1);
        let v = line_value(lines[k - 1]);
        if v == 0 {
            if open {
                let nb = match best {
                    Some(b) => if cur > b {
                        cur
                    } else {
                        b
                    },
                    None => cur,
                };
                (0, false, Some(nb))
            } else {
                (0, false, best)
            }
        } else {
            (cur + v, true, best)
        }
    }
}

/// Every running group sum stays within `i32`.
pub open spec fn sums_fit(lines: Seq<Seq<u8>>) -> bool {
    forall|k: int|
        0 <= k <= lines.len() ==> i32::MIN <= (#[trigger] spec_groups(lines, k)).0 <= i32::MAX
}

/// The largest group total of the whole input.
pub open spec fn spec_best_total(lines: Seq<Seq<u8>>) -> Option<int> {
    let (cur, open, best) = spec_groups(lines, lines.len() as int);
    if open {
        match best {
            Some(b) => Some(
                if cur > b {
                    cur
                } else {
                    b
                },
            ),
            None => Some(cur),
        }
    } else {
        best
    }
}

/// The largest total of any blank-line-separated group of numbers, reading a
/// line as zero when it is blank; `None` when no group holds a non-zero
/// line.
pub fn day1_1(lines: &Vec<Vec<u8>>) -> (r: Option<i32>)
    requires
        forall|k: int| 0 <= k < lines@.len() ==> calorie_line_ok((#[trigger] lines@[k])@),
        sums_fit(lines@.map_values(|l: Vec<u8>| l@)),
    ensures
        ({
            let best = spec_best_total(lines@.map_values(|l: Vec<u8>| l@));
            match r {
                Some(v) => best == Some(v as int),
                None => best is None,
            }
        }),
{
    let ghost lseq = lines@.map_values(|l: Vec<u8>| l@);
    let n = lines.len();
    let mut cur: i32 = 0;
    let mut open = false;
    let mut best: Option<i32> = None;
    let mut k: usize = 0;
    while k < n
        invariant
            k <= n,
            n == lines@.len(),
            lseq == lines@.map_values(|l: Vec<u8>| l@),
            forall|k0: int| 0 <= k0 < lines@.len() ==> calorie_line_ok((#[trigger] lines@[k0])@),
            sums_fit(lseq),
            ({
                let (scur, sopen, sbest) = spec_groups(lseq, k as int);
                &&& cur == scur
                &&& open == sopen
                &&& match best {
                    Some(b) => sbest == Some(b as int),
                    None => sbest is None,
                }
            }),
        decreases n - k,
    {
        let line = &lines[k];
        proof {
            assert(lseq[k as int] == lines@[k as int]@);
        }
        let v: i32 = if line.len() == 0 {
            0
        } else {
            match parse_i64(line.as_slice()) {
                Some(x) => {
                    if i32::MIN as i64 <= x && x <= i32::MAX as i64 {
                        x as i32
                    } else {
                        0
                    }
                },
                None => 0,
            }
        };
        proof {
            assert(v == line_value(lseq[k as int]));
            assert(spec_groups(lseq, k as int + 1).0 == if v == 0 {
                0int
            } else {
                cur + v
            });
        }
        if v == 0 {
            if open {
                best = match best {
                    Some(b) => if cur > b {
                        Some(cur)
                    } else {
                        Some(b)
                    },
                    None => Some(cur),
                };
            }
            cur = 0;
            open = false;
        } else {
            cur = cur + v;
            open = true;
        }
        k = k + 1;
    }
    if open {
        match best {
            Some(b) => if cur > b {
                Some(cur)
            } else {
                Some(b)
            },
            None => Some(cur),
        }
    } else {
        best
    }
}

} // verus!
