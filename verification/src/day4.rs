//! Reading pairs of section-assignment ranges.
//!
//! Each line holds two closed ranges, `a-b,c-d`; lines that do not parse are
//! skipped.

use vstd::prelude::*;
use crate::parsing::{find_byte, first_at, is_digits, digits_val, parse_u64, slice_range, slice_suffix};

verus! {

/// A closed range of section numbers, as `(first, last)`.
pub type Sections = (u32, u32);

/// The range pair read from one line, if the line parses.
pub open spec fn spec_sections_of_line(s: Seq<u8>) -> Option<(Sections, Sections)> {
    let ci = first_at(s, 44);
    if ci < 0 {
        None
    } else {
        let f = s.take(ci);
        let sec = s.skip(ci + 1);
        let d1 = first_at(f, 45);
        let d2 = first_at(sec, 45);
        if d1 < 0 || d2 < 0 {
            None
        } else {
            let f1 = f.take(d1);
            let f2 = f.skip(d1 + 1);
            let s1 = sec.take(d2);
            let s2 = sec.skip(d2 + 1);
            if is_digits(f1) && is_digits(f2) && is_digits(s1) && is_digits(s2) && digits_val(f1)
                <= u32::MAX && digits_val(f2) <= u32::MAX && digits_val(s1) <= u32::MAX
                && digits_val(s2) <= u32::MAX {
                Some(
                    (
                        ((digits_val(f1) as u32, digits_val(f2) as u32)),
                        ((digits_val(s1) as u32, digits_val(s2) as u32)),
                    ),
                )
            } else {
                None
            }
        }
    }
}

/// The range pairs read from all the lines, in order, skipping lines that do
/// not parse.
pub open spec fn spec_parse_sections(lines: Seq<Seq<u8>>) -> Seq<(Sections, Sections)>
    decreases lines.len(),
{
    if lines.len() == 0 {
        Seq::empty()
    } else {
        spec_parse_sections(lines.drop_last()) + match spec_sections_of_line(lines.last()) {
            Some(p) => seq![p],
            None => Seq::empty(),
        }
    }
}

fn parse_range(part: &[u8]) -> (r: Option<Sections>)
    ensures
        ({
            let d = first_at(part@, 45);
            match r {
                Some(p) => {
                    &&& d >= 0
                    &&& is_digits(part@.take(d)) && is_digits(part@.skip(d + 1))
                    &&& digits_val(part@.take(d)) <= u32::MAX && digits_val(part@.skip(d + 1))
                        <= u32::MAX
                    &&& p.0 == digits_val(part@.take(d)) && p.1 == digits_val(part@.skip(d + 1))
                },
                None => d < 0 || !(is_digits(part@.take(d)) && is_digits(part@.skip(d + 1))
                    && digits_val(part@.take(d)) <= u32::MAX && digits_val(part@.skip(d + 1))
                    <= u32::MAX),
            }
        }),
{
    let _plen = part.len();
    let d = match find_byte(part, 45) {
        Some(d) => d,
        None => {
            return None;
        },
    };
    let lo_s = slice_range(part, 0, d);
    let hi_s = slice_suffix(part, d + 1);
    proof {
        assert(lo_s@ =~= part@.take(d as int));
        assert(hi_s@ =~= part@.skip(d as int + 1));
    }
    let lo = match parse_u64(lo_s) {
        Some(v) => v,
        None => {
            return None;
        },
    };
    let hi = match parse_u64(hi_s) {
        Some(v) => v,
        None => {
            return None;
        },
    };
    if lo > u32::MAX as u64 || hi > u32::MAX as u64 {
        return None;
    }
    Some((lo as u32, hi as u32))
}

/// Reads the section-assignment pairs; a line that does not parse is
/// skipped.
pub fn get_pairs_of_sections(lines: &Vec<Vec<u8>>) -> (r: Vec<(Sections, Sections)>)
    ensures
        r@ == spec_parse_sections(lines@.map_values(|l: Vec<u8>| l@)),
{
    let ghost lseq = lines@.map_values(|l: Vec<u8>| l@);
    let mut out: Vec<(Sections, Sections)> = Vec::new();
    let n = lines.len();
    let mut k: usize = 0;
    while k < n
        invariant
            n == lines@.len(),
            k <= n,
            lseq == lines@.map_values(|l: Vec<u8>| l@),
            out@ == spec_parse_sections(lseq.take(k as int)),
        decreases n - k,
    {
        let line = &lines[k];
        proof {
            assert(lseq[k as int] == lines@[k as int]@);
            assert(lseq.take(k as int + 1).drop_last() =~= lseq.take(k as int));
            assert(lseq.take(k as int + 1).last() == lseq[k as int]);
        }
        let _llen = line.len();
        match find_byte(line.as_slice(), 44) {
            Some(ci) => {
                let f = slice_range(line.as_slice(), 0, ci);
                let sec = slice_suffix(line.as_slice(), ci + 1);
                proof {
                    assert(f@ =~= line@.take(ci as int));
                    assert(sec@ =~= line@.skip(ci as int + 1));
                }
                let r1 = parse_range(f);
                let r2 = parse_range(sec);
                match (r1, r2) {
                    (Some(a), Some(b)) => {
                        out.push((a, b));
                    },
                    _ => {},
                }
            },
            None => {},
        }
        k = k + 1;
    }
    proof {
        assert(lseq.take(n as int) =~= lseq);
    }
    out
}

} // verus!
