//! The directory walk of a recorded terminal session.
//!
//! `cd` commands move through the tree; an index records where each visited
//! directory's listing starts, and the sizes are then summed from the
//! deepest directories outward.

use vstd::prelude::*;
use vstd::string::{StringExecFns, StringSliceAdditionalSpecFns};
use crate::parsing::{bytes_eq, first_at, is_digits, digits_val, lemma_digits_val_nonneg, parse_u64, slice_range, slice_suffix, find_byte};

verus! {

/// Appends `child` to the directory path `parent`, inserting a slash except
/// directly under the root.
pub fn join_dir(parent: &str, child: &str) -> (r: String)
    requires
        parent.is_ascii(),
    ensures
        r@ == if parent@ == seq!['/'] {
            parent@ + child@
        } else {
            parent@ + seq!['/'] + child@
        },
{
    broadcast use vstd::string::is_ascii_spec_bytes;

    let b = parent.as_bytes();
    if b.len() == 1 && b[0] == 47 {
        proof {
            assert(parent@[0] as u8 == 47);
            assert(vstd::utf8::is_ascii_chars(parent@));
            assert((parent@[0] as u32) < 128);
            assert(parent@[0] == '/');
            assert(parent@ =~= seq!['/']);
        }
        parent.to_owned().concat(child)
    } else {
        proof {
            if parent@ == seq!['/'] {
                assert(b@.len() == 1 && b@[0] == 47);
            }
        }
        let with_sep = parent.to_owned().concat("/");
        proof {
            reveal_strlit("/");
            assert(with_sep@ =~= parent@ + seq!['/']);
        }
        let r = with_sep.concat(child);
        proof {
            assert(r@ =~= parent@ + seq!['/'] + child@);
        }
        r
    }
}


/// One visited directory and the input line of its `cd` command.
#[derive(Debug, PartialEq, Eq)]
pub struct DirPos {
    pub full_name: Vec<u8>,
    pub line: usize,
}

/// The bytes of `$ cd `.
pub open spec fn cd_prefix() -> Seq<u8> {
    seq![36u8, 32u8, 99u8, 100u8, 32u8]
}

/// Whether the line is a `cd` command.
pub open spec fn is_cd(s: Seq<u8>) -> bool {
    s.len() >= 5 && s.take(5) == cd_prefix()
}

/// The position of the last slash, or `-1`.
pub open spec fn last_slash(s: Seq<u8>) -> int
    decreases s.len(),
{
    if s.len() == 0 {
        -1
    } else if s.last() == 47 {
        s.len() - 1
    } else {
        last_slash(s.drop_last())
    }
}

/// The path with its last component removed; empty when there is no slash.
pub open spec fn parent_dir(s: Seq<u8>) -> Seq<u8> {
    if last_slash(s) < 0 {
        Seq::empty()
    } else {
        s.take(last_slash(s))
    }
}

/// Path concatenation at the byte level, as `join_dir` does it for strings.
pub open spec fn join_bytes(parent: Seq<u8>, child: Seq<u8>) -> Seq<u8> {
    if parent == seq![47u8] {
        parent + child
    } else {
        parent + seq![47u8] + child
    }
}

/// The walk state after the first `k` lines: the current directory and the
/// index of visited directories.
pub open spec fn spec_walk(lines: Seq<Seq<u8>>, k: int) -> (Seq<u8>, Seq<(Seq<u8>, int)>)
    decreases k,
{
    if k <= 0 {
        (Seq::empty(), Seq::empty())
    } else {
        let (cur, idx) = spec_walk(lines, k - 1);
        let line = lines[k - 1];
        if !is_cd(line) {
            (cur, idx)
        } else {
            let arg = line.skip(5);
            if arg == seq![46u8, 46u8] {
                (parent_dir(cur), idx)
            } else if arg == seq![47u8] {
                (seq![47u8], idx.push((seq![47u8], k - 1)))
            } else {
                let nd = join_bytes(cur, arg);
                (nd, idx.push((nd, k - 1)))
            }
        }
    }
}

proof fn lemma_last_slash_found(s: Seq<u8>, i: int)
    requires
        0 <= i < s.len(),
        s[i] == 47,
        forall|j: int| i < j < s.len() ==> s[j] != 47,
    ensures
        last_slash(s) == i,
    decreases s.len(),
{
    if i < s.len() - 1 {
        assert(s.drop_last()[i] == s[i]);
        assert forall|j: int| i < j < s.drop_last().len() implies s.drop_last()[j] != 47 by {
            assert(s.drop_last()[j] == s[j]);
        }
        lemma_last_slash_found(s.drop_last(), i);
    }
}

proof fn lemma_last_slash_none(s: Seq<u8>)
    requires
        forall|j: int| 0 <= j < s.len() ==> s[j] != 47,
    ensures
        last_slash(s) == -1,
    decreases s.len(),
{
    if s.len() > 0 {
        assert forall|j: int| 0 <= j < s.drop_last().len() implies s.drop_last()[j] != 47 by {
            assert(s.drop_last()[j] == s[j]);
        }
        lemma_last_slash_none(s.drop_last());
    }
}

/// The path with its last component removed.
fn parent_of(cur: &Vec<u8>) -> (r: Vec<u8>)
    ensures
        r@ == parent_dir(cur@),
{
    let n = cur.len();
    let mut i: usize = n;
    while i > 0
        invariant
            i <= n,
            n == cur@.len(),
            forall|j: int| i <= j < n ==> cur@[j] != 47,
        decreases i,
    {
        i = i - 1;
        if cur[i] == 47 {
            proof {
                lemma_last_slash_found(cur@, i as int);
            }
            let mut out: Vec<u8> = Vec::new();
            let mut j: usize = 0;
            while j < i
                invariant
                    j <= i <= n,
                    n == cur@.len(),
                    out@ == cur@.take(j as int),
                decreases i - j,
            {
                let b = cur[j];
                out.push(b);
                proof {
                    assert(out@ =~= cur@.take(j as int + 1));
                }
                j = j + 1;
            }
            return out;
        }
    }
    proof {
        lemma_last_slash_none(cur@);
    }
    Vec::new()
}

/// Path concatenation, inserting a slash except directly under the root.
fn join_paths(parent: &Vec<u8>, child: &[u8]) -> (r: Vec<u8>)
    ensures
        r@ == join_bytes(parent@, child@),
{
    let mut out: Vec<u8> = Vec::new();
    let n = parent.len();
    let mut i: usize = 0;
    while i < n
        invariant
            i <= n,
            n == parent@.len(),
            out@ == parent@.take(i as int),
        decreases n - i,
    {
        let b = parent[i];
        out.push(b);
        proof {
            assert(out@ =~= parent@.take(i as int + 1));
        }
        i = i + 1;
    }
    proof {
        assert(out@ =~= parent@);
    }
    let is_root = parent.len() == 1 && parent[0] == 47;
    proof {
        if parent@ == seq![47u8] {
            assert(parent@.len() == 1 && parent@[0] == 47);
        }
        if parent@.len() == 1 && parent@[0] == 47 {
            assert(parent@ =~= seq![47u8]);
        }
    }
    if !is_root {
        out.push(47);
    }
    let m = child.len();
    let ghost mid = out@;
    let mut j: usize = 0;
    while j < m
        invariant
            j <= m,
            m == child@.len(),
            out@ == mid + child@.take(j as int),
        decreases m - j,
    {
        let b = child[j];
        out.push(b);
        proof {
            assert(out@ =~= mid + child@.take(j as int + 1));
        }
        j = j + 1;
    }
    proof {
        assert(child@.take(m as int) =~= child@);
        if parent@ == seq![47u8] {
            assert(out@ =~= parent@ + child@);
        } else {
            assert(mid =~= parent@ + seq![47u8]);
            assert(out@ =~= parent@ + seq![47u8] + child@);
        }
    }
    out
}

/// Builds the index of visited directories: one entry per `cd` into a
/// directory, with the line it stands on.
pub fn create_dir_index(lines: &Vec<Vec<u8>>) -> (r: Vec<DirPos>)
    ensures
        ({
            let idx = spec_walk(lines@.map_values(|l: Vec<u8>| l@), lines@.len() as int).1;
            &&& r@.len() == idx.len()
            &&& forall|i: int|
                0 <= i < idx.len() ==> (#[trigger] r@[i]).full_name@ == idx[i].0 && r@[i].line
                    == idx[i].1
        }),
{
    let ghost lseq = lines@.map_values(|l: Vec<u8>| l@);
    let mut cur: Vec<u8> = Vec::new();
    let mut index: Vec<DirPos> = Vec::new();
    let n = lines.len();
    let mut k: usize = 0;
    proof {
        assert(cur@ =~= spec_walk(lseq, 0).0);
    }
    while k < n
        invariant
            k <= n,
            n == lines@.len(),
            lseq == lines@.map_values(|l: Vec<u8>| l@),
            cur@ == spec_walk(lseq, k as int).0,
            index@.len() == spec_walk(lseq, k as int).1.len(),
            forall|i: int|
                0 <= i < index@.len() ==> (#[trigger] index@[i]).full_name@ == spec_walk(
                    lseq,
                    k as int,
                ).1[i].0 && index@[i].line == spec_walk(lseq, k as int).1[i].1,
        decreases n - k,
    {
        let line = &lines[k];
        proof {
            assert(lseq[k as int] == lines@[k as int]@);
        }
        let cd = line.len() >= 5 && line[0] == 36 && line[1] == 32 && line[2] == 99 && line[3]
            == 100 && line[4] == 32;
        proof {
            if cd {
                assert(line@.take(5) =~= cd_prefix());
            } else if is_cd(lseq[k as int]) {
                assert(line@.take(5)[0] == 36 && line@.take(5)[1] == 32 && line@.take(5)[2] == 99
                    && line@.take(5)[3] == 100 && line@.take(5)[4] == 32);
                assert(false);
            }
        }
        if cd {
            let arg = slice_suffix(line.as_slice(), 5);
            let ghost args = lseq[k as int].skip(5);
            proof {
                assert(arg@ == args);
            }
            if arg.len() == 2 && arg[0] == 46 && arg[1] == 46 {
                proof {
                    assert(args =~= seq![46u8, 46u8]);
                }
                cur = parent_of(&cur);
            } else if arg.len() == 1 && arg[0] == 47 {
                proof {
                    assert(args =~= seq![47u8]);
                }
                cur = Vec::new();
                cur.push(47);
                proof {
                    assert(cur@ =~= seq![47u8]);
                }
                index.push(DirPos { full_name: cur.clone(), line: k });
            } else {
                proof {
                    if args == seq![46u8, 46u8] {
                        assert(arg@.len() == 2 && arg@[0] == 46 && arg@[1] == 46);
                    }
                    if args == seq![47u8] {
                        assert(arg@.len() == 1 && arg@[0] == 47);
                    }
                }
                cur = join_paths(&cur, arg);
                index.push(DirPos { full_name: cur.clone(), line: k });
            }
        }
        k = k + 1;
    }
    index
}


/// The bytes of `$ ls`.
pub open spec fn ls_line() -> Seq<u8> {
    seq![36u8, 32u8, 108u8, 115u8]
}

/// Whether the line starts a new command.
pub open spec fn starts_dollar(s: Seq<u8>) -> bool {
    s.len() >= 1 && s[0] == 36
}

/// Association lookup in the size table, newest entry first.
pub open spec fn lookup(sizes: Seq<(Seq<u8>, int)>, key: Seq<u8>) -> Option<int>
    decreases sizes.len(),
{
    if sizes.len() == 0 {
        None
    } else if sizes.last().0 == key {
        Some(sizes.last().1)
    } else {
        lookup(sizes.drop_last(), key)
    }
}

/// What one listing line adds to a directory's size: a file's size, a child
/// directory's recorded size, or nothing; `None` when a child directory has
/// no recorded size yet.
pub open spec fn spec_entry_size(line: Seq<u8>, name: Seq<u8>, sizes: Seq<(Seq<u8>, int)>) -> Option<int> {
    let i = first_at(line, 32);
    if i < 0 || i >= line.len() {
        Some(0)
    } else {
        let w0 = line.take(i);
        let rest = line.skip(i + 1);
        if w0 == seq![100u8, 105u8, 114u8] {
            lookup(sizes, join_bytes(name, rest))
        } else if is_digits(w0) && digits_val(w0) <= usize::MAX {
            Some(digits_val(w0))
        } else {
            Some(0)
        }
    }
}

/// The summed sizes of one `ls` block, read until the next command.
pub open spec fn spec_block_sum(
    lines: Seq<Seq<u8>>,
    from: int,
    name: Seq<u8>,
    sizes: Seq<(Seq<u8>, int)>,
) -> Option<int>
    decreases lines.len() - from,
{
    if from < 0 || from >= lines.len() || starts_dollar(lines[from]) {
        Some(0)
    } else {
        match (spec_entry_size(lines[from], name, sizes), spec_block_sum(
            lines,
            from + 1,
            name,
            sizes,
        )) {
            (Some(a), Some(b)) => Some(a + b),
            _ => None,
        }
    }
}

/// The size table after the last `k` index entries are processed, deepest
/// first; `None` when a listing is missing, a child's size is unknown, or a
/// sum does not fit.
pub open spec fn spec_sizes_after(
    lines: Seq<Seq<u8>>,
    index: Seq<(Seq<u8>, int)>,
    k: int,
) -> Option<Seq<(Seq<u8>, int)>>
    decreases k,
{
    if k <= 0 {
        Some(Seq::empty())
    } else {
        match spec_sizes_after(lines, index, k - 1) {
            None => None,
            Some(sz) => {
                let e = index[index.len() - k];
                if 0 <= e.1 && e.1 + 1 < lines.len() && lines[e.1 + 1] == ls_line() {
                    match spec_block_sum(lines, e.1 + 2, e.0, sz) {
                        Some(total) => if total <= usize::MAX {
                            Some(sz.push((e.0, total)))
                        } else {
                            None
                        },
                        None => None,
                    }
                } else {
                    None
                }
            },
        }
    }
}

/// The index entries as the specification sees them.
pub open spec fn index_view(dir_index: Seq<DirPos>) -> Seq<(Seq<u8>, int)> {
    dir_index.map_values(|d: DirPos| (d.full_name@, d.line as int))
}

proof fn lemma_sizes_nonneg(lines: Seq<Seq<u8>>, index: Seq<(Seq<u8>, int)>, k: int)
    requires
        spec_sizes_after(lines, index, k) is Some,
    ensures
        forall|i: int|
            0 <= i < spec_sizes_after(lines, index, k)->0.len() ==> 0 <= (
            #[trigger] spec_sizes_after(lines, index, k)->0[i]).1 <= usize::MAX,
    decreases k,
{
    if k > 0 {
        lemma_sizes_nonneg(lines, index, k - 1);
        let sz = spec_sizes_after(lines, index, k - 1)->0;
        let e = index[index.len() - k];
        lemma_block_sum_nonneg(lines, e.1 + 2, e.0, sz);
    }
}

proof fn lemma_block_sum_nonneg(
    lines: Seq<Seq<u8>>,
    from: int,
    name: Seq<u8>,
    sizes: Seq<(Seq<u8>, int)>,
)
    requires
        forall|i: int| 0 <= i < sizes.len() ==> 0 <= (#[trigger] sizes[i]).1,
        spec_block_sum(lines, from, name, sizes) is Some,
    ensures
        spec_block_sum(lines, from, name, sizes)->0 >= 0,
    decreases lines.len() - from,
{
    if !(from < 0 || from >= lines.len() || starts_dollar(lines[from])) {
        lemma_block_sum_nonneg(lines, from + 1, name, sizes);
        match spec_entry_size(lines[from], name, sizes) {
            Some(a) => {
                lemma_entry_size_nonneg(lines[from], name, sizes);
            },
            None => {},
        }
    }
}

proof fn lemma_entry_size_nonneg(line: Seq<u8>, name: Seq<u8>, sizes: Seq<(Seq<u8>, int)>)
    requires
        forall|i: int| 0 <= i < sizes.len() ==> 0 <= (#[trigger] sizes[i]).1,
        spec_entry_size(line, name, sizes) is Some,
    ensures
        spec_entry_size(line, name, sizes)->0 >= 0,
{
    let i = first_at(line, 32);
    if !(i < 0 || i >= line.len()) {
        let w0 = line.take(i);
        if w0 == seq![100u8, 105u8, 114u8] {
            lemma_lookup_nonneg(sizes, join_bytes(name, line.skip(i + 1)));
        } else if is_digits(w0) && digits_val(w0) <= usize::MAX {
            lemma_digits_val_nonneg(w0);
        }
    }
}

proof fn lemma_lookup_nonneg(sizes: Seq<(Seq<u8>, int)>, key: Seq<u8>)
    requires
        forall|i: int| 0 <= i < sizes.len() ==> 0 <= (#[trigger] sizes[i]).1,
        lookup(sizes, key) is Some,
    ensures
        lookup(sizes, key)->0 >= 0,
    decreases sizes.len(),
{
    if sizes.len() > 0 && sizes.last().0 != key {
        lemma_lookup_nonneg(sizes.drop_last(), key);
    }
}

fn lookup_size(sizes: &Vec<(Vec<u8>, usize)>, key: &Vec<u8>) -> (r: Option<usize>)
    ensures
        ({
            let sz = sizes@.map_values(|p: (Vec<u8>, usize)| (p.0@, p.1 as int));
            match r {
                Some(v) => lookup(sz, key@) == Some(v as int),
                None => lookup(sz, key@) is None,
            }
        }),
{
    let ghost sz = sizes@.map_values(|p: (Vec<u8>, usize)| (p.0@, p.1 as int));
    let n = sizes.len();
    proof {
        assert(sz.take(n as int) =~= sz);
    }
    let mut i: usize = n;
    while i > 0
        invariant
            i <= n,
            n == sizes@.len(),
            sz == sizes@.map_values(|p: (Vec<u8>, usize)| (p.0@, p.1 as int)),
            lookup(sz, key@) == lookup(sz.take(i as int), key@),
        decreases i,
    {
        i = i - 1;
        proof {
            assert(sz.take(i as int + 1).last() == sz[i as int]);
            assert(sz.take(i as int + 1).drop_last() =~= sz.take(i as int));
            assert(sz[i as int] == (sizes@[i as int].0@, sizes@[i as int].1 as int));
        }
        if bytes_eq(sizes[i].0.as_slice(), key.as_slice()) {
            return Some(sizes[i].1);
        }
    }
    proof {
        assert(sz.take(0) =~= Seq::<(Seq<u8>, int)>::empty());
    }
    None
}

/// Computes each indexed directory's total size, deepest directories first,
/// so a directory's listing can charge its children's already-computed
/// sizes.
pub fn compute_sizes(lines: &Vec<Vec<u8>>, dir_index: Vec<DirPos>) -> (r: Vec<(Vec<u8>, usize)>)
    requires
        spec_sizes_after(
            lines@.map_values(|l: Vec<u8>| l@),
            index_view(dir_index@),
            dir_index@.len() as int,
        ) is Some,
    ensures
        ({
            let sz = spec_sizes_after(
                lines@.map_values(|l: Vec<u8>| l@),
                index_view(dir_index@),
                dir_index@.len() as int,
            )->0;
            &&& r@.len() == sz.len()
            &&& forall|i: int|
                0 <= i < sz.len() ==> (#[trigger] r@[i]).0@ == sz[i].0 && r@[i].1 == sz[i].1
        }),
{
    let ghost lseq = lines@.map_values(|l: Vec<u8>| l@);
    let ghost iview = index_view(dir_index@);
    let mut sizes: Vec<(Vec<u8>, usize)> = Vec::new();
    let n = dir_index.len();
    let nlines = lines.len();
    let mut k: usize = 0;
    while k < n
        invariant
            k <= n,
            n == dir_index@.len(),
            nlines == lines@.len(),
            lseq == lines@.map_values(|l: Vec<u8>| l@),
            iview == index_view(dir_index@),
            spec_sizes_after(lseq, iview, n as int) is Some,
            spec_sizes_after(lseq, iview, k as int) is Some,
            sizes@.map_values(|p: (Vec<u8>, usize)| (p.0@, p.1 as int)) == spec_sizes_after(
                lseq,
                iview,
                k as int,
            )->0,
        decreases n - k,
    {
        proof {
            lemma_sizes_prefix_some(lseq, iview, k as int + 1, n as int);
        }
        let ghost sz = spec_sizes_after(lseq, iview, k as int)->0;
        let entry = &dir_index[n - 1 - k];
        let name = entry.full_name.clone();
        let start_line = entry.line;
        proof {
            assert(iview[n - 1 - k as int] == (dir_index@[n - 1 - k as int].full_name@,
                dir_index@[n - 1 - k as int].line as int));
            assert(iview.len() - (k as int + 1) == n - 1 - k as int);
        }
        // the listing must open right below the cd line
        if start_line >= nlines - 1 {
            proof {
                assert(false);
            }
            return sizes;
        }
        let lsl = &lines[start_line + 1];
        proof {
            assert(lseq[start_line as int + 1] == lines@[start_line as int + 1]@);
        }
        if !(lsl.len() == 4 && lsl[0] == 36 && lsl[1] == 32 && lsl[2] == 108 && lsl[3] == 115) {
            proof {
                if lseq[start_line as int + 1] == ls_line() {
                    assert(lsl@.len() == 4 && lsl@[0] == 36 && lsl@[1] == 32 && lsl@[2] == 108
                        && lsl@[3] == 115);
                }
                assert(false);
            }
            return sizes;
        }
        proof {
            assert(lseq[start_line as int + 1] =~= ls_line());
        }
        let ghost total = spec_block_sum(lseq, start_line as int + 2, name@, sz)->0;
        proof {
            lemma_sizes_nonneg(lseq, iview, k as int);
            lemma_block_sum_nonneg(lseq, start_line as int + 2, name@, sz);
        }
        let mut current: usize = 0;
        let mut j: usize = start_line + 2;
        while j < nlines && !(lines[j].len() >= 1 && lines[j][0] == 36)
            invariant
                start_line + 2 <= j <= nlines,
                nlines == lines@.len(),
                lseq == lines@.map_values(|l: Vec<u8>| l@),
                forall|i: int| 0 <= i < sz.len() ==> 0 <= (#[trigger] sz[i]).1,
                sizes@.map_values(|p: (Vec<u8>, usize)| (p.0@, p.1 as int)) == sz,
                spec_block_sum(lseq, start_line as int + 2, name@, sz) is Some,
                spec_block_sum(lseq, j as int, name@, sz) is Some,
                total == spec_block_sum(lseq, start_line as int + 2, name@, sz)->0,
                current + spec_block_sum(lseq, j as int, name@, sz)->0 == total,
                0 <= total <= usize::MAX,
                current <= total,
                forall|i: int|
                    start_line + 2 <= i < j ==> !starts_dollar(#[trigger] lseq[i]),
            decreases nlines - j,
        {
            let line = &lines[j];
            proof {
                assert(lseq[j as int] == lines@[j as int]@);
                assert(!starts_dollar(lseq[j as int]));
                lemma_block_sum_nonneg(lseq, j as int + 1, name@, sz);
                lemma_entry_size_nonneg(lseq[j as int], name@, sz);
            }
            let _llen = line.len();
            let contribution: usize = match find_byte(line.as_slice(), 32) {
                Some(i) => {
                    let w0 = slice_range(line.as_slice(), 0, i);
                    let rest = slice_suffix(line.as_slice(), i + 1);
                    proof {
                        assert(w0@ =~= lseq[j as int].take(i as int));
                        assert(rest@ =~= lseq[j as int].skip(i as int + 1));
                    }
                    if w0.len() == 3 && w0[0] == 100 && w0[1] == 105 && w0[2] == 114 {
                        proof {
                            assert(w0@ =~= seq![100u8, 105u8, 114u8]);
                        }
                        let sub_dir = join_paths(&name, rest);
                        match lookup_size(&sizes, &sub_dir) {
                            Some(v) => v,
                            None => {
                                proof {
                                    assert(false);
                                }
                                0
                            },
                        }
                    } else {
                        proof {
                            if w0@ == seq![100u8, 105u8, 114u8] {
                                assert(w0@.len() == 3 && w0@[0] == 100 && w0@[1] == 105
                                    && w0@[2] == 114);
                            }
                        }
                        match parse_u64(w0) {
                            Some(v) if v <= usize::MAX as u64 => v as usize,
                            _ => 0,
                        }
                    }
                },
                None => 0,
            };
            current = current + contribution;
            j = j + 1;
        }
        proof {
            assert(spec_block_sum(lseq, j as int, name@, sz) == Some(0int));
            assert(current == total);
        }
        sizes.push((name, current));
        proof {
            assert(sizes@.map_values(|p: (Vec<u8>, usize)| (p.0@, p.1 as int)) =~= sz.push(
                (dir_index@[n - 1 - k as int].full_name@, total),
            ));
        }
        k = k + 1;
    }
    sizes
}

proof fn lemma_sizes_prefix_some(lines: Seq<Seq<u8>>, index: Seq<(Seq<u8>, int)>, k: int, kk: int)
    requires
        0 <= k <= kk,
        spec_sizes_after(lines, index, kk) is Some,
    ensures
        spec_sizes_after(lines, index, k) is Some,
    decreases kk - k,
{
    if k < kk {
        assert(spec_sizes_after(lines, index, kk - 1) is Some);
        lemma_sizes_prefix_some(lines, index, k, kk - 1);
    }
}

} // verus!
