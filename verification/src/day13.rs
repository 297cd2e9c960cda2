//! Ordering of nested packets.
//!
//! A packet is an integer or a list of packets.  Two integers compare as
//! numbers, two lists compare lexicographically, and an integer compares
//! against a list as the one-element list holding it.

use vstd::prelude::*;

verus! {

/// A packet: an integer or a list of packets.
#[derive(Debug, PartialEq, Eq)]
pub enum Packet {
    List(Vec<Packet>),
    Int(u32),
}

/// The three-way comparison result.
#[derive(Debug, PartialEq, Eq, Clone, Copy, Structural)]
pub enum PacketOrder {
    Less,
    Equal,
    Greater,
}

/// The number of nodes of a packet, the measure the comparison recursion
/// shrinks.
pub open spec fn packet_size(p: Packet) -> nat
    decreases p,
{
    match p {
        Packet::Int(_) => 1,
        Packet::List(v) => 1 + list_size(v, 0),
    }
}

/// The summed sizes of the list elements from `i` on.
pub open spec fn list_size(v: Vec<Packet>, i: int) -> nat
    decreases v, v@.len() - i,
{
    if i < 0 || i >= v@.len() {
        0
    } else {
        packet_size(v@[i]) + list_size(v, i + 1)
    }
}

proof fn lemma_size_pos(p: Packet)
    ensures
        packet_size(p) >= 1,
{
}

proof fn lemma_elem_le(v: Vec<Packet>, i: int)
    requires
        0 <= i < v@.len(),
    ensures
        packet_size(v@[i]) <= list_size(v, i),
{
}

/// How two packets compare.
pub open spec fn spec_cmp(a: Packet, b: Packet) -> PacketOrder
    decreases packet_size(a) + packet_size(b), 0int,
    via spec_cmp_decreases
{
    match (a, b) {
        (Packet::Int(l), Packet::Int(r)) => if l < r {
            PacketOrder::Less
        } else if l == r {
            PacketOrder::Equal
        } else {
            PacketOrder::Greater
        },
        (Packet::Int(_), Packet::List(rv)) => spec_cmp_one_list(a, rv, false),
        (Packet::List(lv), Packet::Int(_)) => spec_cmp_one_list(b, lv, true),
        (Packet::List(lv), Packet::List(rv)) => spec_cmp_lists(lv, rv, 0),
    }
}

#[via_fn]
proof fn spec_cmp_decreases(a: Packet, b: Packet) {
    match (a, b) {
        (Packet::Int(_), Packet::List(rv)) => {
            assert(packet_size(b) == 1 + list_size(rv, 0));
        },
        (Packet::List(lv), Packet::Int(_)) => {
            assert(packet_size(a) == 1 + list_size(lv, 0));
        },
        (Packet::List(lv), Packet::List(rv)) => {
            assert(packet_size(a) == 1 + list_size(lv, 0));
            assert(packet_size(b) == 1 + list_size(rv, 0));
        },
        _ => {},
    }
}

/// How the one-element list holding `single` compares with the list `v`;
/// `flip` reverses the verdict, for the case where the list stands on the
/// left.
pub open spec fn spec_cmp_one_list(single: Packet, v: Vec<Packet>, flip: bool) -> PacketOrder
    decreases packet_size(single) + list_size(v, 0), 1int,
    via spec_cmp_one_list_decreases
{
    let raw = if v@.len() == 0 {
        PacketOrder::Greater
    } else {
        match spec_cmp(single, v@[0]) {
            PacketOrder::Equal => if v@.len() == 1 {
                PacketOrder::Equal
            } else {
                PacketOrder::Less
            },
            c => c,
        }
    };
    if flip {
        flip_order(raw)
    } else {
        raw
    }
}

#[via_fn]
proof fn spec_cmp_one_list_decreases(single: Packet, v: Vec<Packet>, flip: bool) {
    if v@.len() > 0 {
        lemma_elem_le(v, 0);
    }
}

/// Lexicographic comparison of two lists, from element `i` on.
pub open spec fn spec_cmp_lists(l: Vec<Packet>, r: Vec<Packet>, i: int) -> PacketOrder
    decreases list_size(l, i) + list_size(r, i), 1int,
    via spec_cmp_lists_decreases
{
    if i < 0 || (i >= l@.len() && i >= r@.len()) {
        PacketOrder::Equal
    } else if i >= l@.len() {
        PacketOrder::Less
    } else if i >= r@.len() {
        PacketOrder::Greater
    } else {
        match spec_cmp(l@[i], r@[i]) {
            PacketOrder::Equal => spec_cmp_lists(l, r, i + 1),
            c => c,
        }
    }
}

#[via_fn]
proof fn spec_cmp_lists_decreases(l: Vec<Packet>, r: Vec<Packet>, i: int) {
    if 0 <= i && i < l@.len() && i < r@.len() {
        lemma_elem_le(l, i);
        lemma_elem_le(r, i);
        lemma_size_pos(l@[i]);
        lemma_size_pos(r@[i]);
    }
}

/// The opposite verdict.
pub open spec fn flip_order(c: PacketOrder) -> PacketOrder {
    match c {
        PacketOrder::Less => PacketOrder::Greater,
        PacketOrder::Equal => PacketOrder::Equal,
        PacketOrder::Greater => PacketOrder::Less,
    }
}

impl Packet {
    /// Three-way comparison, as the distress-signal rules order packets.
    pub fn cmp(&self, other: &Packet) -> (r: PacketOrder)
        ensures
            r == spec_cmp(*self, *other),
        decreases packet_size(*self) + packet_size(*other), 0int,
    {
        match (self, other) {
            (Packet::Int(l), Packet::Int(r)) => {
                if l < r {
                    PacketOrder::Less
                } else if l == r {
                    PacketOrder::Equal
                } else {
                    PacketOrder::Greater
                }
            },
            (Packet::Int(_), Packet::List(rv)) => cmp_one_list(self, rv, false),
            (Packet::List(lv), Packet::Int(_)) => cmp_one_list(other, lv, true),
            (Packet::List(lv), Packet::List(rv)) => cmp_lists(lv, rv, 0),
        }
    }
}

fn cmp_one_list(single: &Packet, v: &Vec<Packet>, flip: bool) -> (r: PacketOrder)
    ensures
        r == spec_cmp_one_list(*single, *v, flip),
    decreases packet_size(*single) + list_size(*v, 0), 1int,
{
    let raw = if v.len() == 0 {
        PacketOrder::Greater
    } else {
        proof {
            lemma_elem_le(*v, 0);
        }
        match single.cmp(&v[0]) {
            PacketOrder::Equal => {
                if v.len() == 1 {
                    PacketOrder::Equal
                } else {
                    PacketOrder::Less
                }
            },
            c => c,
        }
    };
    if flip {
        match raw {
            PacketOrder::Less => PacketOrder::Greater,
            PacketOrder::Equal => PacketOrder::Equal,
            PacketOrder::Greater => PacketOrder::Less,
        }
    } else {
        raw
    }
}

fn cmp_lists(l: &Vec<Packet>, r: &Vec<Packet>, i: usize) -> (res: PacketOrder)
    ensures
        res == spec_cmp_lists(*l, *r, i as int),
    decreases list_size(*l, i as int) + list_size(*r, i as int), 1int,
{
    if i >= l.len() && i >= r.len() {
        PacketOrder::Equal
    } else if i >= l.len() {
        PacketOrder::Less
    } else if i >= r.len() {
        PacketOrder::Greater
    } else {
        proof {
            lemma_elem_le(*l, i as int);
            lemma_elem_le(*r, i as int);
            lemma_size_pos(l@[i as int]);
            lemma_size_pos(r@[i as int]);
        }
        match l[i].cmp(&r[i]) {
            PacketOrder::Equal => cmp_lists(l, r, i + 1),
            c => c,
        }
    }
}

} // verus!
