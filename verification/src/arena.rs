//! The arena: a flat, growable store of tree nodes addressed by stable
//! small-integer handles.
//!
//! Storage is backed by `slab::Slab`. This library never removes an entry,
//! so the slab stays dense: keys are handed out in order `0, 1, 2, ...` and
//! a handle stays valid for the arena's whole lifetime. The slab's contents
//! are named by the uninterpreted function [`slab_view`]; density is named
//! by [`slab_dense`]. Both are given meaning only through the contracts of
//! the trusted wrapper methods below.

use vstd::prelude::*;
use crate::fault::Fault;

verus! {

/// One tree node: a payload (`rank`, `symbol`) and two optional child
/// handles. `rank` is the ordering key, unique within a tree; `symbol` is
/// the byte emitted by message extraction. An absent child is `None`, never
/// a sentinel index.
#[derive(Clone, Copy, Debug)]
pub struct Node {
    pub rank: u16,
    pub symbol: u8,
    pub left: Option<u16>,
    pub right: Option<u16>,
}

#[verifier::external_type_specification]
#[verifier::external_body]
#[verifier::reject_recursive_types(T)]
pub struct ExSlab<T>(slab::Slab<T>);

/// The nodes a slab holds, in key order. Meaningful for dense slabs
/// (see [`slab_dense`]): entry `i` of the sequence is the value stored
/// under key `i`.
pub uninterp spec fn slab_view(s: slab::Slab<Node>) -> Seq<Node>;

/// Whether the slab is dense: every key below its length is occupied and
/// the next vacant key equals its length. True of a fresh slab and
/// preserved by insertion; removal (which this library never performs)
/// would break it.
pub uninterp spec fn slab_dense(s: slab::Slab<Node>) -> bool;

/// A flat growable store of nodes. Handles are indices; a handle, once
/// issued, is never reused or invalidated.
pub struct Arena {
    pub slab: slab::Slab<Node>,
}

impl View for Arena {
    type V = Seq<Node>;

    open spec fn view(&self) -> Seq<Node> {
        slab_view(self.slab)
    }
}

impl Arena {
    /// A fresh, empty arena.
    pub fn new() -> (a: Arena)
        ensures
            slab_view(a.slab) == Seq::<Node>::empty(),
            slab_dense(a.slab),
    {
        Arena::fresh()
    }

    /// Relies on `slab::Slab::new`: a fresh slab is empty and has no
    /// vacant entries.
    #[verifier::external_body]
    fn fresh() -> (a: Arena)
        ensures
            slab_view(a.slab) == Seq::<Node>::empty(),
            slab_dense(a.slab),
    {
        Arena { slab: slab::Slab::new() }
    }

    /// Relies on `slab::Slab::len`: the number of stored values, which for
    /// a dense slab is the number of keys handed out so far.
    pub fn len(&self) -> (n: usize)
        requires
            slab_dense(self.slab),
        ensures
            n == slab_view(self.slab).len(),
    {
        self.slab_len()
    }

    /// Relies on `slab::Slab::len`.
    #[verifier::external_body]
    fn slab_len(&self) -> (n: usize)
        requires
            slab_dense(self.slab),
        ensures
            n == slab_view(self.slab).len(),
    {
        self.slab.len()
    }

    /// Append a node; the returned handle is the arena's previous
    /// length, unique for the arena's lifetime.
    pub fn push(&mut self, node: Node) -> (k: usize)
        requires
            slab_dense(old(self).slab),
        ensures
            slab_dense(final(self).slab),
            slab_view(final(self).slab) == slab_view(old(self).slab).push(node),
            k == slab_view(old(self).slab).len(),
    {
        self.slab_insert(node)
    }

    /// Relies on `slab::Slab::insert`: on a slab with no vacant entries it
    /// appends at key `len` and returns that key.
    #[verifier::external_body]
    fn slab_insert(&mut self, node: Node) -> (k: usize)
        requires
            slab_dense(old(self).slab),
        ensures
            slab_dense(final(self).slab),
            slab_view(final(self).slab) == slab_view(old(self).slab).push(node),
            k == slab_view(old(self).slab).len(),
    {
        self.slab.insert(node)
    }

    /// The node stored under a handle below the arena's length.
    pub fn get_node(&self, k: usize) -> (n: Node)
        requires
            slab_dense(self.slab),
            k < slab_view(self.slab).len(),
        ensures
            n == slab_view(self.slab)[k as int],
    {
        self.slab_get(k)
    }

    /// Relies on `slab::Slab::get`: returns the value stored under an
    /// occupied key; for a dense slab every key below the length is
    /// occupied.
    #[verifier::external_body]
    fn slab_get(&self, k: usize) -> (n: Node)
        requires
            slab_dense(self.slab),
            k < slab_view(self.slab).len(),
        ensures
            n == slab_view(self.slab)[k as int],
    {
        *self.slab.get(k).expect("dense slab: key below len is occupied")
    }

    /// Replace the node stored under a handle below the arena's length,
    /// leaving every other slot as it is.
    pub fn set_node(&mut self, k: usize, node: Node)
        requires
            slab_dense(old(self).slab),
            k < slab_view(old(self).slab).len(),
        ensures
            slab_dense(final(self).slab),
            slab_view(final(self).slab) == slab_view(old(self).slab).update(k as int, node),
    {
        self.slab_set(k, node)
    }

    /// Relies on `slab::Slab::get_mut`: in-place mutation of the value
    /// under an occupied key changes that entry and nothing else.
    #[verifier::external_body]
    fn slab_set(&mut self, k: usize, node: Node)
        requires
            slab_dense(old(self).slab),
            k < slab_view(old(self).slab).len(),
        ensures
            slab_dense(final(self).slab),
            slab_view(final(self).slab) == slab_view(old(self).slab).update(k as int, node),
    {
        *self.slab.get_mut(k).expect("dense slab: key below len is occupied") = node;
    }
}

/// Both nodes' payloads exchanged, children left attached to their
/// slots.
pub open spec fn payload_swapped(s: Seq<Node>, hl: int, hr: int) -> Seq<Node> {
    let nl = s[hl];
    let nr = s[hr];
    s.update(hl, Node { rank: nr.rank, symbol: nr.symbol, left: nl.left, right: nl.right }).update(
        hr,
        Node { rank: nl.rank, symbol: nl.symbol, left: nr.left, right: nr.right },
    )
}

impl Arena {
    /// The stored node, or the out-of-range fault for a handle this
    /// arena never issued.
    pub fn get(&self, k: usize) -> (r: Result<Node, Fault>)
        requires
            slab_dense(self.slab),
        ensures
            k < slab_view(self.slab).len() ==> r == Ok::<Node, Fault>(
                slab_view(self.slab)[k as int],
            ),
            k >= slab_view(self.slab).len() ==> r == Err::<Node, Fault>(Fault::InvalidHandle),
    {
        if k < self.len() {
            Ok(self.get_node(k))
        } else {
            Err(Fault::InvalidHandle)
        }
    }

    /// Exchange the payloads — rank and symbol — of two distinct
    /// handles, leaving each node's children attached to its slot; the
    /// out-of-range fault when the handles are equal or either is
    /// invalid, with the arena untouched.
    pub fn swap_payloads(&mut self, h1: usize, h2: usize) -> (r: Result<(), Fault>)
        requires
            slab_dense(old(self).slab),
        ensures
            slab_dense(final(self).slab),
            h1 != h2 && h1 < slab_view(old(self).slab).len() && h2 < slab_view(
                old(self).slab,
            ).len() ==> r == Ok::<(), Fault>(()) && slab_view(final(self).slab) == payload_swapped(
                slab_view(old(self).slab),
                h1 as int,
                h2 as int,
            ),
            !(h1 != h2 && h1 < slab_view(old(self).slab).len() && h2 < slab_view(
                old(self).slab,
            ).len()) ==> r == Err::<(), Fault>(Fault::InvalidHandle) && slab_view(final(self).slab)
                == slab_view(old(self).slab),
    {
        let n = self.len();
        if h1 == h2 || h1 >= n || h2 >= n {
            return Err(Fault::InvalidHandle);
        }
        let n1 = self.get_node(h1);
        let n2 = self.get_node(h2);
        self.set_node(
            h1,
            Node { rank: n2.rank, symbol: n2.symbol, left: n1.left, right: n1.right },
        );
        self.set_node(
            h2,
            Node { rank: n1.rank, symbol: n1.symbol, left: n2.left, right: n2.right },
        );
        Ok(())
    }
}

} // verus!
