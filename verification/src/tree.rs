//! The ordered tree: binary-search-tree insertion keyed by rank, built on
//! the arena, together with its mathematical model.
//!
//! Every node of a tree lives in an arena slot; children are referenced by
//! handle. Because a child is always created after its parent, every child
//! handle is strictly greater than its parent's handle ([`arena_wf`]), which
//! grounds all recursion over the arena. A subtree is abstracted as a
//! [`Tree`] value by [`view_of`]; [`tree_ok`] states that subtrees never
//! share slots, so a subtree really is a tree and not a dag.

use vstd::prelude::*;
use vstd::set_lib::lemma_set_disjoint_lens;
use vstd::set_lib::lemma_len_subset;
use vstd::set_lib::lemma_int_range;
use vstd::set_lib::set_int_range;
use crate::arena::Arena;
use crate::arena::Node;
use crate::arena::slab_dense;
use crate::fault::Fault;

verus! {

/// The abstract shape and contents of a subtree: the model that contracts
/// and laws speak of.
pub enum Tree {
    Leaf,
    Branch { rank: u16, symbol: u8, left: Box<Tree>, right: Box<Tree> },
}

pub open spec fn nat_max(a: nat, b: nat) -> nat {
    if a >= b {
        a
    } else {
        b
    }
}

impl Tree {
    /// Height in nodes: a leaf (absent child) contributes 0, a single node 1.
    pub open spec fn height(self) -> nat
        decreases self,
    {
        match self {
            Tree::Leaf => 0,
            Tree::Branch { left, right, .. } => 1 + nat_max(left.height(), right.height()),
        }
    }

    /// Number of nodes.
    pub open spec fn size(self) -> nat
        decreases self,
    {
        match self {
            Tree::Leaf => 0,
            Tree::Branch { left, right, .. } => 1 + left.size() + right.size(),
        }
    }

    /// In-order sequence of `(rank, symbol)` payloads.
    pub open spec fn pairs(self) -> Seq<(u16, u8)>
        decreases self,
    {
        match self {
            Tree::Leaf => Seq::empty(),
            Tree::Branch { rank, symbol, left, right } => left.pairs() + seq![(rank, symbol)]
                + right.pairs(),
        }
    }

    /// The `(rank, symbol)` payloads at depth `d` (root is depth 0), in
    /// left-to-right order.
    pub open spec fn at_depth(self, d: nat) -> Seq<(u16, u8)>
        decreases self,
    {
        match self {
            Tree::Leaf => Seq::empty(),
            Tree::Branch { rank, symbol, left, right } => if d == 0 {
                seq![(rank, symbol)]
            } else {
                left.at_depth((d - 1) as nat) + right.at_depth((d - 1) as nat)
            },
        }
    }

    /// Whether a descent comparing `rank` against each visited node's rank
    /// meets an equal rank. On a search tree this is plain membership.
    pub open spec fn hits(self, rank: u16) -> bool
        decreases self,
    {
        match self {
            Tree::Leaf => false,
            Tree::Branch { rank: r, left, right, .. } => if rank == r {
                true
            } else if rank < r {
                left.hits(rank)
            } else {
                right.hits(rank)
            },
        }
    }

    /// Binary-search-tree insertion of a fresh rank: descend left on
    /// smaller, right on greater, attach a new node where a child is
    /// absent. On an equal rank the tree is returned unchanged; callers
    /// treat that case (`hits`) as a fatal fault.
    pub open spec fn insert(self, rank: u16, symbol: u8) -> Tree
        decreases self,
    {
        match self {
            Tree::Leaf => Tree::Branch {
                rank,
                symbol,
                left: Box::new(Tree::Leaf),
                right: Box::new(Tree::Leaf),
            },
            Tree::Branch { rank: r, symbol: sy, left, right } => if rank == r {
                Tree::Branch { rank: r, symbol: sy, left, right }
            } else if rank < r {
                Tree::Branch {
                    rank: r,
                    symbol: sy,
                    left: Box::new(left.insert(rank, symbol)),
                    right,
                }
            } else {
                Tree::Branch {
                    rank: r,
                    symbol: sy,
                    left,
                    right: Box::new(right.insert(rank, symbol)),
                }
            },
        }
    }

    /// All ranks lie strictly between `lo` and `hi`, and the search-tree
    /// ordering holds at every node.
    pub open spec fn bst_in(self, lo: int, hi: int) -> bool
        decreases self,
    {
        match self {
            Tree::Leaf => true,
            Tree::Branch { rank, left, right, .. } => lo < rank < hi && left.bst_in(lo, rank as int)
                && right.bst_in(rank as int, hi),
        }
    }

    /// The binary-search-tree ordering invariant.
    pub open spec fn is_bst(self) -> bool {
        self.bst_in(-1, 0x10000)
    }
}

/// A fresh node with no children.
pub open spec fn new_leaf(rank: u16, symbol: u8) -> Node {
    Node { rank, symbol, left: None, right: None }
}

/// Child handle sanity: an absent child is fine; a present one points
/// strictly forward, into the arena.
pub open spec fn child_ok(s: Seq<Node>, i: int, c: Option<u16>) -> bool {
    match c {
        None => true,
        Some(j) => i < j < s.len(),
    }
}

/// Every node's child handles point strictly forward into the arena: a
/// child is always created after its parent. This grounds recursion over
/// the arena.
pub open spec fn arena_wf(s: Seq<Node>) -> bool {
    forall|i: int|
        0 <= i < s.len() ==> child_ok(s, i, (#[trigger] s[i]).left) && child_ok(s, i, s[i].right)
}

/// The abstract tree rooted at slot `i`.
pub open spec fn view_of(s: Seq<Node>, i: int) -> Tree
    decreases s.len() - i,
{
    if arena_wf(s) && 0 <= i < s.len() {
        Tree::Branch {
            rank: s[i].rank,
            symbol: s[i].symbol,
            left: Box::new(
                match s[i].left {
                    Some(l) => view_of(s, l as int),
                    None => Tree::Leaf,
                },
            ),
            right: Box::new(
                match s[i].right {
                    Some(r) => view_of(s, r as int),
                    None => Tree::Leaf,
                },
            ),
        }
    } else {
        Tree::Leaf
    }
}

/// The set of arena slots that make up the subtree rooted at `i`.
pub open spec fn subtree_idx(s: Seq<Node>, i: int) -> Set<int>
    decreases s.len() - i,
{
    if arena_wf(s) && 0 <= i < s.len() {
        let ls = match s[i].left {
            Some(l) => subtree_idx(s, l as int),
            None => Set::<int>::empty(),
        };
        let rs = match s[i].right {
            Some(r) => subtree_idx(s, r as int),
            None => Set::<int>::empty(),
        };
        ls.union(rs).insert(i)
    } else {
        Set::<int>::empty()
    }
}

/// The subtree rooted at `i` is a genuine tree: at every node the left and
/// right subtrees occupy disjoint sets of slots.
pub open spec fn tree_ok(s: Seq<Node>, i: int) -> bool
    decreases s.len() - i,
{
    arena_wf(s) && 0 <= i < s.len() && {
        let ls = match s[i].left {
            Some(l) => subtree_idx(s, l as int),
            None => Set::<int>::empty(),
        };
        let rs = match s[i].right {
            Some(r) => subtree_idx(s, r as int),
            None => Set::<int>::empty(),
        };
        &&& match s[i].left {
            Some(l) => tree_ok(s, l as int),
            None => true,
        }
        &&& match s[i].right {
            Some(r) => tree_ok(s, r as int),
            None => true,
        }
        &&& ls.disjoint(rs)
    }
}

/// The arena after a binary-search-tree insertion below slot `i`: descend
/// by rank, attach the new node in a fresh slot at the end, point the
/// parent at it. `None` when the descent meets an equal rank.
pub open spec fn spec_do_insert(s: Seq<Node>, i: int, rank: u16, symbol: u8) -> Option<Seq<Node>>
    decreases s.len() - i,
{
    if arena_wf(s) && 0 <= i < s.len() {
        let n = s[i];
        if rank == n.rank {
            None
        } else if rank < n.rank {
            match n.left {
                Some(l) => spec_do_insert(s, l as int, rank, symbol),
                None => Some(
                    s.update(
                        i,
                        Node {
                            rank: n.rank,
                            symbol: n.symbol,
                            left: Some(s.len() as u16),
                            right: n.right,
                        },
                    ).push(new_leaf(rank, symbol)),
                ),
            }
        } else {
            match n.right {
                Some(r) => spec_do_insert(s, r as int, rank, symbol),
                None => Some(
                    s.update(
                        i,
                        Node {
                            rank: n.rank,
                            symbol: n.symbol,
                            left: n.left,
                            right: Some(s.len() as u16),
                        },
                    ).push(new_leaf(rank, symbol)),
                ),
            }
        }
    } else {
        None
    }
}

/// Slots of a subtree form a finite set lying within the arena, at or
/// after the root's own slot, which belongs to it.
pub proof fn lemma_subtree_idx_bounds(s: Seq<Node>, i: int)
    requires
        arena_wf(s),
        0 <= i < s.len(),
    ensures
        subtree_idx(s, i).contains(i),
        forall|j: int| subtree_idx(s, i).contains(j) ==> i <= j < s.len(),
        subtree_idx(s, i).finite(),
    decreases s.len() - i,
{
    match s[i].left {
        Some(l) => lemma_subtree_idx_bounds(s, l as int),
        None => {},
    }
    match s[i].right {
        Some(r) => lemma_subtree_idx_bounds(s, r as int),
        None => {},
    }
}

/// Framing: a subtree's slots, abstract tree and tree-ness depend only on
/// the arena entries at the subtree's own slots. `s2` may be longer than
/// `s1` and differ anywhere else.
pub proof fn lemma_view_frame(s1: Seq<Node>, s2: Seq<Node>, i: int)
    requires
        arena_wf(s1),
        arena_wf(s2),
        0 <= i < s1.len(),
        s1.len() <= s2.len(),
        forall|j: int| subtree_idx(s1, i).contains(j) ==> s2[j] == s1[j],
    ensures
        subtree_idx(s2, i) == subtree_idx(s1, i),
        view_of(s2, i) == view_of(s1, i),
        tree_ok(s1, i) ==> tree_ok(s2, i),
    decreases s1.len() - i,
{
    lemma_subtree_idx_bounds(s1, i);
    assert(s2[i] == s1[i]);
    match s1[i].left {
        Some(l) => {
            lemma_subtree_idx_bounds(s1, l as int);
            assert forall|j: int| subtree_idx(s1, l as int).contains(j) implies s2[j] == s1[j] by {
                assert(subtree_idx(s1, i).contains(j));
            }
            lemma_view_frame(s1, s2, l as int);
        },
        None => {},
    }
    match s1[i].right {
        Some(r) => {
            lemma_subtree_idx_bounds(s1, r as int);
            assert forall|j: int| subtree_idx(s1, r as int).contains(j) implies s2[j] == s1[j] by {
                assert(subtree_idx(s1, i).contains(j));
            }
            lemma_view_frame(s1, s2, r as int);
        },
        None => {},
    }
    assert(subtree_idx(s2, i) =~= subtree_idx(s1, i));
}

/// What a successful insertion does to the arena: one fresh slot at the
/// end holding the new node, one parent repointed inside the subtree, all
/// payloads kept, every slot outside the subtree untouched; the subtree's
/// abstract tree changes exactly as [`Tree::insert`] says. Insertion
/// fails exactly when the descent meets an equal rank.
pub proof fn lemma_insert_effect(s: Seq<Node>, i: int, rank: u16, symbol: u8)
    requires
        tree_ok(s, i),
        s.len() < 0xFFFF,
    ensures
        spec_do_insert(s, i, rank, symbol) is None <==> view_of(s, i).hits(rank),
        match spec_do_insert(s, i, rank, symbol) {
            None => true,
            Some(s2) => {
                &&& s2.len() == s.len() + 1
                &&& arena_wf(s2)
                &&& tree_ok(s2, i)
                &&& s2[s.len() as int] == new_leaf(rank, symbol)
                &&& forall|j: int|
                    0 <= j < s.len() && !subtree_idx(s, i).contains(j) ==> s2[j] == s[j]
                &&& forall|j: int|
                    0 <= j < s.len() ==> (#[trigger] s2[j]).rank == s[j].rank && s2[j].symbol
                        == s[j].symbol
                &&& subtree_idx(s2, i) == subtree_idx(s, i).insert(s.len() as int)
                &&& view_of(s2, i) == view_of(s, i).insert(rank, symbol)
            },
        },
    decreases s.len() - i,
{
    let n = s[i];
    lemma_subtree_idx_bounds(s, i);
    let lt = match n.left {
        Some(l) => view_of(s, l as int),
        None => Tree::Leaf,
    };
    let rt = match n.right {
        Some(r) => view_of(s, r as int),
        None => Tree::Leaf,
    };
    assert(view_of(s, i) == Tree::Branch {
        rank: n.rank,
        symbol: n.symbol,
        left: Box::new(lt),
        right: Box::new(rt),
    });
    if rank == n.rank {
        assert(view_of(s, i).hits(rank));
    } else if rank < n.rank {
        assert(view_of(s, i).hits(rank) == lt.hits(rank));
        match n.left {
            Some(l) => {
                lemma_insert_effect(s, l as int, rank, symbol);
                lemma_subtree_idx_bounds(s, l as int);
                match spec_do_insert(s, l as int, rank, symbol) {
                    None => {},
                    Some(s2) => {
                        assert(!subtree_idx(s, l as int).contains(i));
                        assert(s2[i] == s[i]);
                        match n.right {
                            Some(r) => {
                                lemma_subtree_idx_bounds(s, r as int);
                                assert forall|j: int|
                                    subtree_idx(s, r as int).contains(j) implies s2[j] == s[j] by {
                                    assert(!subtree_idx(s, l as int).contains(j));
                                }
                                lemma_view_frame(s, s2, r as int);
                            },
                            None => {},
                        }
                        assert(subtree_idx(s2, i) =~= subtree_idx(s, i).insert(s.len() as int));
                        assert(view_of(s2, i) == Tree::Branch {
                            rank: n.rank,
                            symbol: n.symbol,
                            left: Box::new(view_of(s2, l as int)),
                            right: Box::new(rt),
                        });
                        assert(view_of(s, i).insert(rank, symbol) == Tree::Branch {
                            rank: n.rank,
                            symbol: n.symbol,
                            left: Box::new(lt.insert(rank, symbol)),
                            right: Box::new(rt),
                        });
                    },
                }
            },
            None => {
                assert(!lt.hits(rank));
                let leaf_h = s.len() as u16;
                let parent = Node { rank: n.rank, symbol: n.symbol, left: Some(leaf_h), right: n.right };
                let s2 = s.update(i, parent).push(new_leaf(rank, symbol));
                assert(spec_do_insert(s, i, rank, symbol) == Some(s2));
                assert forall|k: int|
                    0 <= k < s2.len() implies child_ok(s2, k, (#[trigger] s2[k]).left) && child_ok(
                    s2,
                    k,
                    s2[k].right,
                ) by {
                    if k < s.len() && k != i {
                        assert(s2[k] == s[k]);
                    }
                }
                assert(arena_wf(s2));
                match n.right {
                    Some(r) => {
                        lemma_subtree_idx_bounds(s, r as int);
                        assert forall|j: int|
                            subtree_idx(s, r as int).contains(j) implies s2[j] == s[j] by {}
                        lemma_view_frame(s, s2, r as int);
                    },
                    None => {},
                }
                assert(subtree_idx(s2, leaf_h as int) =~= Set::<int>::empty().insert(leaf_h as int));
                assert(subtree_idx(s2, i) =~= subtree_idx(s, i).insert(s.len() as int));
                assert(tree_ok(s2, leaf_h as int));
                assert(tree_ok(s2, i));
                assert(view_of(s2, leaf_h as int) == Tree::Branch {
                    rank,
                    symbol,
                    left: Box::new(Tree::Leaf),
                    right: Box::new(Tree::Leaf),
                });
                assert(view_of(s2, i) == Tree::Branch {
                    rank: n.rank,
                    symbol: n.symbol,
                    left: Box::new(view_of(s2, leaf_h as int)),
                    right: Box::new(rt),
                });
                assert(lt.insert(rank, symbol) == view_of(s2, leaf_h as int));
                assert(view_of(s, i).insert(rank, symbol) == Tree::Branch {
                    rank: n.rank,
                    symbol: n.symbol,
                    left: Box::new(lt.insert(rank, symbol)),
                    right: Box::new(rt),
                });
            },
        }
    } else {
        assert(view_of(s, i).hits(rank) == rt.hits(rank));
        match n.right {
            Some(r) => {
                lemma_insert_effect(s, r as int, rank, symbol);
                lemma_subtree_idx_bounds(s, r as int);
                match spec_do_insert(s, r as int, rank, symbol) {
                    None => {},
                    Some(s2) => {
                        assert(!subtree_idx(s, r as int).contains(i));
                        assert(s2[i] == s[i]);
                        match n.left {
                            Some(l) => {
                                lemma_subtree_idx_bounds(s, l as int);
                                assert forall|j: int|
                                    subtree_idx(s, l as int).contains(j) implies s2[j] == s[j] by {
                                    assert(!subtree_idx(s, r as int).contains(j));
                                }
                                lemma_view_frame(s, s2, l as int);
                            },
                            None => {},
                        }
                        assert(subtree_idx(s2, i) =~= subtree_idx(s, i).insert(s.len() as int));
                        assert(view_of(s2, i) == Tree::Branch {
                            rank: n.rank,
                            symbol: n.symbol,
                            left: Box::new(lt),
                            right: Box::new(view_of(s2, r as int)),
                        });
                        assert(view_of(s, i).insert(rank, symbol) == Tree::Branch {
                            rank: n.rank,
                            symbol: n.symbol,
                            left: Box::new(lt),
                            right: Box::new(rt.insert(rank, symbol)),
                        });
                    },
                }
            },
            None => {
                assert(!rt.hits(rank));
                let leaf_h = s.len() as u16;
                let parent = Node { rank: n.rank, symbol: n.symbol, left: n.left, right: Some(leaf_h) };
                let s2 = s.update(i, parent).push(new_leaf(rank, symbol));
                assert(spec_do_insert(s, i, rank, symbol) == Some(s2));
                assert forall|k: int|
                    0 <= k < s2.len() implies child_ok(s2, k, (#[trigger] s2[k]).left) && child_ok(
                    s2,
                    k,
                    s2[k].right,
                ) by {
                    if k < s.len() && k != i {
                        assert(s2[k] == s[k]);
                    }
                }
                assert(arena_wf(s2));
                match n.left {
                    Some(l) => {
                        lemma_subtree_idx_bounds(s, l as int);
                        assert forall|j: int|
                            subtree_idx(s, l as int).contains(j) implies s2[j] == s[j] by {}
                        lemma_view_frame(s, s2, l as int);
                    },
                    None => {},
                }
                assert(subtree_idx(s2, leaf_h as int) =~= Set::<int>::empty().insert(leaf_h as int));
                assert(subtree_idx(s2, i) =~= subtree_idx(s, i).insert(s.len() as int));
                assert(tree_ok(s2, leaf_h as int));
                assert(tree_ok(s2, i));
                assert(view_of(s2, leaf_h as int) == Tree::Branch {
                    rank,
                    symbol,
                    left: Box::new(Tree::Leaf),
                    right: Box::new(Tree::Leaf),
                });
                assert(view_of(s2, i) == Tree::Branch {
                    rank: n.rank,
                    symbol: n.symbol,
                    left: Box::new(lt),
                    right: Box::new(view_of(s2, leaf_h as int)),
                });
                assert(rt.insert(rank, symbol) == view_of(s2, leaf_h as int));
                assert(view_of(s, i).insert(rank, symbol) == Tree::Branch {
                    rank: n.rank,
                    symbol: n.symbol,
                    left: Box::new(lt),
                    right: Box::new(rt.insert(rank, symbol)),
                });
            },
        }
    }
}

/// Payload edits do not disturb structure: if two arenas have the same
/// length and identical child handles everywhere, well-formedness, every
/// subtree's slot set and tree-ness carry over.
pub proof fn lemma_same_topology(s1: Seq<Node>, s2: Seq<Node>, i: int)
    requires
        arena_wf(s1),
        s1.len() == s2.len(),
        forall|j: int|
            0 <= j < s1.len() ==> (#[trigger] s2[j]).left == s1[j].left && s2[j].right
                == s1[j].right,
        0 <= i < s1.len(),
    ensures
        arena_wf(s2),
        subtree_idx(s2, i) == subtree_idx(s1, i),
        tree_ok(s1, i) ==> tree_ok(s2, i),
    decreases s1.len() - i,
{
    assert forall|k: int|
        0 <= k < s2.len() implies child_ok(s2, k, (#[trigger] s2[k]).left) && child_ok(
        s2,
        k,
        s2[k].right,
    ) by {
        assert(child_ok(s1, k, s1[k].left) && child_ok(s1, k, s1[k].right));
    }
    match s1[i].left {
        Some(l) => lemma_same_topology(s1, s2, l as int),
        None => {},
    }
    match s1[i].right {
        Some(r) => lemma_same_topology(s1, s2, r as int),
        None => {},
    }
    assert(subtree_idx(s2, i) =~= subtree_idx(s1, i));
}

/// Under tree-ness the abstract tree's node count equals the number of
/// distinct slots in the subtree, which is bounded by the arena's length.
pub proof fn lemma_size_card(s: Seq<Node>, i: int)
    requires
        tree_ok(s, i),
    ensures
        view_of(s, i).size() == subtree_idx(s, i).len(),
        view_of(s, i).size() <= s.len() - i,
    decreases s.len() - i,
{
    lemma_subtree_idx_bounds(s, i);
    let ls = match s[i].left {
        Some(l) => subtree_idx(s, l as int),
        None => Set::<int>::empty(),
    };
    let rs = match s[i].right {
        Some(r) => subtree_idx(s, r as int),
        None => Set::<int>::empty(),
    };
    match s[i].left {
        Some(l) => {
            lemma_size_card(s, l as int);
            lemma_subtree_idx_bounds(s, l as int);
        },
        None => {},
    }
    match s[i].right {
        Some(r) => {
            lemma_size_card(s, r as int);
            lemma_subtree_idx_bounds(s, r as int);
        },
        None => {},
    }
    lemma_set_disjoint_lens(ls, rs);
    assert(ls.union(rs) == ls + rs);
    assert(!ls.union(rs).contains(i));
    assert(subtree_idx(s, i).len() == ls.len() + rs.len() + 1);
    let lt = match s[i].left {
        Some(l) => view_of(s, l as int),
        None => Tree::Leaf,
    };
    let rt = match s[i].right {
        Some(r) => view_of(s, r as int),
        None => Tree::Leaf,
    };
    assert(Tree::Leaf.size() == 0);
    assert(view_of(s, i) == Tree::Branch {
        rank: s[i].rank,
        symbol: s[i].symbol,
        left: Box::new(lt),
        right: Box::new(rt),
    });
    assert(view_of(s, i).size() == 1 + lt.size() + rt.size());
    lemma_int_range(i, s.len() as int);
    lemma_len_subset(subtree_idx(s, i), set_int_range(i, s.len() as int));
}

/// A tree's height never exceeds its node count.
pub proof fn lemma_height_le_size(t: Tree)
    ensures
        t.height() <= t.size(),
    decreases t,
{
    match t {
        Tree::Leaf => {},
        Tree::Branch { left, right, .. } => {
            lemma_height_le_size(*left);
            lemma_height_le_size(*right);
        },
    }
}

/// No level holds more payloads than the tree has nodes.
pub proof fn lemma_at_depth_le_size(t: Tree, d: nat)
    ensures
        t.at_depth(d).len() <= t.size(),
    decreases t,
{
    match t {
        Tree::Leaf => {},
        Tree::Branch { left, right, .. } => {
            if d > 0 {
                lemma_at_depth_le_size(*left, (d - 1) as nat);
                lemma_at_depth_le_size(*right, (d - 1) as nat);
            }
        },
    }
}

/// Inserting a rank within the enclosing bounds preserves the
/// search-tree ordering.
pub proof fn lemma_insert_bst(t: Tree, rank: u16, symbol: u8, lo: int, hi: int)
    requires
        t.bst_in(lo, hi),
        lo < rank < hi,
    ensures
        t.insert(rank, symbol).bst_in(lo, hi),
    decreases t,
{
    match t {
        Tree::Leaf => {
            assert(Tree::Leaf.bst_in(lo, rank as int));
            assert(Tree::Leaf.bst_in(rank as int, hi));
        },
        Tree::Branch { rank: r, left, right, .. } => {
            if rank < r {
                lemma_insert_bst(*left, rank, symbol, lo, r as int);
            } else if rank > r {
                lemma_insert_bst(*right, rank, symbol, r as int, hi);
            }
        },
    }
}

/// The ranks of a sequence of payloads.
pub open spec fn ranks_of(ps: Seq<(u16, u8)>) -> Seq<u16> {
    ps.map_values(|p: (u16, u8)| p.0)
}

/// Strict ascending order.
pub open spec fn strictly_increasing(rs: Seq<u16>) -> bool {
    forall|a: int, b: int| 0 <= a < b < rs.len() ==> rs[a] < rs[b]
}

/// On a search tree the in-order traversal lists ranks in strictly
/// increasing order, all of them within the enclosing bounds.
pub proof fn lemma_bst_inorder_sorted(t: Tree, lo: int, hi: int)
    requires
        t.bst_in(lo, hi),
    ensures
        strictly_increasing(ranks_of(t.pairs())),
        forall|k: int| 0 <= k < t.pairs().len() ==> lo < (#[trigger] t.pairs()[k]).0 < hi,
    decreases t,
{
    match t {
        Tree::Leaf => {},
        Tree::Branch { rank, symbol, left, right } => {
            lemma_bst_inorder_sorted(*left, lo, rank as int);
            lemma_bst_inorder_sorted(*right, rank as int, hi);
            let lp = left.pairs();
            let rp = right.pairs();
            let all = t.pairs();
            assert(all == lp + seq![(rank, symbol)] + rp);
            assert forall|k: int| 0 <= k < all.len() implies lo < (#[trigger] all[k]).0 < hi by {
                if k < lp.len() {
                    assert(all[k] == lp[k]);
                } else if k == lp.len() {
                } else {
                    assert(all[k] == rp[k - lp.len() - 1]);
                }
            }
            assert forall|a: int, b: int|
                0 <= a < b < ranks_of(all).len() implies ranks_of(all)[a] < ranks_of(all)[b] by {
                assert(ranks_of(all)[a] == all[a].0);
                assert(ranks_of(all)[b] == all[b].0);
                if a < lp.len() {
                    assert(all[a] == lp[a]);
                    assert(ranks_of(lp)[a] == lp[a].0);
                }
                if b < lp.len() {
                    assert(all[b] == lp[b]);
                    assert(ranks_of(lp)[b] == lp[b].0);
                }
                if a > lp.len() {
                    assert(all[a] == rp[a - lp.len() - 1]);
                    assert(ranks_of(rp)[a - lp.len() - 1] == rp[a - lp.len() - 1].0);
                }
                if b > lp.len() {
                    assert(all[b] == rp[b - lp.len() - 1]);
                    assert(ranks_of(rp)[b - lp.len() - 1] == rp[b - lp.len() - 1].0);
                }
            }
        },
    }
}

/// Binary-search-tree insertion below `root`: descend comparing the new
/// rank against each visited node's rank, attach a fresh node where the
/// needed child is absent, and return its handle. An equal rank is the
/// fatal fault [`Fault::DuplicateRank`] and leaves the arena untouched.
pub fn do_insert(a: &mut Arena, root: u16, rank: u16, symbol: u8) -> (res: Result<u16, Fault>)
    requires
        slab_dense(old(a).slab),
        arena_wf(old(a)@),
        (root as int) < old(a)@.len(),
        old(a)@.len() < 0xFFFF,
    ensures
        slab_dense(final(a).slab),
        match res {
            Ok(h) => spec_do_insert(old(a)@, root as int, rank, symbol) == Some(final(a)@)
                && h as int == old(a)@.len(),
            Err(f) => {
                &&& f == Fault::DuplicateRank
                &&& spec_do_insert(old(a)@, root as int, rank, symbol) is None
                &&& final(a)@ == old(a)@
            },
        },
    decreases old(a)@.len() - root as int,
{
    let n = a.get_node(root as usize);
    if rank == n.rank {
        Err(Fault::DuplicateRank)
    } else if rank < n.rank {
        match n.left {
            Some(l) => do_insert(a, l, rank, symbol),
            None => {
                let h = a.len();
                let _ = a.push(Node { rank, symbol, left: None, right: None });
                a.set_node(
                    root as usize,
                    Node {
                        rank: n.rank,
                        symbol: n.symbol,
                        left: Some(h as u16),
                        right: n.right,
                    },
                );
                proof {
                    let parent = Node {
                        rank: n.rank,
                        symbol: n.symbol,
                        left: Some(old(a)@.len() as u16),
                        right: n.right,
                    };
                    assert(a@ =~= old(a)@.update(root as int, parent).push(
                        new_leaf(rank, symbol),
                    ));
                }
                Ok(h as u16)
            },
        }
    } else {
        match n.right {
            Some(r) => do_insert(a, r, rank, symbol),
            None => {
                let h = a.len();
                let _ = a.push(Node { rank, symbol, left: None, right: None });
                a.set_node(
                    root as usize,
                    Node {
                        rank: n.rank,
                        symbol: n.symbol,
                        left: n.left,
                        right: Some(h as u16),
                    },
                );
                proof {
                    let parent = Node {
                        rank: n.rank,
                        symbol: n.symbol,
                        left: n.left,
                        right: Some(old(a)@.len() as u16),
                    };
                    assert(a@ =~= old(a)@.update(root as int, parent).push(
                        new_leaf(rank, symbol),
                    ));
                }
                Ok(h as u16)
            },
        }
    }
}

/// Height of the subtree rooted at `root`: 1 + the taller child's height;
/// a node with no children has height 1.
pub fn height(a: &Arena, root: u16) -> (h: usize)
    requires
        slab_dense(a.slab),
        tree_ok(a@, root as int),
        a@.len() <= 0xFFFF,
    ensures
        h == view_of(a@, root as int).height(),
    decreases a@.len() - root as int,
{
    proof {
        lemma_size_card(a@, root as int);
        lemma_height_le_size(view_of(a@, root as int));
    }
    let n = a.get_node(root as usize);
    let lh: usize = match n.left {
        Some(l) => height(a, l),
        None => 0,
    };
    let rh: usize = match n.right {
        Some(r) => height(a, r),
        None => 0,
    };
    proof {
        let lt = match n.left {
            Some(l) => view_of(a@, l as int),
            None => Tree::Leaf,
        };
        let rt = match n.right {
            Some(r) => view_of(a@, r as int),
            None => Tree::Leaf,
        };
        if n.left is Some {
            lemma_size_card(a@, n.left.unwrap() as int);
            lemma_height_le_size(lt);
        }
        if n.right is Some {
            lemma_size_card(a@, n.right.unwrap() as int);
            lemma_height_le_size(rt);
        }
        assert(Tree::Leaf.height() == 0);
        assert(view_of(a@, root as int) == Tree::Branch {
            rank: n.rank,
            symbol: n.symbol,
            left: Box::new(lt),
            right: Box::new(rt),
        });
        assert(view_of(a@, root as int).height() == 1 + nat_max(lt.height(), rt.height()));
    }
    1 + if lh >= rh {
        lh
    } else {
        rh
    }
}

/// The number of nodes at depth `d` below `root` (the root itself is at
/// depth 0).
pub fn count_at_depth(a: &Arena, root: u16, d: usize) -> (c: usize)
    requires
        slab_dense(a.slab),
        tree_ok(a@, root as int),
        a@.len() <= 0xFFFF,
    ensures
        c == view_of(a@, root as int).at_depth(d as nat).len(),
    decreases a@.len() - root as int,
{
    let n = a.get_node(root as usize);
    if d == 0 {
        proof {
            assert(view_of(a@, root as int) is Branch);
            assert(view_of(a@, root as int).at_depth(0) =~= seq![(n.rank, n.symbol)]);
        }
        1
    } else {
        let lc: usize = match n.left {
            Some(l) => count_at_depth(a, l, d - 1),
            None => 0,
        };
        let rc: usize = match n.right {
            Some(r) => count_at_depth(a, r, d - 1),
            None => 0,
        };
        proof {
            let lt = match n.left {
                Some(l) => view_of(a@, l as int),
                None => Tree::Leaf,
            };
            let rt = match n.right {
                Some(r) => view_of(a@, r as int),
                None => Tree::Leaf,
            };
            if n.left is Some {
                lemma_size_card(a@, n.left.unwrap() as int);
                lemma_at_depth_le_size(lt, (d - 1) as nat);
            }
            if n.right is Some {
                lemma_size_card(a@, n.right.unwrap() as int);
                lemma_at_depth_le_size(rt, (d - 1) as nat);
            }
            assert(Tree::Leaf.at_depth((d - 1) as nat) =~= Seq::<(u16, u8)>::empty());
            assert(view_of(a@, root as int) == Tree::Branch {
                rank: n.rank,
                symbol: n.symbol,
                left: Box::new(lt),
                right: Box::new(rt),
            });
            assert(view_of(a@, root as int).at_depth(d as nat) == lt.at_depth((d - 1) as nat)
                + rt.at_depth((d - 1) as nat));
        }
        lc + rc
    }
}

/// Append the `(rank, symbol)` payloads found at depth `d` below `root`
/// to `out`, in left-to-right order.
pub fn collect_at_depth(a: &Arena, root: u16, d: usize, out: &mut Vec<(u16, u8)>)
    requires
        slab_dense(a.slab),
        tree_ok(a@, root as int),
        a@.len() <= 0xFFFF,
    ensures
        final(out)@ == old(out)@ + view_of(a@, root as int).at_depth(d as nat),
    decreases a@.len() - root as int,
{
    let n = a.get_node(root as usize);
    if d == 0 {
        out.push((n.rank, n.symbol));
        proof {
            assert(out@ =~= old(out)@ + view_of(a@, root as int).at_depth(0));
        }
    } else {
        match n.left {
            Some(l) => collect_at_depth(a, l, d - 1, out),
            None => {},
        }
        match n.right {
            Some(r) => collect_at_depth(a, r, d - 1, out),
            None => {},
        }
        proof {
            let lt = match n.left {
                Some(l) => view_of(a@, l as int),
                None => Tree::Leaf,
            };
            let rt = match n.right {
                Some(r) => view_of(a@, r as int),
                None => Tree::Leaf,
            };
            assert(Tree::Leaf.at_depth((d - 1) as nat) =~= Seq::<(u16, u8)>::empty());
            assert(view_of(a@, root as int) == Tree::Branch {
                rank: n.rank,
                symbol: n.symbol,
                left: Box::new(lt),
                right: Box::new(rt),
            });
            assert(view_of(a@, root as int).at_depth(d as nat) == lt.at_depth((d - 1) as nat)
                + rt.at_depth((d - 1) as nat));
            assert(out@ =~= old(out)@ + view_of(a@, root as int).at_depth(d as nat));
        }
    }
}

} // verus!
