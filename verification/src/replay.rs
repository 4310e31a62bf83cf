//! The replay engine: consume an ordered stream of edit instructions and
//! apply each to the ordered tree(s) and the id index, then extract the
//! message of the finished tree(s).
//!
//! The stream's first record must be an `Add`; it creates the two tree
//! roots. Every later `Add` inserts one node into each tree and registers
//! the created pair of handles under the instruction's identifier. A
//! `Swap` resolves its identifier to that pair and exchanges the two
//! nodes' payloads — rank and symbol — leaving the topology frozen. The
//! engine runs with either two separate arenas or one shared arena
//! ([`Mode`]); insertion and extraction logic are identical either way.

use vstd::prelude::*;
use crate::arena::Arena;
use crate::arena::Node;
use crate::arena::slab_dense;
use crate::arena::payload_swapped;
use crate::fault::Fault;
use crate::tree::arena_wf;
use crate::tree::tree_ok;
use crate::tree::subtree_idx;
use crate::tree::view_of;
use crate::tree::new_leaf;
use crate::tree::spec_do_insert;
use crate::tree::do_insert;
use crate::tree::lemma_insert_effect;
use crate::tree::lemma_view_frame;
use crate::tree::lemma_same_topology;
use crate::tree::lemma_subtree_idx_bounds;
use crate::tree::lemma_insert_bst;
use crate::tree::lemma_bst_inorder_sorted;
use crate::tree::ranks_of;
use crate::tree::strictly_increasing;
use crate::tree::Tree;
use crate::extract::extract_bytes;
use crate::extract::message;
use crate::parse::spec_parse_instruction;

verus! {

/// One edit instruction, as handed over by the line parser.
#[derive(Clone, Copy, Debug, PartialEq, Eq, Structural)]
pub enum Instruction {
    /// Insert `(left_rank, left_symbol)` into the left tree and
    /// `(right_rank, right_symbol)` into the right tree, then register the
    /// created handle pair under `id`.
    Add { id: u16, left_rank: u16, left_symbol: u8, right_rank: u16, right_symbol: u8 },
    /// Exchange the payloads of the two nodes registered under `id`.
    Swap { id: u16 },
}

/// Whether the two logical trees live in two separate arenas or share one.
/// This only affects which handles the trees' nodes occupy; insertion and
/// extraction are the same either way.
#[derive(Clone, Copy, Debug, PartialEq, Eq, Structural)]
pub enum Mode {
    /// Each tree has its own arena; both roots are handle 0.
    Separate,
    /// Both trees share one arena; the roots are handles 0 and 1.
    Shared,
}

/// The largest identifier the id index accepts. An identifier above this
/// bound is the fault [`Fault::IdOutOfBounds`].
pub const MAX_ID: u16 = 200;

/// The replayed state, as specification values: the two arenas (under
/// [`Mode::Shared`] only `left` is used and `right` stays empty) and the
/// id table.
pub struct ReplayState {
    pub left: Seq<Node>,
    pub right: Seq<Node>,
    pub table: Seq<Option<(u16, u16)>>,
}

/// The id table before any registration: every identifier unset.
pub open spec fn fresh_table() -> Seq<Option<(u16, u16)>> {
    Seq::new(MAX_ID as nat + 1, |k: int| None)
}

/// The arena holding the right tree.
pub open spec fn right_arena(mode: Mode, st: ReplayState) -> Seq<Node> {
    match mode {
        Mode::Separate => st.right,
        Mode::Shared => st.left,
    }
}

/// The right tree's root handle.
pub open spec fn right_root(mode: Mode) -> int {
    match mode {
        Mode::Separate => 0,
        Mode::Shared => 1,
    }
}

/// The state after the stream's first record: it must be an `Add`; it
/// creates both tree roots and registers its identifier.
pub open spec fn spec_init(mode: Mode, first: Instruction) -> Result<ReplayState, Fault> {
    match first {
        Instruction::Swap { .. } => Err(Fault::FirstNotAdd),
        Instruction::Add { id, left_rank, left_symbol, right_rank, right_symbol } => {
            if id > MAX_ID {
                Err(Fault::IdOutOfBounds)
            } else {
                match mode {
                    Mode::Separate => Ok(
                        ReplayState {
                            left: seq![new_leaf(left_rank, left_symbol)],
                            right: seq![new_leaf(right_rank, right_symbol)],
                            table: fresh_table().update(id as int, Some((0u16, 0u16))),
                        },
                    ),
                    Mode::Shared => Ok(
                        ReplayState {
                            left: seq![
                                new_leaf(left_rank, left_symbol),
                                new_leaf(right_rank, right_symbol),
                            ],
                            right: Seq::empty(),
                            table: fresh_table().update(id as int, Some((0u16, 1u16))),
                        },
                    ),
                }
            }
        },
    }
}

/// One replay step.
pub open spec fn spec_step(mode: Mode, st: ReplayState, instr: Instruction) -> Result<
    ReplayState,
    Fault,
> {
    match instr {
        Instruction::Add { id, left_rank, left_symbol, right_rank, right_symbol } => {
            if id > MAX_ID {
                Err(Fault::IdOutOfBounds)
            } else {
                match mode {
                    Mode::Separate => {
                        if st.left.len() >= 0xFFFF || st.right.len() >= 0xFFFF {
                            Err(Fault::ArenaFull)
                        } else {
                            match spec_do_insert(st.left, 0, left_rank, left_symbol) {
                                None => Err(Fault::DuplicateRank),
                                Some(l2) => match spec_do_insert(
                                    st.right,
                                    0,
                                    right_rank,
                                    right_symbol,
                                ) {
                                    None => Err(Fault::DuplicateRank),
                                    Some(r2) => Ok(
                                        ReplayState {
                                            left: l2,
                                            right: r2,
                                            table: st.table.update(
                                                id as int,
                                                Some(
                                                    (st.left.len() as u16, st.right.len() as u16),
                                                ),
                                            ),
                                        },
                                    ),
                                },
                            }
                        }
                    },
                    Mode::Shared => {
                        if st.left.len() >= 0xFFFE {
                            Err(Fault::ArenaFull)
                        } else {
                            match spec_do_insert(st.left, 0, left_rank, left_symbol) {
                                None => Err(Fault::DuplicateRank),
                                Some(a2) => match spec_do_insert(a2, 1, right_rank, right_symbol) {
                                    None => Err(Fault::DuplicateRank),
                                    Some(a3) => Ok(
                                        ReplayState {
                                            left: a3,
                                            right: st.right,
                                            table: st.table.update(
                                                id as int,
                                                Some(
                                                    (
                                                        st.left.len() as u16,
                                                        (st.left.len() + 1) as u16,
                                                    ),
                                                ),
                                            ),
                                        },
                                    ),
                                },
                            }
                        }
                    },
                }
            }
        },
        Instruction::Swap { id } => {
            if id > MAX_ID {
                Err(Fault::IdOutOfBounds)
            } else {
                match st.table[id as int] {
                    None => Err(Fault::UnknownId),
                    Some(pair) => {
                        let hl = pair.0 as int;
                        let hr = pair.1 as int;
                        match mode {
                            Mode::Separate => {
                                if hl >= st.left.len() || hr >= st.right.len() {
                                    Err(Fault::InvalidHandle)
                                } else {
                                    let nl = st.left[hl];
                                    let nr = st.right[hr];
                                    Ok(
                                        ReplayState {
                                            left: st.left.update(
                                                hl,
                                                Node {
                                                    rank: nr.rank,
                                                    symbol: nr.symbol,
                                                    left: nl.left,
                                                    right: nl.right,
                                                },
                                            ),
                                            right: st.right.update(
                                                hr,
                                                Node {
                                                    rank: nl.rank,
                                                    symbol: nl.symbol,
                                                    left: nr.left,
                                                    right: nr.right,
                                                },
                                            ),
                                            table: st.table,
                                        },
                                    )
                                }
                            },
                            Mode::Shared => {
                                if hl == hr || hl >= st.left.len() || hr >= st.left.len() {
                                    Err(Fault::InvalidHandle)
                                } else {
                                    Ok(
                                        ReplayState {
                                            left: payload_swapped(st.left, hl, hr),
                                            right: st.right,
                                            table: st.table,
                                        },
                                    )
                                }
                            },
                        }
                    },
                }
            }
        },
    }
}

/// Replay of the remaining instructions from a given state.
pub open spec fn spec_fold(mode: Mode, st: ReplayState, rest: Seq<Instruction>) -> Result<
    ReplayState,
    Fault,
>
    decreases rest.len(),
{
    if rest.len() == 0 {
        Ok(st)
    } else {
        match spec_step(mode, st, rest[0]) {
            Err(f) => Err(f),
            Ok(st2) => spec_fold(mode, st2, rest.drop_first()),
        }
    }
}

/// Replay of a whole instruction stream.
pub open spec fn spec_replay(mode: Mode, instrs: Seq<Instruction>) -> Result<ReplayState, Fault> {
    if instrs.len() == 0 {
        Err(Fault::EmptyStream)
    } else {
        match spec_init(mode, instrs[0]) {
            Err(f) => Err(f),
            Ok(st) => spec_fold(mode, st, instrs.drop_first()),
        }
    }
}

/// The output of a replayed state: the left tree's message immediately
/// followed by the right tree's message, as bytes.
pub open spec fn spec_output(mode: Mode, st: ReplayState) -> Seq<u8> {
    extract_bytes(view_of(st.left, 0)) + extract_bytes(
        view_of(right_arena(mode, st), right_root(mode)),
    )
}

/// What `run_message_extraction` returns, as a function of the stream.
pub open spec fn spec_run(mode: Mode, instrs: Seq<Instruction>) -> Result<Seq<u8>, Fault> {
    match spec_replay(mode, instrs) {
        Err(f) => Err(f),
        Ok(st) => Ok(spec_output(mode, st)),
    }
}

/// The engine's state invariant: arenas well-formed, both roots genuine
/// trees (disjoint in the shared arena), every registered handle valid.
pub open spec fn st_inv(mode: Mode, st: ReplayState) -> bool {
    &&& st.table.len() == MAX_ID as int + 1
    &&& match mode {
        Mode::Separate => {
            &&& tree_ok(st.left, 0)
            &&& tree_ok(st.right, 0)
            &&& st.left.len() <= 0xFFFF
            &&& st.right.len() <= 0xFFFF
            &&& forall|k: int|
                0 <= k < st.table.len() && (#[trigger] st.table[k]) is Some ==> (
                st.table[k].unwrap().0 as int) < st.left.len() && (st.table[k].unwrap().1 as int)
                    < st.right.len()
        },
        Mode::Shared => {
            &&& tree_ok(st.left, 0)
            &&& tree_ok(st.left, 1)
            &&& subtree_idx(st.left, 0).disjoint(subtree_idx(st.left, 1))
            &&& st.left.len() <= 0xFFFF
            &&& st.right.len() == 0
            &&& forall|k: int|
                0 <= k < st.table.len() && (#[trigger] st.table[k]) is Some ==> (
                st.table[k].unwrap().0 as int) < st.left.len() && (st.table[k].unwrap().1 as int)
                    < st.left.len()
        },
    }
}

/// The first record of a stream establishes the invariant.
pub proof fn lemma_init_inv(mode: Mode, first: Instruction)
    ensures
        spec_init(mode, first) matches Ok(st) ==> st_inv(mode, st),
{
    match spec_init(mode, first) {
        Err(_) => {},
        Ok(st) => {
            match mode {
                Mode::Separate => {
                    assert(arena_wf(st.left));
                    assert(arena_wf(st.right));
                    assert(subtree_idx(st.left, 0) =~= Set::<int>::empty().insert(0));
                    assert(subtree_idx(st.right, 0) =~= Set::<int>::empty().insert(0));
                    assert(tree_ok(st.left, 0));
                    assert(tree_ok(st.right, 0));
                },
                Mode::Shared => {
                    assert(arena_wf(st.left));
                    assert(subtree_idx(st.left, 0) =~= Set::<int>::empty().insert(0));
                    assert(subtree_idx(st.left, 1) =~= Set::<int>::empty().insert(1));
                    assert(tree_ok(st.left, 0));
                    assert(tree_ok(st.left, 1));
                },
            }
        },
    }
}

/// Every successful step preserves the invariant.
pub proof fn lemma_step_inv(mode: Mode, st: ReplayState, instr: Instruction)
    requires
        st_inv(mode, st),
    ensures
        spec_step(mode, st, instr) matches Ok(st2) ==> st_inv(mode, st2),
{
    match instr {
        Instruction::Add { id, left_rank, left_symbol, right_rank, right_symbol } => {
            if id <= MAX_ID {
                match mode {
                    Mode::Separate => {
                        if st.left.len() < 0xFFFF && st.right.len() < 0xFFFF {
                            lemma_insert_effect(st.left, 0, left_rank, left_symbol);
                            lemma_insert_effect(st.right, 0, right_rank, right_symbol);
                        }
                    },
                    Mode::Shared => {
                        if st.left.len() < 0xFFFE {
                            lemma_insert_effect(st.left, 0, left_rank, left_symbol);
                            match spec_do_insert(st.left, 0, left_rank, left_symbol) {
                                None => {},
                                Some(a2) => {
                                    lemma_subtree_idx_bounds(st.left, 0);
                                    lemma_subtree_idx_bounds(st.left, 1);
                                    assert forall|j: int|
                                        subtree_idx(st.left, 1).contains(j) implies a2[j]
                                        == st.left[j] by {
                                        assert(!subtree_idx(st.left, 0).contains(j));
                                    }
                                    lemma_view_frame(st.left, a2, 1);
                                    lemma_insert_effect(a2, 1, right_rank, right_symbol);
                                    match spec_do_insert(a2, 1, right_rank, right_symbol) {
                                        None => {},
                                        Some(a3) => {
                                            lemma_subtree_idx_bounds(a2, 0);
                                            lemma_subtree_idx_bounds(a2, 1);
                                            assert forall|j: int|
                                                subtree_idx(a2, 0).contains(j) implies a3[j]
                                                == a2[j] by {
                                                assert(!subtree_idx(a2, 1).contains(j));
                                            }
                                            lemma_view_frame(a2, a3, 0);
                                        },
                                    }
                                },
                            }
                        }
                    },
                }
            }
        },
        Instruction::Swap { id } => {
            if id <= MAX_ID {
                match st.table[id as int] {
                    None => {},
                    Some(pair) => {
                        let hl = pair.0 as int;
                        let hr = pair.1 as int;
                        match mode {
                            Mode::Separate => {
                                if hl < st.left.len() && hr < st.right.len() {
                                    let st2 = spec_step(mode, st, instr).unwrap();
                                    lemma_same_topology(st.left, st2.left, 0);
                                    lemma_same_topology(st.right, st2.right, 0);
                                }
                            },
                            Mode::Shared => {
                                if hl != hr && hl < st.left.len() && hr < st.left.len() {
                                    let st2 = spec_step(mode, st, instr).unwrap();
                                    lemma_same_topology(st.left, st2.left, 0);
                                    lemma_same_topology(st.left, st2.left, 1);
                                }
                            },
                        }
                    },
                }
            }
        },
    }
}

/// Determinism law: the replayed output — message or fault — is the
/// function [`spec_run`] of the instruction stream and mode alone (and
/// `run_message_extraction` returns exactly that), so identical
/// instruction streams always produce identical output strings.
pub proof fn lemma_run_deterministic(mode: Mode, i1: Seq<Instruction>, i2: Seq<Instruction>)
    requires
        i1 == i2,
    ensures
        spec_run(mode, i1) == spec_run(mode, i2),
{
}

/// Fault law, strict missing-identifier policy: a swap whose identifier
/// was never registered by a prior add faults with `UnknownId`; it is
/// never silently skipped.
pub proof fn lemma_unregistered_swap_faults(mode: Mode, st: ReplayState, id: u16)
    requires
        id <= MAX_ID,
        id < st.table.len(),
        st.table[id as int] is None,
    ensures
        spec_step(mode, st, Instruction::Swap { id }) == Err::<ReplayState, Fault>(
            Fault::UnknownId,
        ),
{
}

/// Swap involution law: from any state the engine can reach, applying the
/// same swap twice restores the original ranks and symbols at the two
/// registered positions — and with them the whole state.
pub proof fn lemma_swap_twice(mode: Mode, st: ReplayState, id: u16)
    requires
        st_inv(mode, st),
        spec_step(mode, st, Instruction::Swap { id }) is Ok,
    ensures
        spec_step(mode, spec_step(mode, st, Instruction::Swap { id }).unwrap(), Instruction::Swap {
            id,
        }) == Ok::<ReplayState, Fault>(st),
{
    let st1 = spec_step(mode, st, Instruction::Swap { id }).unwrap();
    let pair = st.table[id as int].unwrap();
    let hl = pair.0 as int;
    let hr = pair.1 as int;
    match mode {
        Mode::Separate => {
            let st2 = spec_step(mode, st1, Instruction::Swap { id }).unwrap();
            assert(st2.left =~= st.left);
            assert(st2.right =~= st.right);
        },
        Mode::Shared => {
            let st2 = spec_step(mode, st1, Instruction::Swap { id }).unwrap();
            assert(st2.left =~= st.left);
        },
    }
}

/// Both finished trees are binary search trees.
pub open spec fn bst_state(mode: Mode, st: ReplayState) -> bool {
    view_of(st.left, 0).is_bst() && view_of(right_arena(mode, st), right_root(mode)).is_bst()
}

/// The first record creates two single-node trees: search trees.
pub proof fn lemma_init_bst(mode: Mode, first: Instruction)
    ensures
        spec_init(mode, first) matches Ok(st) ==> bst_state(mode, st),
{
    match spec_init(mode, first) {
        Err(_) => {},
        Ok(st) => {
            lemma_init_inv(mode, first);
            let lt = view_of(st.left, 0);
            let rt = view_of(right_arena(mode, st), right_root(mode));
            assert(lt == Tree::Branch {
                rank: lt->Branch_rank,
                symbol: lt->Branch_symbol,
                left: Box::new(Tree::Leaf),
                right: Box::new(Tree::Leaf),
            });
            assert(rt == Tree::Branch {
                rank: rt->Branch_rank,
                symbol: rt->Branch_symbol,
                left: Box::new(Tree::Leaf),
                right: Box::new(Tree::Leaf),
            });
            assert(Tree::Leaf.bst_in(-1, lt->Branch_rank as int));
            assert(Tree::Leaf.bst_in(lt->Branch_rank as int, 0x10000));
            assert(Tree::Leaf.bst_in(-1, rt->Branch_rank as int));
            assert(Tree::Leaf.bst_in(rt->Branch_rank as int, 0x10000));
        },
    }
}

/// A successful `Add` keeps both trees search trees.
pub proof fn lemma_add_step_bst(mode: Mode, st: ReplayState, instr: Instruction)
    requires
        st_inv(mode, st),
        bst_state(mode, st),
        instr is Add,
    ensures
        spec_step(mode, st, instr) matches Ok(st2) ==> bst_state(mode, st2),
{
    match instr {
        Instruction::Swap { .. } => {},
        Instruction::Add { id, left_rank, left_symbol, right_rank, right_symbol } => {
            if id <= MAX_ID {
                match mode {
                    Mode::Separate => {
                        if st.left.len() < 0xFFFF && st.right.len() < 0xFFFF {
                            lemma_insert_effect(st.left, 0, left_rank, left_symbol);
                            lemma_insert_effect(st.right, 0, right_rank, right_symbol);
                            lemma_insert_bst(
                                view_of(st.left, 0),
                                left_rank,
                                left_symbol,
                                -1,
                                0x10000,
                            );
                            lemma_insert_bst(
                                view_of(st.right, 0),
                                right_rank,
                                right_symbol,
                                -1,
                                0x10000,
                            );
                        }
                    },
                    Mode::Shared => {
                        if st.left.len() < 0xFFFE {
                            lemma_insert_effect(st.left, 0, left_rank, left_symbol);
                            lemma_insert_bst(
                                view_of(st.left, 0),
                                left_rank,
                                left_symbol,
                                -1,
                                0x10000,
                            );
                            match spec_do_insert(st.left, 0, left_rank, left_symbol) {
                                None => {},
                                Some(a2) => {
                                    lemma_subtree_idx_bounds(st.left, 0);
                                    lemma_subtree_idx_bounds(st.left, 1);
                                    assert forall|j: int|
                                        subtree_idx(st.left, 1).contains(j) implies a2[j]
                                        == st.left[j] by {
                                        assert(!subtree_idx(st.left, 0).contains(j));
                                    }
                                    lemma_view_frame(st.left, a2, 1);
                                    lemma_insert_effect(a2, 1, right_rank, right_symbol);
                                    lemma_insert_bst(
                                        view_of(a2, 1),
                                        right_rank,
                                        right_symbol,
                                        -1,
                                        0x10000,
                                    );
                                    match spec_do_insert(a2, 1, right_rank, right_symbol) {
                                        None => {},
                                        Some(a3) => {
                                            lemma_subtree_idx_bounds(a2, 0);
                                            lemma_subtree_idx_bounds(a2, 1);
                                            assert forall|j: int|
                                                subtree_idx(a2, 0).contains(j) implies a3[j]
                                                == a2[j] by {
                                                assert(!subtree_idx(a2, 1).contains(j));
                                            }
                                            lemma_view_frame(a2, a3, 0);
                                        },
                                    }
                                },
                            }
                        }
                    },
                }
            }
        },
    }
}

/// Folding an add-only suffix over a search-tree state keeps both trees
/// search trees.
pub proof fn lemma_fold_add_only_bst(mode: Mode, st: ReplayState, rest: Seq<Instruction>)
    requires
        st_inv(mode, st),
        bst_state(mode, st),
        forall|k: int| 0 <= k < rest.len() ==> rest[k] is Add,
    ensures
        spec_fold(mode, st, rest) matches Ok(st2) ==> bst_state(mode, st2),
    decreases rest.len(),
{
    if rest.len() > 0 {
        lemma_step_inv(mode, st, rest[0]);
        lemma_add_step_bst(mode, st, rest[0]);
        match spec_step(mode, st, rest[0]) {
            Err(_) => {},
            Ok(st2) => {
                assert(forall|k: int|
                    0 <= k < rest.drop_first().len() ==> #[trigger] rest.drop_first()[k]
                        is Add);
                lemma_fold_add_only_bst(mode, st2, rest.drop_first());
            },
        }
    }
}

/// Search-tree law for add-only streams: when a stream of `Add`
/// instructions replays successfully, both resulting trees are valid
/// binary search trees — an in-order traversal of either yields its
/// ranks in strictly increasing order.
pub proof fn lemma_add_only_sorted(mode: Mode, instrs: Seq<Instruction>)
    requires
        forall|k: int| 0 <= k < instrs.len() ==> instrs[k] is Add,
        spec_replay(mode, instrs) is Ok,
    ensures
        (
        {
            let st = spec_replay(mode, instrs).unwrap();
            &&& strictly_increasing(ranks_of(view_of(st.left, 0).pairs()))
            &&& strictly_increasing(
                ranks_of(view_of(right_arena(mode, st), right_root(mode)).pairs()),
            )
        }),
{
    let st0 = spec_init(mode, instrs[0]).unwrap();
    lemma_init_inv(mode, instrs[0]);
    lemma_init_bst(mode, instrs[0]);
    assert(forall|k: int|
        0 <= k < instrs.drop_first().len() ==> #[trigger] instrs.drop_first()[k] is Add);
    lemma_fold_inv(mode, st0, instrs.drop_first());
    lemma_fold_add_only_bst(mode, st0, instrs.drop_first());
    let st = spec_replay(mode, instrs).unwrap();
    lemma_bst_inorder_sorted(view_of(st.left, 0), -1, 0x10000);
    lemma_bst_inorder_sorted(view_of(right_arena(mode, st), right_root(mode)), -1, 0x10000);
}

/// Folding any suffix preserves the engine invariant.
pub proof fn lemma_fold_inv(mode: Mode, st: ReplayState, rest: Seq<Instruction>)
    requires
        st_inv(mode, st),
    ensures
        spec_fold(mode, st, rest) matches Ok(st2) ==> st_inv(mode, st2),
    decreases rest.len(),
{
    if rest.len() > 0 {
        lemma_step_inv(mode, st, rest[0]);
        match spec_step(mode, st, rest[0]) {
            Err(_) => {},
            Ok(st2) => {
                lemma_fold_inv(mode, st2, rest.drop_first());
            },
        }
    }
}

/// The three runtime pieces of engine state, packed as a [`ReplayState`].
pub open spec fn cur_state(la: Seq<Node>, ra: Seq<Node>, tb: Seq<Option<(u16, u16)>>) -> ReplayState {
    ReplayState { left: la, right: ra, table: tb }
}

/// Relies on `String::push`: appends exactly the one character.
#[verifier::external_body]
fn push_symbol(s: &mut String, b: u8)
    ensures
        final(s)@ == old(s)@.push(b as char),
{
    s.push(b as char);
}

/// The string spelled by a sequence of symbol bytes.
pub fn bytes_to_string(bytes: &Vec<u8>) -> (s: String)
    ensures
        s@ == bytes@.map_values(|b: u8| b as char),
{
    let mut s = String::new();
    let mut i: usize = 0;
    while i < bytes.len()
        invariant
            i <= bytes.len(),
            s@ == bytes@.take(i as int).map_values(|b: u8| b as char),
        decreases bytes.len() - i,
    {
        push_symbol(&mut s, bytes[i]);
        proof {
            assert(s@ =~= bytes@.take(i + 1).map_values(|b: u8| b as char));
        }
        i += 1;
    }
    proof {
        assert(bytes@.take(bytes@.len() as int) =~= bytes@);
    }
    s
}

/// Replay a whole instruction stream and extract the message: the left
/// tree's message immediately followed by the right tree's. The result —
/// output string or fault — is a function of the stream alone,
/// [`spec_run`].
pub fn run_message_extraction(instructions: &Vec<Instruction>, mode: Mode) -> (res: Result<
    String,
    Fault,
>)
    ensures
        match res {
            Ok(msg) => spec_run(mode, instructions@) is Ok && msg@ == spec_run(
                mode,
                instructions@,
            ).unwrap().map_values(|b: u8| b as char),
            Err(f) => spec_run(mode, instructions@) == Err::<Seq<u8>, Fault>(f),
        },
{
    if instructions.len() == 0 {
        return Err(Fault::EmptyStream);
    }
    let first = instructions[0];
    let mut left = Arena::new();
    let mut right = Arena::new();
    let mut table: Vec<Option<(u16, u16)>> = Vec::new();
    let cap: usize = MAX_ID as usize + 1;
    let mut k: usize = 0;
    while k < cap
        invariant
            cap == MAX_ID as usize + 1,
            k <= cap,
            table@.len() == k as int,
            forall|j: int| 0 <= j < k ==> (#[trigger] table@[j]) is None,
        decreases cap - k,
    {
        table.push(None);
        k += 1;
    }
    proof {
        assert(table@ =~= fresh_table());
    }
    match first {
        Instruction::Swap { .. } => {
            return Err(Fault::FirstNotAdd);
        },
        Instruction::Add { id, left_rank, left_symbol, right_rank, right_symbol } => {
            if id > MAX_ID {
                return Err(Fault::IdOutOfBounds);
            }
            let _ = left.push(
                Node { rank: left_rank, symbol: left_symbol, left: None, right: None },
            );
            match mode {
                Mode::Separate => {
                    let _ = right.push(
                        Node { rank: right_rank, symbol: right_symbol, left: None, right: None },
                    );
                    table[id as usize] = Some((0u16, 0u16));
                },
                Mode::Shared => {
                    let _ = left.push(
                        Node { rank: right_rank, symbol: right_symbol, left: None, right: None },
                    );
                    table[id as usize] = Some((0u16, 1u16));
                },
            }
        },
    }
    proof {
        let st0 = spec_init(mode, instructions@[0]).unwrap();
        assert(left@ =~= st0.left);
        assert(right@ =~= st0.right);
        assert(table@ =~= st0.table);
        lemma_init_inv(mode, instructions@[0]);
        assert(cur_state(left@, right@, table@) == st0);
    }
    let mut i: usize = 1;
    while i < instructions.len()
        invariant
            1 <= i <= instructions@.len(),
            slab_dense(left.slab),
            slab_dense(right.slab),
            st_inv(mode, cur_state(left@, right@, table@)),
            spec_fold(mode, cur_state(left@, right@, table@), instructions@.skip(i as int))
                == spec_replay(mode, instructions@),
        decreases instructions@.len() - i,
    {
        let instr = instructions[i];
        let ghost st_before = cur_state(left@, right@, table@);
        proof {
            assert(instructions@.skip(i as int)[0] == instructions@[i as int]);
            assert(instructions@.skip(i as int).drop_first() =~= instructions@.skip(i as int + 1));
            lemma_step_inv(mode, st_before, instr);
        }
        match instr {
            Instruction::Add { id, left_rank, left_symbol, right_rank, right_symbol } => {
                if id > MAX_ID {
                    return Err(Fault::IdOutOfBounds);
                }
                match mode {
                    Mode::Separate => {
                        if left.len() >= 0xFFFF || right.len() >= 0xFFFF {
                            return Err(Fault::ArenaFull);
                        }
                        let hl = left.len();
                        match do_insert(&mut left, 0, left_rank, left_symbol) {
                            Err(f) => {
                                return Err(f);
                            },
                            Ok(_) => {},
                        }
                        let hr = right.len();
                        match do_insert(&mut right, 0, right_rank, right_symbol) {
                            Err(f) => {
                                return Err(f);
                            },
                            Ok(_) => {},
                        }
                        table[id as usize] = Some((hl as u16, hr as u16));
                    },
                    Mode::Shared => {
                        if left.len() >= 0xFFFE {
                            return Err(Fault::ArenaFull);
                        }
                        let hl = left.len();
                        match do_insert(&mut left, 0, left_rank, left_symbol) {
                            Err(f) => {
                                return Err(f);
                            },
                            Ok(_) => {},
                        }
                        proof {
                            lemma_insert_effect(st_before.left, 0, left_rank, left_symbol);
                        }
                        let hr = left.len();
                        match do_insert(&mut left, 1, right_rank, right_symbol) {
                            Err(f) => {
                                return Err(f);
                            },
                            Ok(_) => {},
                        }
                        table[id as usize] = Some((hl as u16, hr as u16));
                    },
                }
            },
            Instruction::Swap { id } => {
                if id > MAX_ID {
                    return Err(Fault::IdOutOfBounds);
                }
                match table[id as usize] {
                    None => {
                        return Err(Fault::UnknownId);
                    },
                    Some(pair) => {
                        let hl = pair.0;
                        let hr = pair.1;
                        match mode {
                            Mode::Separate => {
                                if hl as usize >= left.len() || hr as usize >= right.len() {
                                    return Err(Fault::InvalidHandle);
                                }
                                let nl = left.get_node(hl as usize);
                                let nr = right.get_node(hr as usize);
                                left.set_node(
                                    hl as usize,
                                    Node {
                                        rank: nr.rank,
                                        symbol: nr.symbol,
                                        left: nl.left,
                                        right: nl.right,
                                    },
                                );
                                right.set_node(
                                    hr as usize,
                                    Node {
                                        rank: nl.rank,
                                        symbol: nl.symbol,
                                        left: nr.left,
                                        right: nr.right,
                                    },
                                );
                            },
                            Mode::Shared => {
                                match left.swap_payloads(hl as usize, hr as usize) {
                                    Err(f) => {
                                        return Err(f);
                                    },
                                    Ok(()) => {},
                                }
                            },
                        }
                    },
                }
            },
        }
        proof {
            let st_after = spec_step(mode, st_before, instr).unwrap();
            assert(left@ =~= st_after.left);
            assert(right@ =~= st_after.right);
            assert(table@ =~= st_after.table);
            assert(cur_state(left@, right@, table@) == st_after);
        }
        i += 1;
    }
    proof {
        assert(instructions@.skip(instructions@.len() as int) =~= Seq::<Instruction>::empty());
    }
    let m1 = message(&left, 0);
    let m2 = match mode {
        Mode::Separate => message(&right, 0),
        Mode::Shared => message(&left, 1),
    };
    let mut all = m1;
    let mut m2v = m2;
    all.append(&mut m2v);
    let out = bytes_to_string(&all);
    proof {
        let st = cur_state(left@, right@, table@);
        assert(all@ == spec_output(mode, st));
    }
    Ok(out)
}

/// The character sequences of the input lines.
pub open spec fn line_views(lines: Seq<String>) -> Seq<Seq<char>> {
    lines.map_values(|l: String| l@)
}

/// Every line is a well-formed instruction.
pub open spec fn all_parse(lines: Seq<Seq<char>>) -> bool {
    forall|k: int| 0 <= k < lines.len() ==> spec_parse_instruction(#[trigger] lines[k]) is Some
}

/// The instruction stream spelled by the lines.
pub open spec fn parsed_stream(lines: Seq<Seq<char>>) -> Seq<Instruction> {
    lines.map_values(|l: Seq<char>| spec_parse_instruction(l).unwrap())
}

/// What a solve over raw instruction lines returns: a fault on the first
/// malformed line, otherwise the replayed and extracted message.
pub open spec fn spec_solve(mode: Mode, lines: Seq<Seq<char>>) -> Result<Seq<u8>, Fault> {
    if !all_parse(lines) {
        Err(Fault::MalformedLine)
    } else {
        spec_run(mode, parsed_stream(lines))
    }
}

/// Parse the lines into an instruction stream, replay it in the given
/// mode, and extract the message.
pub fn run_lines(lines: &Vec<String>, mode: Mode) -> (res: Result<String, Fault>)
    ensures
        match res {
            Ok(m) => spec_solve(mode, line_views(lines@)) is Ok && m@ == spec_solve(
                mode,
                line_views(lines@),
            ).unwrap().map_values(|b: u8| b as char),
            Err(f) => spec_solve(mode, line_views(lines@)) == Err::<Seq<u8>, Fault>(f),
        },
{
    let mut instrs: Vec<Instruction> = Vec::new();
    let mut i: usize = 0;
    while i < lines.len()
        invariant
            i <= lines@.len(),
            instrs@.len() == i as int,
            forall|k: int|
                0 <= k < i ==> spec_parse_instruction(#[trigger] line_views(lines@)[k]) is Some,
            forall|k: int|
                0 <= k < i ==> instrs@[k] == spec_parse_instruction(
                    #[trigger] line_views(lines@)[k],
                ).unwrap(),
        decreases lines@.len() - i,
    {
        match Instruction::parse(lines[i].as_str()) {
            None => {
                proof {
                    assert(line_views(lines@)[i as int] == lines@[i as int]@);
                    assert(!all_parse(line_views(lines@)));
                }
                return Err(Fault::MalformedLine);
            },
            Some(ins) => {
                instrs.push(ins);
                proof {
                    assert(line_views(lines@)[i as int] == lines@[i as int]@);
                }
            },
        }
        i += 1;
    }
    proof {
        assert(all_parse(line_views(lines@)));
        assert(instrs@ =~= parsed_stream(line_views(lines@)));
    }
    run_message_extraction(&instrs, mode)
}

/// The first puzzle variant: two separate arenas back the two trees.
pub fn solve_part1(lines: &Vec<String>) -> (res: Result<String, Fault>)
    ensures
        match res {
            Ok(m) => spec_solve(Mode::Separate, line_views(lines@)) is Ok && m@ == spec_solve(
                Mode::Separate,
                line_views(lines@),
            ).unwrap().map_values(|b: u8| b as char),
            Err(f) => spec_solve(Mode::Separate, line_views(lines@)) == Err::<Seq<u8>, Fault>(f),
        },
{
    run_lines(lines, Mode::Separate)
}

/// The second puzzle variant: the same two-arena configuration, on a
/// stream that also carries swaps.
pub fn solve_part2(lines: &Vec<String>) -> (res: Result<String, Fault>)
    ensures
        match res {
            Ok(m) => spec_solve(Mode::Separate, line_views(lines@)) is Ok && m@ == spec_solve(
                Mode::Separate,
                line_views(lines@),
            ).unwrap().map_values(|b: u8| b as char),
            Err(f) => spec_solve(Mode::Separate, line_views(lines@)) == Err::<Seq<u8>, Fault>(f),
        },
{
    run_lines(lines, Mode::Separate)
}

/// The third puzzle variant: one shared arena holds both trees.
pub fn solve_part3(lines: &Vec<String>) -> (res: Result<String, Fault>)
    ensures
        match res {
            Ok(m) => spec_solve(Mode::Shared, line_views(lines@)) is Ok && m@ == spec_solve(
                Mode::Shared,
                line_views(lines@),
            ).unwrap().map_values(|b: u8| b as char),
            Err(f) => spec_solve(Mode::Shared, line_views(lines@)) == Err::<Seq<u8>, Fault>(f),
        },
{
    run_lines(lines, Mode::Shared)
}

/// Solve all three puzzle variants, each from its own instruction lines.
pub fn solve(part1_lines: &Vec<String>, part2_lines: &Vec<String>, part3_lines: &Vec<String>) -> (res: (
    Result<String, Fault>,
    Result<String, Fault>,
    Result<String, Fault>,
))
    ensures
        match res.0 {
            Ok(m) => spec_solve(Mode::Separate, line_views(part1_lines@)) is Ok && m@ == spec_solve(
                Mode::Separate,
                line_views(part1_lines@),
            ).unwrap().map_values(|b: u8| b as char),
            Err(f) => spec_solve(Mode::Separate, line_views(part1_lines@)) == Err::<Seq<u8>, Fault>(
                f,
            ),
        },
        match res.1 {
            Ok(m) => spec_solve(Mode::Separate, line_views(part2_lines@)) is Ok && m@ == spec_solve(
                Mode::Separate,
                line_views(part2_lines@),
            ).unwrap().map_values(|b: u8| b as char),
            Err(f) => spec_solve(Mode::Separate, line_views(part2_lines@)) == Err::<Seq<u8>, Fault>(
                f,
            ),
        },
        match res.2 {
            Ok(m) => spec_solve(Mode::Shared, line_views(part3_lines@)) is Ok && m@ == spec_solve(
                Mode::Shared,
                line_views(part3_lines@),
            ).unwrap().map_values(|b: u8| b as char),
            Err(f) => spec_solve(Mode::Shared, line_views(part3_lines@)) == Err::<Seq<u8>, Fault>(
                f,
            ),
        },
{
    let part1 = solve_part1(part1_lines);
    let part2 = solve_part2(part2_lines);
    let part3 = solve_part3(part3_lines);
    (part1, part2, part3)
}

} // verus!
