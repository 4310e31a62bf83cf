//! Message extraction: given a finished tree, find the most populous
//! depth (deepest on a tie), and emit the symbols at that depth in
//! ascending order of the ranks they carry now — after all swaps.

use vstd::prelude::*;
use vstd::seq_lib::to_multiset_insert;
use crate::arena::Arena;
use crate::arena::slab_dense;
use crate::tree::Tree;
use crate::tree::view_of;
use crate::tree::tree_ok;
use crate::tree::height;
use crate::tree::count_at_depth;
use crate::tree::collect_at_depth;

verus! {

/// Insert a payload into a rank-sorted sequence, after any payloads of
/// equal rank.
pub open spec fn sorted_insert(s: Seq<(u16, u8)>, p: (u16, u8)) -> Seq<(u16, u8)>
    decreases s.len(),
{
    if s.len() == 0 {
        seq![p]
    } else if p.0 < s[0].0 {
        seq![p] + s
    } else {
        seq![s[0]] + sorted_insert(s.drop_first(), p)
    }
}

/// Stable insertion sort by ascending rank.
pub open spec fn sort_by_rank(s: Seq<(u16, u8)>) -> Seq<(u16, u8)>
    decreases s.len(),
{
    if s.len() == 0 {
        Seq::empty()
    } else {
        sorted_insert(sort_by_rank(s.drop_last()), s.last())
    }
}

/// Non-strict ascending rank order.
pub open spec fn sorted_by_rank(s: Seq<(u16, u8)>) -> bool {
    forall|a: int, b: int| 0 <= a < b < s.len() ==> s[a].0 <= s[b].0
}

/// Where [`sorted_insert`] puts the new payload: before the first entry of
/// strictly greater rank.
pub open spec fn find_pos(s: Seq<(u16, u8)>, p: (u16, u8)) -> int
    decreases s.len(),
{
    if s.len() == 0 {
        0
    } else if p.0 < s[0].0 {
        0
    } else {
        1 + find_pos(s.drop_first(), p)
    }
}

/// [`sorted_insert`] is insertion at [`find_pos`]: everything before the
/// position has rank at most `p`'s, the entry at the position (if any) has
/// strictly greater rank.
pub proof fn lemma_sorted_insert_is_insert(s: Seq<(u16, u8)>, p: (u16, u8))
    ensures
        0 <= find_pos(s, p) <= s.len(),
        sorted_insert(s, p) == s.insert(find_pos(s, p), p),
        forall|k: int| 0 <= k < find_pos(s, p) ==> (#[trigger] s[k]).0 <= p.0,
        find_pos(s, p) < s.len() ==> p.0 < s[find_pos(s, p)].0,
    decreases s.len(),
{
    if s.len() == 0 {
        assert(sorted_insert(s, p) =~= s.insert(0, p));
    } else if p.0 < s[0].0 {
        assert(sorted_insert(s, p) =~= s.insert(0, p));
    } else {
        lemma_sorted_insert_is_insert(s.drop_first(), p);
        let j = find_pos(s.drop_first(), p);
        assert(sorted_insert(s, p) =~= s.insert(1 + j, p));
        assert forall|k: int| 0 <= k < find_pos(s, p) implies (#[trigger] s[k]).0 <= p.0 by {
            if k > 0 {
                assert(s[k] == s.drop_first()[k - 1]);
            }
        }
    }
}

/// Inserting into a rank-sorted sequence keeps it sorted.
pub proof fn lemma_sorted_insert_sorted(s: Seq<(u16, u8)>, p: (u16, u8))
    requires
        sorted_by_rank(s),
    ensures
        sorted_by_rank(sorted_insert(s, p)),
    decreases s.len(),
{
    if s.len() == 0 {
    } else if p.0 < s[0].0 {
    } else {
        assert forall|a: int, b: int|
            0 <= a < b < s.drop_first().len() implies s.drop_first()[a].0
            <= s.drop_first()[b].0 by {
            assert(s.drop_first()[a] == s[a + 1]);
            assert(s.drop_first()[b] == s[b + 1]);
        }
        lemma_sorted_insert_sorted(s.drop_first(), p);
        let t = sorted_insert(s.drop_first(), p);
        lemma_sorted_insert_is_insert(s.drop_first(), p);
        assert forall|a: int, b: int|
            0 <= a < b < sorted_insert(s, p).len() implies sorted_insert(s, p)[a].0
            <= sorted_insert(s, p)[b].0 by {
            assert(sorted_insert(s, p) == seq![s[0]] + t);
            if a > 0 {
                assert(sorted_insert(s, p)[a] == t[a - 1]);
                assert(sorted_insert(s, p)[b] == t[b - 1]);
            } else {
                assert(sorted_insert(s, p)[b] == t[b - 1]);
                // s[0] is at most every entry of t: t is s.drop_first()
                // with p inserted, s[0] <= s[k+1] and s[0].0 <= p.0.
                let j = find_pos(s.drop_first(), p);
                assert(t == s.drop_first().insert(j, p));
                if b - 1 < j {
                    assert(t[b - 1] == s.drop_first()[b - 1]);
                } else if b - 1 == j {
                    assert(t[b - 1] == p);
                } else {
                    assert(t[b - 1] == s.drop_first()[b - 2]);
                }
                if s.len() > 1 {
                    assert(s.drop_first()[0] == s[1]);
                    assert(s[0].0 <= s[1].0);
                }
            }
        }
    }
}

/// Insertion sort yields a rank-sorted permutation of its input, of the
/// same length.
pub proof fn lemma_sort_by_rank_ensures(s: Seq<(u16, u8)>)
    ensures
        sorted_by_rank(sort_by_rank(s)),
        sort_by_rank(s).to_multiset() == s.to_multiset(),
        sort_by_rank(s).len() == s.len(),
    decreases s.len(),
{
    broadcast use vstd::seq_lib::group_to_multiset_ensures;

    if s.len() == 0 {
        assert(sort_by_rank(s).to_multiset() =~= s.to_multiset());
    } else {
        let rest = s.drop_last();
        lemma_sort_by_rank_ensures(rest);
        lemma_sorted_insert_sorted(sort_by_rank(rest), s.last());
        lemma_sorted_insert_is_insert(sort_by_rank(rest), s.last());
        to_multiset_insert(sort_by_rank(rest), find_pos(sort_by_rank(rest), s.last()), s.last());
        assert(s == rest.push(s.last()));
        assert(s.to_multiset() == rest.to_multiset().insert(s.last()));
    }
}

/// The deepest depth in `0..n` carrying the maximal node count.
pub open spec fn best_depth(t: Tree, n: nat) -> nat
    decreases n,
{
    if n <= 1 {
        0
    } else {
        let b = best_depth(t, (n - 1) as nat);
        if t.at_depth((n - 1) as nat).len() >= t.at_depth(b).len() {
            (n - 1) as nat
        } else {
            b
        }
    }
}

/// The depth the extractor reads: over all depths below the height, the
/// one with the most nodes, the deepest on a tie.
pub open spec fn target_depth(t: Tree) -> nat {
    best_depth(t, t.height())
}

/// The extracted message, as bytes: the payloads at the target depth,
/// sorted by ascending rank, symbols concatenated.
pub open spec fn extract_bytes(t: Tree) -> Seq<u8> {
    sort_by_rank(t.at_depth(target_depth(t))).map_values(|p: (u16, u8)| p.1)
}

/// The chosen depth is below `n`, carries a count no smaller than any
/// depth below `n`, and is strictly more populous than every deeper one.
pub proof fn lemma_best_depth_props(t: Tree, n: nat)
    requires
        1 <= n,
    ensures
        best_depth(t, n) < n,
        forall|d: nat| d < n ==> #[trigger] t.at_depth(d).len() <= t.at_depth(best_depth(t, n)).len(),
        forall|d: nat|
            best_depth(t, n) < d < n ==> #[trigger] t.at_depth(d).len() < t.at_depth(
                best_depth(t, n),
            ).len(),
    decreases n,
{
    if n > 1 {
        lemma_best_depth_props(t, (n - 1) as nat);
    }
}

/// Tie-break law: among the depths of the tree, the extractor's target
/// depth carries the maximum node count, and every depth deeper than the
/// target holds strictly fewer nodes — on a tie the deepest wins.
pub proof fn lemma_tie_break(t: Tree)
    requires
        t.height() >= 1,
    ensures
        target_depth(t) < t.height(),
        forall|d: nat|
            d < t.height() ==> #[trigger] t.at_depth(d).len() <= t.at_depth(target_depth(t)).len(),
        forall|d: nat|
            target_depth(t) < d < t.height() ==> #[trigger] t.at_depth(d).len() < t.at_depth(
                target_depth(t),
            ).len(),
{
    lemma_best_depth_props(t, t.height());
}

/// Ascending-rank-within-level law: the extracted level is a rank-sorted
/// permutation of the payloads found at the target depth, and the message
/// is exactly its symbols.
pub proof fn lemma_level_sorted(t: Tree)
    ensures
        sorted_by_rank(sort_by_rank(t.at_depth(target_depth(t)))),
        sort_by_rank(t.at_depth(target_depth(t))).to_multiset() == t.at_depth(
            target_depth(t),
        ).to_multiset(),
        extract_bytes(t) == sort_by_rank(t.at_depth(target_depth(t))).map_values(
            |p: (u16, u8)| p.1,
        ),
{
    lemma_sort_by_rank_ensures(t.at_depth(target_depth(t)));
}

/// Insert one payload into a rank-sorted vector, after any equal ranks.
fn insert_pair(out: &mut Vec<(u16, u8)>, p: (u16, u8))
    ensures
        final(out)@ == sorted_insert(old(out)@, p),
{
    let mut j: usize = 0;
    while j < out.len() && out[j].0 <= p.0
        invariant
            j <= out.len(),
            out == old(out),
            forall|k: int| 0 <= k < j ==> (#[trigger] out@[k]).0 <= p.0,
        decreases out.len() - j,
    {
        j += 1;
    }
    proof {
        lemma_sorted_insert_is_insert(out@, p);
        let fp = find_pos(out@, p);
        if j < fp {
            assert(out@[j as int].0 <= p.0);
        }
        if fp < j {
            assert(out@[fp].0 <= p.0);
        }
        assert(j == fp);
    }
    out.insert(j, p);
}

/// Insertion sort by ascending rank, stable for equal ranks.
pub fn sort_pairs(input: &Vec<(u16, u8)>) -> (out: Vec<(u16, u8)>)
    ensures
        out@ == sort_by_rank(input@),
{
    let mut out: Vec<(u16, u8)> = Vec::new();
    let mut i: usize = 0;
    while i < input.len()
        invariant
            i <= input.len(),
            out@ == sort_by_rank(input@.take(i as int)),
        decreases input.len() - i,
    {
        let p = input[i];
        insert_pair(&mut out, p);
        proof {
            assert(input@.take(i + 1).drop_last() =~= input@.take(i as int));
            assert(input@.take(i + 1).last() == input@[i as int]);
        }
        i += 1;
    }
    proof {
        assert(input@.take(input@.len() as int) =~= input@);
    }
    out
}

/// Extract the message of the tree rooted at `root`, as bytes: compute the
/// height, find the most populous depth (deepest on a tie), and list that
/// depth's symbols by ascending rank.
pub fn message(a: &Arena, root: u16) -> (m: Vec<u8>)
    requires
        slab_dense(a.slab),
        tree_ok(a@, root as int),
        a@.len() <= 0xFFFF,
    ensures
        m@ == extract_bytes(view_of(a@, root as int)),
{
    let ghost t = view_of(a@, root as int);
    let h = height(a, root);
    proof {
        assert(t is Branch);
        assert(t.height() >= 1);
    }
    let mut best: usize = 0;
    let mut best_count: usize = count_at_depth(a, root, 0);
    let mut d: usize = 1;
    while d < h
        invariant
            slab_dense(a.slab),
            tree_ok(a@, root as int),
            a@.len() <= 0xFFFF,
            t == view_of(a@, root as int),
            h == t.height(),
            1 <= d <= h,
            best as nat == best_depth(t, d as nat),
            best_count == t.at_depth(best as nat).len(),
        decreases h - d,
    {
        let c = count_at_depth(a, root, d);
        if c >= best_count {
            best = d;
            best_count = c;
        }
        d += 1;
    }
    proof {
        assert(best as nat == target_depth(t));
    }
    let mut pairs: Vec<(u16, u8)> = Vec::new();
    collect_at_depth(a, root, best, &mut pairs);
    let sorted = sort_pairs(&pairs);
    let mut m: Vec<u8> = Vec::new();
    let mut i: usize = 0;
    while i < sorted.len()
        invariant
            i <= sorted.len(),
            m@ == sorted@.take(i as int).map_values(|p: (u16, u8)| p.1),
        decreases sorted.len() - i,
    {
        m.push(sorted[i].1);
        proof {
            assert(m@ =~= sorted@.take(i + 1).map_values(|p: (u16, u8)| p.1));
        }
        i += 1;
    }
    proof {
        assert(sorted@.take(sorted@.len() as int) =~= sorted@);
    }
    m
}

} // verus!
