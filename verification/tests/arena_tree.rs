use tree_replay::arena::Arena;
use tree_replay::arena::Node;
use tree_replay::extract::message;
use tree_replay::extract::sort_pairs;
use tree_replay::fault::Fault;
use tree_replay::replay::bytes_to_string;
use tree_replay::tree::collect_at_depth;
use tree_replay::tree::count_at_depth;
use tree_replay::tree::do_insert;
use tree_replay::tree::height;

fn leaf(rank: u16, symbol: u8) -> Node {
    Node { rank, symbol, left: None, right: None }
}

#[test]
fn arena_hands_out_sequential_handles() {
    let mut a = Arena::new();
    assert_eq!(a.len(), 0);
    assert_eq!(a.push(leaf(10, b'A')), 0);
    assert_eq!(a.push(leaf(20, b'B')), 1);
    assert_eq!(a.len(), 2);
    let n = a.get_node(0);
    assert_eq!(n.rank, 10);
    assert_eq!(n.symbol, b'A');
    a.set_node(0, leaf(11, b'C'));
    let n = a.get_node(0);
    assert_eq!(n.rank, 11);
    assert_eq!(n.symbol, b'C');
    let n = a.get_node(1);
    assert_eq!(n.rank, 20);
}

#[test]
fn checked_access_reports_bad_handles() {
    let mut a = Arena::new();
    a.push(leaf(10, b'A'));
    assert!(matches!(a.get(0), Ok(n) if n.rank == 10));
    assert_eq!(a.get(1).unwrap_err(), Fault::InvalidHandle);
}

#[test]
fn payload_swap_keeps_children_in_place() {
    let mut a = Arena::new();
    let root = a.push(leaf(50, b'r')) as u16;
    do_insert(&mut a, root, 25, b'b').unwrap();
    do_insert(&mut a, root, 75, b'c').unwrap();
    assert_eq!(a.swap_payloads(1, 2), Ok(()));
    let r = a.get_node(root as usize);
    // Topology frozen: the root still points at slots 1 and 2.
    assert_eq!(r.left, Some(1));
    assert_eq!(r.right, Some(2));
    // Payloads exchanged.
    assert_eq!(a.get_node(1).rank, 75);
    assert_eq!(a.get_node(1).symbol, b'c');
    assert_eq!(a.get_node(2).rank, 25);
    assert_eq!(a.get_node(2).symbol, b'b');
    // Swapping back restores the original assignment.
    assert_eq!(a.swap_payloads(1, 2), Ok(()));
    assert_eq!(a.get_node(1).rank, 25);
    assert_eq!(a.get_node(2).rank, 75);
    // Equal or invalid handles are refused.
    assert_eq!(a.swap_payloads(1, 1), Err(Fault::InvalidHandle));
    assert_eq!(a.swap_payloads(0, 9), Err(Fault::InvalidHandle));
}

#[test]
fn insertion_builds_a_search_tree() {
    let mut a = Arena::new();
    let root = a.push(leaf(50, b'r')) as u16;
    assert_eq!(do_insert(&mut a, root, 25, b'l'), Ok(1));
    assert_eq!(do_insert(&mut a, root, 75, b'g'), Ok(2));
    assert_eq!(do_insert(&mut a, root, 10, b'x'), Ok(3));
    // 25 went left of the root, 75 right, 10 left of 25.
    let r = a.get_node(root as usize);
    assert_eq!(r.left, Some(1));
    assert_eq!(r.right, Some(2));
    let l = a.get_node(1);
    assert_eq!(l.left, Some(3));
    assert_eq!(l.right, None);
}

#[test]
fn duplicate_rank_leaves_the_arena_untouched() {
    let mut a = Arena::new();
    let root = a.push(leaf(50, b'r')) as u16;
    assert_eq!(do_insert(&mut a, root, 25, b'l'), Ok(1));
    assert_eq!(do_insert(&mut a, root, 25, b'm'), Err(Fault::DuplicateRank));
    assert_eq!(a.len(), 2);
    assert_eq!(a.get_node(1).symbol, b'l');
}

#[test]
fn height_and_depth_census() {
    let mut a = Arena::new();
    let root = a.push(leaf(50, b'r')) as u16;
    do_insert(&mut a, root, 25, b'b').unwrap();
    do_insert(&mut a, root, 75, b'c').unwrap();
    do_insert(&mut a, root, 10, b'd').unwrap();
    assert_eq!(height(&a, root), 3);
    assert_eq!(count_at_depth(&a, root, 0), 1);
    assert_eq!(count_at_depth(&a, root, 1), 2);
    assert_eq!(count_at_depth(&a, root, 2), 1);
    assert_eq!(count_at_depth(&a, root, 3), 0);
    let mut pairs: Vec<(u16, u8)> = Vec::new();
    collect_at_depth(&a, root, 1, &mut pairs);
    assert_eq!(pairs, vec![(25, b'b'), (75, b'c')]);
}

#[test]
fn message_reads_the_most_populous_level() {
    let mut a = Arena::new();
    let root = a.push(leaf(50, b'r')) as u16;
    do_insert(&mut a, root, 75, b'c').unwrap();
    do_insert(&mut a, root, 25, b'b').unwrap();
    let m = message(&a, root);
    assert_eq!(bytes_to_string(&m), "bc");
}

#[test]
fn sorting_is_stable_by_rank() {
    let pairs = vec![(7u16, b'g'), (2u16, b'b'), (5u16, b'e'), (2u16, b'B')];
    let sorted = sort_pairs(&pairs);
    assert_eq!(sorted, vec![(2, b'b'), (2, b'B'), (5, b'e'), (7, b'g')]);
}

#[test]
fn bytes_spell_their_string() {
    assert_eq!(bytes_to_string(&vec![b'A', b'B', b'C']), "ABC");
    assert_eq!(bytes_to_string(&Vec::new()), "");
}
