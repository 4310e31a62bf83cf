use tree_replay::fault::Fault;
use tree_replay::replay::run_message_extraction;
use tree_replay::replay::solve;
use tree_replay::replay::solve_part1;
use tree_replay::replay::solve_part2;
use tree_replay::replay::solve_part3;
use tree_replay::replay::Instruction;
use tree_replay::replay::Mode;

fn lines(raw: &[&str]) -> Vec<String> {
    raw.iter().map(|s| String::from(*s)).collect()
}

#[test]
fn end_to_end_two_trees() {
    // Left tree: 10/A with left child 5/C; counts tie between depths 0
    // and 1, the deeper wins: "C". Right tree: 20/B with right child
    // 30/D: "D".
    let input = lines(&[
        "ADD id=1 left=[10,A] right=[20,B]",
        "ADD id=2 left=[5,C] right=[30,D]",
    ]);
    let out = solve_part1(&input).unwrap();
    assert_eq!(out, "CD");
}

#[test]
fn end_to_end_shared_arena_same_output() {
    // Sharing one arena changes the handles the nodes occupy, never the
    // extracted message.
    let input = lines(&[
        "ADD id=1 left=[10,A] right=[20,B]",
        "ADD id=2 left=[5,C] right=[30,D]",
    ]);
    let out = solve_part3(&input).unwrap();
    assert_eq!(out, "CD");
}

#[test]
fn tie_break_prefers_deepest() {
    // Left tree counts per depth: 1, 2, 1, 2. Depths 1 and 3 tie at two
    // nodes; the extractor must choose depth 3, whose ranks 5 and 15
    // carry 'e' and 'f'. The right tree is a single descending chain,
    // ties all the way down, deepest node 'z'.
    let input = lines(&[
        "ADD id=1 left=[50,a] right=[1,z]",
        "ADD id=2 left=[25,b] right=[2,z]",
        "ADD id=3 left=[75,c] right=[3,z]",
        "ADD id=4 left=[10,d] right=[4,z]",
        "ADD id=5 left=[5,e] right=[5,z]",
        "ADD id=6 left=[15,f] right=[6,z]",
    ]);
    let out = solve_part1(&input).unwrap();
    assert_eq!(out, "efz");
}

#[test]
fn level_symbols_come_in_ascending_rank_order() {
    // The left tree's most populous depth holds ranks {7, 2, 5} with
    // symbols {'g', 'b', 'e'}; the extracted segment must be "beg".
    let input = lines(&[
        "ADD id=1 left=[6,x] right=[1,z]",
        "ADD id=2 left=[3,m] right=[2,z]",
        "ADD id=3 left=[8,n] right=[3,z]",
        "ADD id=4 left=[2,b] right=[4,z]",
        "ADD id=5 left=[5,e] right=[5,z]",
        "ADD id=6 left=[7,g] right=[6,z]",
    ]);
    let out = solve_part1(&input).unwrap();
    assert_eq!(out, "begz");
}

#[test]
fn swap_exchanges_payloads() {
    // Swapping id 2 exchanges rank and symbol between the two trees'
    // registered nodes: the left tree's depth-1 node becomes 30/D, the
    // right tree's becomes 5/C.
    let input = lines(&[
        "ADD id=1 left=[10,A] right=[20,B]",
        "ADD id=2 left=[5,C] right=[30,D]",
        "SWAP 2",
    ]);
    let out = solve_part2(&input).unwrap();
    assert_eq!(out, "DC");
}

#[test]
fn swap_twice_restores() {
    let plain = lines(&[
        "ADD id=1 left=[10,A] right=[20,B]",
        "ADD id=2 left=[5,C] right=[30,D]",
    ]);
    let swapped_twice = lines(&[
        "ADD id=1 left=[10,A] right=[20,B]",
        "ADD id=2 left=[5,C] right=[30,D]",
        "SWAP 2",
        "SWAP 2",
    ]);
    assert_eq!(
        solve_part2(&plain).unwrap(),
        solve_part2(&swapped_twice).unwrap()
    );
}

#[test]
fn swap_twice_restores_in_shared_arena() {
    let swapped_twice = lines(&[
        "ADD id=1 left=[10,A] right=[20,B]",
        "ADD id=2 left=[5,C] right=[30,D]",
        "SWAP 2",
        "SWAP 2",
    ]);
    assert_eq!(solve_part3(&swapped_twice).unwrap(), "CD");
}

#[test]
fn swap_of_first_record_id_targets_the_roots() {
    // The first Add registers its identifier too, so a swap of id 1
    // exchanges the two root payloads.
    let input = lines(&[
        "ADD id=1 left=[10,A] right=[20,B]",
        "SWAP 1",
    ]);
    let out = solve_part2(&input).unwrap();
    assert_eq!(out, "BA");
}

#[test]
fn identical_streams_give_identical_output() {
    let a = lines(&[
        "ADD id=1 left=[10,A] right=[20,B]",
        "ADD id=2 left=[5,C] right=[30,D]",
        "SWAP 2",
    ]);
    let b = lines(&[
        "ADD id=1 left=[10,A] right=[20,B]",
        "ADD id=2 left=[5,C] right=[30,D]",
        "SWAP 2",
    ]);
    assert_eq!(solve_part2(&a), solve_part2(&b));
    assert_eq!(solve_part3(&a), solve_part3(&b));
}

#[test]
fn unregistered_swap_is_fatal() {
    // Strict missing-identifier policy: the swap faults, it is not
    // skipped.
    let input = lines(&[
        "ADD id=1 left=[10,A] right=[20,B]",
        "SWAP 99",
    ]);
    assert_eq!(solve_part2(&input), Err(Fault::UnknownId));
    assert_eq!(solve_part3(&input), Err(Fault::UnknownId));
}

#[test]
fn empty_stream_is_fatal() {
    let input: Vec<String> = Vec::new();
    assert_eq!(solve_part1(&input), Err(Fault::EmptyStream));
}

#[test]
fn first_record_must_be_an_add() {
    let input = lines(&["SWAP 1"]);
    assert_eq!(solve_part1(&input), Err(Fault::FirstNotAdd));
}

#[test]
fn duplicate_rank_is_fatal() {
    let input = lines(&[
        "ADD id=1 left=[10,A] right=[20,B]",
        "ADD id=2 left=[10,C] right=[30,D]",
    ]);
    assert_eq!(solve_part1(&input), Err(Fault::DuplicateRank));
}

#[test]
fn identifier_above_capacity_is_fatal() {
    let input = lines(&[
        "ADD id=1 left=[10,A] right=[20,B]",
        "ADD id=201 left=[5,C] right=[30,D]",
    ]);
    assert_eq!(solve_part1(&input), Err(Fault::IdOutOfBounds));
}

#[test]
fn malformed_line_is_fatal() {
    let input = lines(&[
        "ADD id=1 left=[10,A] right=[20,B]",
        "ADD id=2 left=[5,C)",
    ]);
    assert_eq!(solve_part1(&input), Err(Fault::MalformedLine));
}

#[test]
fn engine_accepts_typed_instructions() {
    let instrs = vec![
        Instruction::Add {
            id: 1,
            left_rank: 10,
            left_symbol: b'A',
            right_rank: 20,
            right_symbol: b'B',
        },
        Instruction::Add {
            id: 2,
            left_rank: 5,
            left_symbol: b'C',
            right_rank: 30,
            right_symbol: b'D',
        },
    ];
    assert_eq!(run_message_extraction(&instrs, Mode::Separate).unwrap(), "CD");
    assert_eq!(run_message_extraction(&instrs, Mode::Shared).unwrap(), "CD");
}

#[test]
fn solve_returns_all_three_parts() {
    let p1 = lines(&["ADD id=1 left=[10,A] right=[20,B]"]);
    let p2 = lines(&[
        "ADD id=1 left=[10,A] right=[20,B]",
        "SWAP 1",
    ]);
    let p3 = lines(&[
        "ADD id=1 left=[10,A] right=[20,B]",
        "ADD id=2 left=[5,C] right=[30,D]",
    ]);
    let (r1, r2, r3) = solve(&p1, &p2, &p3);
    assert_eq!(r1.unwrap(), "AB");
    assert_eq!(r2.unwrap(), "BA");
    assert_eq!(r3.unwrap(), "CD");
}

#[test]
fn a_full_shared_arena_is_fatal() {
    // Ranks are handed out in balanced (midpoint-first) order so the
    // trees stay shallow. A shared arena holds at most 0xFFFE nodes; the
    // add that would exceed that faults.
    let mut ranks: Vec<u16> = Vec::new();
    let mut ranges: Vec<(i64, i64)> = vec![(0, 65535)];
    let mut at = 0;
    while ranks.len() < 32768 {
        let (lo, hi) = ranges[at];
        at += 1;
        let mid = (lo + hi) / 2;
        ranks.push(mid as u16);
        if lo < mid {
            ranges.push((lo, mid - 1));
        }
        if mid < hi {
            ranges.push((mid + 1, hi));
        }
    }
    let instrs: Vec<Instruction> = ranks
        .iter()
        .map(|r| Instruction::Add {
            id: 2,
            left_rank: *r,
            left_symbol: b'a',
            right_rank: *r,
            right_symbol: b'b',
        })
        .collect();
    assert_eq!(
        run_message_extraction(&instrs, Mode::Shared),
        Err(Fault::ArenaFull)
    );
}

#[test]
fn fault_describe_names_every_fault() {
    assert_eq!(Fault::UnknownId.describe(), "swap of an unregistered identifier");
    assert!(!Fault::EmptyStream.describe().is_empty());
    assert!(!Fault::FirstNotAdd.describe().is_empty());
    assert!(!Fault::DuplicateRank.describe().is_empty());
    assert!(!Fault::IdOutOfBounds.describe().is_empty());
    assert!(!Fault::ArenaFull.describe().is_empty());
    assert!(!Fault::InvalidHandle.describe().is_empty());
    assert!(!Fault::MalformedLine.describe().is_empty());
}
