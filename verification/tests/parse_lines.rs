use tree_replay::replay::Instruction;

#[test]
fn parses_an_add_line() {
    let parsed = Instruction::parse("ADD id=1 left=[10,A] right=[20,B]");
    assert_eq!(
        parsed,
        Some(Instruction::Add {
            id: 1,
            left_rank: 10,
            left_symbol: b'A',
            right_rank: 20,
            right_symbol: b'B',
        })
    );
}

#[test]
fn parses_a_swap_line() {
    assert_eq!(Instruction::parse("SWAP 12"), Some(Instruction::Swap { id: 12 }));
    assert_eq!(Instruction::parse("SWAP 0"), Some(Instruction::Swap { id: 0 }));
}

#[test]
fn accepts_space_and_punctuation_symbols() {
    let parsed = Instruction::parse("ADD id=7 left=[1, ] right=[2,~]");
    assert_eq!(
        parsed,
        Some(Instruction::Add {
            id: 7,
            left_rank: 1,
            left_symbol: b' ',
            right_rank: 2,
            right_symbol: b'~',
        })
    );
}

#[test]
fn accepts_the_full_sixteen_bit_range() {
    let parsed = Instruction::parse("ADD id=65535 left=[65535,A] right=[0,B]");
    assert_eq!(
        parsed,
        Some(Instruction::Add {
            id: 65535,
            left_rank: 65535,
            left_symbol: b'A',
            right_rank: 0,
            right_symbol: b'B',
        })
    );
}

#[test]
fn rejects_malformed_lines() {
    assert_eq!(Instruction::parse(""), None);
    assert_eq!(Instruction::parse("ADD id="), None);
    assert_eq!(Instruction::parse("ADD id=1 left=[10,A] right=[20,B] "), None);
    assert_eq!(Instruction::parse("ADD id=1 left=[10,A] right=[20,B"), None);
    assert_eq!(Instruction::parse("ADD id=1 left=[10,AB] right=[20,B]"), None);
    assert_eq!(Instruction::parse("SWAP"), None);
    assert_eq!(Instruction::parse("SWAP "), None);
    assert_eq!(Instruction::parse("SWAP 12 "), None);
    assert_eq!(Instruction::parse("swap 12"), None);
}

#[test]
fn rejects_numbers_beyond_sixteen_bits() {
    assert_eq!(Instruction::parse("ADD id=65536 left=[10,A] right=[20,B]"), None);
    assert_eq!(Instruction::parse("ADD id=1 left=[70000,A] right=[20,B]"), None);
    assert_eq!(Instruction::parse("SWAP 1000000"), None);
}

#[test]
fn accepts_redundant_leading_zeros() {
    // Leading zeros keep the run's value small, so they are accepted.
    assert_eq!(Instruction::parse("SWAP 000012"), Some(Instruction::Swap { id: 12 }));
}
