use tree_replay::math::gcd_u64;
use tree_replay::snails::crt;
use tree_replay::snails::mod_inverse;
use tree_replay::snails::solve;
use tree_replay::snails::solve_part1;
use tree_replay::snails::solve_part2;
use tree_replay::snails::solve_part3;
use tree_replay::snails::Snail;
use tree_replay::snails::SnailError;

fn lines(raw: &[&str]) -> Vec<String> {
    raw.iter().map(|s| String::from(*s)).collect()
}

#[test]
fn snail_from_one_based_coordinates() {
    let s = Snail::new(3, 5);
    assert_eq!(s.x0, 2);
    assert_eq!(s.y0, 4);
    assert_eq!(s.period, 7);
}

#[test]
fn position_wraps_with_the_period() {
    let s = Snail::new(3, 5);
    // After 100 steps: x = (2 + 100) mod 7 + 1 = 5, y = (4 - 100) mod 7
    // + 1 = 3.
    assert_eq!(s.position_at(100), (5, 3));
    assert_eq!(s.position_at(0), (3, 5));
    assert_eq!(s.position_at(7), (3, 5));
}

#[test]
fn modular_inverse_small_cases() {
    assert_eq!(mod_inverse(3, 7), 5);
    assert_eq!(mod_inverse(10, 17), 12);
    assert_eq!(mod_inverse(1, 2), 1);
    assert_eq!(mod_inverse(5, 1), 0);
    // Reduction of the first argument happens up front.
    assert_eq!(mod_inverse(10, 7), 5);
}

#[test]
fn gcd_small_cases() {
    assert_eq!(gcd_u64(12, 18), 6);
    assert_eq!(gcd_u64(7, 0), 7);
    assert_eq!(gcd_u64(0, 9), 9);
    assert_eq!(gcd_u64(35, 64), 1);
}

#[test]
fn alignment_of_two_coprime_snails() {
    // Periods 2 and 3; first-row remainders 1 and 2; the combined time
    // is 5, when both `y` offsets vanish.
    let snails = vec![Snail::new(1, 2), Snail::new(1, 3)];
    assert_eq!(crt(&snails), Ok(5));
}

#[test]
fn alignment_via_lines() {
    let input = lines(&["x=1 y=2", "x=1 y=3"]);
    assert_eq!(solve_part2(&input), Ok(5));
    assert_eq!(solve_part3(&input), Ok(5));
}

#[test]
fn positions_sum_after_one_hundred_steps() {
    // One snail at (3, 5): position (5, 3), contribution 100 * 3 + 5.
    let input = lines(&["x=3 y=5"]);
    assert_eq!(solve_part1(&input), Ok(305));
}

#[test]
fn shared_factors_are_reported() {
    // Periods 2 and 4 share the factor 2.
    let input = lines(&["x=1 y=2", "x=2 y=3"]);
    assert_eq!(solve_part2(&input), Err(SnailError::NotCoprime));
}

#[test]
fn oversized_products_are_reported() {
    let input = lines(&["x=999999999 y=999999999", "x=999999998 y=999999999"]);
    assert_eq!(solve_part2(&input), Err(SnailError::Overflow));
}

#[test]
fn malformed_snail_lines_are_reported() {
    assert_eq!(
        solve_part1(&lines(&["x=3 z=5"])),
        Err(SnailError::MalformedLine)
    );
    assert_eq!(
        solve_part1(&lines(&["x=0 y=5"])),
        Err(SnailError::MalformedLine)
    );
    assert_eq!(
        solve_part1(&lines(&["x=3 y=5 "])),
        Err(SnailError::MalformedLine)
    );
    assert_eq!(
        solve_part2(&lines(&["x=1000000000 y=5"])),
        Err(SnailError::MalformedLine)
    );
}

#[test]
fn snail_solve_returns_all_three_parts() {
    let p1 = lines(&["x=3 y=5"]);
    let p23 = lines(&["x=1 y=2", "x=1 y=3"]);
    let (r1, r2, r3) = solve(&p1, &p23, &p23);
    assert_eq!(r1, Ok(305));
    assert_eq!(r2, Ok(5));
    assert_eq!(r3, Ok(5));
}
