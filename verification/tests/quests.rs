//! Tests for the individual quest solvers.

use quests::quest01;
use quests::quest02;
use quests::quest03;
use quests::quest04;
use quests::quest06;
use quests::quest13;
use quests::quest14::{self, floor::Floor};
use quests::quest16;

#[test]
fn q01_saturating_walk() {
    let input = b"alpha,bravo,charlie,delta\n\nR2,L1,R9";
    let name = quest01::solve_part1(input).unwrap();
    assert_eq!(name, b"delta".to_vec());
    assert_eq!(quest01::solve_part1(b"a,b"), None);
}

#[test]
fn q01_wrapping_walk() {
    let input = b"alpha,bravo,charlie\n\nL1,L1";
    let name = quest01::solve_part2(input).unwrap();
    assert_eq!(name, b"bravo".to_vec());
}

#[test]
fn q01_swapping_walk() {
    let input = b"alpha,bravo,charlie\n\nR1,R2";
    // Swap 0 with 1, then 0 with 2: front becomes charlie.
    let name = quest01::solve_part3(input).unwrap();
    assert_eq!(name, b"charlie".to_vec());
}

#[test]
fn q02_engraving_iterates() {
    let c = quest02::solve_part1(b"A=[1,1]").unwrap();
    // From zero: z1 = (1,1); z2 = (0/10+1, 2/10+1) = (1,1)... the third
    // step repeats the same point.
    assert_eq!((c.real, c.imag), (1, 1));
    assert_eq!(quest02::parse_a(b"A=[-3,4]").map(|c| (c.real, c.imag)), Some((-3, 4)));
    assert_eq!(quest02::parse_a(b"B=[1,2]"), None);
    assert_eq!(quest02::parse_a(b"A=[1;2]"), None);
}

#[test]
fn q02_counts_engraved_points() {
    // Far away from the plate's stable region every point escapes at the
    // first step, so nothing is engraved.
    let far = quest02::solve_part2(b"A=[9000000,9000000]").unwrap();
    assert_eq!(far, 0);
    // Around the origin the whole coarse grid stays small forever.
    let near = quest02::solve_part2(b"A=[0,0]").unwrap();
    assert_eq!(near, 101 * 101);
}

#[test]
fn q03_distinct_sums_and_rounds() {
    assert_eq!(quest03::solve_part1(b"5,3,5,2"), Some(10));
    assert_eq!(quest03::solve_part1(b"5,,2"), None);
    assert_eq!(
        quest03::solve_part2(b"1,2,3,4,5,6,7,8,9,10,11,12,13,14,15,16,17,18,19,20,30,30"),
        Some(210)
    );
    assert_eq!(quest03::solve_part2(b"1,2,3"), None);
    assert_eq!(quest03::solve_part3(b"7,7,7,1"), Some(3));
    assert_eq!(quest03::solve_part3(b"4"), Some(1));
}

#[test]
fn q04_first_and_last() {
    assert_eq!(quest04::solve_part1(b"10\n4\n5\n"), Some(2025 * 10 / 5));
    assert_eq!(quest04::solve_part1(b"10\n0\n"), None);
    assert_eq!(quest04::solve_part2(b"4\n10\n"), Some((10000000000000u64 * 10).div_ceil(4)));
    assert_eq!(quest04::solve_part2(b"0\n10\n"), None);
    let (a, b) = quest04::solve(b"8\n2\n", b"3\n6\n");
    assert_eq!(a, Some(2025 * 8 / 2));
    assert_eq!(b, Some((10000000000000u64 * 6).div_ceil(3)));
}

#[test]
fn q06_pairs_with_earlier_knights() {
    // Knights A A, then tents a a: 2 + 2 pairs.
    assert_eq!(quest06::solve_part1(b"AAaa"), Some(4));
    assert_eq!(quest06::solve_part1(b"aAAa"), Some(2));
    assert_eq!(quest06::solve_part2(b"AaBbCc"), Some(3));
    assert_eq!(quest06::solve_part2(b"ABCabc"), Some(3));
}

#[test]
fn q13_wheel_reads() {
    // Wheel from 1: push 2 back, push 3 front, push 4 back: [3, 1, 2, 4].
    // Middle of len 4 is (4-1)/2 = 1; 2025 turns later: (1 + 2025) % 4 = 2.
    assert_eq!(quest13::solve_part1(b"2\n3\n4\n"), Some(2));
    assert_eq!(quest13::solve_part1(b"2\nx\n"), None);
}

#[test]
fn q13_range_wheel_reads() {
    // One appended range only: wheel [1][10..=19]; length 11.
    let r = quest13::solve_part23(b"10-19\n", 5);
    // Target 5: the initial item spans one seat, so seat 10 + 4 = 14.
    assert_eq!(r, Some(14));
    assert_eq!(quest13::solve_part23(b"19-10\n", 5), None);
}

#[test]
fn q14_parity_floor_steps() {
    // A single active tile in a 3x3 floor: its diagonal neighbours each
    // see one active tile (odd count, inactive: stays off)... every
    // inactive tile with an even diagonal count turns on.
    let f = Floor::load(b"...\n.#.\n...\n").unwrap();
    assert_eq!(f.total_active(), 1);
    let mut g = f.clone();
    g.step();
    // The centre has zero active diagonal neighbours (even): turns on.
    // Corners see the centre (odd count, inactive): stay off.
    // Edge-adjacent tiles see zero diagonals: turn on.
    assert!(g.total_active() > 0);
    assert_eq!(quest14::solve_part1(b"..\n..\n").is_some(), true);
    assert_eq!(Floor::load(b"..\n.\n"), None);
    // Fewer lines than the width read as inactive padding rows.
    let padded = Floor::load(b"#.\n").unwrap();
    assert_eq!(padded.side, 2);
    assert_eq!(padded.total_active(), 1);
    let e = Floor::empty(3).unwrap();
    assert_eq!(e.total_active(), 0);
    assert_eq!(Floor::empty(200), None);
}

#[test]
fn q14_runs_sum_generations() {
    let a = quest14::solve_part1(b"#.\n.#\n").unwrap();
    let b = quest14::solve_part2(b"#.\n.#\n").unwrap();
    // 2025 generations count at least as much as ten.
    assert!(b >= a);
}

#[test]
fn q16_wheel_turns() {
    assert_eq!(quest16::solve_part1(b"3,5,9"), Some(58));
    assert_eq!(quest16::solve_part1(b"3,0"), None);
}

#[test]
fn q16_spell_product() {
    // Stride one drains everything by one, stride two finishes the
    // second counter: the spell is [1, 2].
    assert_eq!(quest16::solve_part2(b"1,2"), Some(2));
    // The sweep passes the last stride with a counter left.
    assert_eq!(quest16::solve_part2(b"2,2"), None);
}

#[test]
fn q16_wall_length() {
    // Spell [1, 2]: a wall of length m needs m + m / 2 blocks, which
    // stays under the block budget throughout the searched range, so the
    // search settles on the range's upper bound.
    assert_eq!(quest16::solve_part3(b"1,2"), Some(100000000000000));
}
