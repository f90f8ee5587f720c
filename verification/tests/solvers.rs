use aoc2024::day1;
use aoc2024::day2;
use aoc2024::day3;
use aoc2024::day4;
use aoc2024::day5;
use aoc2024::day6;
use aoc2024::day7;
use aoc2024::day7::{CalibrationEquation, Symbol};
use aoc2024::day8;
use aoc2024::day9;
use aoc2024::day9::DiskBlock;

const DAY5_EXAMPLE: &str = "47|53\n97|13\n97|61\n97|47\n75|29\n61|13\n75|53\n29|13\n97|29\n\
53|29\n61|53\n97|53\n61|29\n47|13\n75|47\n97|75\n47|61\n75|61\n47|29\n75|13\n53|13\n\
\n\
75,47,61,53,29\n97,61,53,29,13\n75,29,13\n75,97,47,61,53\n61,13,29\n97,13,75,29,47";

const DAY6_EXAMPLE: &str = "....#.....\n.........#\n..........\n..#.......\n.......#..\n\
..........\n.#..^.....\n........#.\n#.........\n......#...";

const DAY7_EXAMPLE: &str = "190: 10 19\n3267: 81 40 27\n83: 17 5\n156: 15 6\n7290: 6 8 6 15\n\
161011: 16 10 13\n192: 17 8 14\n21037: 9 7 18 13\n292: 11 6 16 20";

const DAY8_EXAMPLE: &str = "............\n........0...\n.....0......\n.......0....\n\
....0.......\n......A.....\n............\n............\n........A...\n.........A..\n\
............\n............";

const DAY9_EXAMPLE: &str = "2333133121414131402";

#[test]
fn day4_test_part_1() {
    assert_eq!(4, day4::part_1("XMAS\nM..A\nA..M\nSAMX"));
    assert_eq!(2, day4::part_1("X..S\n.MA.\n.MA.\nX..S"));
    assert_eq!(
        2,
        day4::part_1("XMASAMX\n.......\n.......\n.......\n.......\n.......\n.......")
    );
}

#[test]
fn day4_test_part_2() {
    assert_eq!(1, day4::part_2("M.S\n.A.\nM.S"));
    assert_eq!(
        9,
        day4::part_2(
            ".M.S......\n..A..MSMS.\n.M.S.MAA..\n..A.ASMSM.\n.M.S.M....\n..........\n\
S.S.S.S.S.\n.A.A.A.A..\nM.M.M.M.M.\n.........."
        )
    );
}

#[test]
fn day5_test_part_1() {
    assert_eq!(143, day5::part_1(DAY5_EXAMPLE).unwrap())
}

#[test]
fn day5_test_part_2() {
    assert_eq!(123, day5::part_2(DAY5_EXAMPLE).unwrap())
}

#[test]
fn day6_test_part_1() {
    assert_eq!(41, day6::part_1(DAY6_EXAMPLE).unwrap().len());
}

#[test]
fn day6_test_part_2() {
    assert_eq!(6, day6::part_2(DAY6_EXAMPLE).unwrap().len());
    assert_eq!(
        2,
        day6::part_2("..##..\n.....#\n..^...\n......\n....#.\n").unwrap().len()
    );
    assert_eq!(
        1,
        day6::part_2("..#...\n.....#\n..^...\n...#..\n....#.\n").unwrap().len()
    );
    assert_eq!(
        1,
        day6::part_2("..#...\n.....#\n..^..#\n...#..\n....#.\n").unwrap().len()
    );
}

#[test]
fn day7_test_part_1() {
    assert_eq!(3749, day7::solve_calibrations(DAY7_EXAMPLE, false).unwrap());
}

#[test]
fn day7_test_part_2() {
    assert_eq!(11387, day7::solve_calibrations(DAY7_EXAMPLE, true).unwrap());
}

#[test]
fn test_calculate_antinode() {
    assert_eq!((3, 1), day8::calculate_antinode(&(4, 3), &(5, 5)));
    assert_eq!((6, 7), day8::calculate_antinode(&(5, 5), &(4, 3)));
}

#[test]
fn test_calculate_antinodes() {
    let mut iter = day8::calculate_antinodes(&(4, 3), &(5, 5));
    assert_eq!(Some((4, 3)), iter.next());
    assert_eq!(Some((3, 1)), iter.next());
    assert_eq!(Some((2, -1)), iter.next());
}

#[test]
fn day8_test_part_1() {
    assert_eq!(14, day8::part_1(DAY8_EXAMPLE).unwrap());
}

#[test]
fn day8_test_part_2() {
    assert_eq!(34, day8::part_2(DAY8_EXAMPLE).unwrap());
}

#[test]
fn test_parse_input() {
    assert_eq!(
        vec![
            DiskBlock::File(0),
            DiskBlock::Free(),
            DiskBlock::Free(),
            DiskBlock::File(1),
            DiskBlock::File(1),
            DiskBlock::File(1),
            DiskBlock::Free(),
            DiskBlock::Free(),
            DiskBlock::Free(),
            DiskBlock::Free(),
            DiskBlock::File(2),
            DiskBlock::File(2),
            DiskBlock::File(2),
            DiskBlock::File(2),
            DiskBlock::File(2),
        ],
        day9::parse_input("12345")
    )
}

#[test]
fn day9_test_part_1() {
    assert_eq!(1928, day9::part_1(DAY9_EXAMPLE));
}

#[test]
fn day1_parts() {
    let input = String::from("3   4\n4   3\n2   5\n1   3\n3   9\n3   3");
    assert_eq!(11, day1::part_1(&input).unwrap());
    assert_eq!(31, day1::part_2(&input).unwrap());
    let bad = String::from("3 4\nx 3");
    assert_eq!(None, day1::part_1(&bad));
}

#[test]
fn day2_parts() {
    let input = String::from(
        "7 6 4 2 1\n1 2 7 8 9\n9 7 6 2 1\n1 3 2 4 5\n8 6 4 4 1\n1 3 6 7 9",
    );
    assert_eq!(2, day2::part_1(&input).unwrap());
    assert_eq!(4, day2::part_2(&input).unwrap());
    assert!(day2::valid_report(&vec![7, 6, 4, 2, 1]));
    assert!(!day2::valid_report(&vec![1, 2, 7, 8, 9]));
    assert_eq!(None, day2::part_1(&String::from("1 two 3")));
}

#[test]
fn day3_parts() {
    let p1 = String::from("xmul(2,4)%&mul[3,7]!@^do_not_mul(5,5)+mul(32,64]hmm(mul(11,8)mul(8,5))");
    assert_eq!(161, day3::part_1(&p1));
    let p2 = String::from("xmul(2,4)&mul[3,7]!^don't()_mul(5,5)+mul(32,64](mul(11,8)undo()?mul(8,5))");
    assert_eq!(48, day3::part_2(&p2));
    assert_eq!(0, day3::part_1(&String::from("mul(1234,5)")));
}

#[test]
fn alphabet_superset_scenario() {
    // An equation solvable without concatenation stays solvable with it.
    let r_a = day7::solve(&190, Symbol::Constant(10), &[19], false);
    let r_b = day7::solve(&190, Symbol::Constant(10), &[19], true);
    assert!(r_a.is_some());
    assert!(r_b.is_some());
}

#[test]
fn concatenation_digit_scenarios() {
    let e = Symbol::Concatenate(
        Box::new(Symbol::Constant(15)),
        Box::new(Symbol::Constant(6)),
    );
    assert_eq!(Some(156), e.evaluate());
    let z = Symbol::Concatenate(
        Box::new(Symbol::Constant(4)),
        Box::new(Symbol::Constant(0)),
    );
    assert_eq!(Some(40), z.evaluate());
    let big = Symbol::Concatenate(
        Box::new(Symbol::Constant(u64::MAX)),
        Box::new(Symbol::Constant(1)),
    );
    assert_eq!(None, big.evaluate());
}

#[test]
fn sum_solvable_permutation_scenario() {
    let eqs = vec![
        CalibrationEquation { target: 190, operands: vec![10, 19] },
        CalibrationEquation { target: 3267, operands: vec![81, 40, 27] },
        CalibrationEquation { target: 83, operands: vec![17, 5] },
    ];
    let permuted = vec![
        CalibrationEquation { target: 83, operands: vec![17, 5] },
        CalibrationEquation { target: 190, operands: vec![10, 19] },
        CalibrationEquation { target: 3267, operands: vec![81, 40, 27] },
    ];
    assert_eq!(
        day7::sum_solvable(&eqs, false),
        day7::sum_solvable(&permuted, false)
    );
    assert_eq!(
        day7::sum_solvable(&eqs, true),
        day7::sum_solvable(&permuted, true)
    );
}

#[test]
fn solve_witness_scenarios() {
    // 190: 10 19 under the two-operator alphabet is 10 * 19.
    let found = day7::solve(&190, Symbol::Constant(10), &[19], false);
    let expected = Symbol::Multiply(
        Box::new(Symbol::Constant(10)),
        Box::new(Symbol::Constant(19)),
    );
    assert_eq!(Some(expected), found);
    // 83: 17 5 has no solution without concatenation.
    assert_eq!(None, day7::solve(&83, Symbol::Constant(17), &[5], false));
    // 156: 15 6 needs concatenation.
    let found_b = day7::solve(&156, Symbol::Constant(15), &[6], true);
    let expected_b = Symbol::Concatenate(
        Box::new(Symbol::Constant(15)),
        Box::new(Symbol::Constant(6)),
    );
    assert_eq!(Some(expected_b), found_b);
    assert_eq!(None, day7::solve(&156, Symbol::Constant(15), &[6], false));
}

#[test]
fn day7_parse_errors() {
    let eqs = day7::parse_input("190: 10 19\n\n83: 17 5").unwrap();
    assert_eq!(2, eqs.len());
    assert_eq!(190, eqs[0].target);
    assert_eq!(vec![10, 19], eqs[0].operands);

    let bad_token = day7::parse_input("190: 10 x9").unwrap_err();
    assert_eq!(0, bad_token.line);
    assert_eq!(b"x9".to_vec(), bad_token.token);

    let bad_shape = day7::parse_input("190: 10\n200 3 4").unwrap_err();
    assert_eq!(1, bad_shape.line);
    assert_eq!(b"200 3 4".to_vec(), bad_shape.token);

    let bad_target = day7::parse_input("99999999999999999999: 1 2").unwrap_err();
    assert_eq!(0, bad_target.line);
    assert_eq!(b"99999999999999999999".to_vec(), bad_target.token);

    assert_eq!(0, day7::parse_input("").unwrap().len());
}

#[test]
fn day7_evaluate_operators() {
    let add = Symbol::Add(Box::new(Symbol::Constant(17)), Box::new(Symbol::Constant(5)));
    assert_eq!(Some(22), add.evaluate());
    let mul = Symbol::Multiply(Box::new(Symbol::Constant(17)), Box::new(Symbol::Constant(5)));
    assert_eq!(Some(85), mul.evaluate());
    let over = Symbol::Add(
        Box::new(Symbol::Constant(u64::MAX)),
        Box::new(Symbol::Constant(1)),
    );
    assert_eq!(None, over.evaluate());
}
