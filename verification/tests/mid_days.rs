use solvers::day05;
use solvers::day06;
use solvers::day07;
use solvers::day08;

const DAY05_EXAMPLE: &str = "
    3-5
    10-14
    16-20
    12-18

    1
    17
    8
    11
    5
    32";

#[test]
fn day05_preparation() {
    let (fresh_ranges, ingredients) = day05::prepare(DAY05_EXAMPLE);
    assert_eq!(fresh_ranges, vec![(3, 5), (10, 14), (12, 18), (16, 20)]);
    assert_eq!(ingredients, vec![1, 5, 8, 11, 17, 32]);
}

#[test]
fn day05_example_part1() {
    assert_eq!(day05::solve_part1(DAY05_EXAMPLE), 3);
}

#[test]
fn day05_example_part2() {
    assert_eq!(day05::solve_part2(DAY05_EXAMPLE), 14u64);
}

const DAY06_EXAMPLE: &str = "123 328  51 64 \n 45 64  387 23 \n  6 98  215 314\n*   +   *   +  ";

#[test]
fn day06_example_part1() {
    assert_eq!(day06::solve_part1(DAY06_EXAMPLE), 4277556);
}

#[test]
fn day06_example_part2() {
    assert_eq!(day06::solve_part2(DAY06_EXAMPLE), 3263827);
}

const DAY07_EXAMPLE: &str = ".......S.......
...............
.......^.......
...............
......^.^......
...............
.....^.^.^.....
...............
....^.^...^....
...............
...^.^...^.^...
...............
..^...^.....^..
...............
.^.^.^.^.^...^.
...............";

#[test]
fn day07_example_part1() {
    assert_eq!(day07::solve_part1(DAY07_EXAMPLE), 21);
}

#[test]
fn day07_example_part2() {
    assert_eq!(day07::solve_part2(DAY07_EXAMPLE), 40);
}

const DAY08_EXAMPLE: &str = "
    162,817,812
    57,618,57
    906,360,560
    592,479,940
    352,342,300
    466,668,158
    542,29,236
    431,825,988
    739,650,466
    52,470,668
    216,146,977
    819,987,18
    117,168,530
    805,96,715
    346,949,466
    970,615,88
    941,993,340
    862,61,35
    984,92,344
    425,690,689";

#[test]
fn day08_example_part1() {
    assert_eq!(day08::solve_part1(DAY08_EXAMPLE, 10), 40);
}

#[test]
fn day08_example_part2() {
    assert_eq!(day08::solve_part2(DAY08_EXAMPLE), 25272);
}
