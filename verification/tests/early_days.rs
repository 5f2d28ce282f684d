use solvers::day01;
use solvers::day02;
use solvers::day03;
use solvers::day04;

const DAY01_EXAMPLE: &str = "
    L68
    L30
    R48
    L5
    R60
    L55
    L1
    L99
    R14
    L82";

#[test]
fn day01_preparation() {
    assert_eq!(
        day01::prepare(DAY01_EXAMPLE),
        vec![-68, -30, 48, -5, 60, -55, -1, -99, 14, -82]
    );
}

#[test]
fn day01_example_part1() {
    assert_eq!(day01::solve_part1(DAY01_EXAMPLE), 3);
}

#[test]
fn day01_example_part2() {
    assert_eq!(day01::solve_part2(DAY01_EXAMPLE), 6);
}

const DAY02_EXAMPLE: &str = "11-22,95-115,998-1012,1188511880-1188511890,222220-222224,1698522-1698528,446443-446449,38593856-38593862,565653-565659,824824821-824824827,2121212118-2121212124";

#[test]
fn day02_preparation() {
    assert_eq!(
        day02::prepare("11-22,95-115,998-1012"),
        vec![(11, 22), (95, 115), (998, 1012)]
    );
}

#[test]
fn repeat_twice() {
    assert_eq!(day02::pattern_repeats_twice(0), false);
    assert_eq!(day02::pattern_repeats_twice(1), false);
    assert_eq!(day02::pattern_repeats_twice(10), false);
    assert_eq!(day02::pattern_repeats_twice(11), true);
    assert_eq!(day02::pattern_repeats_twice(99), true);
    assert_eq!(day02::pattern_repeats_twice(101), false);
    assert_eq!(day02::pattern_repeats_twice(110), false);
    assert_eq!(day02::pattern_repeats_twice(1010), true);
    assert_eq!(day02::pattern_repeats_twice(1210), false);
    assert_eq!(day02::pattern_repeats_twice(12991299), true);
}

#[test]
fn day02_example_part1() {
    assert_eq!(day02::solve_part1(DAY02_EXAMPLE), 1227775554);
}

#[test]
fn repeat_k() {
    assert_eq!(day02::pattern_repeats_k(2, 0), false);
    assert_eq!(day02::pattern_repeats_k(2, 1), false);
    assert_eq!(day02::pattern_repeats_k(2, 10), false);
    assert_eq!(day02::pattern_repeats_k(2, 11), true);
    assert_eq!(day02::pattern_repeats_k(2, 99), true);
    assert_eq!(day02::pattern_repeats_k(2, 101), false);
    assert_eq!(day02::pattern_repeats_k(2, 110), false);
    assert_eq!(day02::pattern_repeats_k(2, 1010), true);
    assert_eq!(day02::pattern_repeats_k(2, 1210), false);
    assert_eq!(day02::pattern_repeats_k(2, 12991299), true);

    assert!(day02::pattern_repeats_k(1, 99));
    assert!(day02::pattern_repeats_k(2, 99));
    assert!(!day02::pattern_repeats_k(3, 99));

    assert!(day02::pattern_repeats_k(1, 111));
    assert!(!day02::pattern_repeats_k(2, 111));
    assert!(day02::pattern_repeats_k(3, 111));

    assert!(day02::pattern_repeats_k(1, 222222));
    assert!(day02::pattern_repeats_k(2, 222222));
    assert!(day02::pattern_repeats_k(3, 222222));
    assert!(day02::pattern_repeats_k(6, 222222));

    assert!(!day02::pattern_repeats_k(2, 565656));
    assert!(day02::pattern_repeats_k(3, 565656));
    assert!(!day02::pattern_repeats_k(4, 565656));
}

#[test]
fn day02_example_part2() {
    assert_eq!(day02::solve_part2(DAY02_EXAMPLE), 4174379265u64);
}

const DAY03_EXAMPLE: &str = "
    987654321111111
    811111111111119
    234234234234278
    818181911112111";

#[test]
fn day03_example_part1() {
    assert_eq!(day03::solve_part1(DAY03_EXAMPLE), 357);
}

#[test]
fn day03_example_part2() {
    assert_eq!(day03::solve_part2(DAY03_EXAMPLE), 3121910778619);
}

const DAY04_EXAMPLE: &str = "
    ..@@.@@@@.
    @@@.@.@.@@
    @@@@@.@.@@
    @.@@@@..@.
    @@.@@@@.@@
    .@@@@@@@.@
    .@.@.@.@@@
    @.@@@.@@@@
    .@@@@@@@@.
    @.@.@@@.@.";

#[test]
fn day04_example_part1() {
    assert_eq!(day04::solve_part1(DAY04_EXAMPLE), 13);
}

#[test]
fn day04_example_part2() {
    assert_eq!(day04::solve_part2(DAY04_EXAMPLE), 43);
}

#[test]
fn input_ok_accepts_and_rejects() {
    assert!(solvers::day01::input_ok("L10 R5"));
    assert!(!solvers::day01::input_ok("X10"));
    assert!(!solvers::day01::input_ok("L"));
    assert!(solvers::day03::input_ok("123456789012 987654321098"));
    assert!(!solvers::day03::input_ok("12345"));
    assert!(solvers::day04::input_ok("..@\n@.."));
    assert!(!solvers::day04::input_ok("..@\n@."));
    assert!(solvers::day08::input_ok("1,2,3 4,5,6"));
    assert!(!solvers::day08::input_ok("1,2"));
    assert!(solvers::day09::input_ok("1,2 3,-4"));
    assert!(!solvers::day09::input_ok("a,b"));
    assert!(solvers::day11::input_ok("aaa: bbb ccc\nbbb: ccc"));
    assert!(!solvers::day11::input_ok("aaa bbb"));
}
