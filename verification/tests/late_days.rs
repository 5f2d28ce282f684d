use solvers::day09;
use solvers::day10;
use solvers::day10::InitProcedure;
use solvers::day11;
use solvers::day12;
use solvers::day12::Region;

const DAY09_EXAMPLE: &str = "
        7,1
        11,1
        11,7
        9,7
        9,5
        2,5
        2,3
        7,3";

#[test]
fn day09_example_part1() {
    assert_eq!(day09::solve_part1(DAY09_EXAMPLE), 50);
}

#[test]
fn day09_example_part2() {
    assert_eq!(day09::solve_part2(DAY09_EXAMPLE), 24);
}

const DAY10_EXAMPLE: &str = "
    [.##.] (3) (1,3) (2) (2,3) (0,2) (0,1) {3,5,4,7}
    [...#.] (0,2,3,4) (2,3) (0,4) (0,1,2) (1,2,3,4) {7,5,12,7,2}
    [.###.#] (0,1,2,3,4) (0,3,4) (0,1,2,4,5) (1,2) {10,11,11,5,10,5}";

#[test]
fn day10_preparation() {
    let inits = day10::prepare(DAY10_EXAMPLE);
    assert_eq!(
        inits[0],
        InitProcedure {
            required_indicator_lights: 6,
            toggle_buttons: vec![
                (1 << 3),
                (1 << 1) + (1 << 3),
                (1 << 2),
                (1 << 2) + (1 << 3),
                (1 << 0) + (1 << 2),
                (1 << 0) + (1 << 1)
            ],
            specified_joltage_levels: vec![3, 5, 4, 7]
        }
    );
    assert_eq!(inits[1].required_indicator_lights, 1u64 << 3);
    assert_eq!(
        inits[2].required_indicator_lights,
        (1 << 1) + (1 << 2) + (1 << 3) + (1 << 5)
    );
}

#[test]
fn day10_example_part1() {
    assert_eq!(day10::solve_part1(DAY10_EXAMPLE), 7);
}

#[test]
fn day10_example_part2() {
    assert_eq!(day10::solve_part2(DAY10_EXAMPLE), 33);
}

const DAY11_EXAMPLE: &str = "
    aaa: you hhh
    you: bbb ccc
    bbb: ddd eee
    ccc: ddd eee fff
    ddd: ggg
    eee: out
    fff: out
    ggg: out
    hhh: ccc fff iii
    iii: out";

#[test]
fn day11_example_part1() {
    assert_eq!(day11::solve_part1(DAY11_EXAMPLE), 5);
}

const DAY11_EXAMPLE_2: &str = "svr: aaa bbb
    aaa: fft
    fft: ccc
    bbb: tty
    tty: ccc
    ccc: ddd eee
    ddd: hub
    hub: fff
    eee: dac
    dac: fff
    fff: ggg hhh
    ggg: out
    hhh: out";

#[test]
fn day11_example_part2() {
    assert_eq!(day11::solve_part2(DAY11_EXAMPLE_2), 2);
}

const DAY12_EXAMPLE: &str = "
    0:
    ###
    ##.
    ##.

    1:
    ###
    ##.
    .##

    2:
    .##
    ###
    ##.

    3:
    ##.
    ###
    ##.

    4:
    ###
    #..
    ###

    5:
    ###
    .#.
    ###

    4x4: 0 0 0 0 2 0
    12x5: 1 0 1 0 2 2
    12x5: 1 0 1 0 3 2";

#[test]
fn day12_preparation() {
    let (_areas, regions) = day12::prepare(DAY12_EXAMPLE);
    assert_eq!(regions.len(), 3);
    assert_eq!(
        regions[0],
        Region {
            width: 4,
            height: 4,
            shapes: vec![0, 0, 0, 0, 2, 0]
        }
    );
    assert_eq!(
        regions[1],
        Region {
            width: 12,
            height: 5,
            shapes: vec![1, 0, 1, 0, 2, 2]
        }
    );
}
