use crate::grid::{concat_rows, Grid, Point};
use crate::solution::Solution;
use crate::text::tokens;
use crate::SolutionPair;
use vstd::prelude::*;

verus! {

#[derive(Copy, Clone, Debug, PartialEq, Eq, Structural)]
pub enum Cell {
    Free,
    Roll,
}

/// A paper roll stands at the given coordinates.
pub open spec fn roll_at(items: Seq<Cell>, lines: int, columns: int, r: int, c: int) -> bool {
    0 <= r < lines && 0 <= c < columns && items[r * columns + c] == Cell::Roll
}

/// How many of the eight surrounding cells hold a roll.
pub open spec fn adjacent_rolls(items: Seq<Cell>, lines: int, columns: int, r: int, c: int) -> int {
    bit(roll_at(items, lines, columns, r - 1, c - 1)) + bit(roll_at(items, lines, columns, r - 1, c))
        + bit(roll_at(items, lines, columns, r - 1, c + 1)) + bit(
        roll_at(items, lines, columns, r, c - 1),
    ) + bit(roll_at(items, lines, columns, r, c + 1)) + bit(
        roll_at(items, lines, columns, r + 1, c - 1),
    ) + bit(roll_at(items, lines, columns, r + 1, c)) + bit(
        roll_at(items, lines, columns, r + 1, c + 1),
    )
}

pub open spec fn bit(b: bool) -> int {
    if b {
        1
    } else {
        0
    }
}

/// A roll a forklift can take: a roll with fewer than four neighbors.
pub open spec fn accessible(items: Seq<Cell>, lines: int, columns: int, r: int, c: int) -> bool {
    roll_at(items, lines, columns, r, c) && adjacent_rolls(items, lines, columns, r, c) < 4
}

pub open spec fn accessible_idx(items: Seq<Cell>, lines: int, columns: int, idx: int) -> bool {
    accessible(items, lines, columns, idx / columns, idx % columns)
}

/// How many of the first `upto` cells hold an accessible roll.
pub open spec fn count_acc(items: Seq<Cell>, lines: int, columns: int, upto: int) -> int
    decreases upto,
{
    if upto <= 0 {
        0
    } else {
        count_acc(items, lines, columns, upto - 1) + bit(
            accessible_idx(items, lines, columns, upto - 1),
        )
    }
}

/// How many of the first `upto` cells hold a roll.
pub open spec fn count_rolls(items: Seq<Cell>, upto: int) -> int
    decreases upto,
{
    if upto <= 0 {
        0
    } else {
        count_rolls(items, upto - 1) + bit(items[upto - 1] == Cell::Roll)
    }
}

/// One sweep: every accessible roll is taken at once.
pub open spec fn sweep(items: Seq<Cell>, lines: int, columns: int) -> Seq<Cell> {
    Seq::new(
        items.len(),
        |i: int|
            if accessible_idx(items, lines, columns, i) {
                Cell::Free
            } else {
                items[i]
            },
    )
}

/// Sweeping only ever frees cells.
pub proof fn lemma_sweep_le(items: Seq<Cell>, lines: int, columns: int, upto: int)
    requires
        0 <= upto <= items.len(),
    ensures
        count_rolls(sweep(items, lines, columns), upto) <= count_rolls(items, upto),
    decreases upto,
{
    if upto > 0 {
        lemma_sweep_le(items, lines, columns, upto - 1);
    }
}

/// A sweep that takes some roll leaves strictly fewer rolls.
pub proof fn lemma_sweep_lt(items: Seq<Cell>, lines: int, columns: int, idx: int)
    requires
        0 <= idx < items.len(),
        accessible_idx(items, lines, columns, idx),
        items[idx] == Cell::Roll,
    ensures
        count_rolls(sweep(items, lines, columns), items.len() as int) < count_rolls(
            items,
            items.len() as int,
        ),
{
    lemma_count_suffix(items, lines, columns, idx + 1, items.len() as int);
}

/// From any point past the taken roll, the swept count stays strictly
/// behind.
pub proof fn lemma_count_suffix(items: Seq<Cell>, lines: int, columns: int, from: int, upto: int)
    requires
        1 <= from <= upto <= items.len(),
        accessible_idx(items, lines, columns, from - 1),
        items[from - 1] == Cell::Roll,
    ensures
        count_rolls(sweep(items, lines, columns), upto) < count_rolls(items, upto),
    decreases upto - from,
{
    if upto == from {
        lemma_sweep_le(items, lines, columns, from - 1);
        assert(sweep(items, lines, columns)[from - 1] == Cell::Free);
    } else {
        lemma_count_suffix(items, lines, columns, from, upto - 1);
    }
}

/// The fully cleared warehouse: sweeps repeat until no roll is accessible.
pub open spec fn clear_all(items: Seq<Cell>, lines: int, columns: int) -> Seq<Cell>
    decreases count_rolls(items, items.len() as int) + 1,
    via clear_all_decreases
{
    if exists|i: int| 0 <= i < items.len() && #[trigger] accessible_idx(items, lines, columns, i) {
        clear_all(sweep(items, lines, columns), lines, columns)
    } else {
        items
    }
}

#[via_fn]
proof fn clear_all_decreases(items: Seq<Cell>, lines: int, columns: int) {
    lemma_rolls_nonneg(items, items.len() as int);
    if exists|i: int| 0 <= i < items.len() && #[trigger] accessible_idx(items, lines, columns, i) {
        let i = choose|i: int|
            0 <= i < items.len() && #[trigger] accessible_idx(items, lines, columns, i);
        assert(roll_at(items, lines, columns, i / columns, i % columns));
        if 0 <= (i / columns) * columns + i % columns < items.len() && (i / columns) * columns + i
            % columns == i {
            lemma_sweep_lt(items, lines, columns, i);
        } else {
            assert(i == (i / columns) * columns + i % columns) by (nonlinear_arith)
                requires
                    columns != 0,
            ;
            lemma_sweep_lt(items, lines, columns, i);
        }
        lemma_rolls_nonneg(sweep(items, lines, columns), items.len() as int);
    }
}

pub proof fn lemma_rolls_nonneg(items: Seq<Cell>, upto: int)
    ensures
        count_rolls(items, upto) >= 0,
    decreases upto,
{
    if upto > 0 {
        lemma_rolls_nonneg(items, upto - 1);
    }
}

/// The parsed warehouse.
pub open spec fn cells_of(s: Seq<char>) -> Seq<Cell> {
    concat_rows(tokens(s)).map_values(
        |c: char|
            if c == '.' {
                Cell::Free
            } else {
                Cell::Roll
            },
    )
}

pub open spec fn input_wf(s: Seq<char>) -> bool {
    &&& tokens(s).len() >= 1
    &&& forall|i: int|
        0 <= i < tokens(s).len() ==> (#[trigger] tokens(s)[i]).len() == tokens(s)[0].len()
    &&& tokens(s)[0].len() >= 1
    &&& tokens(s).len() <= 100000
    &&& tokens(s)[0].len() <= 100000
    &&& forall|i: int, k: int|
        0 <= i < tokens(s).len() && 0 <= k < tokens(s)[i].len() ==> #[trigger] tokens(s)[i][k]
            == '.' || tokens(s)[i][k] == '@'
}

/// Parse the warehouse map.
pub fn prepare(input: &str) -> (g: Grid<Cell>)
    requires
        input_wf(input@),
    ensures
        g.wf(),
        g.lines == tokens(input@).len(),
        g.columns == tokens(input@)[0].len(),
        g.items@ == cells_of(input@),
{
    let chars_grid = Grid::new(input);
    let g = chars_grid.new_from(cell_of);
    proof {
        assert(g.items@ =~= cells_of(input@));
    }
    g
}

/// The cell a map character stands for.
fn cell_of(c: &char) -> (r: Cell)
    ensures
        r == (if *c == '.' {
            Cell::Free
        } else {
            Cell::Roll
        }),
{
    if *c == '.' {
        Cell::Free
    } else {
        Cell::Roll
    }
}

/// Whether a forklift can take the roll at the given position.
pub fn is_accessible_roll(map: &Grid<Cell>, pos: &Point) -> (r: bool)
    requires
        map.wf(),
        map.in_bounds(*pos),
    ensures
        r == accessible(
            map.items@,
            map.lines as int,
            map.columns as int,
            pos.0 as int,
            pos.1 as int,
        ),
{
    match *map.unchecked_get(pos) {
        Cell::Free => {
            return false;
        },
        Cell::Roll => {},
    }
    let mut count: u64 = 0;
    let ghost items = map.items@;
    let ghost gl = map.lines as int;
    let ghost gc = map.columns as int;
    let r0 = pos.0;
    let c0 = pos.1;
    count = count + probe(map, r0 - 1, c0 - 1);
    count = count + probe(map, r0 - 1, c0);
    count = count + probe(map, r0 - 1, c0 + 1);
    count = count + probe(map, r0, c0 - 1);
    count = count + probe(map, r0, c0 + 1);
    count = count + probe(map, r0 + 1, c0 - 1);
    count = count + probe(map, r0 + 1, c0);
    count = count + probe(map, r0 + 1, c0 + 1);
    proof {
        assert(count as int == adjacent_rolls(items, gl, gc, pos.0 as int, pos.1 as int));
    }
    count < 4
}

/// One if a roll stands at the coordinates, zero otherwise.
fn probe(map: &Grid<Cell>, r: i64, c: i64) -> (b: u64)
    requires
        map.wf(),
    ensures
        b as int == bit(roll_at(map.items@, map.lines as int, map.columns as int, r as int, c as int)),
        b <= 1,
{
    if r >= 0 && c >= 0 {
        match map.get(&Point(r, c)) {
            Some(cell) => {
                match *cell {
                    Cell::Roll => {
                        proof {
                            assert(map.idx_of(Point(r, c)) == (r as int) * (map.columns as int)
                                + c as int);
                        }
                        1
                    },
                    Cell::Free => 0,
                }
            },
            None => 0,
        }
    } else {
        0
    }
}

/// Count the rolls a forklift can take right away.
pub fn solve_part1(input: &str) -> (r: u64)
    requires
        input_wf(input@),
    ensures
        r as int == count_acc(
            cells_of(input@),
            tokens(input@).len() as int,
            tokens(input@)[0].len() as int,
            cells_of(input@).len() as int,
        ),
{
    let map = prepare(input);
    count_accessible(&map)
}

/// Count the accessible rolls of a warehouse.
fn count_accessible(map: &Grid<Cell>) -> (r: u64)
    requires
        map.wf(),
        map.columns >= 1,
        map.lines as int * map.columns as int == map.items@.len(),
    ensures
        r as int == count_acc(
            map.items@,
            map.lines as int,
            map.columns as int,
            map.items@.len() as int,
        ),
{
    let n = map.items.len();
    let mut count: u64 = 0;
    let mut idx: usize = 0;
    while idx < n
        invariant
            idx <= n == map.items@.len(),
            map.wf(),
            map.columns >= 1,
            count as int == count_acc(
                map.items@,
                map.lines as int,
                map.columns as int,
                idx as int,
            ),
            count <= idx,
        decreases n - idx,
    {
        proof {
            map.lemma_position_casts(idx);
        }
        let pos = map.unchecked_position(idx);
        proof {
            assert(map.idx_of(pos) == pos.0 as int * (map.columns as int) + pos.1 as int);
            assert(pos.0 as int == idx as int / (map.columns as int) && pos.1 as int == idx as int
                % (map.columns as int)) by (nonlinear_arith)
                requires
                    idx as int == pos.0 as int * (map.columns as int) + pos.1 as int,
                    0 <= pos.1 as int && (pos.1 as int) < (map.columns as int),
                    0 <= pos.0 as int,
            ;
        }
        if is_accessible_roll(map, &pos) {
            count = count + 1;
        }
        idx = idx + 1;
    }
    count
}

/// Sweep until no roll is accessible; the answer is how many rolls the
/// forklifts took.
pub fn solve_part2(input: &str) -> (r: usize)
    requires
        input_wf(input@),
    ensures
        r as int == count_rolls(cells_of(input@), cells_of(input@).len() as int) - count_rolls(
            clear_all(
                cells_of(input@),
                tokens(input@).len() as int,
                tokens(input@)[0].len() as int,
            ),
            cells_of(input@).len() as int,
        ),
{
    let mut map = prepare(input);
    let ghost items0 = cells_of(input@);
    let ghost gl = map.lines as int;
    let ghost gc = map.columns as int;
    let rolls_before = count_roll_cells(&map);
    proof {
        lemma_rolls_nonneg(items0, items0.len() as int);
    }
    let mut done = false;
    while !done
        invariant
            map.wf(),
            map.columns as int == gc >= 1,
            map.lines as int == gl,
            map.items@.len() == items0.len(),
            clear_all(items0, gl, gc) == clear_all(map.items@, gl, gc),
            count_rolls(map.items@, map.items@.len() as int) <= count_rolls(
                items0,
                items0.len() as int,
            ),
            count_rolls(map.items@, map.items@.len() as int) >= 0,
            done ==> clear_all(map.items@, gl, gc) == map.items@,
        decreases count_rolls(map.items@, map.items@.len() as int) + (if done {
            0int
        } else {
            1int
        }),
    {
        let n = map.items.len();
        let mut next: Vec<Cell> = Vec::new();
        let mut any = false;
        let mut idx: usize = 0;
        while idx < n
            invariant
                idx <= n == map.items@.len(),
                map.wf(),
                map.columns as int == gc >= 1,
                map.lines as int == gl,
                next@.len() == idx,
                forall|k: int|
                    0 <= k < idx ==> #[trigger] next@[k] == sweep(map.items@, gl, gc)[k],
                any == exists|k: int|
                    0 <= k < idx && #[trigger] accessible_idx(map.items@, gl, gc, k),
            decreases n - idx,
        {
            proof {
            map.lemma_position_casts(idx);
        }
        let pos = map.unchecked_position(idx);
            proof {
                assert(map.idx_of(pos) == pos.0 as int * gc + pos.1 as int);
                assert(pos.0 as int == idx as int / gc && pos.1 as int == idx as int % gc)
                    by (nonlinear_arith)
                    requires
                        idx as int == pos.0 as int * gc + pos.1 as int,
                        0 <= pos.1 as int && (pos.1 as int) < gc,
                        0 <= pos.0 as int,
                ;
            }
            if is_accessible_roll(&map, &pos) {
                next.push(Cell::Free);
                any = true;
                proof {
                    assert(accessible_idx(map.items@, gl, gc, idx as int));
                }
            } else {
                let cell = *map.unchecked_get(&pos);
                proof {
                    assert(map.idx_of(pos) == idx);
                }
                next.push(cell);
                proof {
                    assert(!accessible_idx(map.items@, gl, gc, idx as int));
                }
            }
            idx = idx + 1;
        }
        if !any {
            proof {
                assert(clear_all(map.items@, gl, gc) == map.items@);
                lemma_rolls_nonneg(map.items@, map.items@.len() as int);
            }
            done = true;
        } else {
            proof {
            assert(next@ =~= sweep(map.items@, gl, gc));
            let i = choose|k: int|
                0 <= k < map.items@.len() && #[trigger] accessible_idx(map.items@, gl, gc, k);
            assert(i == (i / gc) * gc + i % gc) by (nonlinear_arith)
                requires
                    gc != 0,
            ;
            assert(map.items@[i] == Cell::Roll);
            lemma_sweep_lt(map.items@, gl, gc, i);
            lemma_sweep_le(map.items@, gl, gc, map.items@.len() as int);
            assert(clear_all(map.items@, gl, gc) == clear_all(sweep(map.items@, gl, gc), gl, gc));
            assert(count_rolls(next@, next@.len() as int) < count_rolls(
                map.items@,
                map.items@.len() as int,
            ));
            lemma_rolls_nonneg(next@, next@.len() as int);
            }
            let lines = map.lines;
            let columns = map.columns;
            map = Grid { lines, columns, items: next };
        }
    }
    let rolls_after = count_roll_cells(&map);
    proof {
        lemma_rolls_le_len(map.items@, map.items@.len() as int);
        lemma_rolls_nonneg(map.items@, map.items@.len() as int);
    }
    rolls_before - rolls_after
}

/// Count the rolls standing in a warehouse.
fn count_roll_cells(map: &Grid<Cell>) -> (r: usize)
    requires
        map.wf(),
    ensures
        r as int == count_rolls(map.items@, map.items@.len() as int),
        r <= map.items@.len(),
{
    let n = map.items.len();
    let mut count: usize = 0;
    let mut idx: usize = 0;
    while idx < n
        invariant
            idx <= n == map.items@.len(),
            count as int == count_rolls(map.items@, idx as int),
            count <= idx,
        decreases n - idx,
    {
        match map.items[idx] {
            Cell::Roll => {
                count = count + 1;
            },
            Cell::Free => {},
        }
        idx = idx + 1;
    }
    count
}

/// The roll count never exceeds the cell count.
pub proof fn lemma_rolls_le_len(items: Seq<Cell>, upto: int)
    ensures
        count_rolls(items, upto) <= (if upto >= 0 {
            upto
        } else {
            0
        }),
    decreases upto,
{
    if upto > 0 {
        lemma_rolls_le_len(items, upto - 1);
    }
}

pub fn solve(input: String) -> (r: SolutionPair)
    requires
        input_wf(input@),
    ensures
        r.0 matches Solution::U64(a) && a as int == count_acc(
            cells_of(input@),
            tokens(input@).len() as int,
            tokens(input@)[0].len() as int,
            cells_of(input@).len() as int,
        ),
        r.1 matches Solution::Usize(b) && b as int == count_rolls(
            cells_of(input@),
            cells_of(input@).len() as int,
        ) - count_rolls(
            clear_all(
                cells_of(input@),
                tokens(input@).len() as int,
                tokens(input@)[0].len() as int,
            ),
            cells_of(input@).len() as int,
        ),
{
    let sol1 = solve_part1(&input);
    let sol2 = solve_part2(&input);
    (Solution::from(sol1), Solution::from(sol2))
}

/// Decide the condition the solvers assume of the input: a nonempty
/// rectangle of floor and roll marks, within the size caps.
pub fn input_ok(input: &str) -> (r: bool)
    ensures
        r == input_wf(input@),
{
    let chars = crate::text::chars_vec(input);
    let toks = crate::text::split_tokens(&chars);
    proof {
        assert(crate::text::views(toks@) == tokens(input@));
    }
    if toks.len() < 1 || toks.len() > 100000 {
        return false;
    }
    let width = toks[0].len();
    proof {
        assert(tokens(input@)[0] == toks@[0]@);
    }
    if width < 1 || width > 100000 {
        return false;
    }
    let mut i: usize = 0;
    while i < toks.len()
        invariant
            i <= toks@.len(),
            crate::text::views(toks@) == tokens(input@),
            1 <= toks@.len() == tokens(input@).len() <= 100000,
            width == tokens(input@)[0].len(),
            1 <= width <= 100000,
            forall|q: int|
                0 <= q < i ==> (#[trigger] tokens(input@)[q]).len() == tokens(input@)[0].len(),
            forall|q: int, k: int|
                0 <= q < i && 0 <= k < tokens(input@)[q].len() ==> #[trigger] tokens(
                    input@,
                )[q][k] == '.' || tokens(input@)[q][k] == '@',
        decreases toks@.len() - i,
    {
        let t = &toks[i];
        proof {
            assert(tokens(input@)[i as int] == toks@[i as int]@);
        }
        if t.len() != width {
            return false;
        }
        let mut k: usize = 0;
        while k < t.len()
            invariant
                k <= t@.len(),
                t@ == tokens(input@)[i as int],
                0 <= i < tokens(input@).len(),
                forall|q: int| 0 <= q < k ==> #[trigger] t@[q] == '.' || t@[q] == '@',
            decreases t@.len() - k,
        {
            let c = t[k];
            if !(c == '.' || c == '@') {
                return false;
            }
            k = k + 1;
        }
        i = i + 1;
    }
    true
}

} // verus!
