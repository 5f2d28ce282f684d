use crate::text::{chars_vec, split_tokens, tokens, views};
use vstd::prelude::*;

verus! {

/// A 2D grid, where coordinates are expressed as a couple `(line, column)`.
///
/// The origin `(0,0)` is the top-left-most item.
/// The bottom-right-most item is at coordinates (height-1, width-1).
#[derive(Clone)]
pub struct Grid<T = char> {
    pub lines: usize,
    pub columns: usize,
    pub items: Vec<T>,
}

#[derive(Debug, Clone, Copy, PartialEq, Eq, Structural, Hash)]
pub struct Point(pub i64, pub i64);

impl Point {
    pub fn is_identity(&self) -> (r: bool)
        ensures
            r == (self.0 == 0 && self.1 == 0),
    {
        self.0 == 0 && self.1 == 0
    }

    pub fn north() -> (r: Point)
        ensures
            r == Point(-1int as i64, 0),
    {
        Point(-1, 0)
    }

    pub fn east() -> (r: Point)
        ensures
            r == Point(0, 1),
    {
        Point(0, 1)
    }

    pub fn south() -> (r: Point)
        ensures
            r == Point(1, 0),
    {
        Point(1, 0)
    }

    pub fn west() -> (r: Point)
        ensures
            r == Point(0, -1int as i64),
    {
        Point(0, -1)
    }

    pub fn rotate_90_clockwise(&self) -> (r: Self)
        requires
            self.0 > i64::MIN,
        ensures
            r.0 == self.1 && r.1 == -self.0,
    {
        Point(self.1, -self.0)
    }

    pub fn rotate_90_counterclockwise(&self) -> (r: Self)
        requires
            self.1 > i64::MIN,
        ensures
            r.0 == -self.1 && r.1 == self.0,
    {
        Point(-self.1, self.0)
    }

    pub fn rotate_180(&self) -> (r: Self)
        requires
            self.0 > i64::MIN,
            self.1 > i64::MIN,
        ensures
            r.0 == -self.0 && r.1 == -self.1,
    {
        Point(-self.0, -self.1)
    }

    /// Componentwise sum of two points.
    pub fn add(&self, other: &Self) -> (r: Self)
        requires
            i64::MIN <= self.0 + other.0 <= i64::MAX,
            i64::MIN <= self.1 + other.1 <= i64::MAX,
        ensures
            r.0 == self.0 + other.0 && r.1 == self.1 + other.1,
    {
        Point(self.0 + other.0, self.1 + other.1)
    }

    /// Componentwise difference of two points.
    pub fn sub(&self, other: &Self) -> (r: Self)
        requires
            i64::MIN <= self.0 - other.0 <= i64::MAX,
            i64::MIN <= self.1 - other.1 <= i64::MAX,
        ensures
            r.0 == self.0 - other.0 && r.1 == self.1 - other.1,
    {
        Point(self.0 - other.0, self.1 - other.1)
    }

    /// Both components scaled by a factor.
    pub fn scale(&self, k: i64) -> (r: Self)
        requires
            i64::MIN <= self.0 * k <= i64::MAX,
            i64::MIN <= self.1 * k <= i64::MAX,
        ensures
            r.0 == self.0 * k && r.1 == self.1 * k,
    {
        let a = self.0.checked_mul(k).unwrap();
        let b = self.1.checked_mul(k).unwrap();
        Point(a, b)
    }

    /// Return the taxicab distance to the other point.
    pub fn taxicab_distance(&self, other: &Self) -> (r: u64)
        requires
            vstd::math::abs(self.0 - other.0) + vstd::math::abs(self.1 - other.1) <= u64::MAX,
        ensures
            r == vstd::math::abs(self.0 - other.0) + vstd::math::abs(self.1 - other.1),
    {
        let dx: u64 = if self.0 >= other.0 {
            (self.0 as i128 - other.0 as i128) as u64
        } else {
            (other.0 as i128 - self.0 as i128) as u64
        };
        let dy: u64 = if self.1 >= other.1 {
            (self.1 as i128 - other.1 as i128) as u64
        } else {
            (other.1 as i128 - self.1 as i128) as u64
        };
        dx + dy
    }
}

/// The rows of a grid laid out one after another, top row first.
pub open spec fn concat_rows(rows: Seq<Seq<char>>) -> Seq<char>
    decreases rows.len(),
{
    if rows.len() == 0 {
        Seq::empty()
    } else {
        concat_rows(rows.drop_last()) + rows.last()
    }
}

pub proof fn lemma_concat_rows_uniform(rows: Seq<Seq<char>>, m: nat)
    requires
        forall|i: int| 0 <= i < rows.len() ==> (#[trigger] rows[i]).len() == m,
    ensures
        concat_rows(rows).len() == rows.len() * m,
        forall|i: int, j: int|
            0 <= i < rows.len() && 0 <= j < m ==> concat_rows(rows)[i * m + j] == rows[i][j],
    decreases rows.len(),
{
    if rows.len() > 0 {
        let head = rows.drop_last();
        assert(forall|i: int| 0 <= i < head.len() ==> (#[trigger] head[i]).len() == m);
        lemma_concat_rows_uniform(head, m);
        assert(concat_rows(rows).len() == rows.len() * m) by (nonlinear_arith)
            requires
                concat_rows(rows).len() == concat_rows(head).len() + rows.last().len(),
                concat_rows(head).len() == head.len() * m,
                head.len() == rows.len() - 1,
                rows.last().len() == m,
        ;
        assert forall|i: int, j: int| 0 <= i < rows.len() && 0 <= j < m implies concat_rows(
            rows,
        )[i * m + j] == rows[i][j] by {
            if i < rows.len() - 1 {
                assert(i * m + j < (rows.len() - 1) * m) by (nonlinear_arith)
                    requires
                        0 <= i < rows.len() - 1,
                        0 <= j < m,
                ;
                assert(concat_rows(rows)[i * m + j] == concat_rows(head)[i * m + j]);
                assert(head[i] == rows[i]);
            } else {
                assert(i == rows.len() - 1);
                assert(i * m + j == concat_rows(head).len() + j) by (nonlinear_arith)
                    requires
                        concat_rows(head).len() == (rows.len() - 1) * m,
                        i == rows.len() - 1,
                ;
                assert(concat_rows(rows)[i * m + j] == rows.last()[j]);
            }
        }
    }
}

impl<T> Grid<T> {
    /// The shape bookkeeping every method relies on.
    pub open spec fn wf(&self) -> bool {
        &&& self.items@.len() == self.lines * self.columns
        &&& self.lines <= i64::MAX
        &&& self.columns <= i64::MAX
    }

    /// Whether a point denotes a cell of this grid.
    pub open spec fn in_bounds(&self, pos: Point) -> bool {
        0 <= pos.0 < self.lines && 0 <= pos.1 < self.columns
    }

    /// The row-major cell index of a point.
    pub open spec fn idx_of(&self, pos: Point) -> int {
        pos.0 * self.columns + pos.1
    }

    pub proof fn lemma_idx_of_in_bounds(&self, pos: Point)
        requires
            self.wf(),
            self.in_bounds(pos),
        ensures
            0 <= self.idx_of(pos) < self.items@.len(),
    {
        assert(0 <= pos.0 * self.columns + pos.1 < self.lines * self.columns) by (nonlinear_arith)
            requires
                0 <= pos.0 < self.lines,
                0 <= pos.1 < self.columns,
        ;
    }

    pub fn valid_position(&self, pos: &Point) -> (r: bool)
        requires
            self.wf(),
        ensures
            r == self.in_bounds(*pos),
    {
        pos.0 >= 0 && pos.0 < (self.lines as i64) && pos.1 >= 0 && pos.1 < (self.columns as i64)
    }

    pub fn valid_coordinates(&self, line: usize, column: usize) -> (r: bool)
        ensures
            r == (line < self.lines && column < self.columns),
    {
        line < self.lines && column < self.columns
    }

    pub fn valid_index(&self, index: usize) -> (r: bool)
        ensures
            r == (index < self.items@.len()),
    {
        index < self.items.len()
    }

    /// Return the number of cells.
    pub fn size(&self) -> (r: usize)
        requires
            self.wf(),
        ensures
            r == self.items@.len(),
    {
        let n = self.items.len();
        proof {
            assert(self.lines * self.columns == n);
        }
        self.lines * self.columns
    }

    /// Unchecked conversion from cell index to point.
    pub fn unchecked_position(&self, index: usize) -> (r: Point)
        requires
            self.columns > 0,
            index as int / self.columns as int <= i64::MAX,
            index as int % self.columns as int <= i64::MAX,
        ensures
            r == Point((index as int / self.columns as int) as i64, (index as int
                % self.columns as int) as i64),
            self.wf() && index < self.items@.len() ==> self.in_bounds(r) && self.idx_of(r)
                == index,
    {
        proof {
            if self.wf() && index < self.items@.len() {
                assert((index as int / self.columns as int) < self.lines as int && (index as int
                    / self.columns as int) * (self.columns as int) + (index as int
                    % self.columns as int) == index as int) by (nonlinear_arith)
                    requires
                        self.columns > 0,
                        index < self.lines * self.columns,
                ;
            }
            assert(0 <= index as int % self.columns as int && (index as int
                % self.columns as int) < self.columns as int) by (nonlinear_arith)
                requires
                    self.columns > 0,
            ;
        }
        Point((index / self.columns) as i64, (index % self.columns) as i64)
    }

    /// The division and remainder of a cell index fit the coordinate type
    /// whenever the index is in range of a well-formed grid.
    pub proof fn lemma_position_casts(&self, index: usize)
        requires
            self.wf(),
            self.columns > 0,
            index < self.items@.len(),
        ensures
            index as int / self.columns as int <= i64::MAX,
            index as int % self.columns as int <= i64::MAX,
    {
        assert((index as int / self.columns as int) < self.lines as int && 0 <= index as int
            % self.columns as int && (index as int % self.columns as int)
            < self.columns as int) by (nonlinear_arith)
            requires
                self.columns > 0,
                index < self.lines * self.columns,
        ;
    }

    pub fn checked_position(&self, index: usize) -> (r: Option<Point>)
        requires
            self.wf(),
        ensures
            match r {
                Some(p) => index < self.items@.len() && self.in_bounds(p) && self.idx_of(p)
                    == index,
                None => index >= self.items@.len(),
            },
    {
        if self.valid_index(index) {
            proof {
                assert(self.columns > 0) by (nonlinear_arith)
                    requires
                        index < self.lines * self.columns,
                ;
                self.lemma_position_casts(index);
            }
            Some(self.unchecked_position(index))
        } else {
            None
        }
    }

    pub fn strict_position(&self, index: usize) -> (r: Point)
        requires
            self.wf(),
            index < self.items@.len(),
        ensures
            self.in_bounds(r) && self.idx_of(r) == index,
    {
        proof {
            assert(self.columns > 0) by (nonlinear_arith)
                requires
                    index < self.lines * self.columns,
            ;
            self.lemma_position_casts(index);
        }
        self.unchecked_position(index)
    }

    pub fn unchecked_index(&self, pos: &Point) -> (r: usize)
        requires
            self.wf(),
            self.in_bounds(*pos),
        ensures
            r == self.idx_of(*pos),
            r < self.items@.len(),
    {
        let n = self.items.len();
        proof {
            self.lemma_idx_of_in_bounds(*pos);
            assert(0 <= (self.columns as int) * (pos.0 as int) && (self.columns as int) * (
            pos.0 as int) + (pos.1 as int) < n as int && (self.columns as int) * (pos.0 as int)
                + (pos.1 as int) == self.idx_of(*pos)) by (nonlinear_arith)
                requires
                    0 <= pos.0 < self.lines as int,
                    0 <= pos.1 < self.columns as int,
                    n as int == (self.lines as int) * (self.columns as int),
            ;
        }
        self.columns * (pos.0 as usize) + (pos.1 as usize)
    }

    pub fn checked_index(&self, pos: &Point) -> (r: Option<usize>)
        requires
            self.wf(),
        ensures
            match r {
                Some(i) => self.in_bounds(*pos) && i == self.idx_of(*pos) && i
                    < self.items@.len(),
                None => !self.in_bounds(*pos),
            },
    {
        if self.valid_position(pos) {
            Some(self.unchecked_index(pos))
        } else {
            None
        }
    }

    pub fn strict_index(&self, pos: &Point) -> (r: usize)
        requires
            self.wf(),
            self.in_bounds(*pos),
        ensures
            r == self.idx_of(*pos),
            r < self.items@.len(),
    {
        self.unchecked_index(pos)
    }

    /// Retrieve value at given line and column coordinates.
    pub fn at(&self, line: usize, column: usize) -> (r: Option<&T>)
        requires
            self.wf(),
        ensures
            match r {
                Some(v) => line < self.lines && column < self.columns && *v == self.items@[line
                    * self.columns + column],
                None => !(line < self.lines && column < self.columns),
            },
    {
        if self.valid_coordinates(line, column) {
            let n = self.items.len();
            proof {
                assert(line * self.columns + column < n) by (nonlinear_arith)
                    requires
                        line < self.lines,
                        column < self.columns,
                        n == self.lines * self.columns,
                ;
            }
            let index = line * self.columns + column;
            Some(&self.items[index])
        } else {
            None
        }
    }

    /// Retrieve value at given point.
    pub fn get(&self, pos: &Point) -> (r: Option<&T>)
        requires
            self.wf(),
        ensures
            match r {
                Some(v) => self.in_bounds(*pos) && *v == self.items@[self.idx_of(*pos)],
                None => !self.in_bounds(*pos),
            },
    {
        match self.checked_index(pos) {
            Some(index) => Some(&self.items[index]),
            None => None,
        }
    }

    pub fn strict_get(&self, pos: &Point) -> (r: &T)
        requires
            self.wf(),
            self.in_bounds(*pos),
        ensures
            *r == self.items@[self.idx_of(*pos)],
    {
        let index = self.strict_index(pos);
        &self.items[index]
    }

    pub fn unchecked_get(&self, pos: &Point) -> (r: &T)
        requires
            self.wf(),
            self.in_bounds(*pos),
        ensures
            *r == self.items@[self.idx_of(*pos)],
    {
        let index = self.unchecked_index(pos);
        &self.items[index]
    }

    pub fn set_at(&mut self, index: usize, val: T)
        requires
            old(self).wf(),
            index < old(self).items@.len(),
        ensures
            final(self).lines == old(self).lines,
            final(self).columns == old(self).columns,
            final(self).items@ == old(self).items@.update(index as int, val),
            final(self).wf(),
    {
        self.items.set(index, val);
    }

    pub fn step(&self, origin: &Point, delta: &Point) -> (r: Option<Point>)
        requires
            self.wf(),
            i64::MIN <= origin.0 + delta.0 <= i64::MAX,
            i64::MIN <= origin.1 + delta.1 <= i64::MAX,
        ensures
            match r {
                Some(p) => p.0 == origin.0 + delta.0 && p.1 == origin.1 + delta.1
                    && self.in_bounds(p),
                None => !self.in_bounds(Point((origin.0 + delta.0) as i64, (origin.1 + delta.1)
                    as i64)),
            },
    {
        let point = origin.add(delta);
        if self.valid_position(&point) {
            Some(point)
        } else {
            None
        }
    }
}

impl<T> Grid<T> {
    pub fn iter(&self) -> (r: &Vec<T>)
        ensures
            r@ == self.items@,
    {
        &self.items
    }

    /// Search for an element, returning its position.
    pub fn position<P: Fn(&T) -> bool>(&self, predicate: P) -> (r: Option<Point>)
        requires
            self.wf(),
            forall|t: &T| #[trigger] call_requires(predicate, (t,)),
        ensures
            match r {
                Some(p) => self.in_bounds(p) && call_ensures(
                    predicate,
                    (&self.items@[self.idx_of(p)],),
                    true,
                ) && forall|j: int|
                    0 <= j < self.idx_of(p) ==> call_ensures(
                        predicate,
                        (&self.items@[j],),
                        false,
                    ),
                None => forall|j: int|
                    0 <= j < self.items@.len() ==> call_ensures(
                        predicate,
                        (&self.items@[j],),
                        false,
                    ),
            },
    {
        let n = self.items.len();
        let mut i: usize = 0;
        while i < n
            invariant
                self.wf(),
                n == self.items@.len(),
                i <= n,
                forall|t: &T| #[trigger] call_requires(predicate, (t,)),
                forall|j: int| 0 <= j < i ==> call_ensures(predicate, (&self.items@[j],), false),
            decreases n - i,
        {
            if predicate(&self.items[i]) {
                proof {
                    assert(self.columns > 0) by (nonlinear_arith)
                        requires
                            i < self.lines * self.columns,
                    ;
                }
                proof {
                    self.lemma_position_casts(i);
                }
                return Some(self.unchecked_position(i));
            }
            i = i + 1;
        }
        None
    }

    /// Search for an element.
    pub fn find<P: Fn(&T) -> bool>(&self, predicate: P) -> (r: Option<&T>)
        requires
            forall|t: &T| #[trigger] call_requires(predicate, (t,)),
        ensures
            match r {
                Some(v) => exists|i: int|
                    0 <= i < self.items@.len() && *v == #[trigger] self.items@[i] && call_ensures(
                        predicate,
                        (&self.items@[i],),
                        true,
                    ) && forall|j: int|
                        0 <= j < i ==> call_ensures(predicate, (&self.items@[j],), false),
                None => forall|j: int|
                    0 <= j < self.items@.len() ==> call_ensures(
                        predicate,
                        (&self.items@[j],),
                        false,
                    ),
            },
    {
        let n = self.items.len();
        let mut i: usize = 0;
        while i < n
            invariant
                n == self.items@.len(),
                i <= n,
                forall|t: &T| #[trigger] call_requires(predicate, (t,)),
                forall|j: int| 0 <= j < i ==> call_ensures(predicate, (&self.items@[j],), false),
            decreases n - i,
        {
            if predicate(&self.items[i]) {
                return Some(&self.items[i]);
            }
            i = i + 1;
        }
        None
    }

    pub fn for_each_with_position<F: Fn(Point, &T)>(&self, f: F)
        requires
            self.wf(),
            forall|p: Point, t: &T| #[trigger] call_requires(f, (p, t)),
    {
        let n = self.items.len();
        let mut i: usize = 0;
        while i < n
            invariant
                self.wf(),
                n == self.items@.len(),
                i <= n,
                forall|p: Point, t: &T| #[trigger] call_requires(f, (p, t)),
            decreases n - i,
        {
            proof {
                assert(self.columns > 0) by (nonlinear_arith)
                    requires
                        i < self.lines * self.columns,
                ;
            }
            proof {
                self.lemma_position_casts(i);
            }
            f(self.unchecked_position(i), &self.items[i]);
            i = i + 1;
        }
    }

    pub fn for_each_with_index<F: Fn(usize, &T)>(&self, f: F)
        requires
            forall|i: usize, t: &T| #[trigger] call_requires(f, (i, t)),
    {
        let n = self.items.len();
        let mut i: usize = 0;
        while i < n
            invariant
                n == self.items@.len(),
                i <= n,
                forall|k: usize, t: &T| #[trigger] call_requires(f, (k, t)),
            decreases n - i,
        {
            f(i, &self.items[i]);
            i = i + 1;
        }
    }

    pub fn for_each_neighbour<F: Fn(Point, &T)>(&self, origin: &Point, f: F)
        requires
            self.wf(),
            self.in_bounds(*origin),
            forall|p: Point, t: &T| #[trigger] call_requires(f, (p, t)),
    {
        let deltas = [Point::north(), Point::east(), Point::south(), Point::west()];
        let mut k: usize = 0;
        while k < 4
            invariant
                self.wf(),
                self.in_bounds(*origin),
                forall|p: Point, t: &T| #[trigger] call_requires(f, (p, t)),
                forall|d: int|
                    0 <= d < 4 ==> -1 <= (#[trigger] deltas@[d]).0 <= 1 && -1 <= deltas@[d].1
                        <= 1,
            decreases 4 - k,
        {
            let delta = deltas[k];
            if let Some(pos) = self.step(origin, &delta) {
                f(pos, self.unchecked_get(&pos));
            }
            k = k + 1;
        }
    }

    pub fn new_from<B, F: Fn(&T) -> B>(&self, f: F) -> (r: Grid<B>)
        requires
            self.wf(),
            forall|t: &T| #[trigger] call_requires(f, (t,)),
        ensures
            r.wf(),
            r.lines == self.lines,
            r.columns == self.columns,
            r.items@.len() == self.items@.len(),
            forall|i: int|
                0 <= i < self.items@.len() ==> call_ensures(
                    f,
                    (&self.items@[i],),
                    #[trigger] r.items@[i],
                ),
    {
        let n = self.items.len();
        let mut items: Vec<B> = Vec::new();
        let mut i: usize = 0;
        while i < n
            invariant
                n == self.items@.len(),
                i <= n,
                items@.len() == i,
                forall|t: &T| #[trigger] call_requires(f, (t,)),
                forall|j: int|
                    0 <= j < i ==> call_ensures(f, (&self.items@[j],), #[trigger] items@[j]),
            decreases n - i,
        {
            items.push(f(&self.items[i]));
            i = i + 1;
        }
        Grid { lines: self.lines, columns: self.columns, items }
    }

    /// Replace each cell by the image of its old value.
    pub fn update_each<F: Fn(&T) -> T>(&mut self, f: F)
        requires
            forall|t: &T| #[trigger] call_requires(f, (t,)),
        ensures
            final(self).lines == old(self).lines,
            final(self).columns == old(self).columns,
            final(self).items@.len() == old(self).items@.len(),
            forall|i: int|
                0 <= i < old(self).items@.len() ==> call_ensures(
                    f,
                    (&old(self).items@[i],),
                    #[trigger] final(self).items@[i],
                ),
    {
        let n = self.items.len();
        let mut i: usize = 0;
        while i < n
            invariant
                n == old(self).items@.len(),
                i <= n,
                self.lines == old(self).lines,
                self.columns == old(self).columns,
                self.items@.len() == old(self).items@.len(),
                forall|t: &T| #[trigger] call_requires(f, (t,)),
                forall|j: int| i <= j < n ==> self.items@[j] == old(self).items@[j],
                forall|j: int|
                    0 <= j < i ==> call_ensures(
                        f,
                        (&old(self).items@[j],),
                        #[trigger] self.items@[j],
                    ),
            decreases n - i,
        {
            let v = f(&self.items[i]);
            self.items.set(i, v);
            i = i + 1;
        }
    }
}

/// The cell reached from `origin` after `i` steps of `delta`, when the
/// arithmetic stays within the signed 64-bit range.
pub open spec fn ray_point(origin: Point, delta: Point, i: int) -> Point {
    Point((origin.0 + delta.0 * i) as i64, (origin.1 + delta.1 * i) as i64)
}

impl<T> Grid<T> where T: Default {
    pub fn default(lines: usize, columns: usize) -> (r: Self)
        requires
            lines * columns <= usize::MAX,
            lines <= i64::MAX,
            columns <= i64::MAX,
        ensures
            r.wf(),
            r.lines == lines,
            r.columns == columns,
    {
        let n = lines * columns;
        let mut items: Vec<T> = Vec::new();
        let mut i: usize = 0;
        while i < n
            invariant
                i <= n,
                items@.len() == i,
            decreases n - i,
        {
            items.push(T::default());
            i = i + 1;
        }
        Grid { lines, columns, items }
    }
}

impl<T> Grid<T> where T: Default + Copy {
    /// Extract N items by applying the given step N-1 times starting from the
    /// given origin position.
    ///
    /// Return `None` if any generated coordinates is outside the grid's
    /// boundaries.
    pub fn step_extract<const N: usize>(&self, origin: &Point, step: &Point) -> (r: Option<
        Vec<T>,
    >)
        requires
            self.wf(),
            N <= i64::MAX,
            forall|i: int|
                0 <= i < N ==> i64::MIN <= (#[trigger] ray_point(*origin, *step, i)).0
                    == origin.0 + step.0 * i <= i64::MAX && i64::MIN <= ray_point(
                    *origin,
                    *step,
                    i,
                ).1 == origin.1 + step.1 * i <= i64::MAX && i64::MIN <= step.0 * i <= i64::MAX
                    && i64::MIN <= step.1 * i <= i64::MAX,
        ensures
            match r {
                Some(v) => v@.len() == N && forall|i: int|
                    0 <= i < N ==> self.in_bounds(#[trigger] ray_point(*origin, *step, i))
                        && v@[i] == self.items@[self.idx_of(ray_point(*origin, *step, i))],
                None => exists|i: int|
                    0 <= i < N && !self.in_bounds(#[trigger] ray_point(*origin, *step, i)),
            },
    {
        let mut items: Vec<T> = Vec::new();
        let mut i: usize = 0;
        while i < N
            invariant
                self.wf(),
                N <= i64::MAX,
                i <= N,
                items@.len() == i,
                forall|k: int|
                    0 <= k < N ==> i64::MIN <= (#[trigger] ray_point(*origin, *step, k)).0
                        == origin.0 + step.0 * k <= i64::MAX && i64::MIN <= ray_point(
                        *origin,
                        *step,
                        k,
                    ).1 == origin.1 + step.1 * k <= i64::MAX && i64::MIN <= step.0 * k
                        <= i64::MAX && i64::MIN <= step.1 * k <= i64::MAX,
                forall|k: int|
                    0 <= k < i ==> self.in_bounds(#[trigger] ray_point(*origin, *step, k))
                        && items@[k] == self.items@[self.idx_of(ray_point(*origin, *step, k))],
            decreases N - i,
        {
            proof {
                assert(ray_point(*origin, *step, i as int).0 == origin.0 + step.0 * (i as int));
            }
            let displacement = step.scale(i as i64);
            let point = origin.add(&displacement);
            proof {
                assert(point == ray_point(*origin, *step, i as int));
            }
            if self.valid_position(&point) {
                let item = *self.strict_get(&point);
                items.push(item);
            } else {
                return None;
            }
            i = i + 1;
        }
        Some(items)
    }

    /// Extract N items by applying the given deltas to the given origin.
    ///
    /// Return `None` if any generated coordinates is outside the grid's
    /// boundaries.
    pub fn deltas_extract<const N: usize>(&self, origin: &Point, deltas: [Point; N]) -> (r:
        Option<Vec<T>>)
        requires
            self.wf(),
            forall|i: int|
                0 <= i < N ==> i64::MIN <= origin.0 + (#[trigger] deltas@[i]).0 <= i64::MAX
                    && i64::MIN <= origin.1 + deltas@[i].1 <= i64::MAX,
        ensures
            match r {
                Some(v) => v@.len() == N && forall|i: int|
                    0 <= i < N ==> self.in_bounds(#[trigger] ray_point(*origin, deltas@[i], 1))
                        && v@[i] == self.items@[self.idx_of(ray_point(*origin, deltas@[i], 1))],
                None => exists|i: int|
                    0 <= i < N && !self.in_bounds(#[trigger] ray_point(*origin, deltas@[i], 1)),
            },
    {
        let mut items: Vec<T> = Vec::new();
        let mut i: usize = 0;
        while i < N
            invariant
                self.wf(),
                i <= N,
                items@.len() == i,
                forall|k: int|
                    0 <= k < N ==> i64::MIN <= origin.0 + (#[trigger] deltas@[k]).0 <= i64::MAX
                        && i64::MIN <= origin.1 + deltas@[k].1 <= i64::MAX,
                forall|k: int|
                    0 <= k < i ==> self.in_bounds(#[trigger] ray_point(*origin, deltas@[k], 1))
                        && items@[k] == self.items@[self.idx_of(
                        ray_point(*origin, deltas@[k], 1),
                    )],
            decreases N - i,
        {
            proof {
                assert(ray_point(*origin, deltas@[i as int], 1).0 == origin.0 + deltas@[i as int].0);
            }
            let d = deltas[i];
            let pos = origin.add(&d);
            proof {
                assert(pos == ray_point(*origin, deltas@[i as int], 1));
            }
            if self.valid_position(&pos) {
                let item = *self.strict_get(&pos);
                items.push(item);
            } else {
                return None;
            }
            i = i + 1;
        }
        Some(items)
    }
}

impl<T: Copy> Grid<T> {
    pub fn update(&mut self, pos: &Point, v: T) -> (r: Option<T>)
        requires
            old(self).wf(),
        ensures
            final(self).lines == old(self).lines,
            final(self).columns == old(self).columns,
            final(self).wf(),
            match r {
                Some(prev) => old(self).in_bounds(*pos) && prev == old(self).items@[old(
                    self,
                ).idx_of(*pos)] && final(self).items@ == old(self).items@.update(
                    old(self).idx_of(*pos),
                    v,
                ),
                None => !old(self).in_bounds(*pos) && final(self).items@ == old(self).items@,
            },
    {
        match self.checked_index(pos) {
            Some(index) => {
                let prev = self.items[index];
                self.items.set(index, v);
                Some(prev)
            },
            None => None,
        }
    }
}

impl Grid<char> {
    /// Read a grid from the given string, lines are separated by ascii whitespace.
    pub fn new(input: &str) -> (r: Self)
        requires
            tokens(input@).len() > 0,
            forall|i: int|
                0 <= i < tokens(input@).len() ==> (#[trigger] tokens(input@)[i]).len() == tokens(
                    input@,
                )[0].len(),
            tokens(input@).len() <= i64::MAX,
            tokens(input@)[0].len() <= i64::MAX,
        ensures
            r.wf(),
            r.lines == tokens(input@).len(),
            r.columns == tokens(input@)[0].len(),
            r.items@ == concat_rows(tokens(input@)),
    {
        let chars = chars_vec(input);
        let rows = split_tokens(&chars);
        let height = rows.len();
        let width = rows[0].len();
        let mut items: Vec<char> = Vec::new();
        let mut i: usize = 0;
        proof {
            assert(views(rows@).take(0) =~= Seq::<Seq<char>>::empty());
        }
        while i < rows.len()
            invariant
                i <= rows@.len(),
                views(rows@) == tokens(input@),
                height == rows@.len(),
                width == views(rows@)[0].len(),
                forall|k: int|
                    0 <= k < views(rows@).len() ==> (#[trigger] views(rows@)[k]).len() == width,
                items@ == concat_rows(views(rows@).take(i as int)),
            decreases rows@.len() - i,
        {
            let mut j: usize = 0;
            let row = &rows[i];
            while j < row.len()
                invariant
                    j <= row@.len(),
                    row@ == views(rows@)[i as int],
                    i < rows@.len(),
                    items@ == concat_rows(views(rows@).take(i as int)) + row@.take(j as int),
                decreases row@.len() - j,
            {
                items.push(row[j]);
                j = j + 1;
                proof {
                    assert(row@.take(j as int) =~= row@.take(j - 1).push(row@[j - 1]));
                    assert(items@ =~= concat_rows(views(rows@).take(i as int)) + row@.take(
                        j as int,
                    ));
                }
            }
            i = i + 1;
            proof {
                let rs = views(rows@).take(i as int);
                assert(rs.drop_last() =~= views(rows@).take(i - 1));
                assert(rs.last() == views(rows@)[i - 1]);
                assert(row@.take(row@.len() as int) =~= row@);
                assert(items@ == concat_rows(rs));
            }
        }
        proof {
            assert(views(rows@).take(views(rows@).len() as int) =~= views(rows@));
            lemma_concat_rows_uniform(views(rows@), width as nat);
        }
        Grid { lines: height, columns: width, items }
    }
}

} // verus!
