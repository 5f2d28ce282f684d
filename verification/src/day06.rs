use crate::solution::Solution;
use crate::text::{
    all_digits, chars_vec, dec_val, is_digit, digit_val, lines_of, parse_u64, split_lines,
    split_tokens, tokens, views,
};
use crate::SolutionPair;
use vstd::prelude::*;

verus! {

#[derive(Copy, Clone, Debug, PartialEq, Eq, Structural)]
pub enum Op {
    Add,
    Mul,
}

#[derive(Clone, Debug, PartialEq)]
pub struct Problem {
    pub operation: Op,
    pub operands: Vec<u64>,
}

pub open spec fn seq_sum(xs: Seq<int>) -> int
    decreases xs.len(),
{
    if xs.len() == 0 {
        0
    } else {
        seq_sum(xs.drop_last()) + xs.last()
    }
}

pub open spec fn seq_prod(xs: Seq<int>) -> int
    decreases xs.len(),
{
    if xs.len() == 0 {
        1
    } else {
        seq_prod(xs.drop_last()) * xs.last()
    }
}

/// The value a problem computes: its operands added or multiplied.
pub open spec fn eval_of(op: Op, xs: Seq<int>) -> int {
    match op {
        Op::Add => seq_sum(xs),
        Op::Mul => seq_prod(xs),
    }
}

/// Every left-to-right partial result fits the machine word.
pub open spec fn eval_fits(op: Op, xs: Seq<int>) -> bool {
    forall|k: int| 0 <= k <= xs.len() ==> 0 <= eval_of(op, #[trigger] xs.take(k)) <= u64::MAX
}

impl Problem {
    /// The operands joined under the problem's operation.
    pub fn eval(&self) -> (r: u64)
        requires
            eval_fits(self.operation, self.operands@.map_values(|x: u64| x as int)),
        ensures
            r as int == eval_of(self.operation, self.operands@.map_values(|x: u64| x as int)),
    {
        let ghost xs = self.operands@.map_values(|x: u64| x as int);
        let n = self.operands.len();
        let mut acc: u64 = match self.operation {
            Op::Add => 0,
            Op::Mul => 1,
        };
        let mut k: usize = 0;
        proof {
            assert(xs.take(0) =~= Seq::<int>::empty());
            assert(xs.take(xs.len() as int) =~= xs);
        }
        while k < n
            invariant
                k <= n == self.operands@.len(),
                xs == self.operands@.map_values(|x: u64| x as int),
                eval_fits(self.operation, xs),
                acc as int == eval_of(self.operation, xs.take(k as int)),
            decreases n - k,
        {
            let v = self.operands[k];
            proof {
                assert(xs.take(k + 1).drop_last() =~= xs.take(k as int));
                assert(xs.take(k + 1).last() == xs[k as int]);
                assert(xs[k as int] == v as int);
                assert(0 <= eval_of(self.operation, xs.take(k + 1)) <= u64::MAX);
            }
            acc = match self.operation {
                Op::Add => acc + v,
                Op::Mul => acc * v,
            };
            k = k + 1;
        }
        acc
    }
}

/// The operator tokens of the last line.
pub open spec fn op_of(t: Seq<char>) -> Op {
    if t == seq!['+'] {
        Op::Add
    } else {
        Op::Mul
    }
}

pub open spec fn ops_of(s: Seq<char>) -> Seq<Op> {
    tokens(lines_of(s).last()).map_values(|t: Seq<char>| op_of(t))
}

/// The number tokens of one line.
pub open spec fn nums_of_line(l: Seq<char>) -> Seq<int> {
    tokens(l).map_values(|t: Seq<char>| dec_val(t))
}

/// The operands of the i-th problem: the i-th number of each line above the
/// operator line.
pub open spec fn column(s: Seq<char>, i: int) -> Seq<int> {
    lines_of(s).drop_last().map_values(|l: Seq<char>| nums_of_line(l)[i])
}

pub open spec fn input_wf(s: Seq<char>) -> bool {
    &&& lines_of(s).len() >= 2
    &&& forall|k: int|
        0 <= k < tokens(lines_of(s).last()).len() ==> #[trigger] tokens(lines_of(s).last())[k]
            == seq!['+'] || tokens(lines_of(s).last())[k] == seq!['*']
    &&& forall|li: int|
        0 <= li < lines_of(s).len() - 1 ==> tokens(#[trigger] lines_of(s)[li]).len() == ops_of(
            s,
        ).len() && forall|k: int|
            0 <= k < tokens(lines_of(s)[li]).len() ==> all_digits(
                #[trigger] tokens(lines_of(s)[li])[k],
            ) && tokens(lines_of(s)[li])[k].len() >= 1 && dec_val(tokens(lines_of(s)[li])[k])
                <= u64::MAX
}

/// Read the operator line.
pub fn read_operations(line: &Vec<char>) -> (r: Vec<Op>)
    requires
        forall|k: int|
            0 <= k < tokens(line@).len() ==> #[trigger] tokens(line@)[k] == seq!['+'] || tokens(
                line@,
            )[k] == seq!['*'],
    ensures
        r@.len() == tokens(line@).len(),
        forall|k: int| 0 <= k < r@.len() ==> #[trigger] r@[k] == op_of(tokens(line@)[k]),
{
    let toks = split_tokens(line);
    let mut r: Vec<Op> = Vec::new();
    let mut i: usize = 0;
    while i < toks.len()
        invariant
            i <= toks@.len(),
            views(toks@) == tokens(line@),
            forall|k: int|
                0 <= k < tokens(line@).len() ==> #[trigger] tokens(line@)[k] == seq!['+']
                    || tokens(line@)[k] == seq!['*'],
            r@.len() == i,
            forall|k: int| 0 <= k < i ==> #[trigger] r@[k] == op_of(tokens(line@)[k]),
        decreases toks@.len() - i,
    {
        let t = &toks[i];
        proof {
            assert(t@ == views(toks@)[i as int]);
            assert(t@ == seq!['+'] || t@ == seq!['*']);
            if t@ == seq!['+'] {
                assert(t@.len() == 1 && t@[0] == '+');
            } else {
                assert(t@.len() == 1 && t@[0] == '*');
                assert(t@[0] != '+');
                assert(op_of(t@) == Op::Mul);
            }
        }
        let op = if t.len() == 1 && t[0] == '+' {
            Op::Add
        } else {
            Op::Mul
        };
        r.push(op);
        i = i + 1;
    }
    r
}

/// Parse one problem per operator, operands taken column-wise from the
/// number lines.
pub fn prepare(input: &str) -> (r: Vec<Problem>)
    requires
        input_wf(input@),
    ensures
        r@.len() == ops_of(input@).len(),
        forall|i: int|
            0 <= i < r@.len() ==> (#[trigger] r@[i]).operation == ops_of(input@)[i]
                && r@[i].operands@.map_values(|x: u64| x as int) == column(input@, i),
{
    let chars = chars_vec(input);
    let lines = split_lines(&chars);
    let ghost glines = lines_of(input@);
    proof {
        assert(views(lines@) == glines);
        assert(lines@[lines@.len() - 1]@ == glines.last());
    }
    let last_idx = lines.len() - 1;
    let ops = read_operations(&lines[last_idx]);
    let mut problems: Vec<Problem> = Vec::new();
    let mut i: usize = 0;
    while i < ops.len()
        invariant
            i <= ops@.len(),
            views(lines@) == glines,
            glines == lines_of(input@),
            input_wf(input@),
            last_idx == lines@.len() - 1,
            ops@.len() == ops_of(input@).len(),
            forall|k: int| 0 <= k < ops@.len() ==> #[trigger] ops@[k] == ops_of(input@)[k],
            problems@.len() == i,
            forall|k: int|
                0 <= k < i ==> (#[trigger] problems@[k]).operation == ops_of(input@)[k]
                    && problems@[k].operands@.map_values(|x: u64| x as int) == column(input@, k),
        decreases ops@.len() - i,
    {
        let mut operands: Vec<u64> = Vec::new();
        let mut li: usize = 0;
        while li < last_idx
            invariant
                li <= last_idx == lines@.len() - 1,
                i < ops@.len() == ops_of(input@).len(),
                views(lines@) == glines,
                glines == lines_of(input@),
                input_wf(input@),
                operands@.len() == li,
                forall|k: int|
                    0 <= k < li ==> #[trigger] operands@[k] as int == nums_of_line(
                        glines[k],
                    )[i as int],
            decreases last_idx - li,
        {
            let line = &lines[li];
            proof {
                assert(line@ == glines[li as int]);
                assert(tokens(glines[li as int]).len() == ops_of(input@).len());
                assert(all_digits(tokens(glines[li as int])[i as int]));
                assert(tokens(glines[li as int])[i as int].len() >= 1);
                assert(dec_val(tokens(glines[li as int])[i as int]) <= u64::MAX);
            }
            let toks = split_tokens(line);
            proof {
                assert(views(toks@) == tokens(line@));
            }
            let tok = &toks[i];
            proof {
                assert(tok@ == tokens(glines[li as int])[i as int]);
            }
            let v = match parse_u64(tok) {
                Some(x) => x,
                None => {
                    proof {
                        assert(false);
                    }
                    0
                },
            };
            proof {
                assert(v as int == nums_of_line(glines[li as int])[i as int]);
            }
            operands.push(v);
            li = li + 1;
        }
        proof {
            assert(operands@.map_values(|x: u64| x as int) =~= column(input@, i as int));
        }
        problems.push(Problem { operation: ops[i], operands });
        i = i + 1;
    }
    problems
}

/// Every problem's running results and their total stay in range.
pub open spec fn part1_fits(s: Seq<char>) -> bool {
    &&& forall|i: int|
        0 <= i < ops_of(s).len() ==> eval_fits(#[trigger] ops_of(s)[i], column(s, i))
    &&& 0 <= part1_of(s) <= u64::MAX
}

pub open spec fn part1_of(s: Seq<char>) -> int {
    sum_evals(s, ops_of(s).len() as int)
}

pub open spec fn sum_evals(s: Seq<char>, upto: int) -> int
    decreases upto,
{
    if upto <= 0 {
        0
    } else {
        sum_evals(s, upto - 1) + eval_of(ops_of(s)[upto - 1], column(s, upto - 1))
    }
}

/// Sum every problem's value, reading operands in columns.
pub fn solve_part1(input: &str) -> (r: u64)
    requires
        input_wf(input@),
        part1_fits(input@),
    ensures
        r as int == part1_of(input@),
{
    let problems = prepare(input);
    let mut total: u64 = 0;
    let mut i: usize = 0;
    while i < problems.len()
        invariant
            i <= problems@.len(),
            input_wf(input@),
            part1_fits(input@),
            problems@.len() == ops_of(input@).len(),
            forall|k: int|
                0 <= k < problems@.len() ==> (#[trigger] problems@[k]).operation == ops_of(
                    input@,
                )[k] && problems@[k].operands@.map_values(|x: u64| x as int) == column(input@, k),
            total as int == sum_evals(input@, i as int),
            total <= u64::MAX,
        decreases problems@.len() - i,
    {
        let problem = &problems[i];
        proof {
            assert(eval_fits(ops_of(input@)[i as int], column(input@, i as int)));
            lemma_sum_evals_bound(input@, i + 1, ops_of(input@).len() as int);
            lemma_evals_nonneg(input@, i as int);
        }
        let v = problem.eval();
        total = total + v;
        i = i + 1;
    }
    total
}

/// The partial sums stay below the total when every summand is nonnegative.
pub proof fn lemma_sum_evals_bound(s: Seq<char>, upto: int, total: int)
    requires
        0 <= upto <= total == ops_of(s).len(),
        forall|i: int| 0 <= i < ops_of(s).len() ==> eval_fits(#[trigger] ops_of(s)[i], column(s, i)),
    ensures
        sum_evals(s, upto) <= sum_evals(s, total),
    decreases total - upto,
{
    if upto < total {
        lemma_sum_evals_bound(s, upto + 1, total);
        assert(eval_fits(ops_of(s)[upto], column(s, upto)));
        assert(column(s, upto).take(column(s, upto).len() as int) =~= column(s, upto));
        assert(0 <= eval_of(ops_of(s)[upto], column(s, upto)));
    }
}

pub proof fn lemma_evals_nonneg(s: Seq<char>, upto: int)
    requires
        0 <= upto <= ops_of(s).len(),
        forall|i: int| 0 <= i < ops_of(s).len() ==> eval_fits(#[trigger] ops_of(s)[i], column(s, i)),
    ensures
        sum_evals(s, upto) >= 0,
    decreases upto,
{
    if upto > 0 {
        lemma_evals_nonneg(s, upto - 1);
        assert(eval_fits(ops_of(s)[upto - 1], column(s, upto - 1)));
        assert(column(s, upto - 1).take(column(s, upto - 1).len() as int) =~= column(
            s,
            upto - 1,
        ));
        assert(0 <= eval_of(ops_of(s)[upto - 1], column(s, upto - 1)));
    }
}

// ---------------------------------------------------------------------------
// The transposed reading
// ---------------------------------------------------------------------------

/// The number standing in column `c`, read top to bottom over the digit
/// lines, spaces skipped.
pub open spec fn col_fold(lines: Seq<Seq<char>>, c: int, li: int, acc: int) -> int
    decreases lines.len() - li,
{
    if li >= lines.len() {
        acc
    } else {
        col_fold(
            lines,
            c,
            li + 1,
            if is_digit(lines[li][c]) {
                10 * acc + digit_val(lines[li][c])
            } else {
                acc
            },
        )
    }
}

pub open spec fn col_val(lines: Seq<Seq<char>>, c: int) -> int {
    col_fold(lines, c, 0, 0)
}

/// The problems read right to left: columns gather operands, an empty (zero)
/// column closes a problem under the next operator from the right.
pub open spec fn trans_fold(
    lines: Seq<Seq<char>>,
    ops: Seq<Op>,
    c: int,
    operands: Seq<int>,
    probs: Seq<(Op, Seq<int>)>,
) -> Seq<(Op, Seq<int>)>
    decreases c + 1,
{
    if c < 0 {
        if operands.len() > 0 {
            probs.push((ops.last(), operands))
        } else {
            probs
        }
    } else {
        let o = col_val(lines, c);
        if o == 0 {
            trans_fold(lines, ops.drop_last(), c - 1, Seq::empty(), probs.push((ops.last(), operands)))
        } else {
            trans_fold(lines, ops, c - 1, operands.push(o), probs)
        }
    }
}

pub open spec fn transposed_of(s: Seq<char>) -> Seq<(Op, Seq<int>)> {
    let lines = lines_of(s).drop_last();
    trans_fold(lines, ops_of(s), lines[0].len() - 1, Seq::empty(), Seq::empty())
}

/// The transposed reading needs equal-width digit lines and an operator for
/// every column break.
pub open spec fn trans_wf(s: Seq<char>) -> bool {
    let lines = lines_of(s).drop_last();
    &&& lines.len() >= 1
    &&& lines.len() <= 18
    &&& lines[0].len() >= 1
    &&& forall|li: int| 0 <= li < lines.len() ==> (#[trigger] lines[li]).len() == lines[0].len()
    &&& forall|li: int, c: int|
        0 <= li < lines.len() && 0 <= c < lines[0].len() ==> is_digit(#[trigger] lines[li][c])
            || lines[li][c] == ' '
    &&& zero_cols(lines, lines[0].len() as int) + 1 <= ops_of(s).len()
}

/// How many columns read as zero.
pub open spec fn zero_cols(lines: Seq<Seq<char>>, upto: int) -> int
    decreases upto,
{
    if upto <= 0 {
        0
    } else {
        zero_cols(lines, upto - 1) + (if col_val(lines, upto - 1) == 0 {
            1int
        } else {
            0int
        })
    }
}

/// Parse the problems reading each column as one operand.
pub fn prepare_transposed(input: &str) -> (r: Vec<Problem>)
    requires
        input_wf(input@),
        trans_wf(input@),
    ensures
        r@.len() == transposed_of(input@).len(),
        forall|i: int|
            0 <= i < r@.len() ==> (#[trigger] r@[i]).operation == transposed_of(input@)[i].0
                && r@[i].operands@.map_values(|x: u64| x as int) == transposed_of(input@)[i].1,
{
    let chars = chars_vec(input);
    let lines = split_lines(&chars);
    let ghost all_lines = lines_of(input@);
    let ghost glines = all_lines.drop_last();
    proof {
        assert(views(lines@) == all_lines);
        assert(lines@[lines@.len() - 1]@ == all_lines.last());
    }
    let last_idx = lines.len() - 1;
    let mut ops = read_operations(&lines[last_idx]);
    let width = lines[0].len();
    proof {
        assert(lines@[0]@ == all_lines[0]);
        assert(glines[0] == all_lines[0]);
    }
    let mut problems: Vec<Problem> = Vec::new();
    let mut operands: Vec<u64> = Vec::new();
    let mut c: usize = width;
    let ghost gops = ops_of(input@);
    proof {
        assert(ops@ =~= gops);
        assert(gops.take(ops@.len() as int) =~= gops);
        assert(transposed_of(input@) == trans_fold(
            glines,
            gops,
            width - 1,
            Seq::empty(),
            Seq::empty(),
        ));
        assert(operands@.map_values(|x: u64| x as int) =~= Seq::<int>::empty());
        assert(problems@.map_values(
            |p: Problem| (p.operation, p.operands@.map_values(|x: u64| x as int)),
        ) =~= Seq::<(Op, Seq<int>)>::empty());
    }
    while c > 0
        invariant
            c <= width,
            width == glines[0].len(),
            input_wf(input@),
            trans_wf(input@),
            glines == lines_of(input@).drop_last(),
            views(lines@) == lines_of(input@),
            last_idx == lines@.len() - 1,
            lines@.len() - 1 == glines.len(),
            ops@.len() >= 1 + zero_cols(glines, c as int),
            ops@.len() <= gops.len(),
            forall|k: int| 0 <= k < ops@.len() ==> #[trigger] ops@[k] == gops[k],
            ops@ =~= gops.take(ops@.len() as int),
            transposed_of(input@) == trans_fold(
                glines,
                gops.take(ops@.len() as int),
                c - 1,
                operands@.map_values(|x: u64| x as int),
                problems@.map_values(
                    |p: Problem| (p.operation, p.operands@.map_values(|x: u64| x as int)),
                ),
            ),
        decreases c,
    {
        c = c - 1;
        let mut o: u64 = 0;
        let mut li: usize = 0;
        while li < last_idx
            invariant
                li <= last_idx == glines.len() <= 18,
                c < width == glines[0].len(),
                views(lines@) == lines_of(input@),
                glines == lines_of(input@).drop_last(),
                lines@.len() - 1 == glines.len(),
                trans_wf(input@),
                input_wf(input@),
                col_fold(glines, c as int, li as int, o as int) == col_val(glines, c as int),
                (o as int) < crate::day03::pow10(li as nat),
            decreases last_idx - li,
        {
            let line = &lines[li];
            proof {
                assert(line@ == glines[li as int]);
                assert(glines[li as int].len() == glines[0].len());
                assert(is_digit(glines[li as int][c as int]) || glines[li as int][c as int]
                    == ' ');
            }
            let ch = line[c];
            proof {
                crate::day03::lemma_pow10_mono((li + 1) as nat, 18);
                assert(crate::day03::pow10(18) == 1000000000000000000) by {
                    reveal_with_fuel(crate::day03::pow10, 19);
                }
                assert(crate::day03::pow10((li + 1) as nat) == 10 * crate::day03::pow10(
                    li as nat,
                ));
            }
            if '0' <= ch && ch <= '9' {
                proof {
                    assert(is_digit(glines[li as int][c as int]));
                    assert(digit_val(glines[li as int][c as int]) == (ch as u32 - '0' as u32) as int);
                }
                o = 10 * o + ((ch as u32 - '0' as u32) as u64);
            }
            li = li + 1;
        }
        proof {
            assert(col_fold(glines, c as int, glines.len() as int, o as int) == o as int);
            assert(o as int == col_val(glines, c as int));
        }
        if o == 0 {
            let ghost big_l = ops@.len() as int;
            let ghost pre_ops = ops@;
            proof {
                assert(ops@.len() >= 1) by {
                    lemma_zero_cols_nonneg(glines, c as int);
                }
                assert(zero_cols(glines, c + 1) == zero_cols(glines, c as int) + 1);
            }
            let op = match ops.pop() {
                Some(x) => x,
                None => {
                    proof {
                        assert(false);
                    }
                    Op::Add
                },
            };
            let ghost old_probs = problems@;
            let ghost old_operands = operands@;
            problems.push(Problem { operation: op, operands });
            operands = Vec::new();
            proof {
                let pview = |p: Problem| (p.operation, p.operands@.map_values(|x: u64| x as int));
                assert(pre_ops == gops.take(big_l));
                assert(op == pre_ops.last());
                assert(ops@ == pre_ops.drop_last());
                assert(ops@ =~= gops.take(big_l - 1));
                assert(problems@.map_values(pview) =~= old_probs.map_values(pview).push(
                    (gops.take(big_l).last(), old_operands.map_values(|x: u64| x as int)),
                ));
                assert(operands@.map_values(|x: u64| x as int) =~= Seq::<int>::empty());
                assert(gops.take(big_l).drop_last() =~= gops.take(big_l - 1));
            }
        } else {
            let ghost old_operands = operands@;
            operands.push(o);
            proof {
                assert(operands@.map_values(|x: u64| x as int) =~= old_operands.map_values(
                    |x: u64| x as int,
                ).push(o as int));
            }
        }
    }
    proof {
        assert(trans_fold(
            glines,
            gops.take(ops@.len() as int),
            -1,
            operands@.map_values(|x: u64| x as int),
            problems@.map_values(
                |p: Problem| (p.operation, p.operands@.map_values(|x: u64| x as int)),
            ),
        ) == transposed_of(input@));
    }
    if operands.len() > 0 {
        let ghost big_l = ops@.len() as int;
        proof {
            assert(ops@.len() >= 1) by {
                lemma_zero_cols_nonneg(glines, 0);
            }
        }
        let op = match ops.pop() {
            Some(x) => x,
            None => {
                proof {
                    assert(false);
                }
                Op::Add
            },
        };
        let ghost old_probs = problems@;
        let ghost old_operands = operands@;
        problems.push(Problem { operation: op, operands });
        proof {
            let pview = |p: Problem| (p.operation, p.operands@.map_values(|x: u64| x as int));
            assert(op == gops.take(big_l).last());
            assert(problems@.map_values(pview) =~= old_probs.map_values(pview).push(
                (gops.take(big_l).last(), old_operands.map_values(|x: u64| x as int)),
            ));
        }
    }
    proof {
        lemma_views_len(problems@);
    }
    problems
}

pub proof fn lemma_zero_cols_nonneg(lines: Seq<Seq<char>>, upto: int)
    ensures
        zero_cols(lines, upto) >= 0,
    decreases (if upto >= 0 {
        upto
    } else {
        0
    }),
{
    if upto > 0 {
        lemma_zero_cols_nonneg(lines, upto - 1);
    }
}

pub proof fn lemma_views_len(ps: Seq<Problem>)
    ensures
        ps.map_values(
            |p: Problem| (p.operation, p.operands@.map_values(|x: u64| x as int)),
        ).len() == ps.len(),
{
}

/// Sum every problem's value, reading operands across columns.
pub fn solve_part2(input: &str) -> (r: u64)
    requires
        input_wf(input@),
        trans_wf(input@),
        part2_fits(input@),
    ensures
        r as int == part2_of(input@),
{
    let problems = prepare_transposed(input);
    let ghost probs = transposed_of(input@);
    let mut total: u64 = 0;
    let mut i: usize = 0;
    while i < problems.len()
        invariant
            i <= problems@.len(),
            probs == transposed_of(input@),
            part2_fits(input@),
            problems@.len() == probs.len(),
            forall|k: int|
                0 <= k < problems@.len() ==> (#[trigger] problems@[k]).operation == probs[k].0
                    && problems@[k].operands@.map_values(|x: u64| x as int) == probs[k].1,
            total as int == sum_trans(probs, i as int),
            total <= u64::MAX,
        decreases problems@.len() - i,
    {
        let problem = &problems[i];
        proof {
            assert(eval_fits(probs[i as int].0, probs[i as int].1));
            lemma_sum_trans_bound(probs, i + 1, probs.len() as int);
            lemma_trans_nonneg(probs, i as int);
        }
        let v = problem.eval();
        total = total + v;
        i = i + 1;
    }
    total
}

pub open spec fn part2_of(s: Seq<char>) -> int {
    sum_trans(transposed_of(s), transposed_of(s).len() as int)
}

pub open spec fn sum_trans(probs: Seq<(Op, Seq<int>)>, upto: int) -> int
    decreases upto,
{
    if upto <= 0 {
        0
    } else {
        sum_trans(probs, upto - 1) + eval_of(probs[upto - 1].0, probs[upto - 1].1)
    }
}

pub open spec fn part2_fits(s: Seq<char>) -> bool {
    &&& forall|i: int|
        0 <= i < transposed_of(s).len() ==> eval_fits(
            (#[trigger] transposed_of(s)[i]).0,
            transposed_of(s)[i].1,
        )
    &&& 0 <= part2_of(s) <= u64::MAX
}

pub proof fn lemma_sum_trans_bound(probs: Seq<(Op, Seq<int>)>, upto: int, total: int)
    requires
        0 <= upto <= total == probs.len(),
        forall|i: int|
            0 <= i < probs.len() ==> eval_fits((#[trigger] probs[i]).0, probs[i].1),
    ensures
        sum_trans(probs, upto) <= sum_trans(probs, total),
    decreases total - upto,
{
    if upto < total {
        lemma_sum_trans_bound(probs, upto + 1, total);
        assert(eval_fits(probs[upto].0, probs[upto].1));
        assert(probs[upto].1.take(probs[upto].1.len() as int) =~= probs[upto].1);
        assert(0 <= eval_of(probs[upto].0, probs[upto].1));
    }
}

pub proof fn lemma_trans_nonneg(probs: Seq<(Op, Seq<int>)>, upto: int)
    requires
        0 <= upto <= probs.len(),
        forall|i: int|
            0 <= i < probs.len() ==> eval_fits((#[trigger] probs[i]).0, probs[i].1),
    ensures
        sum_trans(probs, upto) >= 0,
    decreases upto,
{
    if upto > 0 {
        lemma_trans_nonneg(probs, upto - 1);
        assert(eval_fits(probs[upto - 1].0, probs[upto - 1].1));
        assert(probs[upto - 1].1.take(probs[upto - 1].1.len() as int) =~= probs[upto - 1].1);
        assert(0 <= eval_of(probs[upto - 1].0, probs[upto - 1].1));
    }
}

pub fn solve(input: String) -> (r: SolutionPair)
    requires
        input_wf(input@),
        trans_wf(input@),
        part1_fits(input@),
        part2_fits(input@),
    ensures
        r.0 matches Solution::U64(a) && a as int == part1_of(input@),
        r.1 matches Solution::U64(b) && b as int == part2_of(input@),
{
    let sol1 = solve_part1(&input);
    let sol2 = solve_part2(&input);
    (Solution::from(sol1), Solution::from(sol2))
}

} // verus!
