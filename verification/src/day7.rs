//! Bridge calibration equations: can a target value be produced from a
//! list of operands by inserting operators, evaluated left to right?
use vstd::prelude::*;
use crate::text;

verus! {

/// The operators that may stand between two operands.
#[derive(Debug, Clone, Copy)]
pub enum Operator {
    Add,
    Mul,
    Concat,
}

/// Number of decimal digits of `n` (one digit for zero).
pub open spec fn digit_count(n: int) -> int
    decreases n,
{
    if n < 10 {
        1
    } else {
        1 + digit_count(n / 10)
    }
}

/// Ten to the `k`.
pub open spec fn pow10(k: int) -> int
    decreases k,
{
    if k <= 0 {
        1
    } else {
        10 * pow10(k - 1)
    }
}

/// Decimal concatenation: the digits of `b` appended to those of `a`.
pub open spec fn concat_val(a: int, b: int) -> int {
    a * pow10(digit_count(b)) + b
}

/// One operator applied to two values.
pub open spec fn apply_op(op: Operator, a: int, b: int) -> int {
    match op {
        Operator::Add => a + b,
        Operator::Mul => a * b,
        Operator::Concat => concat_val(a, b),
    }
}

/// Every intermediate value stays in `u64` for every operator choice.
pub open spec fn eval_fits(acc: int, rest: Seq<u64>, ops: Seq<Operator>) -> bool
    decreases rest.len(),
{
    if rest.len() == 0 {
        true
    } else {
        forall|k: int|
            0 <= k < ops.len() ==> apply_op(#[trigger] ops[k], acc, rest[0] as int) <= u64::MAX
                && eval_fits(apply_op(ops[k], acc, rest[0] as int), rest.drop_first(), ops)
    }
}

/// Some choice of the given operators turns the running value into the
/// outcome once all operands are used.
pub open spec fn spec_solvable(outcome: int, acc: int, rest: Seq<u64>, ops: Seq<Operator>) -> bool
    decreases rest.len(),
{
    if rest.len() == 0 {
        acc == outcome
    } else {
        exists|k: int|
            0 <= k < ops.len() && spec_solvable(
                outcome,
                apply_op(#[trigger] ops[k], acc, rest[0] as int),
                rest.drop_first(),
                ops,
            )
    }
}

/// One calibration equation: expected outcome and operands.
#[derive(Debug)]
pub struct Equation {
    pub outcome: u64,
    pub operands: Vec<u64>,
}

/// `digit_count` matches the loop that multiplies up powers of ten.
pub proof fn lemma_digit_count_pos(n: int)
    ensures
        digit_count(n) >= 1,
        pow10(digit_count(n)) >= 1,
    decreases n,
{
    if n >= 10 {
        lemma_digit_count_pos(n / 10);
    }
    lemma_pow10_pos(digit_count(n));
}

pub proof fn lemma_pow10_pos(k: int)
    ensures
        pow10(k) >= 1,
    decreases k,
{
    if k > 0 {
        lemma_pow10_pos(k - 1);
    }
}

/// `n < pow10(digit_count(n))` for non-negative `n`.
pub proof fn lemma_digit_count_bound(n: int)
    requires
        n >= 0,
    ensures
        n < pow10(digit_count(n)),
    decreases n,
{
    if n >= 10 {
        lemma_digit_count_bound(n / 10);
        lemma_digit_count_pos(n / 10);
        assert(pow10(digit_count(n)) == 10 * pow10(digit_count(n / 10)));
        assert(n < 10 * pow10(digit_count(n / 10))) by (nonlinear_arith)
            requires
                n >= 10,
                n / 10 < pow10(digit_count(n / 10)),
        ;
    } else {
        assert(pow10(0) == 1);
        assert(pow10(1) == 10);
        if n < 0 {
        } else {
            assert(n < 10);
        }
    }
}

/// Decimal concatenation of two machine numbers, when it fits.
fn concat_u64(a: u64, b: u64) -> (r: u64)
    requires
        concat_val(a as int, b as int) <= u64::MAX,
    ensures
        r == concat_val(a as int, b as int),
{
    let mut p: u64 = 10;
    let ghost mut k: int = 1;
    proof {
        lemma_digit_count_bound(b as int);
        lemma_digit_count_pos(b as int);
        assert(pow10(0) == 1);
        assert(pow10(1) == 10);
    }
    while b >= p && p <= u64::MAX / 10
        invariant
            1 <= k,
            p == pow10(k),
            k == 1 || b >= pow10(k - 1),
            concat_val(a as int, b as int) <= u64::MAX,
        decreases u64::MAX - p,
    {
        proof {
            lemma_pow10_pos(k);
            k = k + 1;
        }
        p = p * 10;
    }
    if b < p {
        proof {
            lemma_digit_bound_reverse(b as int, k);
            if k > 1 {
                lemma_digit_lower(b as int, k - 1);
            }
            assert(digit_count(b as int) == k) by {
                lemma_digit_count_pos(b as int);
            }
            assert(p == pow10(digit_count(b as int)));
            lemma_pow10_pos(digit_count(b as int));
            assert(a * p >= 0) by (nonlinear_arith)
                requires
                    a >= 0,
                    p >= 1,
            ;
        }
        a * p + b
    } else {
        // p has outgrown u64 range, so only a == 0 can satisfy the bound
        proof {
            lemma_digit_lower(b as int, k);
            lemma_pow10_mono(k + 1, digit_count(b as int) + 1);
            lemma_pow10_pos(k);
            assert(pow10(digit_count(b as int)) >= pow10(k + 1)) by {
                lemma_pow10_mono(k + 1, digit_count(b as int));
            }
            assert(pow10(k + 1) == 10 * pow10(k));
            assert(pow10(k) == p);
            assert(pow10(digit_count(b as int)) > u64::MAX);
            assert(a == 0) by {
                if a >= 1 {
                    assert(a * pow10(digit_count(b as int)) >= pow10(digit_count(b as int)))
                        by (nonlinear_arith)
                        requires
                            a >= 1,
                            pow10(digit_count(b as int)) >= 0,
                    ;
                }
            }
            assert(concat_val(a as int, b as int) == 0 * pow10(digit_count(b as int)) + b);
            assert(b == concat_val(a as int, b as int));
        }
        b
    }
}

/// A number at or above a power of ten has more digits than the exponent.
pub proof fn lemma_digit_lower(b: int, j: int)
    requires
        0 <= j,
        b >= pow10(j),
    ensures
        digit_count(b) >= j + 1,
    decreases j,
{
    lemma_pow10_pos(j);
    lemma_digit_count_pos(b);
    if j > 0 {
        assert(pow10(j) == 10 * pow10(j - 1));
        lemma_pow10_pos(j - 1);
        assert(b >= 10);
        assert(b / 10 >= pow10(j - 1)) by (nonlinear_arith)
            requires
                b >= 10 * pow10(j - 1),
                pow10(j - 1) >= 1,
        ;
        lemma_digit_lower(b / 10, j - 1);
    }
}

/// Powers of ten grow with the exponent.
pub proof fn lemma_pow10_mono(i: int, j: int)
    requires
        i <= j,
    ensures
        pow10(i) <= pow10(j),
    decreases j - i,
{
    if i < j {
        lemma_pow10_mono(i, j - 1);
        lemma_pow10_pos(j - 1);
    }
}

/// If `b < pow10(k)` with `k` at least one, `k` reaches the digit count.
pub proof fn lemma_digit_bound_reverse(b: int, k: int)
    requires
        0 <= b,
        1 <= k,
        b < pow10(k),
    ensures
        digit_count(b) <= k,
    decreases b,
{
    if b >= 10 {
        assert(pow10(k) == 10 * pow10(k - 1));
        assert(k >= 2) by {
            if k == 1 {
                assert(pow10(k) == 10);
            }
        }
        assert(b / 10 < pow10(k - 1)) by (nonlinear_arith)
            requires
                b < pow10(k),
                pow10(k) == 10 * pow10(k - 1),
                b >= 10,
        ;
        lemma_digit_bound_reverse(b / 10, k - 1);
    } else {
        assert(digit_count(b) == 1);
    }
}

impl Equation {
    /// Parse `outcome: a b c ...`.
    pub fn from_string(string: &str) -> (r: Equation)
        requires
            equation_line_ok(string@),
        ensures
            r.outcome == outcome_of(string@),
            r.operands@ == operands_of(string@),
    {
        let chars = text::chars_of(string);
        parse_equation(&chars)
    }

    /// Whether some arrangement of the given operators yields the outcome.
    pub fn is_solvable(&self, operators: &[Operator]) -> (r: bool)
        requires
            self.operands@.len() >= 2,
            eval_fits(self.operands@[0] as int, self.operands@.skip(1), operators@),
        ensures
            r == spec_solvable(
                self.outcome as int,
                self.operands@[0] as int,
                self.operands@.skip(1),
                operators@,
            ),
    {
        let first = self.operands[0];
        solvable_from(self.outcome, first, &self.operands, 1, operators)
    }
}

/// Whether the running value can reach the outcome using the operands
/// from `idx` on.
fn solvable_from(outcome: u64, acc: u64, operands: &Vec<u64>, idx: usize, operators: &[Operator])
    -> (r: bool)
    requires
        1 <= idx <= operands@.len(),
        eval_fits(acc as int, operands@.skip(idx as int), operators@),
    ensures
        r == spec_solvable(outcome as int, acc as int, operands@.skip(idx as int), operators@),
    decreases operands@.len() - idx,
{
    if idx == operands.len() {
        proof {
            assert(operands@.skip(idx as int).len() == 0);
        }
        return acc == outcome;
    }
    let ghost rest = operands@.skip(idx as int);
    proof {
        assert(rest.len() > 0);
        assert(rest[0] == operands@[idx as int]);
        assert(rest.drop_first() =~= operands@.skip(idx as int + 1));
    }
    let b = operands[idx];
    let mut k: usize = 0;
    while k < operators.len()
        invariant
            k <= operators@.len(),
            1 <= idx < operands@.len(),
            operands@.len() <= usize::MAX,
            b == operands@[idx as int],
            rest == operands@.skip(idx as int),
            rest.len() > 0,
            rest[0] == b,
            rest.drop_first() == operands@.skip(idx as int + 1),
            eval_fits(acc as int, rest, operators@),
            forall|kk: int|
                0 <= kk < k ==> !spec_solvable(
                    outcome as int,
                    apply_op(#[trigger] operators@[kk], acc as int, b as int),
                    rest.drop_first(),
                    operators@,
                ),
        decreases operators@.len() - k,
    {
        let op = operators[k];
        proof {
            assert(operators@[k as int] == op);
            assert(apply_op(op, acc as int, b as int) <= u64::MAX);
            assert(eval_fits(
                apply_op(op, acc as int, b as int),
                rest.drop_first(),
                operators@,
            ));
        }
        let evaluated: u64 = match op {
            Operator::Add => acc + b,
            Operator::Mul => acc * b,
            Operator::Concat => concat_u64(acc, b),
        };
        proof {
            assert(evaluated == apply_op(op, acc as int, b as int));
        }
        if solvable_from(outcome, evaluated, operands, idx + 1, operators) {
            proof {
                assert(spec_solvable(
                    outcome as int,
                    apply_op(operators@[k as int], acc as int, b as int),
                    rest.drop_first(),
                    operators@,
                ));
            }
            return true;
        }
        k = k + 1;
    }
    proof {
        assert(!spec_solvable(outcome as int, acc as int, rest, operators@)) by {
            if spec_solvable(outcome as int, acc as int, rest, operators@) {
                let kk = choose|kk: int|
                    0 <= kk < operators@.len() && spec_solvable(
                        outcome as int,
                        apply_op(#[trigger] operators@[kk], acc as int, rest[0] as int),
                        rest.drop_first(),
                        operators@,
                    );
                assert(!spec_solvable(
                    outcome as int,
                    apply_op(operators@[kk], acc as int, b as int),
                    rest.drop_first(),
                    operators@,
                ));
            }
        }
    }
    false
}

/// The line shape `outcome: a b ...`, every number fitting `u64`.
pub open spec fn equation_line_ok(s: Seq<char>) -> bool {
    let c = text::find_char(s, ':') as int;
    let left = s.take(c);
    let ws = text::words_of(s.skip(c + 1));
    c < s.len() && left.len() >= 1 && text::all_digits(left) && text::digits_val(left) <= u64::MAX
        && ws.len() >= 1 && (forall|j: int|
        0 <= j < ws.len() ==> (#[trigger] ws[j]).len() >= 1 && text::all_digits(ws[j])
            && text::digits_val(ws[j]) <= u64::MAX)
}

/// The outcome before the colon.
pub open spec fn outcome_of(s: Seq<char>) -> int {
    text::digits_val(s.take(text::find_char(s, ':') as int))
}

/// The operands after the colon.
pub open spec fn operands_of(s: Seq<char>) -> Seq<u64> {
    text::words_of(s.skip(text::find_char(s, ':') as int + 1)).map_values(
        |w: Seq<char>| text::digits_val(w) as u64,
    )
}

/// Sum of the outcomes of the solvable equations.
pub open spec fn sum_solvable(eqs: Seq<(u64, Seq<u64>)>, ops: Seq<Operator>) -> int
    decreases eqs.len(),
{
    if eqs.len() == 0 {
        0
    } else {
        sum_solvable(eqs.drop_last(), ops) + if eqs.last().1.len() >= 2 && spec_solvable(
            eqs.last().0 as int,
            eqs.last().1[0] as int,
            eqs.last().1.skip(1),
            ops,
        ) {
            eqs.last().0 as int
        } else {
            0int
        }
    }
}

/// The equations of one input.
#[derive(Debug)]
pub struct Problem {
    pub equations: Vec<Equation>,
}

/// Outcome and operand views of the equations.
pub open spec fn equation_views(eqs: Seq<Equation>) -> Seq<(u64, Seq<u64>)> {
    eqs.map_values(|e: Equation| (e.outcome, e.operands@))
}

impl Problem {
    /// Parse one equation per line.
    pub fn from_string(string: &str) -> (r: Problem)
        requires
            forall|i: int|
                0 <= i < text::lines_of(string@).len() ==> equation_line_ok(
                    #[trigger] text::lines_of(string@)[i],
                ),
        ensures
            r.equations@.len() == text::lines_of(string@).len(),
            forall|i: int|
                0 <= i < r.equations@.len() ==> (#[trigger] r.equations@[i]).outcome == outcome_of(
                    text::lines_of(string@)[i],
                ) && r.equations@[i].operands@ == operands_of(text::lines_of(string@)[i]),
    {
        let chars = text::chars_of(string);
        let lines = text::split_lines(&chars);
        let ghost ls = text::lines_of(string@);
        let mut equations: Vec<Equation> = Vec::new();
        let mut i: usize = 0;
        while i < lines.len()
            invariant
                i <= lines@.len(),
                text::views_of(lines@) == ls,
                ls == text::lines_of(string@),
                forall|j: int| 0 <= j < ls.len() ==> equation_line_ok(#[trigger] ls[j]),
                equations@.len() == i,
                forall|j: int|
                    0 <= j < i ==> (#[trigger] equations@[j]).outcome == outcome_of(ls[j])
                        && equations@[j].operands@ == operands_of(ls[j]),
            decreases lines@.len() - i,
        {
            proof {
                assert(lines@[i as int]@ == ls[i as int]);
            }
            let eq = parse_equation(&lines[i]);
            equations.push(eq);
            i = i + 1;
        }
        Problem { equations }
    }

    /// Sum of the outcomes reachable with addition and multiplication.
    pub fn part_1(&self) -> (r: u64)
        requires
            part_requires(equation_views(self.equations@), seq![Operator::Add, Operator::Mul]),
        ensures
            r == sum_solvable(equation_views(self.equations@), seq![Operator::Add, Operator::Mul]),
    {
        let ops: [Operator; 2] = [Operator::Add, Operator::Mul];
        proof {
            assert(ops@ =~= seq![Operator::Add, Operator::Mul]);
        }
        self.sum_with(&ops)
    }

    /// Sum of the outcomes reachable when concatenation is allowed too.
    pub fn part_2(&self) -> (r: u64)
        requires
            part_requires(
                equation_views(self.equations@),
                seq![Operator::Add, Operator::Mul, Operator::Concat],
            ),
        ensures
            r == sum_solvable(
                equation_views(self.equations@),
                seq![Operator::Add, Operator::Mul, Operator::Concat],
            ),
    {
        let ops: [Operator; 3] = [Operator::Add, Operator::Mul, Operator::Concat];
        proof {
            assert(ops@ =~= seq![Operator::Add, Operator::Mul, Operator::Concat]);
        }
        self.sum_with(&ops)
    }

    /// Sum of the outcomes of the equations the given operators can solve.
    fn sum_with(&self, operators: &[Operator]) -> (r: u64)
        requires
            part_requires(equation_views(self.equations@), operators@),
        ensures
            r == sum_solvable(equation_views(self.equations@), operators@),
    {
        let ghost evs = equation_views(self.equations@);
        let mut total: u64 = 0;
        let mut i: usize = 0;
        while i < self.equations.len()
            invariant
                i <= self.equations@.len(),
                evs == equation_views(self.equations@),
                part_requires(evs, operators@),
                total == sum_solvable(evs.take(i as int), operators@),
            decreases self.equations@.len() - i,
        {
            proof {
                assert(evs.take(i as int + 1).drop_last() =~= evs.take(i as int));
                assert(evs.take(i as int + 1).last() == evs[i as int]);
                assert(evs[i as int] == (self.equations@[i as int].outcome,
                self.equations@[i as int].operands@));
                lemma_sum_solvable_prefix(evs, operators@, i as int + 1);
                lemma_sum_solvable_nonneg(evs.take(i as int), operators@);
            }
            let eq = &self.equations[i];
            if eq.operands.len() >= 2 {
                if eq.is_solvable(operators) {
                    total = total + eq.outcome;
                }
            }
            i = i + 1;
        }
        proof {
            assert(evs.take(evs.len() as int) =~= evs);
        }
        total
    }
}

/// What the aggregation needs of every equation: two operands at least,
/// intermediate values in range, and a total that fits.
pub open spec fn part_requires(evs: Seq<(u64, Seq<u64>)>, ops: Seq<Operator>) -> bool {
    sum_solvable(evs, ops) <= u64::MAX && (forall|i: int|
        0 <= i < evs.len() ==> (#[trigger] evs[i]).1.len() >= 2 && eval_fits(
            evs[i].1[0] as int,
            evs[i].1.skip(1),
            ops,
        ))
}

/// Solvable-outcome sums are non-negative.
proof fn lemma_sum_solvable_nonneg(evs: Seq<(u64, Seq<u64>)>, ops: Seq<Operator>)
    ensures
        sum_solvable(evs, ops) >= 0,
    decreases evs.len(),
{
    if evs.len() > 0 {
        lemma_sum_solvable_nonneg(evs.drop_last(), ops);
    }
}

/// Partial solvable-outcome sums stay below the whole sum.
proof fn lemma_sum_solvable_prefix(evs: Seq<(u64, Seq<u64>)>, ops: Seq<Operator>, i: int)
    requires
        0 <= i <= evs.len(),
    ensures
        sum_solvable(evs.take(i), ops) <= sum_solvable(evs, ops),
    decreases evs.len() - i,
{
    if i == evs.len() {
        assert(evs.take(i) =~= evs);
    } else {
        lemma_sum_solvable_prefix(evs, ops, i + 1);
        assert(evs.take(i + 1).drop_last() =~= evs.take(i));
        assert(evs.take(i + 1).last() == evs[i]);
    }
}

/// Parse `outcome: a b c ...` from a character vector.
fn parse_equation(chars: &Vec<char>) -> (r: Equation)
    requires
        equation_line_ok(chars@),
    ensures
        r.outcome == outcome_of(chars@),
        r.operands@ == operands_of(chars@),
{
    let colon = text::find_char_in(chars, ':');
    let ghost cs = chars@;
    let mut left: Vec<char> = Vec::new();
    let mut i: usize = 0;
    proof {
        text::lemma_find_if(cs, text::eq_char(':'));
        assert(colon < chars@.len());
    }
    assert(colon < chars.len());
    while i < colon
        invariant
            i <= colon,
            colon <= chars@.len(),
            chars@ == cs,
            colon == text::find_char(cs, ':'),
            left@ == cs.take(colon as int).take(i as int),
        decreases colon - i,
    {
        proof {
            assert(cs.take(colon as int)[i as int] == cs[i as int]);
        }
        left.push(chars[i]);
        proof {
            assert(left@ =~= cs.take(colon as int).take(i as int + 1));
        }
        i = i + 1;
    }
    proof {
        assert(cs.take(colon as int).take(colon as int) =~= cs.take(colon as int));
        assert(left@ == cs.take(text::find_char(cs, ':') as int));
        text::lemma_digits_val_nonneg(left@);
    }
    let outcome = text::parse_u64(&left);
    // the rest of the line holds the operands
    let mut rest: Vec<char> = Vec::new();
    let mut j: usize = colon + 1;
    while j < chars.len()
        invariant
            colon + 1 <= j,
            j <= chars@.len() || j == colon + 1,
            colon < chars@.len(),
            chars@ == cs,
            colon == text::find_char(cs, ':'),
            rest@ == cs.skip(colon as int + 1).take(j - colon - 1),
        decreases chars@.len() - j,
    {
        proof {
            assert(cs.skip(colon as int + 1)[j - colon - 1] == cs[j as int]);
        }
        rest.push(chars[j]);
        proof {
            assert(rest@ =~= cs.skip(colon as int + 1).take(j - colon));
        }
        j = j + 1;
    }
    proof {
        assert(cs.skip(colon as int + 1).take(cs.len() - colon - 1) =~= cs.skip(
            colon as int + 1,
        ));
    }
    let words = text::split_words(&rest);
    let ghost ws = text::words_of(cs.skip(text::find_char(cs, ':') as int + 1));
    let mut operands: Vec<u64> = Vec::new();
    let mut m: usize = 0;
    proof {
        assert(text::views_of(words@) == ws);
    }
    while m < words.len()
        invariant
            m <= words@.len(),
            text::views_of(words@) == ws,
            equation_line_ok(cs),
            ws == text::words_of(cs.skip(text::find_char(cs, ':') as int + 1)),
            operands@ == ws.take(m as int).map_values(|w: Seq<char>| text::digits_val(w) as u64),
        decreases words@.len() - m,
    {
        proof {
            assert(words@[m as int]@ == ws[m as int]);
            text::lemma_digits_val_nonneg(ws[m as int]);
        }
        let v = text::parse_u64(&words[m]);
        operands.push(v);
        proof {
            assert(operands@ =~= ws.take(m as int + 1).map_values(
                |w: Seq<char>| text::digits_val(w) as u64,
            ));
        }
        m = m + 1;
    }
    proof {
        assert(ws.take(ws.len() as int) =~= ws);
        assert(operands@ =~= operands_of(cs));
    }
    Equation { outcome, operands }
}

} // verus!

