//! Corrupted instruction memory: add up every well-formed `mul(a,b)`
//! product, and again with `do()` and `don't()` toggling the adder.
use vstd::prelude::*;
use crate::text;

verus! {

/// A `mul(` keyword starts at `i`.
pub open spec fn mul_at(s: Seq<char>, i: int) -> bool {
    0 <= i && i + 4 <= s.len() && s[i] == 'm' && s[i + 1] == 'u' && s[i + 2] == 'l' && s[i + 3]
        == '('
}

/// A `do()` keyword starts at `i`.
pub open spec fn do_at(s: Seq<char>, i: int) -> bool {
    0 <= i && i + 4 <= s.len() && s[i] == 'd' && s[i + 1] == 'o' && s[i + 2] == '(' && s[i + 3]
        == ')'
}

/// A `don't()` keyword starts at `i`.
pub open spec fn dont_at(s: Seq<char>, i: int) -> bool {
    0 <= i && i + 7 <= s.len() && s[i] == 'd' && s[i + 1] == 'o' && s[i + 2] == 'n' && s[i + 3]
        == '\'' && s[i + 4] == 't' && s[i + 5] == '(' && s[i + 6] == ')'
}

/// What a `mul(` at `i` is worth: the product of the two numbers between
/// the bracket and the next closing bracket, when that span holds exactly
/// a digit run, a comma and a digit run; zero otherwise.
pub open spec fn mul_contrib(s: Seq<char>, i: int) -> int {
    if !mul_at(s, i) {
        0
    } else {
        let rest = s.skip(i + 4);
        let cl = text::find_char(rest, ')') as int;
        if cl == rest.len() {
            0
        } else {
            let inner = rest.take(cl);
            let cm = text::find_char(inner, ',') as int;
            if cm == inner.len() {
                0
            } else {
                let left = inner.take(cm);
                let right = inner.skip(cm + 1);
                if left.len() >= 1 && text::all_digits(left) && right.len() >= 1
                    && text::all_digits(right) {
                    text::digits_val(left) * text::digits_val(right)
                } else {
                    0
                }
            }
        }
    }
}

/// Sum of all `mul` products from position `i` on.
pub open spec fn spec_process(s: Seq<char>, i: int) -> int
    decreases s.len() - i,
{
    if i < 0 || i >= s.len() {
        0
    } else {
        mul_contrib(s, i) + spec_process(s, i + 1)
    }
}

/// Sum of the enabled `mul` products from position `i` on: `don't()`
/// switches the adder off, `do()` back on.
pub open spec fn spec_process_toggled(s: Seq<char>, i: int, enabled: bool) -> int
    decreases s.len() - i,
{
    if i < 0 || i >= s.len() {
        0
    } else if dont_at(s, i) {
        spec_process_toggled(s, i + 1, false)
    } else if do_at(s, i) {
        spec_process_toggled(s, i + 1, true)
    } else {
        (if enabled {
            mul_contrib(s, i)
        } else {
            0int
        }) + spec_process_toggled(s, i + 1, enabled)
    }
}

/// Every `mul` span parses cleanly: no empty operand, operands and their
/// product inside `u64`.
pub open spec fn muls_ok(s: Seq<char>) -> bool {
    forall|i: int|
        0 <= i < s.len() ==> 0 <= #[trigger] mul_contrib(s, i) <= u64::MAX && (mul_at(s, i)
            ==> mul_ok_at(s, i))
}

/// The span after a `mul(` at `i` is benign: if a closing bracket and a
/// comma follow and both parts are digit runs, neither part is empty and
/// the values fit.
pub open spec fn mul_ok_at(s: Seq<char>, i: int) -> bool {
    let rest = s.skip(i + 4);
    let cl = text::find_char(rest, ')') as int;
    cl == rest.len() || {
        let inner = rest.take(cl);
        let cm = text::find_char(inner, ',') as int;
        cm == inner.len() || {
            let left = inner.take(cm);
            let right = inner.skip(cm + 1);
            !(text::all_digits(left) && text::all_digits(right)) || (left.len() >= 1
                && right.len() >= 1 && text::digits_val(left) <= u64::MAX && text::digits_val(
                right,
            ) <= u64::MAX && text::digits_val(left) * text::digits_val(right) <= u64::MAX)
        }
    }
}

/// The instruction memory.
pub struct Problem {
    pub instructions: String,
}

/// The worth of the `mul(` at `i`, scanned from the characters.
fn contrib_at(v: &Vec<char>, i: usize) -> (r: u64)
    requires
        mul_at(v@, i as int),
        mul_ok_at(v@, i as int),
        mul_contrib(v@, i as int) <= u64::MAX,
    ensures
        r == mul_contrib(v@, i as int),
{
    let n = v.len();
    proof {
        assert(i + 4 <= n);
    }
    let ghost rest = v@.skip(i as int + 4);
    // scan for the closing bracket
    let mut j: usize = i + 4;
    while j < v.len() && v[j] != ')'
        invariant
            i + 4 <= j <= v@.len(),
            rest == v@.skip(i as int + 4),
            forall|q: int| i + 4 <= q < j ==> v@[q] != ')',
        decreases v@.len() - j,
    {
        j = j + 1;
    }
    proof {
        text::lemma_find_if(rest, text::eq_char(')'));
        assert forall|q: int| 0 <= q < j - i - 4 implies !(text::eq_char(')')(
            #[trigger] rest[q],
        )) by {
            assert(rest[q] == v@[i + 4 + q]);
        }
        if j < v@.len() {
            assert(text::eq_char(')')(rest[j - i - 4]));
            assert(text::find_char(rest, ')') == j - i - 4) by {
                if text::find_char(rest, ')') < j - i - 4 {
                    assert(!text::eq_char(')')(rest[text::find_char(rest, ')') as int]));
                }
                if text::find_char(rest, ')') > j - i - 4 {
                    assert(!text::eq_char(')')(rest[j - i - 4]));
                }
            }
        } else {
            assert(text::find_char(rest, ')') == rest.len()) by {
                if text::find_char(rest, ')') < rest.len() {
                    assert(text::eq_char(')')(rest[text::find_char(rest, ')') as int]));
                }
            }
        }
    }
    if j == v.len() {
        return 0;
    }
    let ghost cl = (j - i - 4) as int;
    // copy the span between the brackets
    let mut inner: Vec<char> = Vec::new();
    let mut k: usize = i + 4;
    while k < j
        invariant
            i + 4 <= k <= j < v@.len(),
            rest == v@.skip(i as int + 4),
            cl == j - i - 4,
            inner@ == rest.take(cl).take(k - i - 4),
        decreases j - k,
    {
        proof {
            assert(rest.take(cl)[k - i - 4] == v@[k as int]);
        }
        inner.push(v[k]);
        proof {
            assert(inner@ =~= rest.take(cl).take(k as int + 1 - i - 4));
        }
        k = k + 1;
    }
    proof {
        assert(rest.take(cl).take(cl) =~= rest.take(cl));
        assert(inner@ == rest.take(cl));
    }
    // split at the comma
    let cm = text::find_char_in(&inner, ',');
    if cm == inner.len() {
        return 0;
    }
    let mut left: Vec<char> = Vec::new();
    let mut right: Vec<char> = Vec::new();
    let mut q: usize = 0;
    while q < cm
        invariant
            q <= cm < inner@.len(),
            left@ == inner@.take(cm as int).take(q as int),
        decreases cm - q,
    {
        proof {
            assert(inner@.take(cm as int)[q as int] == inner@[q as int]);
        }
        left.push(inner[q]);
        proof {
            assert(left@ =~= inner@.take(cm as int).take(q as int + 1));
        }
        q = q + 1;
    }
    proof {
        assert(inner@.take(cm as int).take(cm as int) =~= inner@.take(cm as int));
    }
    let mut p: usize = cm + 1;
    while p < inner.len()
        invariant
            cm + 1 <= p,
            p <= inner@.len() || p == cm + 1,
            cm < inner@.len(),
            right@ == inner@.skip(cm as int + 1).take(p - cm - 1),
        decreases inner@.len() - p,
    {
        proof {
            assert(inner@.skip(cm as int + 1)[p - cm - 1] == inner@[p as int]);
        }
        right.push(inner[p]);
        proof {
            assert(right@ =~= inner@.skip(cm as int + 1).take(p as int - cm));
        }
        p = p + 1;
    }
    proof {
        assert(inner@.skip(cm as int + 1).take(inner@.len() - cm - 1) =~= inner@.skip(
            cm as int + 1,
        ));
    }
    // both parts must be non-empty digit runs
    let mut all_left = left.len() >= 1;
    let mut t: usize = 0;
    while t < left.len()
        invariant
            t <= left@.len(),
            all_left == (left@.len() >= 1 && (forall|w: int|
                0 <= w < t ==> text::is_digit_char(#[trigger] left@[w]))),
        decreases left@.len() - t,
    {
        let c = left[t];
        if !('0' <= c && c <= '9') {
            all_left = false;
        }
        t = t + 1;
    }
    let mut all_right = right.len() >= 1;
    let mut t2: usize = 0;
    while t2 < right.len()
        invariant
            t2 <= right@.len(),
            all_right == (right@.len() >= 1 && (forall|w: int|
                0 <= w < t2 ==> text::is_digit_char(#[trigger] right@[w]))),
        decreases right@.len() - t2,
    {
        let c = right[t2];
        if !('0' <= c && c <= '9') {
            all_right = false;
        }
        t2 = t2 + 1;
    }
    if all_left && all_right {
        proof {
            text::lemma_digits_val_nonneg(left@);
            text::lemma_digits_val_nonneg(right@);
        }
        let a = text::parse_u64(&left);
        let b = text::parse_u64(&right);
        let prod = (a as u128) * (b as u128);
        proof {
            assert(prod == text::digits_val(left@) * text::digits_val(right@));
            assert(prod <= u64::MAX);
        }
        prod as u64
    } else {
        proof {
            assert(mul_contrib(v@, i as int) == 0) by {
                if text::all_digits(left@) && text::all_digits(right@) {
                    assert(left@.len() == 0 || right@.len() == 0 || all_left || all_right);
                }
            }
        }
        0
    }
}

/// Whether the `mul(` keyword starts at `i`.
fn is_mul_at(v: &Vec<char>, i: usize) -> (r: bool)
    requires
        i < v@.len(),
    ensures
        r == mul_at(v@, i as int),
{
    v.len() - i >= 4 && v[i] == 'm' && v[i + 1] == 'u' && v[i + 2] == 'l' && v[i + 3] == '('
}

/// Whether `do()` starts at `i`.
fn is_do_at(v: &Vec<char>, i: usize) -> (r: bool)
    requires
        i < v@.len(),
    ensures
        r == do_at(v@, i as int),
{
    v.len() - i >= 4 && v[i] == 'd' && v[i + 1] == 'o' && v[i + 2] == '(' && v[i + 3] == ')'
}

/// Whether `don't()` starts at `i`.
fn is_dont_at(v: &Vec<char>, i: usize) -> (r: bool)
    requires
        i < v@.len(),
    ensures
        r == dont_at(v@, i as int),
{
    v.len() - i >= 7 && v[i] == 'd' && v[i + 1] == 'o' && v[i + 2] == 'n' && v[i + 3] == '\'' && v[
        i + 4] == 't' && v[i + 5] == '(' && v[i + 6] == ')'
}

/// Suffix sums of products are non-negative.
proof fn lemma_process_nonneg(s: Seq<char>, i: int)
    requires
        muls_ok(s),
    ensures
        spec_process(s, i) >= 0,
    decreases s.len() - i,
{
    if 0 <= i && i < s.len() {
        lemma_process_nonneg(s, i + 1);
    }
}

proof fn lemma_process_toggled_nonneg(s: Seq<char>, i: int, enabled: bool)
    requires
        muls_ok(s),
    ensures
        spec_process_toggled(s, i, enabled) >= 0,
    decreases s.len() - i,
{
    if 0 <= i && i < s.len() {
        lemma_process_toggled_nonneg(s, i + 1, true);
        lemma_process_toggled_nonneg(s, i + 1, false);
        lemma_process_toggled_nonneg(s, i + 1, enabled);
    }
}

impl Problem {
    /// Keep the raw instruction text.
    pub fn from_string(string: &str) -> (r: Problem)
        ensures
            r.instructions@ == string@,
    {
        Problem { instructions: string.to_owned() }
    }

    /// Sum of all `mul` products in the given text.
    pub fn process(&self, instructions: &String) -> (r: u64)
        requires
            muls_ok(instructions@),
            spec_process(instructions@, 0) <= u64::MAX,
        ensures
            r == spec_process(instructions@, 0),
    {
        let v = text::chars_of(instructions.as_str());
        let ghost s = instructions@;
        let mut total: u64 = 0;
        let mut i: usize = 0;
        while i < v.len()
            invariant
                i <= s.len(),
                v@ == s,
                muls_ok(s),
                spec_process(s, 0) <= u64::MAX,
                total + spec_process(s, i as int) == spec_process(s, 0),
                total >= 0,
            decreases s.len() - i,
        {
            proof {
                lemma_process_nonneg(s, i as int + 1);
                assert(0 <= mul_contrib(s, i as int) <= u64::MAX);
            }
            if is_mul_at(&v, i) {
                let c = contrib_at(&v, i);
                total = total + c;
            }
            i = i + 1;
        }
        total
    }

    /// Sum of all `mul` products.
    pub fn part_1(&self) -> (r: u64)
        requires
            muls_ok(self.instructions@),
            spec_process(self.instructions@, 0) <= u64::MAX,
        ensures
            r == spec_process(self.instructions@, 0),
    {
        self.process(&self.instructions)
    }

    /// Sum of the `mul` products between a `do()` and the next `don't()`,
    /// starting enabled.
    pub fn part_2(&self) -> (r: u64)
        requires
            muls_ok(self.instructions@),
            forall|i: int, e: bool|
                0 <= i <= self.instructions@.len() ==> 0 <= #[trigger] spec_process_toggled(
                    self.instructions@,
                    i,
                    e,
                ) <= u64::MAX,
        ensures
            r == spec_process_toggled(self.instructions@, 0, true),
    {
        let v = text::chars_of(self.instructions.as_str());
        let ghost s = self.instructions@;
        let mut total: u64 = 0;
        let mut enabled = true;
        let mut i: usize = 0;
        while i < v.len()
            invariant
                i <= s.len(),
                v@ == s,
                muls_ok(s),
                forall|q: int, e: bool|
                    0 <= q <= s.len() ==> 0 <= #[trigger] spec_process_toggled(s, q, e)
                        <= u64::MAX,
                total + spec_process_toggled(s, i as int, enabled) == spec_process_toggled(
                    s,
                    0,
                    true,
                ),
                total >= 0,
            decreases s.len() - i,
        {
            proof {
                lemma_process_toggled_nonneg(s, i as int + 1, true);
                lemma_process_toggled_nonneg(s, i as int + 1, false);
                assert(0 <= mul_contrib(s, i as int) <= u64::MAX);
            }
            if is_dont_at(&v, i) {
                enabled = false;
            } else if is_do_at(&v, i) {
                enabled = true;
            } else if enabled && is_mul_at(&v, i) {
                let c = contrib_at(&v, i);
                total = total + c;
            }
            i = i + 1;
        }
        total
    }
}

} // verus!
