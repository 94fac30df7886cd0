//! Two columns of location numbers: their total distance once both are
//! sorted, and a similarity score weighting each left entry by how often it
//! occurs on the right.
use vstd::prelude::*;
use vstd::multiset::Multiset;
use crate::text;

verus! {

/// Numeric order on `u32`.
pub open spec fn u32_leq() -> spec_fn(u32, u32) -> bool {
    |a: u32, b: u32| a <= b
}

/// Ascending order, every pair of positions.
pub open spec fn sorted(s: Seq<u32>) -> bool {
    forall|i: int, j: int| 0 <= i <= j < s.len() ==> s[i] <= s[j]
}

/// The input: one pair of numbers per line.
pub open spec fn line_ok(l: Seq<char>) -> bool {
    let ws = text::words_of(l);
    ws.len() >= 2 && ws[0].len() >= 1 && text::all_digits(ws[0]) && text::digits_val(ws[0])
        <= u32::MAX && ws[1].len() >= 1 && text::all_digits(ws[1]) && text::digits_val(ws[1])
        <= u32::MAX
}

/// Every line of the input holds two numbers.
pub open spec fn input_ok(s: Seq<char>) -> bool {
    forall|i: int| 0 <= i < text::lines_of(s).len() ==> line_ok(#[trigger] text::lines_of(s)[i])
}

/// The left number of each line.
pub open spec fn left_of(s: Seq<char>) -> Seq<u32> {
    text::lines_of(s).map_values(|l: Seq<char>| text::digits_val(text::words_of(l)[0]) as u32)
}

/// The right number of each line.
pub open spec fn right_of(s: Seq<char>) -> Seq<u32> {
    text::lines_of(s).map_values(|l: Seq<char>| text::digits_val(text::words_of(l)[1]) as u32)
}

/// Distance between paired entries.
pub open spec fn abs_diff(a: u32, b: u32) -> int {
    if a >= b {
        a - b
    } else {
        b - a
    }
}

/// Total distance between two equally long columns, paired by position.
pub open spec fn sum_abs_diff(a: Seq<u32>, b: Seq<u32>) -> int
    decreases a.len(),
{
    if a.len() == 0 || b.len() == 0 {
        0
    } else {
        sum_abs_diff(a.drop_last(), b.drop_last()) + abs_diff(a.last(), b.last())
    }
}

/// How often `v` occurs in `s`.
pub open spec fn count_in(s: Seq<u32>, v: u32) -> int
    decreases s.len(),
{
    if s.len() == 0 {
        0
    } else {
        count_in(s.drop_last(), v) + if s.last() == v {
            1int
        } else {
            0int
        }
    }
}

/// Similarity score: each left entry weighted by its frequency on the right.
pub open spec fn sim_score(l: Seq<u32>, r: Seq<u32>) -> int
    decreases l.len(),
{
    if l.len() == 0 {
        0
    } else {
        sim_score(l.drop_last(), r) + l.last() * count_in(r, l.last())
    }
}

/// Two sorted sequences over the same multiset are equal.
proof fn lemma_sorted_unique(a: Seq<u32>, b: Seq<u32>)
    requires
        sorted(a),
        sorted(b),
        a.to_multiset() == b.to_multiset(),
    ensures
        a == b,
    decreases a.len(),
{
    broadcast use vstd::seq_lib::group_to_multiset_ensures;
    broadcast use vstd::multiset::group_multiset_axioms;

    a.to_multiset_ensures();
    b.to_multiset_ensures();
    assert(a.len() == b.len());
    if a.len() > 0 {
        assert(a.to_multiset().contains(a.last())) by {
            assert(a[a.len() - 1] == a.last());
        }
        assert(b.to_multiset().contains(b.last())) by {
            assert(b[b.len() - 1] == b.last());
        }
        let ia = choose|i: int| 0 <= i < a.len() && a[i] == b.last();
        assert(a.contains(b.last()));
        let ib = choose|i: int| 0 <= i < b.len() && b[i] == a.last();
        assert(b.contains(a.last()));
        assert(a.last() == b.last()) by {
            assert(a[ia] <= a[a.len() - 1]);
            assert(b[ib] <= b[b.len() - 1]);
        }
        assert(a.drop_last().to_multiset() =~= a.to_multiset().remove(a.last())) by {
            assert(a.remove(a.len() - 1) =~= a.drop_last());
        }
        assert(b.drop_last().to_multiset() =~= b.to_multiset().remove(b.last())) by {
            assert(b.remove(b.len() - 1) =~= b.drop_last());
        }
        assert(sorted(a.drop_last()));
        assert(sorted(b.drop_last()));
        lemma_sorted_unique(a.drop_last(), b.drop_last());
        assert(a =~= b) by {
            assert(a.len() == b.len());
            assert(forall|i: int| 0 <= i < a.len() - 1 ==> a[i] == a.drop_last()[i]);
            assert(forall|i: int| 0 <= i < b.len() - 1 ==> b[i] == b.drop_last()[i]);
        }
    } else {
        assert(a =~= b);
    }
}

/// Sort a column ascending by repeatedly extracting the least entry.
fn sort_u32(v: &Vec<u32>) -> (r: Vec<u32>)
    ensures
        r@.to_multiset() == v@.to_multiset(),
        sorted(r@),
        r@.len() == v@.len(),
{
    broadcast use vstd::seq_lib::group_to_multiset_ensures;
    broadcast use vstd::multiset::group_multiset_axioms;

    let mut rest: Vec<u32> = Vec::new();
    let mut i: usize = 0;
    while i < v.len()
        invariant
            i <= v@.len(),
            rest@ == v@.take(i as int),
        decreases v@.len() - i,
    {
        rest.push(v[i]);
        proof {
            assert(rest@ =~= v@.take(i as int + 1));
        }
        i = i + 1;
    }
    proof {
        assert(v@.take(v@.len() as int) =~= v@);
    }
    let mut out: Vec<u32> = Vec::new();
    while rest.len() > 0
        invariant
            out@.to_multiset().add(rest@.to_multiset()) =~= v@.to_multiset(),
            sorted(out@),
            forall|x: int, y: int|
                0 <= x < out@.len() && 0 <= y < rest@.len() ==> out@[x] <= rest@[y],
            out@.len() + rest@.len() == v@.len(),
        decreases rest@.len(),
    {
        // find the least remaining entry
        let mut m: usize = 0;
        let mut j: usize = 1;
        while j < rest.len()
            invariant
                m < j <= rest@.len(),
                rest@.len() > 0,
                forall|y: int| 0 <= y < j ==> rest@[m as int] <= rest@[y],
            decreases rest@.len() - j,
        {
            if rest[j] < rest[m] {
                m = j;
            }
            j = j + 1;
        }
        let ghost pre_out = out@;
        let ghost pre_rest = rest@;
        let x = rest.remove(m);
        out.push(x);
        proof {
            pre_rest.to_multiset_ensures();
            pre_out.to_multiset_ensures();
            assert(pre_rest.remove(m as int).to_multiset() =~= pre_rest.to_multiset().remove(x))
                by {
                assert(pre_rest[m as int] == x);
            }
            assert(out@ =~= pre_out.push(x));
            assert(out@.to_multiset() =~= pre_out.to_multiset().insert(x));
            assert(out@.to_multiset().add(rest@.to_multiset()) =~= v@.to_multiset()) by {
                assert(pre_rest.to_multiset().contains(x)) by {
                    assert(pre_rest[m as int] == x);
                }
            }
            assert(sorted(out@)) by {
                assert(forall|i: int| 0 <= i < pre_out.len() ==> out@[i] == pre_out[i]);
                assert(out@.last() == x);
                assert(forall|i: int| 0 <= i < pre_out.len() ==> pre_out[i] <= x);
            }
            assert forall|xx: int, y: int|
                0 <= xx < out@.len() && 0 <= y < rest@.len() implies out@[xx] <= rest@[y] by {
                assert(rest@ == pre_rest.remove(m as int));
                let orig: int = if y < m { y } else { y + 1 };
                assert(rest@[y] == pre_rest[orig]);
                if xx < pre_out.len() {
                    assert(out@[xx] == pre_out[xx]);
                } else {
                    assert(out@[xx] == x);
                    assert(pre_rest[m as int] <= pre_rest[orig]);
                }
            }
        }
    }
    proof {
        assert(rest@.to_multiset() =~= Multiset::<u32>::empty());
        assert(out@.to_multiset() =~= v@.to_multiset());
    }
    out
}

/// The two columns of the input.
pub struct Problem {
    pub left: Vec<u32>,
    pub right: Vec<u32>,
}

impl Problem {
    /// Parse one number pair per line.
    pub fn from_string(string: String) -> (r: Problem)
        requires
            input_ok(string@),
        ensures
            r.left@ == left_of(string@),
            r.right@ == right_of(string@),
            r.left@.len() == r.right@.len(),
    {
        let chars = text::chars_of(string.as_str());
        let lines = text::split_lines(&chars);
        let mut left: Vec<u32> = Vec::new();
        let mut right: Vec<u32> = Vec::new();
        let mut i: usize = 0;
        let ghost ls = text::lines_of(string@);
        while i < lines.len()
            invariant
                i <= lines@.len(),
                text::views_of(lines@) == ls,
                input_ok(string@),
                ls == text::lines_of(string@),
                left@.len() == i,
                right@.len() == i,
                forall|k: int|
                    0 <= k < i ==> left@[k] == text::digits_val(
                        text::words_of(ls[k])[0],
                    ) as u32,
                forall|k: int|
                    0 <= k < i ==> right@[k] == text::digits_val(
                        text::words_of(ls[k])[1],
                    ) as u32,
            decreases lines@.len() - i,
        {
            proof {
                assert(line_ok(ls[i as int]));
                assert(lines@[i as int]@ == ls[i as int]);
            }
            let words = text::split_words(&lines[i]);
            proof {
                assert(text::words_of(ls[i as int]).len() >= 2);
                assert(words@.len() >= 2);
            }
            proof {
                assert(lines@[i as int]@ == ls[i as int]);
                assert(text::views_of(words@) == text::words_of(ls[i as int]));
                assert(words@[0]@ == text::words_of(ls[i as int])[0]);
                assert(words@[1]@ == text::words_of(ls[i as int])[1]);
                text::lemma_digits_val_nonneg(words@[0]@);
                text::lemma_digits_val_nonneg(words@[1]@);
            }
            let a = text::parse_u64(&words[0]);
            let b = text::parse_u64(&words[1]);
            left.push(a as u32);
            right.push(b as u32);
            i = i + 1;
        }
        proof {
            assert(left@ =~= left_of(string@));
            assert(right@ =~= right_of(string@));
        }
        Problem { left, right }
    }

    /// Total distance: pair the sorted columns and add up the gaps.
    pub fn part_1(&self) -> (r: u32)
        requires
            self.left@.len() == self.right@.len(),
            sum_abs_diff(self.left@.sort_by(u32_leq()), self.right@.sort_by(u32_leq()))
                <= u32::MAX,
        ensures
            r == sum_abs_diff(self.left@.sort_by(u32_leq()), self.right@.sort_by(u32_leq())),
    {
        let left = sort_u32(&self.left);
        let right = sort_u32(&self.right);
        proof {
            self.left@.lemma_sort_by_ensures(u32_leq());
            self.right@.lemma_sort_by_ensures(u32_leq());
            assert(sorted(self.left@.sort_by(u32_leq()))) by {
                let sb = self.left@.sort_by(u32_leq());
                assert(forall|i: int, j: int|
                    0 <= i <= j < sb.len() ==> u32_leq()(sb[i], sb[j]));
            }
            assert(sorted(self.right@.sort_by(u32_leq()))) by {
                let sb = self.right@.sort_by(u32_leq());
                assert(forall|i: int, j: int|
                    0 <= i <= j < sb.len() ==> u32_leq()(sb[i], sb[j]));
            }
            lemma_sorted_unique(left@, self.left@.sort_by(u32_leq()));
            lemma_sorted_unique(right@, self.right@.sort_by(u32_leq()));
        }
        let ghost la = left@;
        let ghost ra = right@;
        let mut total: u32 = 0;
        let mut i: usize = 0;
        proof {
            lemma_sum_abs_prefix(la, ra, 0);
        }
        while i < left.len()
            invariant
                i <= la.len(),
                la == left@,
                ra == right@,
                la.len() == ra.len(),
                sum_abs_diff(la, ra) <= u32::MAX,
                total == sum_abs_diff(la.take(i as int), ra.take(i as int)),
            decreases la.len() - i,
        {
            proof {
                assert(la.take(i as int + 1).drop_last() =~= la.take(i as int));
                assert(ra.take(i as int + 1).drop_last() =~= ra.take(i as int));
                lemma_sum_abs_prefix(la, ra, i as int + 1);
                lemma_sum_abs_nonneg(la.take(i as int), ra.take(i as int));
            }
            let a = left[i];
            let b = right[i];
            let d = if a >= b {
                a - b
            } else {
                b - a
            };
            total = total + d;
            i = i + 1;
        }
        proof {
            assert(la.take(la.len() as int) =~= la);
            assert(ra.take(ra.len() as int) =~= ra);
        }
        total
    }

    /// Similarity score: each left entry times its frequency on the right.
    pub fn part_2(&self) -> (r: u32)
        requires
            sim_score(self.left@, self.right@) <= u32::MAX,
        ensures
            r == sim_score(self.left@, self.right@),
    {
        let l = &self.left;
        let rt = &self.right;
        let mut total: u32 = 0;
        let mut i: usize = 0;
        while i < l.len()
            invariant
                i <= l@.len(),
                sim_score(l@, rt@) <= u32::MAX,
                total == sim_score(l@.take(i as int), rt@),
            decreases l@.len() - i,
        {
            let x = l[i];
            // count occurrences of x on the right
            let mut c: usize = 0;
            let mut j: usize = 0;
            while j < rt.len()
                invariant
                    j <= rt@.len(),
                    c == count_in(rt@.take(j as int), x),
                    0 <= c <= j,
                decreases rt@.len() - j,
            {
                proof {
                    assert(rt@.take(j as int + 1).drop_last() =~= rt@.take(j as int));
                    lemma_count_in_nonneg(rt@.take(j as int), x);
                }
                if rt[j] == x {
                    c = c + 1;
                }
                j = j + 1;
            }
            proof {
                assert(rt@.take(rt@.len() as int) =~= rt@);
                assert(l@.take(i as int + 1).drop_last() =~= l@.take(i as int));
                assert(l@.take(i as int + 1).last() == x);
                lemma_sim_prefix(l@, rt@, i as int + 1);
                lemma_sim_nonneg(l@.take(i as int), rt@);
                lemma_count_in_nonneg(rt@, x);
                assert(x * count_in(rt@, x) >= 0) by (nonlinear_arith)
                    requires
                        count_in(rt@, x) >= 0,
                ;
            }
            let prod = (x as u128) * (c as u128);
            proof {
                assert(prod == x * count_in(rt@, x));
                assert(prod <= u32::MAX);
            }
            total = total + (prod as u32);
            i = i + 1;
        }
        proof {
            assert(l@.take(l@.len() as int) =~= l@);
        }
        total
    }
}

/// Counts are non-negative.
proof fn lemma_count_in_nonneg(s: Seq<u32>, v: u32)
    ensures
        0 <= count_in(s, v) <= s.len(),
    decreases s.len(),
{
    if s.len() > 0 {
        lemma_count_in_nonneg(s.drop_last(), v);
    }
}

/// Distance sums are non-negative.
proof fn lemma_sum_abs_nonneg(a: Seq<u32>, b: Seq<u32>)
    ensures
        sum_abs_diff(a, b) >= 0,
    decreases a.len(),
{
    if a.len() > 0 && b.len() > 0 {
        lemma_sum_abs_nonneg(a.drop_last(), b.drop_last());
    }
}

/// Partial distance sums stay below the whole sum.
proof fn lemma_sum_abs_prefix(a: Seq<u32>, b: Seq<u32>, i: int)
    requires
        0 <= i <= a.len(),
        a.len() == b.len(),
    ensures
        sum_abs_diff(a.take(i), b.take(i)) <= sum_abs_diff(a, b),
    decreases a.len() - i,
{
    if i == a.len() {
        assert(a.take(i) =~= a);
        assert(b.take(i) =~= b);
    } else {
        lemma_sum_abs_prefix(a, b, i + 1);
        assert(a.take(i + 1).drop_last() =~= a.take(i));
        assert(b.take(i + 1).drop_last() =~= b.take(i));
    }
}

/// Partial similarity scores stay below the whole score.
proof fn lemma_sim_prefix(l: Seq<u32>, r: Seq<u32>, i: int)
    requires
        0 <= i <= l.len(),
    ensures
        sim_score(l.take(i), r) <= sim_score(l, r),
    decreases l.len() - i,
{
    if i == l.len() {
        assert(l.take(i) =~= l);
    } else {
        lemma_sim_prefix(l, r, i + 1);
        assert(l.take(i + 1).drop_last() =~= l.take(i));
        assert(l.take(i + 1).last() == l[i]);
        lemma_count_in_nonneg(r, l[i]);
        assert(l[i] * count_in(r, l[i]) >= 0) by (nonlinear_arith)
            requires
                count_in(r, l[i]) >= 0,
        ;
    }
}

/// Whole-prefix similarity scores are non-negative.
proof fn lemma_sim_nonneg(l: Seq<u32>, r: Seq<u32>)
    ensures
        sim_score(l, r) >= 0,
    decreases l.len(),
{
    if l.len() > 0 {
        lemma_sim_nonneg(l.drop_last(), r);
        lemma_count_in_nonneg(r, l.last());
        assert(l.last() * count_in(r, l.last()) >= 0) by (nonlinear_arith)
            requires
                count_in(r, l.last()) >= 0,
        ;
    }
}

} // verus!
