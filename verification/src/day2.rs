//! Reactor reports: a report of levels is safe when its steps all move in
//! the report's overall direction by 1 to 3; the tolerated check may drop
//! one level next to the first offending step.
use vstd::prelude::*;
use crate::text;

verus! {

/// Sign of an integer: -1, 0 or 1.
pub open spec fn signum(x: int) -> int {
    if x > 0 {
        1
    } else if x < 0 {
        -1
    } else {
        0
    }
}

/// Sum of the step signs of a report.
pub open spec fn sum_signs(s: Seq<i32>) -> int
    decreases s.len(),
{
    if s.len() < 2 {
        0
    } else {
        sum_signs(s.drop_last()) + signum(s.last() - s[s.len() - 2])
    }
}

/// The report's average gradient: the sign of the summed step signs.
pub open spec fn gradient_of(s: Seq<i32>) -> int {
    signum(sum_signs(s))
}

/// The step starting at `i` is unsafe: it leaves the overall direction or
/// its size is outside 1 to 3.
pub open spec fn bad_at(s: Seq<i32>, i: int) -> bool {
    let d = s[i + 1] - s[i];
    signum(d) != gradient_of(s) || d > 3 || d < -3 || d == 0
}

/// The first unsafe step at or after `i`, if any.
pub open spec fn first_bad_from(s: Seq<i32>, i: int) -> Option<int>
    decreases s.len() - i,
{
    if i < 0 || i >= s.len() - 1 {
        None
    } else if bad_at(s, i) {
        Some(i)
    } else {
        first_bad_from(s, i + 1)
    }
}

/// Index of the left level of the first unsafe step.
pub open spec fn spec_unsafe_index(s: Seq<i32>) -> Option<int> {
    first_bad_from(s, 0)
}

/// A report is safe when it has no unsafe step.
pub open spec fn spec_is_safe(s: Seq<i32>) -> bool {
    spec_unsafe_index(s) is None
}

/// A report is safe with tolerance when it is safe, or becomes safe after
/// dropping the left or the right level of its first unsafe step.
pub open spec fn spec_is_safe_tolerated(s: Seq<i32>) -> bool {
    match spec_unsafe_index(s) {
        Option::None => true,
        Option::Some(i) => spec_is_safe(s.remove(i)) || spec_is_safe(s.remove(i + 1)),
    }
}

/// One report of levels.
#[derive(Debug, PartialEq, Eq)]
pub struct Report {
    pub levels: Vec<i32>,
}

impl Report {
    pub fn new(levels: Vec<i32>) -> (r: Report)
        ensures
            r.levels@ == levels@,
    {
        Report { levels }
    }

    /// Sign of the average gradient of the levels.
    pub fn gradient_sign(&self) -> (r: i32)
        ensures
            r == gradient_of(self.levels@),
    {
        let s = &self.levels;
        if s.len() < 2 {
            return 0;
        }
        let mut sum: i128 = 0;
        let mut i: usize = 1;
        proof {
            assert(s@.take(1).len() == 1);
            assert(sum_signs(s@.take(1)) == 0);
        }
        while i < s.len()
            invariant
                1 <= i <= s@.len(),
                s@.len() >= 2,
                sum == sum_signs(s@.take(i as int)),
                -(i as int) <= sum <= i as int,
            decreases s@.len() - i,
        {
            proof {
                assert(s@.take(i as int + 1).drop_last() =~= s@.take(i as int));
                assert(s@.take(i as int + 1).last() == s@[i as int]);
                assert(s@.take(i as int + 1)[i as int - 1] == s@[i as int - 1]);
            }
            let d = (s[i] as i64) - (s[i - 1] as i64);
            if d > 0 {
                sum = sum + 1;
            } else if d < 0 {
                sum = sum - 1;
            }
            i = i + 1;
        }
        proof {
            assert(s@.take(s@.len() as int) =~= s@);
        }
        if sum > 0 {
            1
        } else if sum < 0 {
            -1
        } else {
            0
        }
    }

    /// Index of the left level of the first unsafe step, if any.
    pub fn unsafe_level_index(&self) -> (r: Option<usize>)
        ensures
            r is None ==> spec_unsafe_index(self.levels@) is None,
            r is Some ==> spec_unsafe_index(self.levels@) == Option::<int>::Some(
                r.unwrap() as int,
            ),
    {
        let g = self.gradient_sign();
        let s = &self.levels;
        if s.len() < 2 {
            return None;
        }
        let mut i: usize = 0;
        while i < s.len() - 1
            invariant
                0 <= i <= s@.len() - 1,
                s@ == self.levels@,
                s@.len() >= 2,
                g == gradient_of(s@),
                first_bad_from(s@, 0) == first_bad_from(s@, i as int),
            decreases s@.len() - i,
        {
            let d = (s[i + 1] as i64) - (s[i] as i64);
            let step_sign: i32 = if d > 0 {
                1
            } else if d < 0 {
                -1
            } else {
                0
            };
            if step_sign != g || d > 3 || d < -3 || d == 0 {
                proof {
                    assert(bad_at(s@, i as int));
                    assert(first_bad_from(s@, i as int) == Option::Some(i as int));
                    assert(spec_unsafe_index(s@) == Option::Some(i as int));
                }
                return Some(i);
            }
            proof {
                assert(!bad_at(s@, i as int));
            }
            i = i + 1;
        }
        None
    }

    /// A report is safe when it has no unsafe step.
    pub fn is_safe(&self) -> (r: bool)
        ensures
            r == spec_is_safe(self.levels@),
    {
        self.unsafe_level_index().is_none()
    }

    /// Safe, or safe after dropping one level beside the first unsafe step.
    pub fn is_safe_tolerated(&self) -> (r: bool)
        ensures
            r == spec_is_safe_tolerated(self.levels@),
    {
        match self.unsafe_level_index() {
            Option::None => true,
            Option::Some(index) => {
                proof {
                    lemma_unsafe_index_in_range(self.levels@);
                }
                let without_left = self.without_level(index);
                if without_left.unsafe_level_index().is_none() {
                    true
                } else {
                    let without_right = self.without_level(index + 1);
                    without_right.unsafe_level_index().is_none()
                }
            },
        }
    }

    /// The report without the level at `idx`.
    pub fn without_level(&self, idx: usize) -> (r: Report)
        requires
            idx < self.levels@.len(),
        ensures
            r.levels@ == self.levels@.remove(idx as int),
    {
        let mut levels: Vec<i32> = Vec::new();
        let mut i: usize = 0;
        while i < self.levels.len()
            invariant
                i <= self.levels@.len(),
                idx < self.levels@.len(),
                levels@ == if i <= idx {
                    self.levels@.take(i as int)
                } else {
                    self.levels@.remove(idx as int).take(i as int - 1)
                },
            decreases self.levels@.len() - i,
        {
            if i != idx {
                levels.push(self.levels[i]);
            }
            proof {
                let full = self.levels@;
                let rem = full.remove(idx as int);
                if i < idx {
                    assert(levels@ =~= full.take(i as int + 1));
                } else if i == idx {
                    assert(levels@ =~= rem.take(i as int));
                } else {
                    assert(rem.take(i as int)[i as int - 1] == full[i as int]);
                    assert(levels@ =~= rem.take(i as int));
                }
            }
            i = i + 1;
        }
        proof {
            assert(levels@ =~= self.levels@.remove(idx as int));
        }
        Report { levels }
    }
}

/// An unsafe step needs `idx + 1` to be a valid index, so the index the
/// check returns never reaches the last level.
pub proof fn lemma_unsafe_index_in_range(s: Seq<i32>)
    ensures
        match spec_unsafe_index(s) {
            Option::None => true,
            Option::Some(i) => 0 <= i < s.len() - 1,
        },
{
    lemma_first_bad_range(s, 0);
}

proof fn lemma_first_bad_range(s: Seq<i32>, i: int)
    ensures
        match first_bad_from(s, i) {
            Option::None => true,
            Option::Some(j) => i <= j < s.len() - 1 && 0 <= j,
        },
    decreases s.len() - i,
{
    if !(i < 0 || i >= s.len() - 1) && !bad_at(s, i) {
        lemma_first_bad_range(s, i + 1);
    }
}

/// The levels of one input line.
pub open spec fn levels_of_line(l: Seq<char>) -> Seq<i32> {
    text::words_of(l).map_values(|w: Seq<char>| text::int_val(w) as i32)
}

/// Every word of every line is an integer in range.
pub open spec fn input_ok(s: Seq<char>) -> bool {
    forall|i: int, j: int|
        0 <= i < text::lines_of(s).len() && 0 <= j < text::words_of(
            #[trigger] text::lines_of(s)[i],
        ).len() ==> text::is_int_literal(#[trigger] text::words_of(text::lines_of(s)[i])[j])
            && i32::MIN <= text::int_val(text::words_of(text::lines_of(s)[i])[j]) <= i32::MAX
}

/// How many of the reports the given safety test accepts.
pub open spec fn count_safe(reports: Seq<Seq<i32>>, tolerated: bool) -> int
    decreases reports.len(),
{
    if reports.len() == 0 {
        0
    } else {
        count_safe(reports.drop_last(), tolerated) + if (tolerated && spec_is_safe_tolerated(
            reports.last(),
        )) || (!tolerated && spec_is_safe(reports.last())) {
            1int
        } else {
            0int
        }
    }
}

/// All reports of one input.
pub struct Problem {
    pub reports: Vec<Report>,
}

/// The level sequences of the problem's reports.
pub open spec fn report_views(reports: Seq<Report>) -> Seq<Seq<i32>> {
    reports.map_values(|r: Report| r.levels@)
}

impl Problem {
    /// Parse one report per line, levels separated by blanks.
    pub fn from_string(string: &str) -> (r: Problem)
        requires
            input_ok(string@),
        ensures
            report_views(r.reports@) == text::lines_of(string@).map_values(
                |l: Seq<char>| levels_of_line(l),
            ),
    {
        let chars = text::chars_of(string);
        let lines = text::split_lines(&chars);
        let ghost ls = text::lines_of(string@);
        let mut reports: Vec<Report> = Vec::new();
        let mut i: usize = 0;
        while i < lines.len()
            invariant
                i <= lines@.len(),
                text::views_of(lines@) == ls,
                ls == text::lines_of(string@),
                input_ok(string@),
                report_views(reports@) == ls.take(i as int).map_values(
                    |l: Seq<char>| levels_of_line(l),
                ),
            decreases lines@.len() - i,
        {
            let words = text::split_words(&lines[i]);
            let ghost ws = text::words_of(ls[i as int]);
            let mut levels: Vec<i32> = Vec::new();
            let mut j: usize = 0;
            proof {
                assert(lines@[i as int]@ == ls[i as int]);
                assert(text::views_of(words@) == ws);
            }
            while j < words.len()
                invariant
                    j <= words@.len(),
                    text::views_of(words@) == ws,
                    input_ok(string@),
                    ls == text::lines_of(string@),
                    0 <= i < ls.len(),
                    ws == text::words_of(ls[i as int]),
                    levels@ == ws.take(j as int).map_values(
                        |w: Seq<char>| text::int_val(w) as i32,
                    ),
                decreases words@.len() - j,
            {
                proof {
                    assert(text::is_int_literal(ws[j as int]));
                    assert(words@[j as int]@ == ws[j as int]);
                    if ws[j as int][0] == '-' {
                        text::lemma_digits_val_nonneg(ws[j as int].skip(1));
                    } else {
                        text::lemma_digits_val_nonneg(ws[j as int]);
                    }
                }
                let v = text::parse_i64(&words[j]);
                levels.push(v as i32);
                proof {
                    assert(levels@ =~= ws.take(j as int + 1).map_values(
                        |w: Seq<char>| text::int_val(w) as i32,
                    ));
                }
                j = j + 1;
            }
            proof {
                assert(ws.take(ws.len() as int) =~= ws);
            }
            let ghost pre_reports = reports@;
            let ghost lv = levels@;
            reports.push(Report { levels });
            proof {
                let target = ls.take(i as int + 1).map_values(|l: Seq<char>| levels_of_line(l));
                assert(ls.len() == lines@.len());
                assert(reports@.len() == pre_reports.len() + 1);
                assert(report_views(pre_reports).len() == pre_reports.len());
                assert(ls.take(i as int).map_values(|l: Seq<char>| levels_of_line(l)).len()
                    == i);
                assert(pre_reports.len() == i);
                assert(report_views(reports@).len() == reports@.len());
                assert(target.len() == i + 1);
                assert forall|j: int| 0 <= j < reports@.len() implies report_views(reports@)[j]
                    == target[j] by {
                    assert(report_views(reports@)[j] == reports@[j].levels@);
                    assert(target[j] == levels_of_line(ls.take(i as int + 1)[j]));
                    if j < pre_reports.len() {
                        assert(reports@[j] == pre_reports[j]);
                        assert(report_views(pre_reports)[j] == pre_reports[j].levels@);
                        assert(ls.take(i as int)[j] == ls.take(i as int + 1)[j]);
                        assert(report_views(pre_reports)[j] == ls.take(i as int).map_values(
                            |l: Seq<char>| levels_of_line(l),
                        )[j]);
                    } else {
                        assert(reports@[j].levels@ == lv);
                        assert(lv == ws.map_values(|w: Seq<char>| text::int_val(w) as i32));
                        assert(ls.take(i as int + 1)[j] == ls[i as int]);
                    }
                }
                assert(report_views(reports@) =~= target);
            }
            i = i + 1;
        }
        proof {
            assert(ls.take(ls.len() as int) =~= ls);
        }
        Problem { reports }
    }

    /// How many reports are safe.
    pub fn part_1(&self) -> (r: usize)
        ensures
            r == count_safe(report_views(self.reports@), false),
    {
        let mut n: usize = 0;
        let mut i: usize = 0;
        let ghost rv = report_views(self.reports@);
        while i < self.reports.len()
            invariant
                i <= self.reports@.len(),
                rv == report_views(self.reports@),
                n == count_safe(rv.take(i as int), false),
                0 <= n <= i,
            decreases self.reports@.len() - i,
        {
            proof {
                assert(rv.take(i as int + 1).drop_last() =~= rv.take(i as int));
                assert(rv.take(i as int + 1).last() == rv[i as int]);
                assert(rv[i as int] == self.reports@[i as int].levels@);
            }
            if self.reports[i].is_safe() {
                n = n + 1;
            }
            i = i + 1;
        }
        proof {
            assert(rv.take(rv.len() as int) =~= rv);
        }
        n
    }

    /// How many reports are safe with one level of tolerance.
    pub fn part_2(&self) -> (r: usize)
        ensures
            r == count_safe(report_views(self.reports@), true),
    {
        let mut n: usize = 0;
        let mut i: usize = 0;
        let ghost rv = report_views(self.reports@);
        while i < self.reports.len()
            invariant
                i <= self.reports@.len(),
                rv == report_views(self.reports@),
                n == count_safe(rv.take(i as int), true),
                0 <= n <= i,
            decreases self.reports@.len() - i,
        {
            proof {
                assert(rv.take(i as int + 1).drop_last() =~= rv.take(i as int));
                assert(rv.take(i as int + 1).last() == rv[i as int]);
                assert(rv[i as int] == self.reports@[i as int].levels@);
            }
            if self.reports[i].is_safe_tolerated() {
                n = n + 1;
            }
            i = i + 1;
        }
        proof {
            assert(rv.take(rv.len() as int) =~= rv);
        }
        n
    }
}

} // verus!
