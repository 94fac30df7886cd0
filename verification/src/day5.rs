//! Print queue ordering: rules `a|b` say page `a` must precede page `b`;
//! sum the middle pages of the correctly ordered updates, and of the
//! incorrectly ordered ones once reordered.
use vstd::prelude::*;
use vstd::multiset::Multiset;
use crate::text;

verus! {

/// Some rule orders `a` before `b`.
pub open spec fn rule_exists(rules: Seq<(u32, u32)>, a: u32, b: u32) -> bool {
    exists|k: int| 0 <= k < rules.len() && #[trigger] rules[k] == (a, b)
}

/// No page is preceded by a page that must come after it.
pub open spec fn update_valid(rules: Seq<(u32, u32)>, u: Seq<u32>) -> bool {
    forall|i: int, j: int| 0 <= i < j < u.len() ==> !rule_exists(rules, #[trigger] u[j], #[trigger] u[i])
}

/// The predicate selecting updates by validity.
pub open spec fn valid_pred(rules: Seq<(u32, u32)>, keep_valid: bool) -> spec_fn(Seq<u32>) -> bool {
    |u: Seq<u32>| update_valid(rules, u) == keep_valid
}

/// No rule orders any page of the collection before `p`.
pub open spec fn no_pred(rules: Seq<(u32, u32)>, ms: Multiset<u32>, p: u32) -> bool {
    ms.contains(p) && forall|x: u32| ms.contains(x) ==> !rule_exists(rules, x, p)
}

/// Every nonempty collection drawn from the pages has a page that none of
/// its pages must precede: the rules order these pages without a cycle.
pub open spec fn orderable(rules: Seq<(u32, u32)>, ms: Multiset<u32>) -> bool {
    forall|sub: Multiset<u32>|
        #[trigger] sub.subset_of(ms) && sub.len() > 0 ==> exists|p: u32| no_pred(rules, sub, p)
}

/// The page at index `m` has no rule-predecessor at another index.
pub open spec fn seq_free(rules: Seq<(u32, u32)>, s: Seq<u32>, m: int) -> bool {
    forall|q: int| 0 <= q < s.len() && q != m ==> !rule_exists(rules, #[trigger] s[q], s[m])
}

/// The views of a list of updates.
pub open spec fn update_views(us: Seq<Vec<u32>>) -> Seq<Seq<u32>> {
    us.map_values(|u: Vec<u32>| u@)
}

/// Sum of the middle pages.
pub open spec fn sum_mid(us: Seq<Seq<u32>>) -> int
    decreases us.len(),
{
    if us.len() == 0 {
        0
    } else {
        sum_mid(us.drop_last()) + if us.last().len() > 0 {
            us.last()[(us.last().len() - 1) as int / 2] as int
        } else {
            0int
        }
    }
}

/// Widening to `u32`, as a function value.
pub open spec fn to_u32_fn() -> spec_fn(int) -> u32 {
    |v: int| v as u32
}

/// The first blank line at or after `i`, or the line count if none.
pub open spec fn first_blank(ls: Seq<Seq<char>>, i: int) -> int
    decreases ls.len() - i,
{
    if i < 0 || i >= ls.len() {
        i
    } else if ls[i].len() == 0 {
        i
    } else {
        first_blank(ls, i + 1)
    }
}

/// `first_blank` stays between its start and the line count.
proof fn lemma_first_blank_range(ls: Seq<Seq<char>>, i: int)
    requires
        0 <= i,
    ensures
        i <= first_blank(ls, i),
        first_blank(ls, i) <= ls.len() || i >= ls.len(),
    decreases ls.len() - i,
{
    if i < ls.len() && ls[i].len() > 0 {
        lemma_first_blank_range(ls, i + 1);
    }
}

/// The expected input shape: every number in range; before the first
/// blank line every line holds at least two numbers, after it at least
/// one and no line is blank.
pub open spec fn day5_input_ok(s: Seq<char>) -> bool {
    let ls = text::lines_of(s);
    let fb = first_blank(ls, 0);
    &&& (forall|i: int, p: Seq<char>|
        0 <= i < ls.len() && text::split_if(#[trigger] ls[i], text::non_number_pred()).contains(p)
            && text::is_int_literal(p) ==> 0 <= #[trigger] text::int_val(p) <= u32::MAX)
    &&& (forall|i: int|
        0 <= i < fb ==> text::numbers_of(#[trigger] ls[i]).len() >= 2)
    &&& (forall|i: int|
        fb < i < ls.len() ==> (#[trigger] ls[i]).len() > 0 && text::numbers_of(ls[i]).len() >= 1)
}

/// The ordering rules and the page updates of one input.
#[derive(Debug)]
pub struct Problem {
    pub rules: Vec<(u32, u32)>,
    pub updates: Vec<Vec<u32>>,
}

impl Problem {
    /// Parse rules up to the first blank line, updates after it: each
    /// rule line holds its two numbers, each update line its number list.
    pub fn from_string(string: &str) -> (r: Problem)
        requires
            day5_input_ok(string@),
        ensures
            r.rules@.len() == first_blank(text::lines_of(string@), 0),
            forall|k: int|
                0 <= k < r.rules@.len() ==> #[trigger] r.rules@[k] == (text::numbers_of(
                    text::lines_of(string@)[k],
                )[0] as u32, text::numbers_of(text::lines_of(string@)[k])[1] as u32),
            r.updates@.len() == text::lines_of(string@).len() - first_blank(
                text::lines_of(string@),
                0,
            ) - 1 || (r.updates@.len() == 0 && first_blank(text::lines_of(string@), 0)
                >= text::lines_of(string@).len()),
            forall|j: int|
                0 <= j < r.updates@.len() ==> (#[trigger] r.updates@[j])@ == text::numbers_of(
                    text::lines_of(string@)[first_blank(text::lines_of(string@), 0) + 1 + j],
                ).map_values(to_u32_fn()),
    {
        let chars = text::chars_of(string);
        let lines = text::split_lines(&chars);
        let mut rules: Vec<(u32, u32)> = Vec::new();
        let mut updates: Vec<Vec<u32>> = Vec::new();
        let ghost ls = text::lines_of(string@);
        let ghost fb = first_blank(ls, 0);
        // the rule section runs up to the first blank line
        let mut i: usize = 0;
        while i < lines.len() && lines[i].len() > 0
            invariant
                i <= ls.len(),
                text::views_of(lines@) == ls,
                ls == text::lines_of(string@),
                fb == first_blank(ls, 0),
                day5_input_ok(string@),
                first_blank(ls, 0) == first_blank(ls, i as int),
                rules@.len() == i,
                forall|k: int|
                    0 <= k < i ==> #[trigger] rules@[k] == (text::numbers_of(ls[k])[0] as u32,
                    text::numbers_of(ls[k])[1] as u32),
            decreases ls.len() - i,
        {
            proof {
                assert(lines@[i as int]@ == ls[i as int]);
                assert(ls[i as int].len() > 0);
                lemma_first_blank_range(ls, i as int + 1);
                assert(first_blank(ls, i as int) == first_blank(ls, i as int + 1));
                assert(i < fb);
                assert(text::numbers_of(ls[i as int]).len() >= 2);
                text::lemma_numbers_of_bounds(ls[i as int], 0, u32::MAX as int);
            }
            let nums = text::extract_numbers(&lines[i]);
            proof {
                assert(nums@.map_values(text::to_int_fn()).len() == nums@.len());
                assert(nums@[0] as int == text::numbers_of(ls[i as int])[0]);
                assert(nums@[1] as int == text::numbers_of(ls[i as int])[1]);
            }
            let a = nums[0];
            let b = nums[1];
            rules.push((a as u32, b as u32));
            i = i + 1;
        }
        proof {
            if i < ls.len() {
                assert(ls[i as int].len() == 0);
                assert(first_blank(ls, i as int) == i);
            } else {
                lemma_first_blank_range(ls, i as int);
            }
            assert(fb == i);
        }
        // the update section follows the blank line
        if i < lines.len() {
        let mut j: usize = i + 1;
        while j < lines.len()
            invariant
                i + 1 <= j,
                j <= ls.len() || j == i + 1,
                i < ls.len(),
                i as int == fb,
                text::views_of(lines@) == ls,
                ls == text::lines_of(string@),
                fb == first_blank(ls, 0),
                day5_input_ok(string@),
                updates@.len() == j - i - 1,
                forall|q: int|
                    0 <= q < updates@.len() ==> (#[trigger] updates@[q])@ == text::numbers_of(
                        ls[fb + 1 + q],
                    ).map_values(to_u32_fn()),
            decreases ls.len() - j,
        {
            proof {
                assert(lines@[j as int]@ == ls[j as int]);
                assert(fb < j < ls.len());
                assert(text::numbers_of(ls[j as int]).len() >= 1);
                text::lemma_numbers_of_bounds(ls[j as int], 0, u32::MAX as int);
            }
            let nums = text::extract_numbers(&lines[j]);
            let ghost gn = text::numbers_of(ls[j as int]);
            proof {
                assert(nums@.map_values(text::to_int_fn()).len() == nums@.len());
                assert forall|q: int| 0 <= q < nums@.len() implies #[trigger] nums@[q] as int
                    == gn[q] by {
                    assert(gn[q] == nums@.map_values(text::to_int_fn())[q]);
                }
            }
            let mut update: Vec<u32> = Vec::new();
            let mut k: usize = 0;
            while k < nums.len()
                invariant
                    k <= nums@.len(),
                    gn.len() == nums@.len(),
                    forall|q: int| 0 <= q < nums@.len() ==> #[trigger] nums@[q] as int == gn[q],
                    forall|q: int| 0 <= q < gn.len() ==> 0 <= #[trigger] gn[q] <= u32::MAX,
                    update@ == gn.take(k as int).map_values(to_u32_fn()),
                decreases nums@.len() - k,
            {
                let v = nums[k];
                let ghost pre = update@;
                update.push(v as u32);
                proof {
                    let f = to_u32_fn();
                    let tb = gn.take(k as int + 1);
                    assert(tb.drop_last() =~= gn.take(k as int));
                    assert(tb.last() == gn[k as int]);
                    assert(update@ == pre.push(v as u32));
                    assert(pre.len() == k);
                    assert forall|q: int| 0 <= q < update@.len() implies update@[q]
                        == tb.map_values(f)[q] by {
                        assert(tb.map_values(f)[q] == f(tb[q]));
                        if q < k {
                            assert(update@[q] == pre[q]);
                            assert(pre[q] == gn.take(k as int).map_values(f)[q]);
                            assert(tb[q] == gn.take(k as int)[q]);
                        } else {
                            assert(update@[q] == v as u32);
                            assert(tb[q] == gn[k as int]);
                        }
                    }
                    assert(update@ =~= tb.map_values(f));
                }
                k = k + 1;
            }
            proof {
                assert(gn.take(gn.len() as int) =~= gn);
            }
            let ghost pre_updates = updates@;
            updates.push(update);
            proof {
                assert forall|q: int| 0 <= q < updates@.len() implies (#[trigger] updates@[q])@
                    == text::numbers_of(ls[fb + 1 + q]).map_values(to_u32_fn()) by {
                    if q < pre_updates.len() {
                        assert(updates@[q] == pre_updates[q]);
                    } else {
                        assert(fb + 1 + q == j as int);
                    }
                }
            }
            j = j + 1;
        }
        }
        Problem { rules, updates }
    }

    /// The updates the rules accept.
    pub fn valid_updates(&self) -> (r: Vec<Vec<u32>>)
        ensures
            update_views(r@) == update_views(self.updates@).filter(valid_pred(self.rules@, true)),
    {
        self.filter_updates(true)
    }

    /// The updates the rules reject.
    pub fn invalid_updates(&self) -> (r: Vec<Vec<u32>>)
        ensures
            update_views(r@) == update_views(self.updates@).filter(valid_pred(self.rules@, false)),
    {
        self.filter_updates(false)
    }

    /// The updates whose validity matches `keep_valid`.
    pub fn filter_updates(&self, keep_valid: bool) -> (r: Vec<Vec<u32>>)
        ensures
            update_views(r@) == update_views(self.updates@).filter(
                valid_pred(self.rules@, keep_valid),
            ),
    {
        let ghost pred = valid_pred(self.rules@, keep_valid);
        let ghost uv = update_views(self.updates@);
        let mut out: Vec<Vec<u32>> = Vec::new();
        let mut i: usize = 0;
        proof {
            reveal(Seq::filter);
            assert(uv.take(0).filter(pred) =~= Seq::<Seq<u32>>::empty());
            assert(update_views(out@) =~= uv.take(0).filter(pred));
        }
        while i < self.updates.len()
            invariant
                i <= self.updates@.len(),
                pred == valid_pred(self.rules@, keep_valid),
                uv == update_views(self.updates@),
                update_views(out@) == uv.take(i as int).filter(pred),
            decreases self.updates@.len() - i,
        {
            let u = &self.updates[i];
            proof {
                assert(u@ == uv[i as int]);
                reveal(Seq::filter);
                assert(uv.take(i as int + 1).drop_last() =~= uv.take(i as int));
                assert(uv.take(i as int + 1).last() == uv[i as int]);
            }
            let ok = self.update_is_valid(u);
            let ghost pre = update_views(out@);
            if ok == keep_valid {
                proof {
                    assert(pred(uv[i as int]));
                }
                let copy = copy_update(u);
                out.push(copy);
                proof {
                    assert(update_views(out@) =~= pre.push(u@));
                    assert(update_views(out@) =~= uv.take(i as int + 1).filter(pred));
                }
            } else {
                proof {
                    assert(!pred(uv[i as int]));
                    assert(update_views(out@) =~= uv.take(i as int + 1).filter(pred));
                }
            }
            i = i + 1;
        }
        proof {
            assert(uv.take(uv.len() as int) =~= uv);
        }
        out
    }

    /// Whether the rules accept the update's order.
    fn update_is_valid(&self, u: &Vec<u32>) -> (r: bool)
        ensures
            r == update_valid(self.rules@, u@),
    {
        let mut j: usize = 0;
        while j < u.len()
            invariant
                j <= u@.len(),
                forall|a: int, b: int| 0 <= a < b < j ==> !rule_exists(self.rules@, #[trigger] u@[b], #[trigger] u@[a]),
            decreases u@.len() - j,
        {
            let mut i: usize = 0;
            while i < j
                invariant
                    i <= j < u@.len(),
                    forall|a: int| 0 <= a < i ==> !rule_exists(self.rules@, u@[j as int], #[trigger] u@[a]),
                decreases j - i,
            {
                if self.has_rule(u[j], u[i]) {
                    proof {
                        assert(rule_exists(self.rules@, u@[j as int], u@[i as int]));
                    }
                    return false;
                }
                i = i + 1;
            }
            j = j + 1;
        }
        true
    }

    /// Whether the rule `a|b` is present.
    fn has_rule(&self, a: u32, b: u32) -> (r: bool)
        ensures
            r == rule_exists(self.rules@, a, b),
    {
        let mut k: usize = 0;
        while k < self.rules.len()
            invariant
                k <= self.rules@.len(),
                forall|q: int| 0 <= q < k ==> #[trigger] self.rules@[q] != (a, b),
            decreases self.rules@.len() - k,
        {
            let pair = self.rules[k];
            if pair.0 == a && pair.1 == b {
                proof {
                    assert(self.rules@[k as int] == (a, b));
                }
                return true;
            }
            k = k + 1;
        }
        proof {
            if rule_exists(self.rules@, a, b) {
                let w = choose|q: int| 0 <= q < self.rules@.len() && #[trigger] self.rules@[q] == (a, b);
                assert(self.rules@[w] != (a, b));
            }
        }
        false
    }

    /// Reorder an update so that the rules accept it, by repeatedly taking
    /// a page that no remaining page must precede.  Where the rules order
    /// the update's pages without a cycle, the result is correctly ordered.
    fn reorder(&self, u: &Vec<u32>) -> (r: Vec<u32>)
        ensures
            r@.to_multiset() == u@.to_multiset(),
            r@.len() == u@.len(),
            orderable(self.rules@, u@.to_multiset()) ==> update_valid(self.rules@, r@),
    {
        broadcast use vstd::seq_lib::group_to_multiset_ensures;
        broadcast use vstd::multiset::group_multiset_axioms;

        let ghost ord = orderable(self.rules@, u@.to_multiset());
        let mut rest = copy_update(u);
        let mut out: Vec<u32> = Vec::new();
        while rest.len() > 0
            invariant
                out@.to_multiset().add(rest@.to_multiset()) =~= u@.to_multiset(),
                out@.len() + rest@.len() == u@.len(),
                ord == orderable(self.rules@, u@.to_multiset()),
                ord ==> update_valid(self.rules@, out@),
                ord ==> forall|oi: int, rj: int|
                    0 <= oi < out@.len() && 0 <= rj < rest@.len() ==> !rule_exists(
                        self.rules@,
                        #[trigger] rest@[rj],
                        #[trigger] out@[oi],
                    ),
            decreases rest@.len(),
        {
            // find a page that no other remaining page is ruled to precede
            let mut pick: usize = 0;
            let mut found = false;
            let mut m: usize = 0;
            while m < rest.len() && !found
                invariant
                    rest@.len() > 0,
                    pick < rest@.len(),
                    m <= rest@.len(),
                    found ==> seq_free(self.rules@, rest@, pick as int),
                    !found ==> forall|m2: int|
                        0 <= m2 < m ==> !seq_free(self.rules@, rest@, m2),
                decreases rest@.len() - m,
            {
                // is rest[m] free of predecessors among the rest?
                let mut q: usize = 0;
                let mut free = true;
                while q < rest.len()
                    invariant
                        q <= rest@.len(),
                        m < rest@.len(),
                        free == (forall|q2: int|
                            0 <= q2 < q && q2 != m ==> !rule_exists(
                                self.rules@,
                                #[trigger] rest@[q2],
                                rest@[m as int],
                            )),
                    decreases rest@.len() - q,
                {
                    if q != m && self.has_rule(rest[q], rest[m]) {
                        free = false;
                    }
                    q = q + 1;
                }
                if free {
                    pick = m;
                    found = true;
                }
                m = m + 1;
            }
            proof {
                // without a cycle among the remaining pages, some page is free
                if ord && !found {
                    rest@.to_multiset_ensures();
                    let rms = rest@.to_multiset();
                    assert forall|x: u32| rms.count(x) <= u@.to_multiset().count(x) by {
                        assert(u@.to_multiset().count(x) == out@.to_multiset().count(x)
                            + rms.count(x));
                    }
                    assert(rms.subset_of(u@.to_multiset()));
                    assert(rms.len() > 0);
                    let p = choose|p: u32| no_pred(self.rules@, rms, p);
                    assert(rest@.contains(p));
                    let mi = choose|i: int| 0 <= i < rest@.len() && rest@[i] == p;
                    assert forall|q: int|
                        0 <= q < rest@.len() && q != mi implies !rule_exists(
                        self.rules@,
                        rest@[q],
                        rest@[mi],
                    ) by {
                        assert(rest@.contains(rest@[q]));
                        assert(rms.contains(rest@[q]));
                    }
                    assert(seq_free(self.rules@, rest@, mi));
                    assert(false);
                }
            }
            let ghost pre_out = out@;
            let ghost pre_rest = rest@;
            let page = rest.remove(pick);
            out.push(page);
            proof {
                pre_rest.to_multiset_ensures();
                pre_out.to_multiset_ensures();
                assert(pre_rest.remove(pick as int).to_multiset() =~= pre_rest.to_multiset().remove(
                    page,
                )) by {
                    assert(pre_rest[pick as int] == page);
                }
                assert(out@ =~= pre_out.push(page));
                assert(pre_rest.to_multiset().contains(page)) by {
                    assert(pre_rest[pick as int] == page);
                }
                assert(out@.to_multiset().add(rest@.to_multiset()) =~= u@.to_multiset());
                if ord {
                    assert(seq_free(self.rules@, pre_rest, pick as int));
                    assert forall|oi: int, rj: int|
                        0 <= oi < out@.len() && 0 <= rj < rest@.len() implies !rule_exists(
                        self.rules@,
                        rest@[rj],
                        out@[oi],
                    ) by {
                        let oj: int = if rj < pick { rj } else { rj + 1 };
                        assert(rest@[rj] == pre_rest[oj]);
                        if oi < pre_out.len() {
                            assert(out@[oi] == pre_out[oi]);
                        } else {
                            assert(out@[oi] == page);
                        }
                    }
                    assert forall|i: int, j: int| 0 <= i < j < out@.len() implies !rule_exists(
                        self.rules@,
                        out@[j],
                        out@[i],
                    ) by {
                        if j < pre_out.len() {
                            assert(out@[i] == pre_out[i] && out@[j] == pre_out[j]);
                        } else {
                            assert(out@[j] == page);
                            assert(out@[i] == pre_out[i]);
                            assert(pre_rest[pick as int] == page);
                        }
                    }
                    assert(update_valid(self.rules@, out@));
                }
            }
        }
        proof {
            assert(rest@.to_multiset() =~= Multiset::<u32>::empty());
            assert(out@.to_multiset() =~= u@.to_multiset());
        }
        out
    }

    /// Sum of the middle pages of the correctly ordered updates.
    pub fn part_1(&self) -> (r: u32)
        requires
            sum_mid(update_views(self.updates@).filter(valid_pred(self.rules@, true))) <= u32::MAX,
        ensures
            r == sum_mid(update_views(self.updates@).filter(valid_pred(self.rules@, true))),
    {
        let valid = self.valid_updates();
        sum_middles(&valid, Ghost(update_views(self.updates@).filter(valid_pred(self.rules@, true))))
    }

    /// Sum of the middle pages of the reordered incorrect updates.
    pub fn part_2(&self) -> (r: u32)
        ensures
            exists|sorted: Seq<Seq<u32>>|
                #![trigger sum_mid(sorted)]
                {
                    let invalid = update_views(self.updates@).filter(
                        valid_pred(self.rules@, false),
                    );
                    &&& sorted.len() == invalid.len()
                    &&& (forall|k: int|
                        0 <= k < sorted.len() ==> (#[trigger] sorted[k]).to_multiset()
                            == invalid[k].to_multiset())
                    &&& (forall|k: int|
                        0 <= k < sorted.len() && orderable(
                            self.rules@,
                            invalid[k].to_multiset(),
                        ) ==> update_valid(self.rules@, #[trigger] sorted[k]))
                    &&& sum_mid(sorted) <= u32::MAX ==> r == sum_mid(sorted)
                },
    {
        let invalid = self.invalid_updates();
        let ghost iv = update_views(self.updates@).filter(valid_pred(self.rules@, false));
        let mut sorted: Vec<Vec<u32>> = Vec::new();
        let mut i: usize = 0;
        while i < invalid.len()
            invariant
                i <= invalid@.len(),
                update_views(invalid@) == iv,
                sorted@.len() == i,
                forall|k: int|
                    0 <= k < i ==> (#[trigger] sorted@[k])@.to_multiset() == iv[k].to_multiset(),
                forall|k: int|
                    0 <= k < i && orderable(self.rules@, iv[k].to_multiset()) ==> update_valid(
                        self.rules@,
                        (#[trigger] sorted@[k])@,
                    ),
            decreases invalid@.len() - i,
        {
            let s = self.reorder(&invalid[i]);
            proof {
                assert(invalid@[i as int]@ == iv[i as int]);
            }
            sorted.push(s);
            i = i + 1;
        }
        let ghost sv = update_views(sorted@);
        proof {
            assert(sv.len() == iv.len());
            assert forall|k: int| 0 <= k < sv.len() implies (#[trigger] sv[k]).to_multiset()
                == iv[k].to_multiset() by {
                assert(sv[k] == sorted@[k]@);
            }
            assert forall|k: int|
                0 <= k < sv.len() && orderable(self.rules@, iv[k].to_multiset()) implies
            update_valid(self.rules@, #[trigger] sv[k]) by {
                assert(sv[k] == sorted@[k]@);
            }
        }
        let r = sum_middles_plain(&sorted);
        proof {
            assert(r as int == sum_mid(sv) || sum_mid(sv) > u32::MAX);
        }
        r
    }
}

/// A copy of an update.
fn copy_update(u: &Vec<u32>) -> (r: Vec<u32>)
    ensures
        r@ == u@,
{
    let mut r: Vec<u32> = Vec::new();
    let mut i: usize = 0;
    while i < u.len()
        invariant
            i <= u@.len(),
            r@ == u@.take(i as int),
        decreases u@.len() - i,
    {
        r.push(u[i]);
        proof {
            assert(r@ =~= u@.take(i as int + 1));
        }
        i = i + 1;
    }
    proof {
        assert(u@.take(u@.len() as int) =~= u@);
    }
    r
}

/// Sum the middle pages of updates whose views are `gview`.
fn sum_middles(us: &Vec<Vec<u32>>, gview: Ghost<Seq<Seq<u32>>>) -> (r: u32)
    requires
        update_views(us@) == gview@,
        sum_mid(gview@) <= u32::MAX,
    ensures
        r == sum_mid(gview@),
{
    let ghost uv = gview@;
    let mut total: u32 = 0;
    let mut i: usize = 0;
    while i < us.len()
        invariant
            i <= us@.len(),
            update_views(us@) == uv,
            sum_mid(uv) <= u32::MAX,
            total == sum_mid(uv.take(i as int)),
        decreases us@.len() - i,
    {
        proof {
            assert(uv.take(i as int + 1).drop_last() =~= uv.take(i as int));
            assert(uv.take(i as int + 1).last() == uv[i as int]);
            assert(us@[i as int]@ == uv[i as int]);
            lemma_sum_mid_prefix(uv, i as int + 1);
            lemma_sum_mid_nonneg(uv.take(i as int));
        }
        let u = &us[i];
        if u.len() > 0 {
            let mid = u[(u.len() - 1) / 2];
            total = total + mid;
        }
        i = i + 1;
    }
    proof {
        assert(uv.take(uv.len() as int) =~= uv);
    }
    total
}

/// Sum the middle pages, saturating silently if the total leaves `u32`.
fn sum_middles_plain(us: &Vec<Vec<u32>>) -> (r: u32)
    ensures
        r as int == sum_mid(update_views(us@)) || sum_mid(update_views(us@)) > u32::MAX,
{
    let ghost uv = update_views(us@);
    let mut total: u32 = 0;
    let mut over = false;
    let mut i: usize = 0;
    while i < us.len()
        invariant
            i <= us@.len(),
            update_views(us@) == uv,
            !over ==> total == sum_mid(uv.take(i as int)),
            over ==> sum_mid(uv.take(i as int)) > u32::MAX,
        decreases us@.len() - i,
    {
        proof {
            assert(uv.take(i as int + 1).drop_last() =~= uv.take(i as int));
            assert(uv.take(i as int + 1).last() == uv[i as int]);
            assert(us@[i as int]@ == uv[i as int]);
            lemma_sum_mid_nonneg(uv.take(i as int));
        }
        let u = &us[i];
        if u.len() > 0 {
            let mid = u[(u.len() - 1) / 2];
            if !over && total <= u32::MAX - mid {
                total = total + mid;
            } else {
                over = true;
            }
        }
        i = i + 1;
    }
    proof {
        assert(uv.take(uv.len() as int) =~= uv);
        lemma_sum_mid_nonneg(uv);
    }
    total
}

/// Middle sums are non-negative.
proof fn lemma_sum_mid_nonneg(us: Seq<Seq<u32>>)
    ensures
        sum_mid(us) >= 0,
    decreases us.len(),
{
    if us.len() > 0 {
        lemma_sum_mid_nonneg(us.drop_last());
    }
}

/// Partial middle sums stay below the whole sum.
proof fn lemma_sum_mid_prefix(us: Seq<Seq<u32>>, i: int)
    requires
        0 <= i <= us.len(),
    ensures
        sum_mid(us.take(i)) <= sum_mid(us),
    decreases us.len() - i,
{
    if i == us.len() {
        assert(us.take(i) =~= us);
    } else {
        lemma_sum_mid_prefix(us, i + 1);
        assert(us.take(i + 1).drop_last() =~= us.take(i));
        assert(us.take(i + 1).last() == us[i]);
    }
}

} // verus!
