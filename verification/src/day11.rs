//! Blinking stones: a stone of value zero becomes one; an even number of
//! digits splits the stone in half; anything else is multiplied by 2024.
//! Counted, not simulated, over a number of blinks.
use vstd::prelude::*;
use crate::text;
use crate::day7::{digit_count, pow10, lemma_digit_count_pos, lemma_digit_bound_reverse};

verus! {

/// What one blink turns a stone's value into.
pub open spec fn spec_blink(n: int) -> Seq<int> {
    if n == 0 {
        seq![1]
    } else if digit_count(n) % 2 == 0 {
        let h = pow10(digit_count(n) / 2);
        seq![n / h, n % h]
    } else {
        seq![n * 2024]
    }
}

/// How many stones a single stone becomes after `t` blinks.
pub open spec fn count_after(n: int, t: int) -> int
    decreases t, 0int, 0int,
{
    if t <= 0 {
        1
    } else {
        count_seq(spec_blink(n), t - 1)
    }
}

/// How many stones a row of stones becomes after `t` blinks.
pub open spec fn count_seq(s: Seq<int>, t: int) -> int
    decreases t, 1int, s.len(),
{
    if s.len() == 0 {
        0
    } else {
        count_seq(s.drop_last(), t) + count_after(s.last(), t)
    }
}

/// Along every blink path from `n` for `t` steps, values and counts stay
/// inside `u64`.
pub open spec fn safe(n: int, t: int) -> bool
    decreases t, 0int, 0int,
{
    0 <= n && count_after(n, t) <= u64::MAX && (t > 0 ==> n * 2024 <= u64::MAX && safe_seq(
        spec_blink(n),
        t - 1,
    ))
}

pub open spec fn safe_seq(s: Seq<int>, t: int) -> bool
    decreases t, 1int, s.len(),
{
    if s.len() == 0 {
        true
    } else {
        safe_seq(s.drop_last(), t) && safe(s.last(), t) && count_seq(s, t) <= u64::MAX
    }
}

/// One stone.
#[derive(Debug, Clone, Copy, PartialEq, Eq, Structural, Hash)]
pub struct Stone {
    pub number: u64,
}

/// A row of stones.
#[derive(Debug)]
pub struct Stones {
    pub elements: Vec<Stone>,
}

/// The values of a row of stones.
pub open spec fn values_of(s: Seq<Stone>) -> Seq<int> {
    s.map_values(|st: Stone| st.number as int)
}

impl Stone {
    pub fn new(number: u64) -> (r: Stone)
        ensures
            r.number == number,
    {
        Stone { number }
    }

    /// The stones this stone becomes after one blink.
    pub fn blink(&self) -> (r: Stones)
        requires
            self.number * 2024 <= u64::MAX || digit_count(self.number as int) % 2 == 0
                || self.number == 0,
        ensures
            values_of(r.elements@) == spec_blink(self.number as int),
    {
        let n = self.number;
        if n == 0 {
            let r = Stones { elements: vec![Stone { number: 1 }] };
            proof {
                assert(values_of(r.elements@) =~= spec_blink(0));
            }
            return r;
        }
        // count the digits of n
        let mut dc: u64 = 1;
        let mut rest: u64 = n / 10;
        proof {
            lemma_digit_count_pos(n as int);
            lemma_digit_count_le_64(n as int);
        }
        while rest > 0
            invariant
                1 <= dc,
                rest > 0 ==> digit_count(n as int) == dc + digit_count(rest as int),
                rest == 0 ==> digit_count(n as int) == dc,
                digit_count(n as int) <= 20,
            decreases rest,
        {
            proof {
                lemma_digit_count_pos(rest as int);
            }
            dc = dc + 1;
            rest = rest / 10;
        }
        proof {
            assert(dc == digit_count(n as int));
        }
        if dc % 2 == 0 {
            // split the digits in half
            let mut h: u64 = 1;
            let mut k: u64 = 0;
            proof {
                assert(pow10(0) == 1);
            }
            while k < dc / 2
                invariant
                    0 <= k <= dc / 2,
                    dc == digit_count(n as int),
                    dc <= 20,
                    h == pow10(k as int),
                    h >= 1,
                decreases dc / 2 - k,
            {
                proof {
                    lemma_pow10_le_value(k as int + 1, dc as int, n as int);
                }
                h = h * 10;
                k = k + 1;
            }
            let left = n / h;
            let right = n % h;
            let r = Stones { elements: vec![Stone { number: left }, Stone { number: right }] };
            proof {
                assert(h == pow10(digit_count(n as int) / 2));
                assert(values_of(r.elements@) =~= spec_blink(n as int));
            }
            r
        } else {
            let r = Stones { elements: vec![Stone { number: n * 2024 }] };
            proof {
                assert(values_of(r.elements@) =~= spec_blink(n as int));
            }
            r
        }
    }
}

/// A `u64` value has at most twenty decimal digits.
proof fn lemma_digit_count_le_64(n: int)
    requires
        0 <= n <= u64::MAX,
    ensures
        digit_count(n) <= 20,
{
    lemma_pow10_unfold_64();
    lemma_digit_bound_reverse(n, 20);
}

/// A power of ten halfway through the digits stays in range.
proof fn lemma_pow10_le_value(k: int, dc: int, n: int)
    requires
        1 <= k <= dc / 2,
        dc == digit_count(n),
        0 <= n <= u64::MAX,
        dc <= 20,
    ensures
        pow10(k) <= u64::MAX,
        pow10(k) == 10 * pow10(k - 1),
{
    lemma_pow10_unfold_64();
    crate::day7::lemma_pow10_mono(k, 19);
}

/// Twenty powers of ten fit a `u64`; sixty-four do not.
proof fn lemma_pow10_unfold_64()
    ensures
        pow10(64) > u64::MAX,
        pow10(20) > u64::MAX,
        pow10(19) <= u64::MAX,
{
    reveal_with_fuel(pow10, 21);
    assert(pow10(19) == 10000000000000000000);
    assert(pow10(20) == 100000000000000000000);
    crate::day7::lemma_pow10_mono(20, 64);
}

impl Stones {
    /// Parse blank-separated stone values.
    pub fn from_string(string: &str) -> (r: Stones)
        requires
            forall|i: int|
                0 <= i < text::words_of(string@).len() ==> text::all_digits(
                    #[trigger] text::words_of(string@)[i],
                ) && text::digits_val(text::words_of(string@)[i]) <= u64::MAX,
        ensures
            values_of(r.elements@) == text::words_of(string@).map_values(
                text::digits_val_fn()),
    {
        let chars = text::chars_of(string);
        let words = text::split_words(&chars);
        let ghost ws = text::words_of(string@);
        let mut elements: Vec<Stone> = Vec::new();
        let mut i: usize = 0;
        while i < words.len()
            invariant
                i <= words@.len(),
                text::views_of(words@) == ws,
                forall|k: int|
                    0 <= k < ws.len() ==> text::all_digits(#[trigger] ws[k]) && text::digits_val(
                        ws[k],
                    ) <= u64::MAX,
                values_of(elements@) == ws.take(i as int).map_values(text::digits_val_fn()),
            decreases words@.len() - i,
        {
            proof {
                assert(words@[i as int]@ == ws[i as int]);
                text::lemma_digits_val_nonneg(ws[i as int]);
            }
            let w = &words[i];
            let v: u64 = if w.len() == 0 {
                0
            } else {
                text::parse_u64(w)
            };
            proof {
                assert(v as int == text::digits_val(ws[i as int]));
            }
            let ghost pre = elements@;
            elements.push(Stone { number: v });
            proof {
                let f = text::digits_val_fn();
                let ta = ws.take(i as int);
                let tb = ws.take(i as int + 1);
                assert(tb.drop_last() =~= ta);
                assert(tb.last() == ws[i as int]);
                assert(elements@ == pre.push(Stone { number: v }));
                assert(values_of(pre).len() == pre.len());
                assert(ta.map_values(f).len() == ta.len());
                assert(pre.len() == i);
                assert(elements@.len() == i + 1);
                assert forall|k: int| 0 <= k < tb.len() implies values_of(elements@)[k]
                    == tb.map_values(f)[k] by {
                    assert(tb.map_values(f)[k] == f(tb[k]));
                    assert(values_of(elements@)[k] == elements@[k].number as int);
                    if k < pre.len() {
                        assert(tb[k] == ta[k]);
                        assert(elements@[k] == pre[k]);
                        assert(values_of(pre)[k] == pre[k].number as int);
                        assert(values_of(pre)[k] == ta.map_values(f)[k]);
                    } else {
                        assert(elements@[k].number == v);
                    }
                }
                assert(values_of(elements@) =~= tb.map_values(f));
            }
            i = i + 1;
        }
        proof {
            assert(ws.take(ws.len() as int) =~= ws);
        }
        Stones { elements }
    }

    /// A row of stones copied from a slice.
    pub fn from_slice(list: &[Stone]) -> (r: Stones)
        ensures
            r.elements@ == list@,
    {
        let mut elements: Vec<Stone> = Vec::new();
        let mut i: usize = 0;
        while i < list.len()
            invariant
                i <= list@.len(),
                elements@ == list@.take(i as int),
            decreases list@.len() - i,
        {
            let s = list[i];
            elements.push(s);
            proof {
                assert(elements@ =~= list@.take(i as int + 1));
            }
            i = i + 1;
        }
        proof {
            assert(list@.take(list@.len() as int) =~= list@);
        }
        Stones { elements }
    }

    /// How many stones the row becomes after blinking `times` times.
    pub fn blink_count(&self, times: u32) -> (r: u64)
        requires
            safe_seq(values_of(self.elements@), times as int),
        ensures
            r == count_seq(values_of(self.elements@), times as int),
    {
        let mut cache: Vec<((u64, u32), u64)> = Vec::new();
        self.blink_count_cached(times, &mut cache)
    }

    /// As `blink_count`, sharing a memo of per-stone counts.
    pub fn blink_count_cached(&self, blink_times: u32, cache: &mut Vec<((u64, u32), u64)>) -> (r:
        u64)
        requires
            safe_seq(values_of(self.elements@), blink_times as int),
            cache_ok(old(cache)@),
        ensures
            r == count_seq(values_of(self.elements@), blink_times as int),
            cache_ok(final(cache)@),
        decreases blink_times, 1int, self.elements@.len(), 0int,
    {
        let ghost vs = values_of(self.elements@);
        let mut total: u64 = 0;
        let mut i: usize = 0;
        while i < self.elements.len()
            invariant
                i <= vs.len(),
                vs == values_of(self.elements@),
                safe_seq(vs, blink_times as int),
                cache_ok(cache@),
                total == count_seq(vs.take(i as int), blink_times as int),
            decreases vs.len() - i, 0int, 0int, 0int,
        {
            proof {
                assert(vs.take(i as int + 1).drop_last() =~= vs.take(i as int));
                assert(vs.take(i as int + 1).last() == vs[i as int]);
                lemma_safe_seq_member(vs, blink_times as int, i as int);
                lemma_count_seq_prefix(vs, blink_times as int, i as int + 1);
                lemma_count_seq_nonneg(vs.take(i as int), blink_times as int);
            }
            let stone = self.elements[i];
            let c = stone_count(stone.number, blink_times, cache, Ghost(blink_times as int));
            total = total + c;
            i = i + 1;
        }
        proof {
            assert(vs.take(vs.len() as int) =~= vs);
        }
        total
    }
}

/// Every entry of the memo holds the true count for its stone and depth.
pub open spec fn cache_ok(c: Seq<((u64, u32), u64)>) -> bool {
    forall|i: int|
        0 <= i < c.len() ==> (#[trigger] c[i]).1 == count_after(c[i].0.0 as int, c[i].0.1 as int)
}

/// The stones a single stone becomes after `t` blinks, memoised.
fn stone_count(n: u64, t: u32, cache: &mut Vec<((u64, u32), u64)>, bound: Ghost<int>) -> (r: u64)
    requires
        safe(n as int, t as int),
        cache_ok(old(cache)@),
    ensures
        r == count_after(n as int, t as int),
        cache_ok(final(cache)@),
    decreases t, 0int, 0int, 1int,
{
    // look the pair up in the memo
    let mut j: usize = 0;
    while j < cache.len()
        invariant
            j <= cache@.len(),
            cache_ok(cache@),
        decreases cache@.len() - j,
    {
        let entry = cache[j];
        if entry.0.0 == n && entry.0.1 == t {
            proof {
                assert(cache@[j as int].1 == count_after(n as int, t as int));
            }
            return entry.1;
        }
        j = j + 1;
    }
    if t == 0 {
        return 1;
    }
    let stone = Stone { number: n };
    let blinked = stone.blink();
    proof {
        assert(values_of(blinked.elements@) == spec_blink(n as int));
        assert(safe_seq(spec_blink(n as int), t as int - 1));
    }
    let c = blinked.blink_count_cached(t - 1, cache);
    proof {
        assert(c == count_seq(spec_blink(n as int), t as int - 1));
        assert(count_after(n as int, t as int) == count_seq(spec_blink(n as int), t as int - 1));
    }
    let ghost pre = cache@;
    cache.push(((n, t), c));
    proof {
        assert forall|i: int| 0 <= i < cache@.len() implies (#[trigger] cache@[i]).1 == count_after(
            cache@[i].0.0 as int,
            cache@[i].0.1 as int,
        ) by {
            if i < pre.len() {
                assert(cache@[i] == pre[i]);
            }
        }
    }
    c
}

/// Every member of a safe row is itself safe, and the row count bounds
/// each partial count.
proof fn lemma_safe_seq_member(s: Seq<int>, t: int, i: int)
    requires
        safe_seq(s, t),
        0 <= i < s.len(),
    ensures
        safe(s[i], t),
    decreases s.len(),
{
    if i == s.len() - 1 {
        assert(s.last() == s[i]);
    } else {
        assert(s.drop_last()[i] == s[i]);
        lemma_safe_seq_member(s.drop_last(), t, i);
    }
}

/// Counts are at least one per stone.
proof fn lemma_count_seq_nonneg(s: Seq<int>, t: int)
    ensures
        count_seq(s, t) >= 0,
    decreases s.len(),
{
    if s.len() > 0 {
        lemma_count_seq_nonneg(s.drop_last(), t);
        lemma_count_after_pos(s.last(), t);
    }
}

/// A stone never disappears: its count is at least one.
proof fn lemma_count_after_pos(n: int, t: int)
    ensures
        count_after(n, t) >= 1,
    decreases t, 0int, 0int,
{
    if t > 0 {
        lemma_count_seq_pos(spec_blink(n), t - 1);
    }
}

proof fn lemma_count_seq_pos(s: Seq<int>, t: int)
    requires
        s.len() >= 1,
    ensures
        count_seq(s, t) >= 1,
    decreases t, 1int, s.len(),
{
    lemma_count_after_pos(s.last(), t);
    if s.len() > 1 {
        lemma_count_seq_pos(s.drop_last(), t);
    } else {
        assert(count_seq(s.drop_last(), t) == 0);
    }
}

/// Partial counts never exceed the whole row's count.
proof fn lemma_count_seq_prefix(s: Seq<int>, t: int, i: int)
    requires
        0 <= i <= s.len(),
        safe_seq(s, t),
    ensures
        count_seq(s.take(i), t) <= count_seq(s, t),
        count_seq(s, t) <= u64::MAX,
    decreases s.len() - i,
{
    if s.len() == 0 {
    } else if i == s.len() {
        assert(s.take(i) =~= s);
    } else {
        assert(s.take(i + 1).drop_last() =~= s.take(i));
        assert(s.take(i + 1).last() == s[i]);
        lemma_count_seq_prefix(s, t, i + 1);
        lemma_count_after_pos(s[i], t);
    }
}

/// The problem: a starting row of stones.
#[derive(Debug)]
pub struct Problem {
    pub stones: Stones,
}

impl Problem {
    /// Parse the starting row.
    pub fn from_string(string: &str) -> (r: Problem)
        requires
            forall|i: int|
                0 <= i < text::words_of(string@).len() ==> text::all_digits(
                    #[trigger] text::words_of(string@)[i],
                ) && text::digits_val(text::words_of(string@)[i]) <= u64::MAX,
        ensures
            values_of(r.stones.elements@) == text::words_of(string@).map_values(
                text::digits_val_fn()),
    {
        Problem { stones: Stones::from_string(string) }
    }

    /// Stones after twenty-five blinks.
    pub fn part_1(&self) -> (r: u64)
        requires
            safe_seq(values_of(self.stones.elements@), 25),
        ensures
            r == count_seq(values_of(self.stones.elements@), 25),
    {
        self.stones.blink_count(25)
    }

    /// Stones after seventy-five blinks.
    pub fn part_2(&self) -> (r: u64)
        requires
            safe_seq(values_of(self.stones.elements@), 75),
        ensures
            r == count_seq(values_of(self.stones.elements@), 75),
    {
        self.stones.blink_count(75)
    }
}

} // verus!
