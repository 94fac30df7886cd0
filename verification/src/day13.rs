//! Claw machines: how many presses of buttons A and B reach the prize,
//! when the two button vectors are linearly independent.
use vstd::prelude::*;
use crate::text;

verus! {

/// A two-dimensional integer vector.
#[derive(Debug, Clone, Copy, PartialEq, Eq, Structural)]
pub struct Vec2 {
    pub x: i64,
    pub y: i64,
}

/// One claw machine: two button step vectors and the prize position.
#[derive(Debug, Clone, Copy)]
pub struct Machine {
    pub button_a: Vec2,
    pub button_b: Vec2,
    pub prize: Vec2,
}

/// Determinant of the two button vectors.
pub open spec fn disc_of(m: Machine) -> int {
    m.button_b.x * m.button_a.y - m.button_a.x * m.button_b.y
}

/// `(a, b)` presses reach the prize on both axes, both counts in `u64`
/// range, with independent buttons.
pub open spec fn prize_cond(m: Machine, a: int, b: int) -> bool {
    disc_of(m) != 0 && 0 <= a <= u64::MAX && 0 <= b <= u64::MAX && a * m.button_a.x + b
        * m.button_b.x == m.prize.x && a * m.button_a.y + b * m.button_b.y == m.prize.y
}

/// The press pair solving the machine, if one exists: with independent
/// buttons it is unique.
pub open spec fn spec_prize(m: Machine) -> Option<(int, int)> {
    if exists|ab: (int, int)| prize_cond(m, ab.0, ab.1) {
        Some(choose|ab: (int, int)| prize_cond(m, ab.0, ab.1))
    } else {
        None
    }
}

/// With independent buttons the solving pair is unique.
pub proof fn lemma_prize_unique(m: Machine, a: int, b: int, a2: int, b2: int)
    requires
        prize_cond(m, a, b),
        prize_cond(m, a2, b2),
    ensures
        a == a2,
        b == b2,
{
    let ax = m.button_a.x;
    let ay = m.button_a.y;
    let bx = m.button_b.x;
    let by = m.button_b.y;
    let disc = bx * ay - ax * by;
    let da = a - a2;
    let db = b - b2;
    assert(da * ax + db * bx == 0) by (nonlinear_arith)
        requires
            a * ax + b * bx == a2 * ax + b2 * bx,
            da == a - a2,
            db == b - b2,
    ;
    assert(da * ay + db * by == 0) by (nonlinear_arith)
        requires
            a * ay + b * by == a2 * ay + b2 * by,
            da == a - a2,
            db == b - b2,
    ;
    assert(db * disc == 0) by (nonlinear_arith)
        requires
            da * ax + db * bx == 0,
            da * ay + db * by == 0,
            disc == bx * ay - ax * by,
    ;
    assert(da * disc == 0) by (nonlinear_arith)
        requires
            da * ax + db * bx == 0,
            da * ay + db * by == 0,
            disc == bx * ay - ax * by,
    ;
    assert(da == 0 && db == 0) by (nonlinear_arith)
        requires
            da * disc == 0,
            db * disc == 0,
            disc != 0,
    ;
}

/// A returned press pair really reaches the prize on both axes.
pub proof fn lemma_prize_solves(m: Machine, a: int, b: int)
    requires
        spec_prize(m) == Some((a, b)),
    ensures
        prize_cond(m, a, b),
        a * m.button_a.x + b * m.button_b.x == m.prize.x,
        a * m.button_a.y + b * m.button_b.y == m.prize.y,
{
    let ab = choose|ab: (int, int)| prize_cond(m, ab.0, ab.1);
    assert(prize_cond(m, ab.0, ab.1));
}

/// When some press pair within range reaches the prize, the machine
/// reports exactly that pair.
pub proof fn lemma_prize_complete(m: Machine, a: int, b: int)
    requires
        prize_cond(m, a, b),
    ensures
        spec_prize(m) == Some((a, b)),
{
    assert(exists|ab: (int, int)| prize_cond(m, ab.0, ab.1)) by {
        assert(prize_cond(m, (a, b).0, (a, b).1));
    }
    let ab = choose|ab: (int, int)| prize_cond(m, ab.0, ab.1);
    lemma_prize_unique(m, a, b, ab.0, ab.1);
}

/// Exact signed division: the quotient when `d` divides `n`.
fn div_exact(n: i128, d: i128) -> (r: Option<i128>)
    requires
        d != 0,
        -0x4000_0000_0000_0000_0000_0000_0000_0000 <= n
            <= 0x4000_0000_0000_0000_0000_0000_0000_0000,
        -0x4000_0000_0000_0000_0000_0000_0000_0000 <= d
            <= 0x4000_0000_0000_0000_0000_0000_0000_0000,
    ensures
        match r {
            Some(q) => n == d * q,
            None => forall|q: int| n != #[trigger] (d * q),
        },
{
    let nn: u128 = if n >= 0 {
        n as u128
    } else {
        (-n) as u128
    };
    let dd: u128 = if d >= 0 {
        d as u128
    } else {
        (-d) as u128
    };
    let q0 = nn / dd;
    let rem = nn % dd;
    proof {
        vstd::arithmetic::div_mod::lemma_fundamental_div_mod(nn as int, dd as int);
    }
    if rem != 0 {
        proof {
            assert forall|q: int| n != #[trigger] (d * q) by {
                if n == d * q {
                    let qq: int = if (n >= 0) == (d >= 0) {
                        q
                    } else {
                        -q
                    };
                    assert(nn == qq * dd) by (nonlinear_arith)
                        requires
                            n == d * q,
                            qq == (if (n >= 0) == (d >= 0) {
                                q
                            } else {
                                -q
                            }),
                            nn == (if n >= 0 {
                                n as int
                            } else {
                                -n
                            }),
                            dd == (if d >= 0 {
                                d as int
                            } else {
                                -d
                            }),
                            d != 0,
                    ;
                    vstd::arithmetic::div_mod::lemma_mod_multiples_basic(qq, dd as int);
                    assert((nn as int) % (dd as int) == 0);
                }
            }
        }
        return None;
    }
    proof {
        assert(nn == dd * q0);
    }
    let neg = (n < 0) != (d < 0);
    if neg {
        let q = -(q0 as i128);
        proof {
            assert(n == d * q) by (nonlinear_arith)
                requires
                    nn == dd * q0,
                    q == -(q0 as int),
                    nn == (if n >= 0 {
                        n as int
                    } else {
                        -n
                    }),
                    dd == (if d >= 0 {
                        d as int
                    } else {
                        -d
                    }),
                    (n < 0) != (d < 0),
                    d != 0,
            ;
        }
        Some(q)
    } else {
        let q = q0 as i128;
        proof {
            assert(n == d * q) by (nonlinear_arith)
                requires
                    nn == dd * q0,
                    q == q0 as int,
                    nn == (if n >= 0 {
                        n as int
                    } else {
                        -n
                    }),
                    dd == (if d >= 0 {
                        d as int
                    } else {
                        -d
                    }),
                    !((n < 0) != (d < 0)),
                    d != 0,
            ;
        }
        Some(q)
    }
}

/// The quotients of the two Cramer numerators solve the system.
proof fn lemma_cramer(m: Machine, a: int, b: int)
    requires
        disc_of(m) != 0,
        (m.button_b.x * m.prize.y - m.button_b.y * m.prize.x) == disc_of(m) * a,
        (m.button_a.x * m.prize.y - m.button_a.y * m.prize.x) == (-disc_of(m)) * b,
    ensures
        a * m.button_a.x + b * m.button_b.x == m.prize.x,
        a * m.button_a.y + b * m.button_b.y == m.prize.y,
{
    let ax = m.button_a.x;
    let ay = m.button_a.y;
    let bx = m.button_b.x;
    let by = m.button_b.y;
    let px = m.prize.x;
    let py = m.prize.y;
    let disc = bx * ay - ax * by;
    let na = bx * py - by * px;
    let nb = ax * py - ay * px;
    assert(ax * na - bx * nb == px * disc) by (nonlinear_arith)
        requires
            na == bx * py - by * px,
            nb == ax * py - ay * px,
            disc == bx * ay - ax * by,
    ;
    assert(ay * na - by * nb == py * disc) by (nonlinear_arith)
        requires
            na == bx * py - by * px,
            nb == ax * py - ay * px,
            disc == bx * ay - ax * by,
    ;
    assert((a * ax + b * bx) * disc == px * disc) by (nonlinear_arith)
        requires
            na == disc * a,
            nb == (-disc) * b,
            ax * na - bx * nb == px * disc,
    ;
    assert((a * ay + b * by) * disc == py * disc) by (nonlinear_arith)
        requires
            na == disc * a,
            nb == (-disc) * b,
            ay * na - by * nb == py * disc,
    ;
    assert(a * ax + b * bx == px) by (nonlinear_arith)
        requires
            (a * ax + b * bx) * disc == px * disc,
            disc != 0,
    ;
    assert(a * ay + b * by == py) by (nonlinear_arith)
        requires
            (a * ay + b * by) * disc == py * disc,
            disc != 0,
    ;
}

/// A solving pair turns the Cramer numerators into exact multiples.
proof fn lemma_cramer_rev(m: Machine, a: int, b: int)
    requires
        a * m.button_a.x + b * m.button_b.x == m.prize.x,
        a * m.button_a.y + b * m.button_b.y == m.prize.y,
    ensures
        (m.button_b.x * m.prize.y - m.button_b.y * m.prize.x) == disc_of(m) * a,
        (m.button_a.x * m.prize.y - m.button_a.y * m.prize.x) == (-disc_of(m)) * b,
{
    let ax = m.button_a.x;
    let ay = m.button_a.y;
    let bx = m.button_b.x;
    let by = m.button_b.y;
    let px = m.prize.x;
    let py = m.prize.y;
    assert(bx * py - by * px == (bx * ay - ax * by) * a) by (nonlinear_arith)
        requires
            a * ax + b * bx == px,
            a * ay + b * by == py,
    ;
    assert(ax * py - ay * px == (-(bx * ay - ax * by)) * b) by (nonlinear_arith)
        requires
            a * ax + b * bx == px,
            a * ay + b * by == py,
    ;
}

impl Machine {
    /// Coordinates small enough for the determinant arithmetic.
    pub open spec fn wf(&self) -> bool {
        -0x4000_0000_0000_0000 <= self.button_a.x <= 0x4000_0000_0000_0000
            && -0x4000_0000_0000_0000 <= self.button_a.y <= 0x4000_0000_0000_0000
            && -0x4000_0000_0000_0000 <= self.button_b.x <= 0x4000_0000_0000_0000
            && -0x4000_0000_0000_0000 <= self.button_b.y <= 0x4000_0000_0000_0000
            && -0x4000_0000_0000_0000 <= self.prize.x <= 0x4000_0000_0000_0000
            && -0x4000_0000_0000_0000 <= self.prize.y <= 0x4000_0000_0000_0000
    }

    /// The press pair reaching the prize, if the buttons are independent
    /// and the unique solution is integral and in range.
    pub fn prize_combination(&self) -> (r: Option<(u64, u64)>)
        requires
            self.wf(),
        ensures
            match r {
                Some(p) => spec_prize(*self) == Some((p.0 as int, p.1 as int)),
                None => spec_prize(*self) is None,
            },
    {
        let ax = self.button_a.x as i128;
        let ay = self.button_a.y as i128;
        let bx = self.button_b.x as i128;
        let by = self.button_b.y as i128;
        let px = self.prize.x as i128;
        let py = self.prize.y as i128;
        proof {
            let lim: int = 0x4000_0000_0000_0000;
            let plim: int = 0x1000_0000_0000_0000_0000_0000_0000_0000;
            assert((-plim <= (bx as int) * (ay as int) <= plim) && (-plim <= (ax as int) * (
            by as int) <= plim) && (-plim <= (bx as int) * (py as int) <= plim) && (-plim <= (
            by as int) * (px as int) <= plim) && (-plim <= (ax as int) * (py as int) <= plim) && (
            -plim <= (ay as int) * (px as int) <= plim)) by (nonlinear_arith)
                requires
                    -lim <= ax <= lim,
                    -lim <= ay <= lim,
                    -lim <= bx <= lim,
                    -lim <= by <= lim,
                    -lim <= px <= lim,
                    -lim <= py <= lim,
                    lim == 0x4000_0000_0000_0000,
                    plim == 0x1000_0000_0000_0000_0000_0000_0000_0000,
            ;
        }
        let disc = bx * ay - ax * by;
        if disc == 0 {
            proof {
                if exists|ab: (int, int)| prize_cond(*self, ab.0, ab.1) {
                    let ab = choose|ab: (int, int)| prize_cond(*self, ab.0, ab.1);
                    assert(prize_cond(*self, ab.0, ab.1));
                }
            }
            return None;
        }
        let na = bx * py - by * px;
        let nb = ax * py - ay * px;
        proof {
            assert(disc == disc_of(*self));
        }
        let qa = div_exact(na, disc);
        match qa {
            None => {
                proof {
                    if exists|ab: (int, int)| prize_cond(*self, ab.0, ab.1) {
                        let ab = choose|ab: (int, int)| prize_cond(*self, ab.0, ab.1);
                        assert(prize_cond(*self, ab.0, ab.1));
                        lemma_cramer_rev(*self, ab.0, ab.1);
                        assert(na == disc * ab.0);
                    }
                }
                None
            },
            Some(a) => {
                let qb = div_exact(nb, -disc);
                match qb {
                    None => {
                        proof {
                            if exists|ab: (int, int)| prize_cond(*self, ab.0, ab.1) {
                                let ab = choose|ab: (int, int)| prize_cond(*self, ab.0, ab.1);
                                assert(prize_cond(*self, ab.0, ab.1));
                                lemma_cramer_rev(*self, ab.0, ab.1);
                                assert(nb == (-disc) * ab.1);
                            }
                        }
                        None
                    },
                    Some(b) => {
                        proof {
                            lemma_cramer(*self, a as int, b as int);
                        }
                        if a >= 0 && a <= u64::MAX as i128 && b >= 0 && b <= u64::MAX as i128 {
                            proof {
                                assert(prize_cond(*self, a as int, b as int));
                                lemma_prize_complete(*self, a as int, b as int);
                            }
                            Some((a as u64, b as u64))
                        } else {
                            proof {
                                if exists|ab: (int, int)| prize_cond(*self, ab.0, ab.1) {
                                    let ab = choose|ab: (int, int)| prize_cond(*self, ab.0, ab.1);
                                    assert(prize_cond(*self, ab.0, ab.1));
                                    lemma_cramer_rev(*self, ab.0, ab.1);
                                    assert(na == disc * ab.0);
                                    assert(nb == (-disc) * ab.1);
                                    assert(ab.0 == a as int && ab.1 == b as int)
                                        by (nonlinear_arith)
                                        requires
                                            na == disc * ab.0,
                                            na == disc * (a as int),
                                            nb == (-disc) * ab.1,
                                            nb == (-disc) * (b as int),
                                            disc != 0,
                                    ;
                                }
                            }
                            None
                        }
                    },
                }
            },
        }
    }

    /// The same machine with the prize moved by ten trillion on each axis.
    pub fn correct_prize(&self) -> (r: Machine)
        requires
            -0x4000_0000_0000 <= self.prize.x <= 0x4000_0000_0000,
            -0x4000_0000_0000 <= self.prize.y <= 0x4000_0000_0000,
        ensures
            r == corrected(*self),
    {
        Machine {
            button_a: self.button_a,
            button_b: self.button_b,
            prize: Vec2 {
                x: self.prize.x + 10_000_000_000_000,
                y: self.prize.y + 10_000_000_000_000,
            },
        }
    }
}

/// A machine with its prize moved by ten trillion on each axis.
pub open spec fn corrected(m: Machine) -> Machine {
    Machine {
        button_a: m.button_a,
        button_b: m.button_b,
        prize: Vec2 {
            x: (m.prize.x + 10_000_000_000_000) as i64,
            y: (m.prize.y + 10_000_000_000_000) as i64,
        },
    }
}

/// Token cost of the machines that can be won with at most 100 presses of
/// each button: three per A press, one per B press.
pub open spec fn spec_part_1(ms: Seq<Machine>) -> int
    decreases ms.len(),
{
    if ms.len() == 0 {
        0
    } else {
        spec_part_1(ms.drop_last()) + match spec_prize(ms.last()) {
            Some(p) => if p.0 <= 100 && p.1 <= 100 {
                p.0 * 3 + p.1
            } else {
                0int
            },
            None => 0int,
        }
    }
}

/// Token cost of the corrected machines, unlimited presses.
pub open spec fn spec_part_2(ms: Seq<Machine>) -> int
    decreases ms.len(),
{
    if ms.len() == 0 {
        0
    } else {
        spec_part_2(ms.drop_last()) + match spec_prize(corrected(ms.last())) {
            Some(p) => p.0 * 3 + p.1,
            None => 0int,
        }
    }
}

/// The problem: a list of claw machines.
#[derive(Debug)]
pub struct Problem {
    pub machines: Vec<Machine>,
}

impl Problem {
    /// Parse machines: every six numbers in the text describe one machine,
    /// in the order A-step, B-step, prize.
    pub fn from_string(string: &str) -> (r: Problem)
        requires
            forall|p: Seq<char>|
                text::split_if(string@, text::non_number_pred()).contains(p)
                    && text::is_int_literal(p) ==> -0x7fff_ffff_ffff_ffff <= #[trigger] text::int_val(
                    p,
                ) <= 0x7fff_ffff_ffff_ffff,
        ensures
            r.machines@.len() == text::numbers_of(string@).len() / 6,
            forall|i: int|
                0 <= i < r.machines@.len() ==> (#[trigger] r.machines@[i]).button_a.x
                    == text::numbers_of(string@)[6 * i] && r.machines@[i].button_a.y
                    == text::numbers_of(string@)[6 * i + 1] && r.machines@[i].button_b.x
                    == text::numbers_of(string@)[6 * i + 2] && r.machines@[i].button_b.y
                    == text::numbers_of(string@)[6 * i + 3] && r.machines@[i].prize.x
                    == text::numbers_of(string@)[6 * i + 4] && r.machines@[i].prize.y
                    == text::numbers_of(string@)[6 * i + 5],
    {
        let chars = text::chars_of(string);
        let nums = text::extract_numbers(&chars);
        let ghost gn = text::numbers_of(string@);
        proof {
            assert(nums@.map_values(text::to_int_fn()).len() == nums@.len());
            assert forall|k: int| 0 <= k < nums@.len() implies gn[k] == #[trigger] nums@[k] as int by {
                assert(gn[k] == nums@.map_values(text::to_int_fn())[k]);
            }
        }
        let mut machines: Vec<Machine> = Vec::new();
        let mut i: usize = 0;
        while nums.len() >= 6 && i <= nums.len() - 6
            invariant
                0 <= i,
                i % 6 == 0,
                i <= nums@.len() || i == 0,
                gn.len() == nums@.len(),
                forall|k: int| 0 <= k < nums@.len() ==> gn[k] == #[trigger] nums@[k] as int,
                machines@.len() == i / 6,
                forall|j: int|
                    0 <= j < machines@.len() ==> (#[trigger] machines@[j]).button_a.x == gn[6 * j]
                        && machines@[j].button_a.y == gn[6 * j + 1] && machines@[j].button_b.x
                        == gn[6 * j + 2] && machines@[j].button_b.y == gn[6 * j + 3]
                        && machines@[j].prize.x == gn[6 * j + 4] && machines@[j].prize.y == gn[6 * j
                        + 5],
            decreases nums@.len() - i,
        {
            let ghost pre = machines@;
            let m = Machine {
                button_a: Vec2 { x: nums[i], y: nums[i + 1] },
                button_b: Vec2 { x: nums[i + 2], y: nums[i + 3] },
                prize: Vec2 { x: nums[i + 4], y: nums[i + 5] },
            };
            machines.push(m);
            proof {
                assert((i + 6) / 6 == i / 6 + 1 && (i + 6) % 6 == 0) by (nonlinear_arith)
                    requires
                        i % 6 == 0,
                        0 <= i,
                ;
                assert forall|j: int|
                    0 <= j < machines@.len() implies (#[trigger] machines@[j]).button_a.x == gn[6
                    * j] && machines@[j].button_a.y == gn[6 * j + 1] && machines@[j].button_b.x
                    == gn[6 * j + 2] && machines@[j].button_b.y == gn[6 * j + 3]
                    && machines@[j].prize.x == gn[6 * j + 4] && machines@[j].prize.y == gn[6 * j
                    + 5] by {
                    if j < pre.len() {
                        assert(machines@[j] == pre[j]);
                    } else {
                        assert(machines@[j] == m);
                        assert(6 * j == i) by (nonlinear_arith)
                            requires
                                j == i / 6,
                                i % 6 == 0,
                                0 <= i,
                        ;
                    }
                }
            }
            i = i + 6;
        }
        proof {
            assert(machines@.len() == gn.len() / 6) by {
                assert(i / 6 == gn.len() / 6) by (nonlinear_arith)
                    requires
                        i % 6 == 0,
                        i <= gn.len() < i + 6 || (gn.len() < 6 && i == 0),
                ;
            }
        }
        Problem { machines }
    }

    /// Token cost over all machines, at most 100 presses of each button.
    pub fn part_1(&self) -> (r: u64)
        requires
            forall|i: int| 0 <= i < self.machines@.len() ==> (#[trigger] self.machines@[i]).wf(),
            spec_part_1(self.machines@) <= u64::MAX,
        ensures
            r == spec_part_1(self.machines@),
    {
        let ghost ms = self.machines@;
        let mut total: u64 = 0;
        let mut i: usize = 0;
        while i < self.machines.len()
            invariant
                i <= ms.len(),
                ms == self.machines@,
                forall|k: int| 0 <= k < ms.len() ==> (#[trigger] ms[k]).wf(),
                spec_part_1(ms) <= u64::MAX,
                total == spec_part_1(ms.take(i as int)),
            decreases ms.len() - i,
        {
            proof {
                assert(ms.take(i as int + 1).drop_last() =~= ms.take(i as int));
                assert(ms.take(i as int + 1).last() == ms[i as int]);
                lemma_part_1_prefix(ms, i as int + 1);
                lemma_part_1_nonneg(ms.take(i as int));
            }
            let m = &self.machines[i];
            match m.prize_combination() {
                Some(p) => {
                    if p.0 <= 100 && p.1 <= 100 {
                        total = total + (p.0 * 3 + p.1);
                    }
                },
                None => {},
            }
            i = i + 1;
        }
        proof {
            assert(ms.take(ms.len() as int) =~= ms);
        }
        total
    }

    /// Token cost over all machines with corrected prizes, unlimited
    /// presses.
    pub fn part_2(&self) -> (r: u64)
        requires
            forall|i: int|
                0 <= i < self.machines@.len() ==> (#[trigger] self.machines@[i]).wf()
                    && -0x4000_0000_0000 <= self.machines@[i].prize.x <= 0x4000_0000_0000
                    && -0x4000_0000_0000 <= self.machines@[i].prize.y <= 0x4000_0000_0000,
            spec_part_2(self.machines@) <= u64::MAX,
        ensures
            r == spec_part_2(self.machines@),
    {
        let ghost ms = self.machines@;
        let mut total: u64 = 0;
        let mut i: usize = 0;
        while i < self.machines.len()
            invariant
                i <= ms.len(),
                ms == self.machines@,
                forall|k: int|
                    0 <= k < ms.len() ==> (#[trigger] ms[k]).wf() && -0x4000_0000_0000
                        <= ms[k].prize.x <= 0x4000_0000_0000 && -0x4000_0000_0000 <= ms[k].prize.y
                        <= 0x4000_0000_0000,
                spec_part_2(ms) <= u64::MAX,
                total == spec_part_2(ms.take(i as int)),
            decreases ms.len() - i,
        {
            proof {
                assert(ms.take(i as int + 1).drop_last() =~= ms.take(i as int));
                assert(ms.take(i as int + 1).last() == ms[i as int]);
                lemma_part_2_prefix(ms, i as int + 1);
                lemma_part_2_nonneg(ms.take(i as int));
            }
            let m = self.machines[i].correct_prize();
            proof {
                assert(m == corrected(ms[i as int]));
                assert(m.wf());
            }
            match m.prize_combination() {
                Some(p) => {
                    total = total + (p.0 * 3 + p.1);
                },
                None => {},
            }
            i = i + 1;
        }
        proof {
            assert(ms.take(ms.len() as int) =~= ms);
        }
        total
    }
}

proof fn lemma_part_1_nonneg(ms: Seq<Machine>)
    ensures
        spec_part_1(ms) >= 0,
    decreases ms.len(),
{
    if ms.len() > 0 {
        lemma_part_1_nonneg(ms.drop_last());
        match spec_prize(ms.last()) {
            Some(p) => {
                lemma_prize_solves(ms.last(), p.0, p.1);
            },
            None => {},
        }
    }
}

proof fn lemma_part_1_prefix(ms: Seq<Machine>, i: int)
    requires
        0 <= i <= ms.len(),
    ensures
        spec_part_1(ms.take(i)) <= spec_part_1(ms),
    decreases ms.len() - i,
{
    if i == ms.len() {
        assert(ms.take(i) =~= ms);
    } else {
        lemma_part_1_prefix(ms, i + 1);
        assert(ms.take(i + 1).drop_last() =~= ms.take(i));
        assert(ms.take(i + 1).last() == ms[i]);
        match spec_prize(ms[i]) {
            Some(p) => {
                lemma_prize_solves(ms[i], p.0, p.1);
            },
            None => {},
        }
    }
}

proof fn lemma_part_2_nonneg(ms: Seq<Machine>)
    ensures
        spec_part_2(ms) >= 0,
    decreases ms.len(),
{
    if ms.len() > 0 {
        lemma_part_2_nonneg(ms.drop_last());
        match spec_prize(corrected(ms.last())) {
            Some(p) => {
                lemma_prize_solves(corrected(ms.last()), p.0, p.1);
            },
            None => {},
        }
    }
}

proof fn lemma_part_2_prefix(ms: Seq<Machine>, i: int)
    requires
        0 <= i <= ms.len(),
    ensures
        spec_part_2(ms.take(i)) <= spec_part_2(ms),
    decreases ms.len() - i,
{
    if i == ms.len() {
        assert(ms.take(i) =~= ms);
    } else {
        lemma_part_2_prefix(ms, i + 1);
        assert(ms.take(i + 1).drop_last() =~= ms.take(i));
        assert(ms.take(i + 1).last() == ms[i]);
        match spec_prize(corrected(ms[i])) {
            Some(p) => {
                lemma_prize_solves(corrected(ms[i]), p.0, p.1);
            },
            None => {},
        }
    }
}

} // verus!
