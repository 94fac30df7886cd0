//! Garden plot regions: group equal symbols of a character grid into
//! 4-connected regions, then price each region by its area, perimeter and
//! number of straight sides.
use vstd::prelude::*;
use vstd::multiset::Multiset;
use crate::text;

verus! {

/// Coordinates are kept well inside `i32` so that neighbour and corner
/// positions can be formed without overflow.
pub open spec fn coord_bound() -> int {
    0x4000_0000
}

/// An integer grid coordinate, also used (shifted) as a corner address.
#[derive(Clone, Copy, PartialEq, Eq, Structural, Debug, Hash)]
pub struct Vec2 {
    pub x: i32,
    pub y: i32,
}

/// The two positions differ by one step along exactly one axis.
pub open spec fn adjacent(a: Vec2, b: Vec2) -> bool {
    (a.x == b.x && (a.y - b.y == 1 || b.y - a.y == 1)) || (a.y == b.y && (a.x - b.x == 1 || b.x
        - a.x == 1))
}

/// A coordinate that neighbour and corner arithmetic cannot overflow on.
pub open spec fn coord_ok(p: Vec2) -> bool {
    0 <= p.x < coord_bound() && 0 <= p.y < coord_bound()
}

impl Vec2 {
    pub fn new(x: i32, y: i32) -> (r: Vec2)
        ensures
            r == (Vec2 { x, y }),
    {
        Vec2 { x, y }
    }

    /// Whether `other` is a 4-directional neighbour of `self`.
    pub fn is_adjacent(&self, other: Vec2) -> (r: bool)
        ensures
            r == adjacent(*self, other),
    {
        let dx = (self.x as i64) - (other.x as i64);
        let dy = (self.y as i64) - (other.y as i64);
        (dx == 0 && (dy == 1 || dy == -1)) || (dy == 0 && (dx == 1 || dx == -1))
    }
}

/// How many entries of `s` equal `v`.
pub open spec fn count_eq(s: Seq<Vec2>, v: Vec2) -> int
    decreases s.len(),
{
    if s.len() == 0 {
        0
    } else {
        count_eq(s.drop_last(), v) + if s.last() == v {
            1int
        } else {
            0int
        }
    }
}

/// How many entries of `s` are adjacent to `p`.
pub open spec fn adj_count(s: Seq<Vec2>, p: Vec2) -> int
    decreases s.len(),
{
    if s.len() == 0 {
        0
    } else {
        adj_count(s.drop_last(), p) + if adjacent(s.last(), p) {
            1int
        } else {
            0int
        }
    }
}

/// The number of unordered pairs of entries of `s` that are adjacent:
/// each entry is paired against the entries before it.
pub open spec fn adj_pairs(s: Seq<Vec2>) -> int
    decreases s.len(),
{
    if s.len() == 0 {
        0
    } else {
        adj_pairs(s.drop_last()) + adj_count(s.drop_last(), s.last())
    }
}

/// Area of a region: the number of its positions.
pub open spec fn spec_area(s: Seq<Vec2>) -> int {
    s.len() as int
}

/// Perimeter of a region: every cell contributes four edges and every
/// adjacent pair of member cells hides one edge on each side.
pub open spec fn spec_perimeter(s: Seq<Vec2>) -> int {
    4 * s.len() - 2 * adj_pairs(s)
}

/// Sum over the entries of `iter` of their adjacency count within `full`.
pub open spec fn deg_sum(iter: Seq<Vec2>, full: Seq<Vec2>) -> int
    decreases iter.len(),
{
    if iter.len() == 0 {
        0
    } else {
        deg_sum(iter.drop_last(), full) + adj_count(full, iter.last())
    }
}

/// `count_eq` is zero exactly on absent values.
proof fn lemma_count_eq_contains(s: Seq<Vec2>, v: Vec2)
    ensures
        count_eq(s, v) >= 0,
        count_eq(s, v) == 0 <==> !s.contains(v),
    decreases s.len(),
{
    if s.len() > 0 {
        lemma_count_eq_contains(s.drop_last(), v);
        assert(s.contains(v) <==> (s.last() == v || s.drop_last().contains(v))) by {
            if s.contains(v) {
                let i = choose|i: int| 0 <= i < s.len() && s[i] == v;
                if i < s.len() - 1 {
                    assert(s.drop_last()[i] == v);
                }
            }
            if s.drop_last().contains(v) {
                let i = choose|i: int| 0 <= i < s.drop_last().len() && s.drop_last()[i] == v;
                assert(s[i] == v);
            }
        }
    }
}

/// In a duplicate-free sequence every value occurs at most once.
proof fn lemma_count_eq_no_dup(s: Seq<Vec2>, v: Vec2)
    requires
        s.no_duplicates(),
    ensures
        0 <= count_eq(s, v) <= 1,
    decreases s.len(),
{
    if s.len() > 0 {
        assert(s.drop_last().no_duplicates());
        lemma_count_eq_no_dup(s.drop_last(), v);
        lemma_count_eq_contains(s.drop_last(), v);
        if s.last() == v {
            assert(!s.drop_last().contains(v)) by {
                if s.drop_last().contains(v) {
                    let i = choose|i: int|
                        0 <= i < s.drop_last().len() && s.drop_last()[i] == v;
                    assert(s[i] == s[s.len() - 1]);
                }
            }
        }
    }
}

/// The four possible neighbours of a well-bounded position.
spec fn north(p: Vec2) -> Vec2 {
    Vec2 { x: p.x, y: (p.y + 1) as i32 }
}

spec fn south(p: Vec2) -> Vec2 {
    Vec2 { x: p.x, y: (p.y - 1) as i32 }
}

spec fn east(p: Vec2) -> Vec2 {
    Vec2 { x: (p.x + 1) as i32, y: p.y }
}

spec fn west(p: Vec2) -> Vec2 {
    Vec2 { x: (p.x - 1) as i32, y: p.y }
}

/// Adjacency to `p` means being one of `p`'s four neighbours.
proof fn lemma_adj_count_split(s: Seq<Vec2>, p: Vec2)
    requires
        coord_ok(p),
    ensures
        adj_count(s, p) == count_eq(s, north(p)) + count_eq(s, south(p)) + count_eq(s, east(p))
            + count_eq(s, west(p)),
    decreases s.len(),
{
    if s.len() > 0 {
        lemma_adj_count_split(s.drop_last(), p);
    }
}

/// A duplicate-free sequence holds at most four neighbours of any position.
proof fn lemma_adj_count_le_4(s: Seq<Vec2>, p: Vec2)
    requires
        s.no_duplicates(),
        coord_ok(p),
    ensures
        0 <= adj_count(s, p) <= 4,
{
    lemma_adj_count_split(s, p);
    lemma_count_eq_no_dup(s, north(p));
    lemma_count_eq_no_dup(s, south(p));
    lemma_count_eq_no_dup(s, east(p));
    lemma_count_eq_no_dup(s, west(p));
}

/// Extending the reference sequence by one entry raises each degree by the
/// new entry's own adjacencies.
proof fn lemma_deg_sum_extend(iter: Seq<Vec2>, full: Seq<Vec2>)
    requires
        full.len() > 0,
    ensures
        deg_sum(iter, full) == deg_sum(iter, full.drop_last()) + adj_count(iter, full.last()),
    decreases iter.len(),
{
    if iter.len() > 0 {
        lemma_deg_sum_extend(iter.drop_last(), full);
        assert(adjacent(full.last(), iter.last()) == adjacent(iter.last(), full.last()));
    }
}

/// The handshake identity: summing each member's degree counts every
/// adjacent pair twice.
proof fn lemma_handshake(s: Seq<Vec2>)
    ensures
        deg_sum(s, s) == 2 * adj_pairs(s),
    decreases s.len(),
{
    if s.len() > 0 {
        let d = s.drop_last();
        lemma_handshake(d);
        lemma_deg_sum_extend(d, s);
        assert(deg_sum(s, s) == deg_sum(d, s) + adj_count(s, s.last()));
        assert(adj_count(s, s.last()) == adj_count(d, s.last()) + if adjacent(s.last(), s.last()) {
            1int
        } else {
            0int
        });
        assert(!adjacent(s.last(), s.last()));
    }
}

/// Every position of a well-formed region is in bounds and occurs once.
pub open spec fn wf_positions(s: Seq<Vec2>) -> bool {
    s.no_duplicates() && (forall|i: int| 0 <= i < s.len() ==> coord_ok(#[trigger] s[i]))
}

/// A region: a set of grid positions holding the same plant symbol.
pub struct Region {
    pub plant: char,
    pub positions: Vec<Vec2>,
}

/// Some position of `s` is adjacent to `pos`.
pub open spec fn region_adj(s: Seq<Vec2>, pos: Vec2) -> bool {
    exists|i: int| 0 <= i < s.len() && adjacent(s[i], pos)
}

impl Region {
    /// The region's positions are in bounds and duplicate-free.
    pub open spec fn wf(&self) -> bool {
        wf_positions(self.positions@)
    }

    /// A fresh empty region for the given plant symbol.
    pub fn new(plant: char) -> (r: Region)
        ensures
            r.plant == plant,
            r.positions@ =~= Seq::<Vec2>::empty(),
    {
        Region { plant, positions: Vec::new() }
    }

    /// Area: how many positions the region holds.
    pub fn area(&self) -> (r: u32)
        requires
            self.positions@.len() <= u32::MAX,
        ensures
            r == spec_area(self.positions@),
    {
        self.positions.len() as u32
    }

    /// Whether some member position is adjacent to `pos`.
    pub fn is_adjacent_pos(&self, pos: Vec2) -> (r: bool)
        ensures
            r == region_adj(self.positions@, pos),
    {
        let mut i: usize = 0;
        while i < self.positions.len()
            invariant
                i <= self.positions@.len(),
                forall|j: int| 0 <= j < i ==> !adjacent(self.positions@[j], pos),
            decreases self.positions@.len() - i,
        {
            if self.positions[i].is_adjacent(pos) {
                return true;
            }
            i = i + 1;
        }
        false
    }

    /// Perimeter, by the shared-edge formula `4*area - 2*shared`.
    pub fn perimeter(&self) -> (r: u32)
        requires
            self.wf(),
            4 * self.positions@.len() <= u32::MAX,
        ensures
            r == spec_perimeter(self.positions@),
    {
        let s = &self.positions;
        let mut total: u32 = 0;
        let mut i: usize = 0;
        proof {
            lemma_handshake(s@);
        }
        while i < s.len()
            invariant
                i <= s@.len(),
                wf_positions(s@),
                4 * s@.len() <= u32::MAX,
                total == 4 * i - deg_sum(s@.take(i as int), s@),
                0 <= deg_sum(s@.take(i as int), s@) <= 4 * i,
            decreases s@.len() - i,
        {
            let p = s[i];
            // count the member positions adjacent to p, then add its free edges
            let mut d: u32 = 0;
            let mut j: usize = 0;
            while j < s.len()
                invariant
                    j <= s@.len(),
                    4 * s@.len() <= u32::MAX,
                    p == s@[i as int],
                    0 <= i < s@.len(),
                    d == adj_count(s@.take(j as int), p),
                    0 <= d <= j,
                decreases s@.len() - j,
            {
                proof {
                    assert(s@.take(j as int + 1).drop_last() =~= s@.take(j as int));
                    lemma_adj_count_nonneg(s@.take(j as int), p);
                }
                if s[j].is_adjacent(p) {
                    d = d + 1;
                }
                j = j + 1;
            }
            proof {
                assert(s@.take(s@.len() as int) =~= s@);
                lemma_adj_count_le_4(s@, p);
                assert(d <= 4);
                assert(s@.take(i as int + 1).drop_last() =~= s@.take(i as int));
                assert(deg_sum(s@.take(i as int + 1), s@) == deg_sum(s@.take(i as int), s@)
                    + adj_count(s@, p));
                assert(total <= 4 * i);
                assert(4 * i + 4 <= 4 * s@.len());
            }
            total = total + (4 - d);
            i = i + 1;
        }
        proof {
            assert(s@.take(s@.len() as int) =~= s@);
            lemma_handshake(s@);
            lemma_adj_pairs_bounds(s@);
        }
        total
    }
}

/// 1 for true, 0 for false.
pub open spec fn b2i(b: bool) -> int {
    if b {
        1
    } else {
        0
    }
}

/// The cell whose upper-right corner is `c`.
pub open spec fn cell_ul(c: Vec2) -> Vec2 {
    Vec2 { x: (c.x - 1) as i32, y: (c.y - 1) as i32 }
}

/// The cell whose lower-right corner is `c` (one step up from `c`).
pub open spec fn cell_ll(c: Vec2) -> Vec2 {
    Vec2 { x: (c.x - 1) as i32, y: c.y }
}

/// The cell whose upper-left corner is `c` (one step left of `c`).
pub open spec fn cell_ur(c: Vec2) -> Vec2 {
    Vec2 { x: c.x, y: (c.y - 1) as i32 }
}

/// How many member cells touch the corner `c`: a corner is shared by at
/// most the four cells around it.
pub open spec fn corner_touches(s: Seq<Vec2>, c: Vec2) -> int {
    b2i(s.contains(cell_ul(c))) + b2i(s.contains(cell_ur(c))) + b2i(s.contains(cell_ll(c))) + b2i(
        s.contains(c),
    )
}

/// What the corner `c` adds to the side count: outside and inside turning
/// points (one or three touching cells) count once; a corner pinched
/// between two diagonally touching cells counts twice; straight edges and
/// interior corners count nothing.
pub open spec fn corner_contrib(s: Seq<Vec2>, c: Vec2) -> int {
    let t = corner_touches(s, c);
    if t == 1 || t == 3 {
        1
    } else if t == 2 {
        if (s.contains(cell_ul(c)) && s.contains(c)) || (s.contains(cell_ur(c)) && s.contains(
            cell_ll(c),
        )) {
            2
        } else {
            0
        }
    } else {
        0
    }
}

/// The four corners of the cell `p`, in the order they are registered.
pub open spec fn corners_of_cell(p: Vec2) -> Seq<Vec2> {
    seq![
        p,
        Vec2 { x: p.x, y: (p.y + 1) as i32 },
        Vec2 { x: (p.x + 1) as i32, y: p.y },
        Vec2 { x: (p.x + 1) as i32, y: (p.y + 1) as i32 },
    ]
}

/// All corners of all member cells, with repetition.
pub open spec fn corner_seq(s: Seq<Vec2>) -> Seq<Vec2>
    decreases s.len(),
{
    if s.len() == 0 {
        Seq::empty()
    } else {
        corner_seq(s.drop_last()) + corners_of_cell(s.last())
    }
}

/// Sum of corner contributions over `cs`, counting each distinct corner
/// only at its first occurrence.
pub open spec fn distinct_contrib_sum(s: Seq<Vec2>, cs: Seq<Vec2>) -> int
    decreases cs.len(),
{
    if cs.len() == 0 {
        0
    } else {
        distinct_contrib_sum(s, cs.drop_last()) + if cs.drop_last().contains(cs.last()) {
            0
        } else {
            corner_contrib(s, cs.last())
        }
    }
}

/// Side count of a region: the number of corners where its outline turns.
pub open spec fn spec_sides(s: Seq<Vec2>) -> int {
    distinct_contrib_sum(s, corner_seq(s))
}

/// Price of a region: perimeter times area.
pub open spec fn spec_price(s: Seq<Vec2>) -> int {
    spec_perimeter(s) * spec_area(s)
}

/// Discounted price of a region: side count times area.
pub open spec fn spec_discounted_price(s: Seq<Vec2>) -> int {
    spec_sides(s) * spec_area(s)
}

/// Each corner contributes between 0 and 2 sides.
proof fn lemma_contrib_bounds(s: Seq<Vec2>, c: Vec2)
    ensures
        0 <= corner_contrib(s, c) <= 2,
{
}

/// The distinct-corner sum grows by at most 2 per listed corner.
proof fn lemma_distinct_sum_bounds(s: Seq<Vec2>, cs: Seq<Vec2>)
    ensures
        0 <= distinct_contrib_sum(s, cs) <= 2 * cs.len(),
    decreases cs.len(),
{
    if cs.len() > 0 {
        lemma_distinct_sum_bounds(s, cs.drop_last());
        lemma_contrib_bounds(s, cs.last());
    }
}

/// Corners of in-bounds cells have coordinates between 0 and the bound.
proof fn lemma_corner_seq_bounds(s: Seq<Vec2>)
    requires
        forall|i: int| 0 <= i < s.len() ==> coord_ok(#[trigger] s[i]),
    ensures
        forall|i: int|
            0 <= i < corner_seq(s).len() ==> 0 <= (#[trigger] corner_seq(s)[i]).x <= coord_bound()
                && 0 <= corner_seq(s)[i].y <= coord_bound(),
    decreases s.len(),
{
    if s.len() > 0 {
        assert(forall|i: int|
            0 <= i < s.drop_last().len() ==> coord_ok(#[trigger] s.drop_last()[i]));
        lemma_corner_seq_bounds(s.drop_last());
        assert(coord_ok(s.last())) by {
            assert(s[s.len() - 1] == s.last());
        }
        let pre = corner_seq(s.drop_last());
        let cs = corners_of_cell(s.last());
        assert forall|i: int|
            0 <= i < corner_seq(s).len() implies 0 <= (#[trigger] corner_seq(s)[i]).x
            <= coord_bound() && 0 <= corner_seq(s)[i].y <= coord_bound() by {
            if i < pre.len() {
                assert(corner_seq(s)[i] == pre[i]);
            } else {
                assert(corner_seq(s)[i] == cs[i - pre.len()]);
            }
        }
    }
}

/// Whether `p` occurs among the first `end` entries of `v`.
fn contains_in_prefix(v: &Vec<Vec2>, end: usize, p: Vec2) -> (r: bool)
    requires
        end <= v@.len(),
    ensures
        r == v@.take(end as int).contains(p),
{
    let mut i: usize = 0;
    while i < end
        invariant
            i <= end <= v@.len(),
            forall|j: int| 0 <= j < i ==> v@[j] != p,
        decreases end - i,
    {
        if v[i].x == p.x && v[i].y == p.y {
            proof {
                assert(v@.take(end as int)[i as int] == p);
            }
            return true;
        }
        i = i + 1;
    }
    proof {
        if v@.take(end as int).contains(p) {
            let j = choose|j: int| 0 <= j < end && v@.take(end as int)[j] == p;
            assert(v@[j] == p);
        }
    }
    false
}

/// Whether `p` occurs in `v`.
fn contains_pos(v: &Vec<Vec2>, p: Vec2) -> (r: bool)
    ensures
        r == v@.contains(p),
{
    let r = contains_in_prefix(v, v.len(), p);
    proof {
        assert(v@.take(v@.len() as int) =~= v@);
    }
    r
}

impl Region {
    /// Number of straight sides of the region's outline, found by
    /// classifying every distinct corner of its member cells.
    pub fn sides(&self) -> (r: u32)
        requires
            self.wf(),
            8 * self.positions@.len() <= u32::MAX,
        ensures
            r == spec_sides(self.positions@),
    {
        let s = &self.positions;
        // collect the four corners of every member cell
        let mut corners: Vec<Vec2> = Vec::new();
        let mut i: usize = 0;
        while i < s.len()
            invariant
                i <= s@.len(),
                wf_positions(s@),
                corners@ == corner_seq(s@.take(i as int)),
                corners@.len() == 4 * i,
            decreases s@.len() - i,
        {
            let p = s[i];
            proof {
                assert(coord_ok(p));
                assert(s@.take(i as int + 1).drop_last() =~= s@.take(i as int));
            }
            corners.push(Vec2 { x: p.x, y: p.y });
            corners.push(Vec2 { x: p.x, y: p.y + 1 });
            corners.push(Vec2 { x: p.x + 1, y: p.y });
            corners.push(Vec2 { x: p.x + 1, y: p.y + 1 });
            proof {
                assert(corners@ =~= corner_seq(s@.take(i as int + 1)));
            }
            i = i + 1;
        }
        proof {
            assert(s@.take(s@.len() as int) =~= s@);
        }
        // add up the contribution of each distinct corner
        let mut total: u32 = 0;
        let mut k: usize = 0;
        while k < corners.len()
            invariant
                k <= corners@.len(),
                wf_positions(s@),
                corners@ == corner_seq(s@),
                corners@.len() == 4 * s@.len(),
                8 * s@.len() <= u32::MAX,
                total == distinct_contrib_sum(s@, corners@.take(k as int)),
                0 <= total <= 2 * k,
            decreases corners@.len() - k,
        {
            let c = corners[k];
            proof {
                assert(corners@.take(k as int + 1).drop_last() =~= corners@.take(k as int));
                assert(corners@.take(k as int + 1).last() == c);
                lemma_distinct_sum_bounds(s@, corners@.take(k as int));
                lemma_contrib_bounds(s@, c);
                lemma_corner_seq_bounds(s@);
                assert(0 <= c.x <= coord_bound() && 0 <= c.y <= coord_bound());
            }
            let seen = contains_in_prefix(&corners, k, c);
            if !seen {
                let t_ul = contains_pos(s, Vec2 { x: c.x - 1, y: c.y - 1 });
                let t_ur = contains_pos(s, Vec2 { x: c.x, y: c.y - 1 });
                let t_ll = contains_pos(s, Vec2 { x: c.x - 1, y: c.y });
                let t_dr = contains_pos(s, Vec2 { x: c.x, y: c.y });
                let touches = (if t_ul {
                    1u32
                } else {
                    0u32
                }) + (if t_ur {
                    1u32
                } else {
                    0u32
                }) + (if t_ll {
                    1u32
                } else {
                    0u32
                }) + (if t_dr {
                    1u32
                } else {
                    0u32
                });
                let add = if touches == 1 || touches == 3 {
                    1u32
                } else if touches == 2 {
                    if (t_ul && t_dr) || (t_ur && t_ll) {
                        2u32
                    } else {
                        0u32
                    }
                } else {
                    0u32
                };
                proof {
                    assert(add == corner_contrib(s@, c));
                }
                total = total + add;
            }
            k = k + 1;
        }
        proof {
            assert(corners@.take(corners@.len() as int) =~= corners@);
        }
        total
    }

    /// Price: perimeter times area.
    pub fn price(&self) -> (r: u32)
        requires
            self.wf(),
            4 * self.positions@.len() <= u32::MAX,
            spec_price(self.positions@) <= u32::MAX,
        ensures
            r == spec_price(self.positions@),
    {
        let p = self.perimeter();
        let a = self.area();
        proof {
            lemma_adj_pairs_bounds(self.positions@);
        }
        p * a
    }

    /// Discounted price: side count times area.
    pub fn discounted_price(&self) -> (r: u32)
        requires
            self.wf(),
            8 * self.positions@.len() <= u32::MAX,
            spec_discounted_price(self.positions@) <= u32::MAX,
        ensures
            r == spec_discounted_price(self.positions@),
    {
        let sd = self.sides();
        let a = self.area();
        proof {
            lemma_distinct_sum_bounds(self.positions@, corner_seq(self.positions@));
        }
        sd * a
    }
}

/// Work one grid cell into the region list: regions of the same plant
/// adjacent to `pos` are merged, with `pos`, into one region at the end of
/// the list; the others keep their order.
fn build_step_exec(regions: Vec<Region>, plant: char, pos: Vec2) -> (r: Vec<Region>)
    ensures
        models_of(r@) == build_step(models_of(regions@), plant, pos),
{
    let ghost prev = models_of(regions@);
    let ghost kp = keep_pred(plant, pos);
    let ghost tp = take_pred(plant, pos);
    let mut rest = regions;
    let mut kept: Vec<Region> = Vec::new();
    let mut merged: Vec<Vec2> = Vec::new();
    let ghost mut t: int = 0;
    proof {
        reveal(Seq::filter);
        assert(prev.take(0).filter(kp) =~= Seq::<RegionModel>::empty());
        assert(prev.take(0).filter(tp) =~= Seq::<RegionModel>::empty());
        assert(models_of(kept@) =~= prev.take(0).filter(kp));
        assert(merged@ =~= cat_cells(prev.take(0).filter(tp)));
        assert(models_of(rest@) =~= prev.skip(0));
    }
    while rest.len() > 0
        invariant
            0 <= t <= prev.len(),
            kp == keep_pred(plant, pos),
            tp == take_pred(plant, pos),
            models_of(rest@) == prev.skip(t),
            rest@.len() == prev.len() - t,
            models_of(kept@) == prev.take(t).filter(kp),
            merged@ == cat_cells(prev.take(t).filter(tp)),
        decreases rest@.len(),
    {
        let ghost pre_rest = rest@;
        let ghost pre_kept = models_of(kept@);
        let rg = rest.remove(0);
        proof {
            assert(model_of(rg) == prev.skip(t)[0]);
            assert(prev.skip(t)[0] == prev[t]);
            assert(models_of(rest@) =~= prev.skip(t + 1)) by {
                assert(rest@ =~= pre_rest.drop_first());
                assert forall|j: int| 0 <= j < rest@.len() implies models_of(rest@)[j] == prev.skip(
                    t + 1,
                )[j] by {
                    assert(models_of(rest@)[j] == model_of(rest@[j]));
                    assert(rest@[j] == pre_rest[j + 1]);
                    assert(models_of(pre_rest)[j + 1] == model_of(pre_rest[j + 1]));
                    assert(models_of(pre_rest)[j + 1] == prev.skip(t)[j + 1]);
                }
            }
            reveal(Seq::filter);
            assert(prev.take(t + 1).drop_last() =~= prev.take(t));
            assert(prev.take(t + 1).last() == prev[t]);
        }
        let joins = rg.plant == plant && rg.is_adjacent_pos(pos);
        proof {
            assert(joins == tp(prev[t]));
            assert(!joins == kp(prev[t]));
        }
        if joins {
            let mut ps = rg.positions;
            merged.append(&mut ps);
            proof {
                assert(prev.take(t + 1).filter(tp) =~= prev.take(t).filter(tp).push(prev[t]));
                assert(prev.take(t + 1).filter(kp) =~= prev.take(t).filter(kp));
                assert(cat_cells(prev.take(t).filter(tp).push(prev[t])) == cat_cells(
                    prev.take(t).filter(tp),
                ) + prev[t].cells) by {
                    let ext = prev.take(t).filter(tp).push(prev[t]);
                    assert(ext.drop_last() =~= prev.take(t).filter(tp));
                    assert(ext.last() == prev[t]);
                }
                assert(merged@ =~= cat_cells(prev.take(t + 1).filter(tp)));
            }
        } else {
            kept.push(rg);
            proof {
                assert(prev.take(t + 1).filter(kp) =~= prev.take(t).filter(kp).push(prev[t]));
                assert(prev.take(t + 1).filter(tp) =~= prev.take(t).filter(tp));
                assert(models_of(kept@) =~= pre_kept.push(prev[t]));
            }
        }
        proof {
            t = t + 1;
        }
    }
    proof {
        assert(t == prev.len());
        assert(prev.take(prev.len() as int) =~= prev);
    }
    merged.push(pos);
    let ghost mv = merged@;
    let ghost pre_kept = models_of(kept@);
    proof {
        assert(mv == cat_cells(prev.filter(tp)).push(pos));
        assert(pre_kept == prev.filter(kp));
    }
    let ghost kb = kept@;
    kept.push(Region { plant, positions: merged });
    proof {
        assert(kept@.len() == kb.len() + 1);
        assert(kept@.last().plant == plant);
        assert(kept@.last().positions@ == mv);
        assert forall|j: int| 0 <= j < kept@.len() implies models_of(kept@)[j] == pre_kept.push(
            RegionModel { plant, cells: mv },
        )[j] by {
            assert(models_of(kept@)[j] == model_of(kept@[j]));
            if j < kb.len() {
                assert(kept@[j] == kb[j]);
                assert(pre_kept[j] == model_of(kb[j]));
            } else {
                assert(kept@[j].plant == plant);
                assert(kept@[j].positions@ == mv);
            }
        }
        assert(models_of(kept@) =~= pre_kept.push(RegionModel { plant, cells: mv }));
        assert(models_of(kept@) =~= build_step(prev, plant, pos));
    }
    kept
}

/// A plot of garden cells: the grid's symbols in row-major order with its
/// width.  Only rectangular grids are accepted: a ragged text is a parse
/// error, ruled out by the parser's precondition.
pub struct Plot {
    pub width: u32,
    pub plants: Vec<char>,
}

impl Plot {
    /// Bounds under which region building and pricing cannot overflow.
    pub open spec fn wf(&self) -> bool {
        self.plants@.len() <= 0x1000_0000 && (self.width > 0 || self.plants@.len() == 0)
    }

    /// Parse a rectangular grid: the width is the row length, the cells
    /// are all symbols in row-major order.
    pub fn from_string(string: &str) -> (r: Plot)
        requires
            string@.len() <= 0x1000_0000,
            text::rect_grid(string@),
        ensures
            r.width == text::find_char(string@, '\n'),
            r.plants@ == text::grid_cells(string@),
            r.plants@.len() <= string@.len(),
    {
        let chars = text::chars_of(string);
        let width = text::find_char_in(&chars, '\n');
        let plants = text::drop_newlines(&chars);
        proof {
            text::lemma_find_if(chars@, text::eq_char('\n'));
        }
        Plot { width: width as u32, plants }
    }

    /// Group the cells into maximal 4-connected regions of equal symbols,
    /// scanning in row-major order.  A cell that touches several existing
    /// regions of its symbol merges them into one region at the end of the
    /// list.
    pub fn regions(&self) -> (r: Vec<Region>)
        requires
            self.wf(),
        ensures
            models_of(r@) == spec_regions(
                self.plants@,
                self.width as int,
                self.plants@.len() as int,
            ),
    {
        let ghost cells = self.plants@;
        let ghost w = self.width as int;
        let mut regions: Vec<Region> = Vec::new();
        let mut idx: usize = 0;
        proof {
            assert(models_of(regions@) =~= spec_regions(cells, w, 0));
        }
        while idx < self.plants.len()
            invariant
                idx <= cells.len(),
                cells == self.plants@,
                w == self.width as int,
                self.wf(),
                models_of(regions@) == spec_regions(cells, w, idx as int),
            decreases cells.len() - idx,
        {
            let plant = self.plants[idx];
            let pos = Vec2 {
                x: (idx as u32 % self.width) as i32,
                y: (idx as u32 / self.width) as i32,
            };
            proof {
                let ia = idx as int;
                assert(0 <= ia % w && ia % w <= ia && 0 <= ia / w && ia / w <= ia)
                    by (nonlinear_arith)
                    requires
                        1 <= w,
                        0 <= ia,
                ;
                assert(pos == cell_pos(ia, w));
            }
            regions = build_step_exec(regions, plant, pos);
            proof {
                assert(models_of(regions@) == spec_regions(cells, w, idx as int + 1));
            }
            idx = idx + 1;
        }
        regions
    }
}

/// The shape of one building step: the kept regions followed by the one
/// merged region.
proof fn lemma_build_step_shape(prev: Seq<RegionModel>, plant: char, pos: Vec2)
    ensures
        build_step(prev, plant, pos) == prev.filter(keep_pred(plant, pos)).push(
            RegionModel {
                plant,
                cells: cat_cells(prev.filter(take_pred(plant, pos))).push(pos),
            },
        ),
        build_step(prev, plant, pos).len() == prev.filter(keep_pred(plant, pos)).len() + 1,
        build_step(prev, plant, pos).drop_last() =~= prev.filter(keep_pred(plant, pos)),
        build_step(prev, plant, pos).last() == (RegionModel {
            plant,
            cells: cat_cells(prev.filter(take_pred(plant, pos))).push(pos),
        }),
        forall|i: int|
            0 <= i < prev.filter(keep_pred(plant, pos)).len() ==> build_step(prev, plant, pos)[i]
                == prev.filter(keep_pred(plant, pos))[i],
{
    let kp = keep_pred(plant, pos);
    let tp = take_pred(plant, pos);
    let newreg = RegionModel { plant, cells: cat_cells(prev.filter(tp)).push(pos) };
    assert(build_step(prev, plant, pos) == prev.filter(kp).push(newreg));
    assert(prev.filter(kp).push(newreg).drop_last() =~= prev.filter(kp));
}

/// All cells of the given regions, as a multiset.
pub open spec fn flat_ms(rs: Seq<RegionModel>) -> Multiset<Vec2>
    decreases rs.len(),
{
    if rs.len() == 0 {
        Multiset::empty()
    } else {
        flat_ms(rs.drop_last()).add(rs.last().cells.to_multiset())
    }
}

/// The positions of the first `k` cells of the grid, as a multiset.
pub open spec fn coords_ms(width: int, k: int) -> Multiset<Vec2>
    decreases k,
{
    if k <= 0 {
        Multiset::empty()
    } else {
        coords_ms(width, k - 1).insert(cell_pos(k - 1, width))
    }
}

/// Sum of the region areas.
pub open spec fn sum_areas(rs: Seq<RegionModel>) -> int
    decreases rs.len(),
{
    if rs.len() == 0 {
        0
    } else {
        sum_areas(rs.drop_last()) + rs.last().cells.len()
    }
}

/// Sum of the region prices.
pub open spec fn sum_prices(rs: Seq<RegionModel>) -> int
    decreases rs.len(),
{
    if rs.len() == 0 {
        0
    } else {
        sum_prices(rs.drop_last()) + spec_price(rs.last().cells)
    }
}

/// Sum of the discounted region prices.
pub open spec fn sum_discounted_prices(rs: Seq<RegionModel>) -> int
    decreases rs.len(),
{
    if rs.len() == 0 {
        0
    } else {
        sum_discounted_prices(rs.drop_last()) + spec_discounted_price(rs.last().cells)
    }
}

/// Splitting the region list by a predicate splits its cell multiset.
proof fn lemma_flat_ms_partition(rs: Seq<RegionModel>, plant: char, pos: Vec2)
    ensures
        flat_ms(rs) =~= flat_ms(rs.filter(take_pred(plant, pos))).add(
            flat_ms(rs.filter(keep_pred(plant, pos))),
        ),
    decreases rs.len(),
{
    reveal(Seq::filter);
    broadcast use vstd::multiset::group_multiset_axioms;

    if rs.len() > 0 {
        lemma_flat_ms_partition(rs.drop_last(), plant, pos);
        let tp = take_pred(plant, pos);
        let kp = keep_pred(plant, pos);
        let d = rs.drop_last();
        assert(rs.filter(tp) == if tp(rs.last()) {
            d.filter(tp).push(rs.last())
        } else {
            d.filter(tp)
        });
        assert(rs.filter(kp) == if kp(rs.last()) {
            d.filter(kp).push(rs.last())
        } else {
            d.filter(kp)
        });
        if tp(rs.last()) {
            let ext = d.filter(tp).push(rs.last());
            assert(ext.drop_last() =~= d.filter(tp));
            assert(flat_ms(ext) == flat_ms(d.filter(tp)).add(rs.last().cells.to_multiset()));
        } else {
            let ext = d.filter(kp).push(rs.last());
            assert(ext.drop_last() =~= d.filter(kp));
            assert(flat_ms(ext) == flat_ms(d.filter(kp)).add(rs.last().cells.to_multiset()));
        }
    }
}

/// Concatenating the regions' cells yields exactly their cell multiset.
proof fn lemma_cat_cells_ms(rs: Seq<RegionModel>)
    ensures
        cat_cells(rs).to_multiset() =~= flat_ms(rs),
    decreases rs.len(),
{
    broadcast use vstd::seq_lib::group_to_multiset_ensures;

    if rs.len() == 0 {
        assert(cat_cells(rs) =~= Seq::<Vec2>::empty());
        assert(Seq::<Vec2>::empty().to_multiset() =~= Multiset::<Vec2>::empty());
    } else {
        lemma_cat_cells_ms(rs.drop_last());
        vstd::seq_lib::lemma_multiset_commutative(cat_cells(rs.drop_last()), rs.last().cells);
    }
}

/// The regions built from the first `k` cells hold exactly those cells.
proof fn lemma_build_ms(cells: Seq<char>, width: int, k: int)
    requires
        0 <= k,
    ensures
        flat_ms(spec_regions(cells, width, k)) =~= coords_ms(width, k),
    decreases k,
{
    broadcast use vstd::multiset::group_multiset_axioms;
    broadcast use vstd::seq_lib::group_to_multiset_ensures;

    if k > 0 {
        lemma_build_ms(cells, width, k - 1);
        let prev = spec_regions(cells, width, k - 1);
        let plant = cells[k - 1];
        let pos = cell_pos(k - 1, width);
        let tp = take_pred(plant, pos);
        let kp = keep_pred(plant, pos);
        lemma_flat_ms_partition(prev, plant, pos);
        lemma_cat_cells_ms(prev.filter(tp));
        let merged = cat_cells(prev.filter(tp)).push(pos);
        assert(merged.to_multiset() =~= cat_cells(prev.filter(tp)).to_multiset().insert(pos));
        let newreg = RegionModel { plant, cells: merged };
        let built = build_step(prev, plant, pos);
        lemma_build_step_shape(prev, plant, pos);
        assert(built.last().cells == merged);
        assert(flat_ms(built) == flat_ms(built.drop_last()).add(built.last().cells.to_multiset()));
        assert(flat_ms(built.drop_last()) == flat_ms(prev.filter(kp)));
        assert(flat_ms(built) =~= flat_ms(prev).insert(pos));
    }
}

/// Distinct flat indices give distinct grid positions.
proof fn lemma_cell_pos_injective(width: int, i: int, j: int)
    requires
        1 <= width,
        0 <= i < 0x1000_0000,
        0 <= j < 0x1000_0000,
        i != j,
    ensures
        cell_pos(i, width) != cell_pos(j, width),
{
    assert(0 <= i % width <= i && 0 <= i / width <= i && i == width * (i / width) + i % width)
        by (nonlinear_arith)
        requires
            1 <= width,
            0 <= i,
    ;
    assert(0 <= j % width <= j && 0 <= j / width <= j && j == width * (j / width) + j % width)
        by (nonlinear_arith)
        requires
            1 <= width,
            0 <= j,
    ;
    if cell_pos(i, width) == cell_pos(j, width) {
        assert(i % width == j % width && i / width == j / width);
        assert(i == j);
    }
}

/// How often each position occurs among the first `k` grid cells: once if
/// it is one of them, never otherwise.
proof fn lemma_coords_ms_count(width: int, k: int, v: Vec2)
    requires
        1 <= width,
        0 <= k <= 0x1000_0000,
    ensures
        coords_ms(width, k).count(v) == (if exists|i: int|
            0 <= i < k && v == cell_pos(i, width) {
            1nat
        } else {
            0nat
        }),
    decreases k,
{
    broadcast use vstd::multiset::group_multiset_axioms;

    if k > 0 {
        lemma_coords_ms_count(width, k - 1, v);
        if v == cell_pos(k - 1, width) {
            assert forall|i: int| 0 <= i < k - 1 implies v != cell_pos(i, width) by {
                lemma_cell_pos_injective(width, i, k - 1);
            }
            assert(coords_ms(width, k - 1).count(v) == 0);
            assert(coords_ms(width, k).count(v) == 1);
            assert(exists|i: int| 0 <= i < k && v == cell_pos(i, width)) by {
                assert(v == cell_pos(k - 1, width));
            }
        } else {
            assert(coords_ms(width, k).count(v) == coords_ms(width, k - 1).count(v));
            assert((exists|i: int| 0 <= i < k && v == cell_pos(i, width)) == (exists|i: int|
                0 <= i < k - 1 && v == cell_pos(i, width))) by {
                if exists|i: int| 0 <= i < k && v == cell_pos(i, width) {
                    let i = choose|i: int| 0 <= i < k && v == cell_pos(i, width);
                    assert(i < k - 1 || v == cell_pos(k - 1, width));
                }
            }
        }
    }
}

/// A single region's cells are contained in the whole cell multiset.
proof fn lemma_region_ms_le(rs: Seq<RegionModel>, ri: int, v: Vec2)
    requires
        0 <= ri < rs.len(),
    ensures
        rs[ri].cells.to_multiset().count(v) <= flat_ms(rs).count(v),
    decreases rs.len(),
{
    broadcast use vstd::multiset::group_multiset_axioms;

    if rs.len() > 0 {
        if ri == rs.len() - 1 {
            assert(rs.last() == rs[ri]);
        } else {
            lemma_region_ms_le(rs.drop_last(), ri, v);
            assert(rs.drop_last()[ri] == rs[ri]);
        }
    }
}

/// The total area is the size of the cell multiset.
proof fn lemma_sum_areas_ms(rs: Seq<RegionModel>)
    ensures
        sum_areas(rs) == flat_ms(rs).len(),
    decreases rs.len(),
{
    broadcast use vstd::multiset::group_multiset_axioms;
    broadcast use vstd::seq_lib::group_to_multiset_ensures;

    if rs.len() > 0 {
        lemma_sum_areas_ms(rs.drop_last());
    }
}

/// The grid's first `k` positions number exactly `k`.
proof fn lemma_coords_ms_len(width: int, k: int)
    requires
        0 <= k,
    ensures
        coords_ms(width, k).len() == k,
    decreases k,
{
    broadcast use vstd::multiset::group_multiset_axioms;

    if k > 0 {
        lemma_coords_ms_len(width, k - 1);
    }
}

/// The regions of a grid partition its cells: every grid cell lies in
/// exactly one region (counted with multiplicity one), nothing else lies in
/// any region, and the region areas add up to the total number of cells.
/// Each region is well formed and non-empty.
pub proof fn lemma_regions_partition(cells: Seq<char>, width: int)
    requires
        1 <= width || cells.len() == 0,
        cells.len() <= 0x1000_0000,
    ensures
        sum_areas(spec_regions(cells, width, cells.len() as int)) == cells.len(),
        forall|i: int|
            0 <= i < cells.len() ==> flat_ms(spec_regions(cells, width, cells.len() as int)).count(
                #[trigger] cell_pos(i, width),
            ) == 1,
        forall|v: Vec2|
            #![trigger flat_ms(spec_regions(cells, width, cells.len() as int)).count(v)]
            (!exists|i: int| 0 <= i < cells.len() && v == cell_pos(i, width)) ==> flat_ms(
                spec_regions(cells, width, cells.len() as int),
            ).count(v) == 0,
        forall|ri: int|
            0 <= ri < spec_regions(cells, width, cells.len() as int).len() ==> wf_positions(
                (#[trigger] spec_regions(cells, width, cells.len() as int)[ri]).cells,
            ),
        forall|ri: int|
            0 <= ri < spec_regions(cells, width, cells.len() as int).len() ==> (
            #[trigger] spec_regions(cells, width, cells.len() as int)[ri]).cells.len() > 0,
{
    broadcast use vstd::multiset::group_multiset_axioms;
    broadcast use vstd::seq_lib::group_to_multiset_ensures;

    let n = cells.len() as int;
    let rs = spec_regions(cells, width, n);
    lemma_build_ms(cells, width, n);
    lemma_sum_areas_ms(rs);
    lemma_coords_ms_len(width, n);
    if n == 0 {
        assert(rs =~= Seq::<RegionModel>::empty());
        assert(flat_ms(rs) =~= Multiset::<Vec2>::empty());
    } else {
        assert(1 <= width);
        assert forall|i: int| 0 <= i < n implies flat_ms(rs).count(#[trigger] cell_pos(i, width))
            == 1 by {
            lemma_coords_ms_count(width, n, cell_pos(i, width));
        }
        assert forall|v: Vec2|
            (!exists|i: int| 0 <= i < n && v == cell_pos(i, width)) implies #[trigger] flat_ms(
            rs,
        ).count(v) == 0 by {
            lemma_coords_ms_count(width, n, v);
        }
    }
    assert forall|ri: int| 0 <= ri < rs.len() implies wf_positions(
        (#[trigger] rs[ri]).cells,
    ) && rs[ri].cells.len() > 0 by {
        let cs = rs[ri].cells;
        assert forall|v: Vec2| cs.to_multiset().contains(v) implies #[trigger] cs.to_multiset().count(v) == 1
            && coord_ok(v) by {
            lemma_region_ms_le(rs, ri, v);
            assert(flat_ms(rs).count(v) >= 1);
            if n == 0 {
                assert(flat_ms(rs) =~= Multiset::<Vec2>::empty());
            } else {
                lemma_coords_ms_count(width, n, v);
                assert(exists|i: int| 0 <= i < n && v == cell_pos(i, width));
                let i = choose|i: int| 0 <= i < n && v == cell_pos(i, width);
                assert(0 <= i % width <= i && 0 <= i / width <= i) by (nonlinear_arith)
                    requires
                        1 <= width,
                        0 <= i,
                ;
                assert(coord_ok(v));
                assert(flat_ms(rs).count(v) == 1);
            }
        }
        assert(forall|x: Vec2| cs.to_multiset().contains(x) ==> #[trigger] cs.to_multiset().count(x) == 1);
        cs.lemma_multiset_has_no_duplicates_conv();
        assert(cs.no_duplicates());
        assert forall|ci: int| 0 <= ci < cs.len() implies coord_ok(#[trigger] cs[ci]) by {
            assert(cs.to_multiset().contains(cs[ci]));
        }
        assert(cs.len() > 0) by {
            lemma_region_nonempty(cells, width, n, ri);
        }
    }
}

/// Every region the builder produces holds at least one cell.
proof fn lemma_region_nonempty(cells: Seq<char>, width: int, k: int, ri: int)
    requires
        0 <= k,
        0 <= ri < spec_regions(cells, width, k).len(),
    ensures
        spec_regions(cells, width, k)[ri].cells.len() > 0,
    decreases k,
{
    if k > 0 {
        let prev = spec_regions(cells, width, k - 1);
        let plant = cells[k - 1];
        let pos = cell_pos(k - 1, width);
        let kp = keep_pred(plant, pos);
        let tp = take_pred(plant, pos);
        let newreg = RegionModel { plant, cells: cat_cells(prev.filter(tp)).push(pos) };
        let built = build_step(prev, plant, pos);
        assert(built == spec_regions(cells, width, k));
        lemma_build_step_shape(prev, plant, pos);
        if ri == built.len() - 1 {
            assert(built[ri] == newreg);
            assert(newreg.cells == cat_cells(prev.filter(tp)).push(pos));
            assert(cat_cells(prev.filter(tp)).push(pos).len() >= 1);
        } else {
            assert(0 <= ri < prev.filter(kp).len());
            assert(built[ri] == prev.filter(kp)[ri]);
            lemma_filter_member(prev, kp, ri);
            let pi = choose|pi: int|
                0 <= pi < prev.len() && prev[pi] == prev.filter(kp)[ri];
            lemma_region_nonempty(cells, width, k - 1, pi);
        }
    }
}

/// Every element of a filtered sequence occurs in the original.
proof fn lemma_filter_member(
    rs: Seq<RegionModel>,
    pred: spec_fn(RegionModel) -> bool,
    i: int,
)
    requires
        0 <= i < rs.filter(pred).len(),
    ensures
        exists|j: int| 0 <= j < rs.len() && rs[j] == rs.filter(pred)[i],
    decreases rs.len(),
{
    reveal(Seq::filter);
    if rs.len() > 0 {
        let d = rs.drop_last();
        if pred(rs.last()) && i == rs.filter(pred).len() - 1 {
            assert(rs.filter(pred)[i] == rs.last());
            assert(rs[rs.len() - 1] == rs.last());
        } else {
            assert(rs.filter(pred)[i] == d.filter(pred)[i]);
            lemma_filter_member(d, pred, i);
            let j = choose|j: int| 0 <= j < d.len() && d[j] == d.filter(pred)[i];
            assert(rs[j] == d[j]);
        }
    }
}

/// A single region's area is at most the sum of all areas.
proof fn lemma_area_le_sum(rs: Seq<RegionModel>, ri: int)
    requires
        0 <= ri < rs.len(),
    ensures
        rs[ri].cells.len() <= sum_areas(rs),
    decreases rs.len(),
{
    if rs.len() > 0 {
        lemma_sum_areas_nonneg(rs.drop_last());
        if ri == rs.len() - 1 {
            assert(rs.last() == rs[ri]);
        } else {
            lemma_area_le_sum(rs.drop_last(), ri);
            assert(rs.drop_last()[ri] == rs[ri]);
        }
    }
}

/// Areas are counts, so their sum is non-negative.
proof fn lemma_sum_areas_nonneg(rs: Seq<RegionModel>)
    ensures
        sum_areas(rs) >= 0,
    decreases rs.len(),
{
    if rs.len() > 0 {
        lemma_sum_areas_nonneg(rs.drop_last());
    }
}

/// A well-formed region's price and discounted price are non-negative.
proof fn lemma_prices_nonneg(cells: Seq<Vec2>)
    requires
        wf_positions(cells),
    ensures
        spec_price(cells) >= 0,
        spec_discounted_price(cells) >= 0,
{
    lemma_adj_pairs_bounds(cells);
    lemma_distinct_sum_bounds(cells, corner_seq(cells));
    assert(spec_perimeter(cells) * spec_area(cells) >= 0) by (nonlinear_arith)
        requires
            spec_perimeter(cells) >= 0,
            spec_area(cells) >= 0,
    ;
    assert(spec_sides(cells) * spec_area(cells) >= 0) by (nonlinear_arith)
        requires
            spec_sides(cells) >= 0,
            spec_area(cells) >= 0,
    ;
}

/// Partial price sums stay between zero and the whole sum.
proof fn lemma_sum_prices_take_le(rs: Seq<RegionModel>, i: int)
    requires
        0 <= i <= rs.len(),
        forall|ri: int| 0 <= ri < rs.len() ==> wf_positions((#[trigger] rs[ri]).cells),
    ensures
        0 <= sum_prices(rs.take(i)) <= sum_prices(rs),
        0 <= sum_discounted_prices(rs.take(i)) <= sum_discounted_prices(rs),
    decreases rs.len() - i,
{
    if i == rs.len() {
        assert(rs.take(i) =~= rs);
        lemma_sum_partial_nonneg(rs, i);
    } else {
        lemma_sum_prices_take_le(rs, i + 1);
        assert(rs.take(i + 1).drop_last() =~= rs.take(i));
        assert(rs.take(i + 1).last() == rs[i]);
        lemma_prices_nonneg(rs[i].cells);
        lemma_sum_partial_nonneg(rs, i);
    }
}

/// Prefixes of well-formed regions have non-negative sums.
proof fn lemma_sum_partial_nonneg(rs: Seq<RegionModel>, i: int)
    requires
        0 <= i <= rs.len(),
        forall|ri: int| 0 <= ri < rs.len() ==> wf_positions((#[trigger] rs[ri]).cells),
    ensures
        sum_prices(rs.take(i)) >= 0,
        sum_discounted_prices(rs.take(i)) >= 0,
    decreases i,
{
    if i > 0 {
        lemma_sum_partial_nonneg(rs, i - 1);
        assert(rs.take(i).drop_last() =~= rs.take(i - 1));
        assert(rs.take(i).last() == rs[i - 1]);
        lemma_prices_nonneg(rs[i - 1].cells);
    }
}

/// A puzzle over one garden plot grid.
pub struct Problem {
    pub plot: Plot,
}

impl Problem {
    /// The region list of the whole grid, as a spec value.
    pub open spec fn spec_regions_of(&self) -> Seq<RegionModel> {
        spec_regions(self.plot.plants@, self.plot.width as int, self.plot.plants@.len() as int)
    }

    /// Parse the rectangular grid.
    pub fn from_string(string: &str) -> (r: Problem)
        requires
            string@.len() <= 0x1000_0000,
            text::rect_grid(string@),
        ensures
            r.plot.width == text::find_char(string@, '\n'),
            r.plot.plants@ == text::grid_cells(string@),
            r.plot.plants@.len() <= string@.len(),
    {
        Problem { plot: Plot::from_string(string) }
    }

    /// Total price: the sum over all regions of perimeter times area.
    pub fn part_1(&self) -> (r: u32)
        requires
            self.plot.wf(),
            sum_prices(self.spec_regions_of()) <= u32::MAX,
        ensures
            r == sum_prices(self.spec_regions_of()),
    {
        let regions = self.plot.regions();
        let ghost rs = models_of(regions@);
        proof {
            lemma_regions_partition(self.plot.plants@, self.plot.width as int);
            assert(sum_areas(rs) == self.plot.plants@.len());
        }
        let mut total: u32 = 0;
        let mut i: usize = 0;
        proof {
            assert(rs.take(0) =~= Seq::<RegionModel>::empty());
        }
        while i < regions.len()
            invariant
                i <= regions@.len(),
                rs == models_of(regions@),
                rs == self.spec_regions_of(),
                sum_prices(rs) <= u32::MAX,
                sum_areas(rs) <= 0x1000_0000,
                forall|ri: int| 0 <= ri < rs.len() ==> wf_positions((#[trigger] rs[ri]).cells),
                total == sum_prices(rs.take(i as int)),
            decreases regions@.len() - i,
        {
            proof {
                assert(model_of(regions@[i as int]) == rs[i as int]);
                assert(regions@[i as int].positions@ == rs[i as int].cells);
                lemma_area_le_sum(rs, i as int);
                lemma_sum_prices_take_le(rs, i as int + 1);
                lemma_sum_partial_nonneg(rs, i as int);
                assert(rs.take(i as int + 1).drop_last() =~= rs.take(i as int));
                assert(rs.take(i as int + 1).last() == rs[i as int]);
                lemma_prices_nonneg(rs[i as int].cells);
            }
            let p = regions[i].price();
            total = total + p;
            i = i + 1;
        }
        proof {
            assert(rs.take(regions@.len() as int) =~= rs);
        }
        total
    }

    /// Total discounted price: the sum over all regions of side count
    /// times area.
    pub fn part_2(&self) -> (r: u32)
        requires
            self.plot.wf(),
            sum_discounted_prices(self.spec_regions_of()) <= u32::MAX,
        ensures
            r == sum_discounted_prices(self.spec_regions_of()),
    {
        let regions = self.plot.regions();
        let ghost rs = models_of(regions@);
        proof {
            lemma_regions_partition(self.plot.plants@, self.plot.width as int);
            assert(sum_areas(rs) == self.plot.plants@.len());
        }
        let mut total: u32 = 0;
        let mut i: usize = 0;
        proof {
            assert(rs.take(0) =~= Seq::<RegionModel>::empty());
        }
        while i < regions.len()
            invariant
                i <= regions@.len(),
                rs == models_of(regions@),
                rs == self.spec_regions_of(),
                sum_discounted_prices(rs) <= u32::MAX,
                sum_areas(rs) <= 0x1000_0000,
                forall|ri: int| 0 <= ri < rs.len() ==> wf_positions((#[trigger] rs[ri]).cells),
                total == sum_discounted_prices(rs.take(i as int)),
            decreases regions@.len() - i,
        {
            proof {
                assert(model_of(regions@[i as int]) == rs[i as int]);
                assert(regions@[i as int].positions@ == rs[i as int].cells);
                lemma_area_le_sum(rs, i as int);
                lemma_sum_prices_take_le(rs, i as int + 1);
                lemma_sum_partial_nonneg(rs, i as int);
                assert(rs.take(i as int + 1).drop_last() =~= rs.take(i as int));
                assert(rs.take(i as int + 1).last() == rs[i as int]);
                lemma_prices_nonneg(rs[i as int].cells);
            }
            let p = regions[i].discounted_price();
            total = total + p;
            i = i + 1;
        }
        proof {
            assert(rs.take(regions@.len() as int) =~= rs);
        }
        total
    }
}

/// A region of a single cell has no shared edges: its perimeter is
/// exactly 4, and in particular at least 4.
pub proof fn lemma_single_cell_perimeter(s: Seq<Vec2>)
    requires
        spec_area(s) == 1,
    ensures
        spec_perimeter(s) == 4,
        spec_perimeter(s) >= 4,
{
    assert(s.drop_last().len() == 0);
    assert(adj_pairs(s) == adj_pairs(s.drop_last()) + adj_count(s.drop_last(), s.last()));
    assert(adj_pairs(s.drop_last()) == 0);
    assert(adj_count(s.drop_last(), s.last()) == 0);
}

/// Area, perimeter and side count are pure functions of the position
/// sequence: two regions over the same positions share all three metrics,
/// so computing them twice yields identical values.
pub proof fn lemma_metrics_pure(a: Region, b: Region)
    requires
        a.positions@ == b.positions@,
    ensures
        spec_area(a.positions@) == spec_area(b.positions@),
        spec_perimeter(a.positions@) == spec_perimeter(b.positions@),
        spec_sides(a.positions@) == spec_sides(b.positions@),
{
}

/// The mathematical shadow of a `Region`.
pub struct RegionModel {
    pub plant: char,
    pub cells: Seq<Vec2>,
}

/// The model of a region.
pub open spec fn model_of(r: Region) -> RegionModel {
    RegionModel { plant: r.plant, cells: r.positions@ }
}

/// Models of a sequence of regions.
pub open spec fn models_of(rs: Seq<Region>) -> Seq<RegionModel> {
    rs.map_values(|r: Region| model_of(r))
}

/// Position of the cell at flat index `i` of a grid `width` columns wide,
/// scanning rows first.
pub open spec fn cell_pos(i: int, width: int) -> Vec2 {
    Vec2 { x: (i % width) as i32, y: (i / width) as i32 }
}

/// Regions that the current position joins: same plant, adjacent cell.
pub open spec fn take_pred(plant: char, pos: Vec2) -> spec_fn(RegionModel) -> bool {
    |r: RegionModel| r.plant == plant && region_adj(r.cells, pos)
}

/// Regions the current position leaves untouched.
pub open spec fn keep_pred(plant: char, pos: Vec2) -> spec_fn(RegionModel) -> bool {
    |r: RegionModel| !(r.plant == plant && region_adj(r.cells, pos))
}

/// All cells of the given regions, in order.
pub open spec fn cat_cells(rs: Seq<RegionModel>) -> Seq<Vec2>
    decreases rs.len(),
{
    if rs.len() == 0 {
        Seq::empty()
    } else {
        cat_cells(rs.drop_last()) + rs.last().cells
    }
}

/// One step of region building: the regions the new position touches are
/// merged with it into one region placed at the end of the list; the rest
/// keep their order.  A position touching no region starts a fresh one.
pub open spec fn build_step(prev: Seq<RegionModel>, plant: char, pos: Vec2) -> Seq<RegionModel> {
    prev.filter(keep_pred(plant, pos)).push(
        RegionModel {
            plant,
            cells: cat_cells(prev.filter(take_pred(plant, pos))).push(pos),
        },
    )
}

/// The regions of the first `k` cells of the grid, built in flat-index
/// order.
pub open spec fn spec_regions(cells: Seq<char>, width: int, k: int) -> Seq<RegionModel>
    decreases k,
{
    if k <= 0 {
        Seq::empty()
    } else {
        build_step(spec_regions(cells, width, k - 1), cells[k - 1], cell_pos(k - 1, width))
    }
}

/// `adj_count` is a count, hence non-negative and at most the length.
proof fn lemma_adj_count_nonneg(s: Seq<Vec2>, p: Vec2)
    ensures
        0 <= adj_count(s, p) <= s.len(),
    decreases s.len(),
{
    if s.len() > 0 {
        lemma_adj_count_nonneg(s.drop_last(), p);
    }
}

/// A duplicate-free region has at most two adjacent pairs per member.
proof fn lemma_adj_pairs_bounds(s: Seq<Vec2>)
    requires
        wf_positions(s),
    ensures
        0 <= 2 * adj_pairs(s) <= 4 * s.len(),
{
    lemma_handshake(s);
    lemma_deg_sum_bounds(s, s);
}

/// Each member's degree lies between 0 and 4.
proof fn lemma_deg_sum_bounds(iter: Seq<Vec2>, full: Seq<Vec2>)
    requires
        full.no_duplicates(),
        forall|i: int| 0 <= i < iter.len() ==> coord_ok(#[trigger] iter[i]),
    ensures
        0 <= deg_sum(iter, full) <= 4 * iter.len(),
    decreases iter.len(),
{
    if iter.len() > 0 {
        lemma_deg_sum_bounds(iter.drop_last(), full);
        lemma_adj_count_le_4(full, iter.last());
    }
}


/// The cells of a solid `w` by `h` rectangle with corner `(x0, y0)`, in
/// row-major order.
pub open spec fn rect_seq(x0: int, y0: int, w: int, h: int) -> Seq<Vec2> {
    Seq::new((w * h) as nat, |i: int| Vec2 { x: (x0 + i % w) as i32, y: (y0 + i / w) as i32 })
}

/// Rectangle bounds that keep every corner coordinate in range.
pub open spec fn rect_ok(x0: int, y0: int, w: int, h: int) -> bool {
    0 <= x0 && 0 <= y0 && 1 <= w && 1 <= h && x0 + w < coord_bound() && y0 + h < coord_bound()
}

/// Membership in the rectangle is exactly the coordinate box.
proof fn lemma_rect_contains(x0: int, y0: int, w: int, h: int, p: Vec2)
    requires
        rect_ok(x0, y0, w, h),
    ensures
        rect_seq(x0, y0, w, h).contains(p) <==> (x0 <= p.x < x0 + w && y0 <= p.y < y0 + h),
{
    let s = rect_seq(x0, y0, w, h);
    assert(0 <= w * h) by (nonlinear_arith)
        requires
            1 <= w,
            1 <= h,
    ;
    if x0 <= p.x < x0 + w && y0 <= p.y < y0 + h {
        let i = (p.y - y0) * w + (p.x - x0);
        assert(0 <= i < w * h && i % w == p.x - x0 && i / w == p.y - y0) by (nonlinear_arith)
            requires
                i == (p.y - y0) * w + (p.x - x0),
                0 <= p.x - x0 < w,
                0 <= p.y - y0 < h,
                1 <= w,
                1 <= h,
        ;
        assert(s[i] == p);
    }
    if s.contains(p) {
        let i = choose|i: int| 0 <= i < s.len() && s[i] == p;
        assert(0 <= i % w < w && 0 <= i / w < h) by (nonlinear_arith)
            requires
                0 <= i < w * h,
                1 <= w,
                1 <= h,
        ;
        assert(p == s[i]);
    }
}

/// The four outline corners of the rectangle.
pub open spec fn rect_corners(x0: int, y0: int, w: int, h: int) -> Set<Vec2> {
    set![
        Vec2 { x: x0 as i32, y: y0 as i32 },
        Vec2 { x: (x0 + w) as i32, y: y0 as i32 },
        Vec2 { x: x0 as i32, y: (y0 + h) as i32 },
        Vec2 { x: (x0 + w) as i32, y: (y0 + h) as i32 },
    ]
}

/// On a solid rectangle a corner point contributes one side exactly at
/// the four outline corners and nothing anywhere else.
proof fn lemma_rect_contrib(x0: int, y0: int, w: int, h: int, c: Vec2)
    requires
        rect_ok(x0, y0, w, h),
        0 <= c.x <= coord_bound(),
        0 <= c.y <= coord_bound(),
    ensures
        corner_contrib(rect_seq(x0, y0, w, h), c) == b2i(rect_corners(x0, y0, w, h).contains(c)),
{
    let s = rect_seq(x0, y0, w, h);
    lemma_rect_contains(x0, y0, w, h, cell_ul(c));
    lemma_rect_contains(x0, y0, w, h, cell_ur(c));
    lemma_rect_contains(x0, y0, w, h, cell_ll(c));
    lemma_rect_contains(x0, y0, w, h, c);
    broadcast use vstd::set::group_set_axioms;

}

/// Each cell of a region donates its four corners to the corner list.
proof fn lemma_corner_seq_member(s: Seq<Vec2>, i: int)
    requires
        0 <= i < s.len(),
    ensures
        corner_seq(s).contains(s[i]),
        corner_seq(s).contains(Vec2 { x: s[i].x, y: (s[i].y + 1) as i32 }),
        corner_seq(s).contains(Vec2 { x: (s[i].x + 1) as i32, y: s[i].y }),
        corner_seq(s).contains(Vec2 { x: (s[i].x + 1) as i32, y: (s[i].y + 1) as i32 }),
    decreases s.len(),
{
    let pre = corner_seq(s.drop_last());
    let cs = corners_of_cell(s.last());
    if i == s.len() - 1 {
        assert(s[i] == s.last());
        assert(corner_seq(s)[pre.len() as int] == cs[0]);
        assert(corner_seq(s)[pre.len() as int + 1] == cs[1]);
        assert(corner_seq(s)[pre.len() as int + 2] == cs[2]);
        assert(corner_seq(s)[pre.len() as int + 3] == cs[3]);
    } else {
        assert(s.drop_last()[i] == s[i]);
        lemma_corner_seq_member(s.drop_last(), i);
        assert forall|c: Vec2| pre.contains(c) implies corner_seq(s).contains(c) by {
            let k = choose|k: int| 0 <= k < pre.len() && pre[k] == c;
            assert(corner_seq(s)[k] == c);
        }
    }
}

/// A sequence's set grows element by element.
proof fn lemma_to_set_drop_last(cs: Seq<Vec2>)
    requires
        cs.len() >= 1,
    ensures
        cs.to_set() =~= cs.drop_last().to_set().insert(cs.last()),
{
    broadcast use vstd::set::group_set_axioms;

    assert forall|x: Vec2| cs.to_set().contains(x) implies cs.drop_last().to_set().insert(
        cs.last(),
    ).contains(x) by {
        let k = choose|k: int| 0 <= k < cs.len() && cs[k] == x;
        if k < cs.len() - 1 {
            assert(cs.drop_last()[k] == x);
            assert(cs.drop_last().contains(x));
        }
    }
    assert forall|x: Vec2| cs.drop_last().to_set().insert(cs.last()).contains(x) implies cs.to_set().contains(
        x,
    ) by {
        if cs.drop_last().to_set().contains(x) {
            let k = choose|k: int| 0 <= k < cs.drop_last().len() && cs.drop_last()[k] == x;
            assert(cs[k] == x);
        } else {
            assert(cs[cs.len() - 1] == x);
        }
    }
}

/// When every corner's contribution is the indicator of a finite set `f`,
/// the first-occurrence sum counts the distinct listed corners in `f`.
proof fn lemma_distinct_sum_indicator(s: Seq<Vec2>, cs: Seq<Vec2>, f: Set<Vec2>)
    requires
        f.finite(),
        forall|c: Vec2| cs.contains(c) ==> corner_contrib(s, c) == b2i(f.contains(c)),
    ensures
        distinct_contrib_sum(s, cs) == f.intersect(cs.to_set()).len(),
    decreases cs.len(),
{
    broadcast use vstd::set::group_set_axioms;

    if cs.len() == 0 {
        assert(cs.to_set() =~= Set::<Vec2>::empty());
        assert(f.intersect(cs.to_set()) =~= Set::<Vec2>::empty());
    } else {
        let dl = cs.drop_last();
        let last = cs.last();
        assert(forall|c: Vec2| dl.contains(c) ==> cs.contains(c)) by {
            assert forall|c: Vec2| dl.contains(c) implies cs.contains(c) by {
                let k = choose|k: int| 0 <= k < dl.len() && dl[k] == c;
                assert(cs[k] == c);
            }
        }
        lemma_distinct_sum_indicator(s, dl, f);
        lemma_to_set_drop_last(cs);
        assert(cs.contains(last)) by {
            assert(cs[cs.len() - 1] == last);
        }
        if dl.contains(last) {
            assert(dl.to_set().contains(last));
            assert(cs.to_set() =~= dl.to_set());
            assert(f.intersect(cs.to_set()) =~= f.intersect(dl.to_set()));
        } else {
            assert(!dl.to_set().contains(last));
            if f.contains(last) {
                assert(f.intersect(cs.to_set()) =~= f.intersect(dl.to_set()).insert(last));
                assert(!f.intersect(dl.to_set()).contains(last));
                assert(f.intersect(dl.to_set()).finite()) by {
                    vstd::set_lib::lemma_len_intersect(f, dl.to_set());
                }
                assert(f.intersect(cs.to_set()).len() == f.intersect(dl.to_set()).len() + 1);
                assert(corner_contrib(s, last) == 1);
            } else {
                assert(f.intersect(cs.to_set()) =~= f.intersect(dl.to_set()));
                assert(corner_contrib(s, last) == 0);
            }
        }
    }
}

/// The rectangle invariant: a solid rectangular region has exactly four
/// sides, whatever its dimensions.
pub proof fn lemma_rectangle_sides(x0: int, y0: int, w: int, h: int)
    requires
        rect_ok(x0, y0, w, h),
    ensures
        spec_sides(rect_seq(x0, y0, w, h)) == 4,
{
    broadcast use vstd::set::group_set_axioms;

    let s = rect_seq(x0, y0, w, h);
    let f = rect_corners(x0, y0, w, h);
    let cs = corner_seq(s);
    assert(0 <= w * h && w * h >= 1) by (nonlinear_arith)
        requires
            1 <= w,
            1 <= h,
    ;
    // every cell of the rectangle is in range
    assert forall|i: int| 0 <= i < s.len() implies coord_ok(#[trigger] s[i]) by {
        assert(0 <= i % w < w && 0 <= i / w < h) by (nonlinear_arith)
            requires
                0 <= i < w * h,
                1 <= w,
                1 <= h,
        ;
    }
    // corners are the indicator of the four outline corners
    lemma_corner_seq_bounds(s);
    assert forall|c: Vec2| cs.contains(c) implies corner_contrib(s, c) == b2i(f.contains(c)) by {
        let k = choose|k: int| 0 <= k < cs.len() && cs[k] == c;
        assert(0 <= cs[k].x <= coord_bound() && 0 <= cs[k].y <= coord_bound());
        lemma_rect_contrib(x0, y0, w, h, c);
    }
    lemma_distinct_sum_indicator(s, cs, f);
    // all four outline corners occur in the corner list
    assert(s[0] == Vec2 { x: x0 as i32, y: y0 as i32 }) by {
        assert(0int % w == 0 && 0int / w == 0) by (nonlinear_arith)
            requires
                1 <= w,
        ;
    }
    lemma_corner_seq_member(s, 0);
    assert((w - 1) % w == w - 1 && (w - 1) / w == 0 && w - 1 < w * h) by (nonlinear_arith)
        requires
            1 <= w,
            1 <= h,
    ;
    assert(s[w - 1] == Vec2 { x: (x0 + w - 1) as i32, y: y0 as i32 });
    lemma_corner_seq_member(s, w - 1);
    assert(0 <= (h - 1) * w < w * h && ((h - 1) * w) % w == 0 && ((h - 1) * w) / w == h - 1)
        by (nonlinear_arith)
        requires
            1 <= w,
            1 <= h,
    ;
    assert(s[(h - 1) * w] == Vec2 { x: x0 as i32, y: (y0 + h - 1) as i32 });
    lemma_corner_seq_member(s, (h - 1) * w);
    assert(0 <= w * h - 1 < w * h && (w * h - 1) % w == w - 1 && (w * h - 1) / w == h - 1)
        by (nonlinear_arith)
        requires
            1 <= w,
            1 <= h,
    ;
    assert(s[w * h - 1] == Vec2 { x: (x0 + w - 1) as i32, y: (y0 + h - 1) as i32 });
    lemma_corner_seq_member(s, w * h - 1);
    // so the intersection is the whole four-corner set
    assert(f.intersect(cs.to_set()) =~= f) by {
        assert(cs.to_set().contains(Vec2 { x: x0 as i32, y: y0 as i32 }));
        assert(cs.to_set().contains(Vec2 { x: (x0 + w) as i32, y: y0 as i32 }));
        assert(cs.to_set().contains(Vec2 { x: x0 as i32, y: (y0 + h) as i32 }));
        assert(cs.to_set().contains(Vec2 { x: (x0 + w) as i32, y: (y0 + h) as i32 }));
    }
    assert(f.len() == 4) by {
        assert(f =~= Set::<Vec2>::empty().insert(Vec2 { x: x0 as i32, y: y0 as i32 }).insert(
            Vec2 { x: (x0 + w) as i32, y: y0 as i32 },
        ).insert(Vec2 { x: x0 as i32, y: (y0 + h) as i32 }).insert(
            Vec2 { x: (x0 + w) as i32, y: (y0 + h) as i32 },
        ));
    }
}

/// On a single-cell region, where both claims are meaningful at once, the
/// side count and the perimeter agree: both are four.
pub proof fn lemma_single_cell_sides_match_perimeter(x0: int, y0: int)
    requires
        rect_ok(x0, y0, 1, 1),
    ensures
        spec_sides(rect_seq(x0, y0, 1, 1)) == spec_perimeter(rect_seq(x0, y0, 1, 1)),
        spec_sides(rect_seq(x0, y0, 1, 1)) == 4,
{
    lemma_rectangle_sides(x0, y0, 1, 1);
    lemma_single_cell_perimeter(rect_seq(x0, y0, 1, 1));
}

} // verus!
