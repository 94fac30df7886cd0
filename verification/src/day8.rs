//! Antenna antinodes: pairs of same-frequency antennas project antinode
//! positions along their line; count the distinct in-bounds ones.
use vstd::prelude::*;
use crate::text;

verus! {

/// An integer grid position.
#[derive(Debug, Clone, Copy, PartialEq, Eq, Structural, Hash)]
pub struct Position {
    pub x: i64,
    pub y: i64,
}

impl Position {
    pub fn new(x: i64, y: i64) -> (r: Position)
        ensures
            r == (Position { x, y }),
    {
        Position { x, y }
    }
}

/// The map: its size and every antenna as a symbol with its position.
pub struct Problem {
    pub width: usize,
    pub height: usize,
    pub antennas: Vec<(char, Position)>,
}

/// A position on the map.
pub open spec fn spec_in_bounds(width: int, height: int, p: Position) -> bool {
    0 <= p.x < width && 0 <= p.y < height
}

/// Coordinates stay far away from `i64` overflow.
pub open spec fn pos_ok(p: Position) -> bool {
    -0x1000_0000 <= p.x <= 0x1000_0000 && -0x1000_0000 <= p.y <= 0x1000_0000
}

/// The reflection of `b` through `a`: one step past `a` along the line
/// from `b`.
pub open spec fn mirror(a: Position, b: Position) -> Position {
    Position { x: (a.x - (b.x - a.x)) as i64, y: (a.y - (b.y - a.y)) as i64 }
}

/// `p` is a first-order antinode: the reflection of one antenna of a
/// same-frequency pair through the other, on the map.
pub open spec fn antinode1(ants: Seq<(char, Position)>, width: int, height: int, p: Position)
    -> bool {
    exists|i: int, j: int|
        0 <= i < j < ants.len() && (#[trigger] ants[i]).0 == (#[trigger] ants[j]).0 && (p
            == mirror(ants[i].1, ants[j].1) || p == mirror(ants[j].1, ants[i].1))
            && spec_in_bounds(width, height, p)
}

/// `p` lies `t` reflection steps behind `a1` on the line through the pair.
pub open spec fn back_point(a1: Position, a2: Position, t: int, p: Position) -> bool {
    p.x == a1.x - t * (a2.x - a1.x) && p.y == a1.y - t * (a2.y - a1.y)
}

/// `p` lies `t` reflection steps past `a2` on the line through the pair.
pub open spec fn fwd_point(a1: Position, a2: Position, t: int, p: Position) -> bool {
    p.x == a2.x + t * (a2.x - a1.x) && p.y == a2.y + t * (a2.y - a1.y)
}

/// `p` is a line antinode: on the map, at a whole number of pair offsets
/// along the line through two distinct same-frequency antennas.
pub open spec fn antinode2(ants: Seq<(char, Position)>, width: int, height: int, p: Position)
    -> bool {
    exists|i: int, j: int, t: int|
        #![trigger back_point(ants[i].1, ants[j].1, t, p)]
        #![trigger fwd_point(ants[i].1, ants[j].1, t, p)]
        0 <= i < j < ants.len() && ants[i].0 == ants[j].0 && ants[i].1 != ants[j].1 && t >= 0 && (
        back_point(ants[i].1, ants[j].1, t, p) || fwd_point(ants[i].1, ants[j].1, t, p))
            && spec_in_bounds(width, height, p)
}

/// Every in-bounds line point of each same-frequency pair of distinct
/// on-map antennas preceding `(i, j)` in the scan order is recorded in
/// `s`: pairs `(a, b)` with `a < i`, and `(i, b)` with `b < j`.
pub open spec fn pairs_covered(
    ants: Seq<(char, Position)>,
    w: int,
    h: int,
    i: int,
    j: int,
    s: Seq<Position>,
) -> bool {
    forall|a: int, b: int, t2: int, pp: Position|
        #![trigger back_point(ants[a].1, ants[b].1, t2, pp)]
        #![trigger fwd_point(ants[a].1, ants[b].1, t2, pp)]
        ((0 <= a < i && a < b < ants.len()) || (a == i && 0 <= i && i < b < j && b < ants.len()))
            && ants[a].0 == ants[b].0 && ants[a].1 != ants[b].1 && spec_in_bounds(w, h, ants[a].1)
            && spec_in_bounds(w, h, ants[b].1) && t2 >= 0 && (back_point(
            ants[a].1,
            ants[b].1,
            t2,
            pp,
        ) || fwd_point(ants[a].1, ants[b].1, t2, pp)) && spec_in_bounds(w, h, pp)
            ==> s.contains(pp)
}

/// An element stays present when another is pushed.
proof fn lemma_push_keeps(s: Seq<Position>, x: Position, y: Position)
    requires
        s.contains(y),
    ensures
        s.push(x).contains(y),
{
    let k = choose|k: int| 0 <= k < s.len() && s[k] == y;
    assert(s.push(x)[k] == y);
}

/// Pushing one more position preserves pair coverage.
proof fn lemma_covered_push(
    ants: Seq<(char, Position)>,
    w: int,
    h: int,
    i: int,
    j: int,
    s: Seq<Position>,
    x: Position,
)
    requires
        pairs_covered(ants, w, h, i, j, s),
    ensures
        pairs_covered(ants, w, h, i, j, s.push(x)),
{
    assert forall|a: int, b: int, t2: int, pp: Position|
        #![trigger back_point(ants[a].1, ants[b].1, t2, pp)]
        #![trigger fwd_point(ants[a].1, ants[b].1, t2, pp)]
        (((0 <= a < i && a < b < ants.len()) || (a == i && 0 <= i && i < b < j && b
            < ants.len())) && ants[a].0 == ants[b].0 && ants[a].1 != ants[b].1 && spec_in_bounds(
            w,
            h,
            ants[a].1,
        ) && spec_in_bounds(w, h, ants[b].1) && t2 >= 0 && (back_point(
            ants[a].1,
            ants[b].1,
            t2,
            pp,
        ) || fwd_point(ants[a].1, ants[b].1, t2, pp)) && spec_in_bounds(w, h, pp)) implies s.push(
        x,
    ).contains(pp) by {
        lemma_push_keeps(s, x, pp);
    }
}

/// Once the backward walk has left the map it never returns: the walk
/// starts on the map, so each coordinate moves away monotonically.
proof fn lemma_back_no_reentry(a1: Position, a2: Position, t: int, p: Position, w: int, h: int)
    requires
        t >= 0,
        back_point(a1, a2, t, p),
        spec_in_bounds(w, h, a1),
        !spec_in_bounds(w, h, p),
    ensures
        forall|t2: int, pp: Position|
            t2 >= t && #[trigger] back_point(a1, a2, t2, pp) ==> !spec_in_bounds(w, h, pp),
{
    let dx = a2.x - a1.x;
    let dy = a2.y - a1.y;
    assert forall|t2: int, pp: Position|
        t2 >= t && #[trigger] back_point(a1, a2, t2, pp) implies !spec_in_bounds(w, h, pp) by {
        if p.x < 0 {
            assert(dx > 0) by (nonlinear_arith)
                requires
                    t * dx > 0,
                    t >= 0,
            ;
            assert(pp.x <= p.x) by (nonlinear_arith)
                requires
                    pp.x == a1.x - t2 * dx,
                    p.x == a1.x - t * dx,
                    t2 >= t,
                    dx > 0,
            ;
        } else if p.x >= w {
            assert(dx < 0) by (nonlinear_arith)
                requires
                    t * dx < 0,
                    t >= 0,
            ;
            assert(pp.x >= p.x) by (nonlinear_arith)
                requires
                    pp.x == a1.x - t2 * dx,
                    p.x == a1.x - t * dx,
                    t2 >= t,
                    dx < 0,
            ;
        } else if p.y < 0 {
            assert(dy > 0) by (nonlinear_arith)
                requires
                    t * dy > 0,
                    t >= 0,
            ;
            assert(pp.y <= p.y) by (nonlinear_arith)
                requires
                    pp.y == a1.y - t2 * dy,
                    p.y == a1.y - t * dy,
                    t2 >= t,
                    dy > 0,
            ;
        } else {
            assert(p.y >= h);
            assert(dy < 0) by (nonlinear_arith)
                requires
                    t * dy < 0,
                    t >= 0,
            ;
            assert(pp.y >= p.y) by (nonlinear_arith)
                requires
                    pp.y == a1.y - t2 * dy,
                    p.y == a1.y - t * dy,
                    t2 >= t,
                    dy < 0,
            ;
        }
    }
}

/// Once the forward walk has left the map it never returns: it starts at
/// the second antenna, on the map, and moves away monotonically.
proof fn lemma_fwd_no_reentry(a1: Position, a2: Position, t: int, p: Position, w: int, h: int)
    requires
        t >= 0,
        fwd_point(a1, a2, t, p),
        spec_in_bounds(w, h, a2),
        !spec_in_bounds(w, h, p),
    ensures
        forall|t2: int, pp: Position|
            t2 >= t && #[trigger] fwd_point(a1, a2, t2, pp) ==> !spec_in_bounds(w, h, pp),
{
    let dx = a2.x - a1.x;
    let dy = a2.y - a1.y;
    assert forall|t2: int, pp: Position|
        t2 >= t && #[trigger] fwd_point(a1, a2, t2, pp) implies !spec_in_bounds(w, h, pp) by {
        if p.x < 0 {
            assert(dx < 0) by (nonlinear_arith)
                requires
                    t * dx < 0,
                    t >= 0,
            ;
            assert(pp.x <= p.x) by (nonlinear_arith)
                requires
                    pp.x == a2.x + t2 * dx,
                    p.x == a2.x + t * dx,
                    t2 >= t,
                    dx < 0,
            ;
        } else if p.x >= w {
            assert(dx > 0) by (nonlinear_arith)
                requires
                    t * dx > 0,
                    t >= 0,
            ;
            assert(pp.x >= p.x) by (nonlinear_arith)
                requires
                    pp.x == a2.x + t2 * dx,
                    p.x == a2.x + t * dx,
                    t2 >= t,
                    dx > 0,
            ;
        } else if p.y < 0 {
            assert(dy < 0) by (nonlinear_arith)
                requires
                    t * dy < 0,
                    t >= 0,
            ;
            assert(pp.y <= p.y) by (nonlinear_arith)
                requires
                    pp.y == a2.y + t2 * dy,
                    p.y == a2.y + t * dy,
                    t2 >= t,
                    dy < 0,
            ;
        } else {
            assert(p.y >= h);
            assert(dy > 0) by (nonlinear_arith)
                requires
                    t * dy > 0,
                    t >= 0,
            ;
            assert(pp.y >= p.y) by (nonlinear_arith)
                requires
                    pp.y == a2.y + t2 * dy,
                    p.y == a2.y + t * dy,
                    t2 >= t,
                    dy > 0,
            ;
        }
    }
}

impl Problem {
    /// Bounds under which the antinode arithmetic is exact.
    pub open spec fn wf(&self) -> bool {
        0 < self.width <= 0x1000_0000 && 0 < self.height <= 0x1000_0000 && (forall|i: int|
            0 <= i < self.antennas@.len() ==> pos_ok((#[trigger] self.antennas@[i]).1)
                && self.antennas@[i].1.x >= 0 && self.antennas@[i].1.y >= 0)
    }

    /// Parse the grid: every cell that is not `.` or a newline is an
    /// antenna of its symbol, positions taken per line.
    pub fn from_string(string: &str) -> (r: Problem)
        requires
            string@.len() <= 0x100_0000,
        ensures
            r.width == text::find_char(string@, '\n'),
            r.height == text::lines_of(string@).len(),
            r.wf() || r.width == 0 || r.height == 0,
            forall|i: int|
                0 <= i < r.antennas@.len() ==> (#[trigger] r.antennas@[i]).1.x >= 0
                    && r.antennas@[i].1.y >= 0 && r.antennas@[i].1.x <= 0x100_0000
                    && r.antennas@[i].1.y <= 0x100_0000,
    {
        let chars = text::chars_of(string);
        let width = text::find_char_in(&chars, '\n');
        let lines = text::split_lines(&chars);
        let mut antennas: Vec<(char, Position)> = Vec::new();
        let mut y: usize = 0;
        proof {
            text::lemma_find_if(chars@, text::eq_char('\n'));
            text::lemma_split_if_count(chars@, text::eq_char('\n'));
            assert(text::views_of(lines@).len() == lines@.len());
        }
        while y < lines.len()
            invariant
                y <= lines@.len(),
                lines@.len() <= 0x100_0000 + 1,
                text::views_of(lines@) == text::lines_of(chars@),
                forall|i: int|
                    0 <= i < antennas@.len() ==> (#[trigger] antennas@[i]).1.x >= 0
                        && antennas@[i].1.y >= 0 && antennas@[i].1.x <= 0x100_0000
                        && antennas@[i].1.y < y,
            decreases lines@.len() - y,
        {
            let line = &lines[y];
            let mut x: usize = 0;
            while x < line.len()
                invariant
                    x <= line@.len(),
                    y < lines@.len(),
                    lines@.len() <= 0x100_0000 + 1,
                    forall|i: int|
                        0 <= i < antennas@.len() ==> (#[trigger] antennas@[i]).1.x >= 0
                            && antennas@[i].1.y >= 0 && antennas@[i].1.x <= 0x100_0000
                            && antennas@[i].1.y <= y,
                decreases line@.len() - x,
            {
                let c = line[x];
                if c != '.' && x <= 0x100_0000 {
                    antennas.push((c, Position { x: x as i64, y: y as i64 }));
                }
                x = x + 1;
            }
            y = y + 1;
        }
        proof {
            assert(text::views_of(lines@).len() == lines@.len());
        }
        Problem { width, height: lines.len(), antennas }
    }

    /// Whether a position lies on the map.
    pub fn in_bounds(&self, position: Position) -> (r: bool)
        requires
            self.width <= 0x1000_0000,
            self.height <= 0x1000_0000,
        ensures
            r == spec_in_bounds(self.width as int, self.height as int, position),
    {
        position.x >= 0 && position.y >= 0 && position.x < self.width as i64 && position.y
            < self.height as i64
    }

    /// Distinct in-bounds antinodes from pairs of same-frequency antennas,
    /// one reflection on each side of the pair: the count of the
    /// duplicate-free list of exactly the first-order antinodes.
    pub fn part_1(&self) -> (r: usize)
        requires
            self.wf(),
        ensures
            r <= self.width * self.height,
            exists|s: Seq<Position>|
                #![trigger s.no_duplicates()]
                s.no_duplicates() && s.len() == r && (forall|k: int|
                    0 <= k < s.len() ==> antinode1(
                        self.antennas@,
                        self.width as int,
                        self.height as int,
                        #[trigger] s[k],
                    )) && (forall|p: Position|
                    antinode1(self.antennas@, self.width as int, self.height as int, p)
                        ==> s.contains(p)),
    {
        let ghost ants = self.antennas@;
        let ghost w = self.width as int;
        let ghost h = self.height as int;
        let mut found: Vec<Position> = Vec::new();
        let n = self.antennas.len();
        let mut i: usize = 0;
        while i < n
            invariant
                i <= n,
                n == ants.len(),
                ants == self.antennas@,
                w == self.width as int,
                h == self.height as int,
                self.wf(),
                found@.no_duplicates(),
                forall|k: int|
                    0 <= k < found@.len() ==> antinode1(ants, w, h, #[trigger] found@[k]),
                forall|a: int, b: int|
                    0 <= a < i && a < b < n && (#[trigger] ants[a]).0 == (#[trigger] ants[b]).0
                        ==> (spec_in_bounds(w, h, mirror(ants[a].1, ants[b].1)) ==> found@.contains(
                        mirror(ants[a].1, ants[b].1),
                    )) && (spec_in_bounds(w, h, mirror(ants[b].1, ants[a].1)) ==> found@.contains(
                        mirror(ants[b].1, ants[a].1),
                    )),
            decreases n - i,
        {
            let (freq, a1) = self.antennas[i];
            let mut j: usize = i + 1;
            while j < n
                invariant
                    i < j <= n || j == i + 1,
                    i < n,
                    n == ants.len(),
                    ants == self.antennas@,
                    w == self.width as int,
                    h == self.height as int,
                    self.wf(),
                    found@.no_duplicates(),
                    freq == ants[i as int].0,
                    a1 == ants[i as int].1,
                    forall|k: int|
                        0 <= k < found@.len() ==> antinode1(ants, w, h, #[trigger] found@[k]),
                    forall|a: int, b: int|
                        (0 <= a < i && a < b < n && (#[trigger] ants[a]).0 == (
                        #[trigger] ants[b]).0) || (a == i && i < b < j && ants[a].0 == ants[b].0)
                            ==> (spec_in_bounds(w, h, mirror(ants[a].1, ants[b].1))
                            ==> found@.contains(mirror(ants[a].1, ants[b].1))) && (spec_in_bounds(
                            w,
                            h,
                            mirror(ants[b].1, ants[a].1),
                        ) ==> found@.contains(mirror(ants[b].1, ants[a].1))),
                decreases n - j,
            {
                let (freq2, a2) = self.antennas[j];
                if freq2 == freq {
                    let dx = a2.x - a1.x;
                    let dy = a2.y - a1.y;
                    let c1 = Position { x: a1.x - dx, y: a1.y - dy };
                    let c2 = Position { x: a2.x + dx, y: a2.y + dy };
                    proof {
                        assert(c1 == mirror(ants[i as int].1, ants[j as int].1));
                        assert(c2 == mirror(ants[j as int].1, ants[i as int].1));
                    }
                    if self.in_bounds(c1) && !contains_pos(&found, c1) {
                        let ghost pre = found@;
                        found.push(c1);
                        proof {
                            lemma_found_push(pre, found@, c1, ants, w, h, i as int, j as int);
                        }
                    }
                    if self.in_bounds(c2) && !contains_pos(&found, c2) {
                        let ghost pre = found@;
                        found.push(c2);
                        proof {
                            lemma_found_push(pre, found@, c2, ants, w, h, i as int, j as int);
                        }
                    }
                    proof {
                        assert(spec_in_bounds(w, h, c1) ==> found@.contains(c1));
                        assert(spec_in_bounds(w, h, c2) ==> found@.contains(c2));
                    }
                }
                j = j + 1;
            }
            i = i + 1;
        }
        proof {
            lemma_distinct_in_bounds_count(found@, w, h);
            assert forall|p: Position| antinode1(ants, w, h, p) implies found@.contains(p) by {
                let (a, b) = choose|a: int, b: int|
                    0 <= a < b < ants.len() && (#[trigger] ants[a]).0 == (#[trigger] ants[b]).0
                        && (p == mirror(ants[a].1, ants[b].1) || p == mirror(
                        ants[b].1,
                        ants[a].1,
                    )) && spec_in_bounds(w, h, p);
            }
        }
        found.len()
    }

    /// Distinct in-bounds antinodes when the whole line through each pair
    /// counts, stepping by the pair's offset in both directions: the count
    /// of a duplicate-free list of line antinodes that covers every line
    /// point of every same-frequency pair of on-map antennas.
    pub fn part_2(&self) -> (r: usize)
        requires
            self.wf(),
        ensures
            r <= self.width * self.height,
            exists|s: Seq<Position>|
                #![trigger s.no_duplicates()]
                s.no_duplicates() && s.len() == r && (forall|k: int|
                    0 <= k < s.len() ==> antinode2(
                        self.antennas@,
                        self.width as int,
                        self.height as int,
                        #[trigger] s[k],
                    )) && pairs_covered(
                    self.antennas@,
                    self.width as int,
                    self.height as int,
                    self.antennas@.len() as int,
                    self.antennas@.len() as int + 1,
                    s,
                ),
    {
        let ghost ants = self.antennas@;
        let ghost w = self.width as int;
        let ghost h = self.height as int;
        let mut found: Vec<Position> = Vec::new();
        let n = self.antennas.len();
        let mut i: usize = 0;
        while i < n
            invariant
                i <= n,
                n == ants.len(),
                ants == self.antennas@,
                w == self.width as int,
                h == self.height as int,
                self.wf(),
                found@.no_duplicates(),
                forall|k: int|
                    0 <= k < found@.len() ==> spec_in_bounds(w, h, #[trigger] found@[k])
                        && antinode2(ants, w, h, found@[k]),
                pairs_covered(ants, w, h, i as int, i as int + 1, found@),
            decreases n - i,
        {
            let (freq, a1) = self.antennas[i];
            let mut j: usize = i + 1;
            while j < n
                invariant
                    i < j <= n || j == i + 1,
                    i < n,
                    n == ants.len(),
                    ants == self.antennas@,
                    w == self.width as int,
                    h == self.height as int,
                    self.wf(),
                    found@.no_duplicates(),
                    forall|k: int|
                        0 <= k < found@.len() ==> spec_in_bounds(w, h, #[trigger] found@[k])
                            && antinode2(ants, w, h, found@[k]),
                    freq == ants[i as int].0,
                    a1 == ants[i as int].1,
                    pairs_covered(ants, w, h, i as int, j as int, found@),
                decreases n - j,
            {
                let (freq2, a2) = self.antennas[j];
                if freq2 == freq && !(a2.x == a1.x && a2.y == a1.y) {
                    let dx = a2.x - a1.x;
                    let dy = a2.y - a1.y;
                    // walk backward from the first antenna
                    let mut p = a1;
                    let ghost mut t: int = 0;
                    while p.x >= 0 && p.y >= 0 && p.x < self.width as i64 && p.y
                        < self.height as i64
                        invariant
                            self.wf(),
                            ants == self.antennas@,
                            w == self.width as int,
                            h == self.height as int,
                            0 <= i < j < ants.len(),
                            freq == ants[i as int].0,
                            a1 == ants[i as int].1,
                            a2 == ants[j as int].1,
                            ants[i as int].0 == ants[j as int].0,
                            a1 != a2,
                            dx == a2.x - a1.x,
                            dy == a2.y - a1.y,
                            t >= 0,
                            back_point(a1, a2, t, p),
                            -0x2000_0000 <= p.x <= 0x2000_0000,
                            -0x2000_0000 <= p.y <= 0x2000_0000,
                            -0x1000_0000 <= dx <= 0x1000_0000,
                            -0x1000_0000 <= dy <= 0x1000_0000,
                            !(dx == 0 && dy == 0),
                            found@.no_duplicates(),
                            forall|k: int|
                                0 <= k < found@.len() ==> spec_in_bounds(
                                    w,
                                    h,
                                    #[trigger] found@[k],
                                ) && antinode2(ants, w, h, found@[k]),
                            pairs_covered(ants, w, h, i as int, j as int, found@),
                            forall|t2: int, pp: Position|
                                0 <= t2 < t && #[trigger] back_point(a1, a2, t2, pp)
                                    ==> found@.contains(pp),
                        decreases (if dx > 0 {
                            p.x + 0x2000_0000
                        } else if dx < 0 {
                            0x2000_0000 - p.x
                        } else if dy > 0 {
                            p.y + 0x2000_0000
                        } else {
                            0x2000_0000 - p.y
                        }),
                    {
                        if !contains_pos(&found, p) {
                            let ghost pre = found@;
                            found.push(p);
                            proof {
                                assert(found@.drop_last() =~= pre);
                                assert(antinode2(ants, w, h, p)) by {
                                    assert(0 <= i < j < ants.len() && ants[i as int].0 == ants[
                                    j as int].0 && ants[i as int].1 != ants[j as int].1 && t >= 0
                                        && back_point(ants[i as int].1, ants[j as int].1, t, p)
                                        && spec_in_bounds(w, h, p));
                                }
                                assert forall|k: int|
                                    0 <= k < found@.len() implies spec_in_bounds(
                                    w,
                                    h,
                                    #[trigger] found@[k],
                                ) && antinode2(ants, w, h, found@[k]) by {
                                    if k < pre.len() {
                                        assert(found@[k] == pre[k]);
                                    } else {
                                        assert(found@[k] == p);
                                    }
                                }
                                assert(found@[pre.len() as int] == p);
                                lemma_covered_push(ants, w, h, i as int, j as int, pre, p);
                                assert forall|t2: int, pp: Position|
                                    0 <= t2 < t && #[trigger] back_point(a1, a2, t2, pp)
                                    implies found@.contains(pp) by {
                                    lemma_push_keeps(pre, p, pp);
                                }
                            }
                        }
                        proof {
                            assert(found@.contains(p));
                            assert forall|t2: int, pp: Position|
                                0 <= t2 < t + 1 && #[trigger] back_point(a1, a2, t2, pp)
                                implies found@.contains(pp) by {
                                if t2 == t {
                                    assert(pp == p);
                                }
                            }
                        }
                        let ghost oldx: int = p.x as int;
                        let ghost oldy: int = p.y as int;
                        p = Position { x: p.x - dx, y: p.y - dy };
                        proof {
                            t = t + 1;
                            assert(oldx == a1.x - (t - 1) * (a2.x - a1.x) && oldy == a1.y - (t
                                - 1) * (a2.y - a1.y));
                            assert(p.x == a1.x - t * (a2.x - a1.x) && p.y == a1.y - t * (a2.y
                                - a1.y)) by (nonlinear_arith)
                                requires
                                    p.x == oldx - (a2.x - a1.x),
                                    p.y == oldy - (a2.y - a1.y),
                                    oldx == a1.x - (t - 1) * (a2.x - a1.x),
                                    oldy == a1.y - (t - 1) * (a2.y - a1.y),
                            ;
                            assert(back_point(a1, a2, t, p));
                        }
                    }
                    proof {
                        assert(!spec_in_bounds(w, h, p));
                        if spec_in_bounds(w, h, a1) {
                            lemma_back_no_reentry(a1, a2, t, p, w, h);
                            assert forall|t2: int, pp: Position|
                                t2 >= 0 && #[trigger] back_point(a1, a2, t2, pp)
                                    && spec_in_bounds(w, h, pp) implies found@.contains(pp) by {
                                if t2 >= t {
                                    assert(!spec_in_bounds(w, h, pp));
                                }
                            }
                        }
                    }
                    // walk forward from the second antenna
                    let mut q = a2;
                    let ghost mut u: int = 0;
                    while q.x >= 0 && q.y >= 0 && q.x < self.width as i64 && q.y
                        < self.height as i64
                        invariant
                            self.wf(),
                            ants == self.antennas@,
                            w == self.width as int,
                            h == self.height as int,
                            0 <= i < j < ants.len(),
                            freq == ants[i as int].0,
                            a1 == ants[i as int].1,
                            a2 == ants[j as int].1,
                            ants[i as int].0 == ants[j as int].0,
                            a1 != a2,
                            dx == a2.x - a1.x,
                            dy == a2.y - a1.y,
                            u >= 0,
                            fwd_point(a1, a2, u, q),
                            -0x2000_0000 <= q.x <= 0x2000_0000,
                            -0x2000_0000 <= q.y <= 0x2000_0000,
                            -0x1000_0000 <= dx <= 0x1000_0000,
                            -0x1000_0000 <= dy <= 0x1000_0000,
                            !(dx == 0 && dy == 0),
                            found@.no_duplicates(),
                            forall|k: int|
                                0 <= k < found@.len() ==> spec_in_bounds(
                                    w,
                                    h,
                                    #[trigger] found@[k],
                                ) && antinode2(ants, w, h, found@[k]),
                            pairs_covered(ants, w, h, i as int, j as int, found@),
                            forall|t2: int, pp: Position|
                                0 <= t2 < u && #[trigger] fwd_point(a1, a2, t2, pp)
                                    ==> found@.contains(pp),
                            spec_in_bounds(w, h, a1) ==> forall|t2: int, pp: Position|
                                t2 >= 0 && #[trigger] back_point(a1, a2, t2, pp)
                                    && spec_in_bounds(w, h, pp) ==> found@.contains(pp),
                        decreases (if dx > 0 {
                            0x2000_0000 - q.x
                        } else if dx < 0 {
                            q.x + 0x2000_0000
                        } else if dy > 0 {
                            0x2000_0000 - q.y
                        } else {
                            q.y + 0x2000_0000
                        }),
                    {
                        if !contains_pos(&found, q) {
                            let ghost pre = found@;
                            found.push(q);
                            proof {
                                assert(found@.drop_last() =~= pre);
                                assert(antinode2(ants, w, h, q)) by {
                                    assert(0 <= i < j < ants.len() && ants[i as int].0 == ants[
                                    j as int].0 && ants[i as int].1 != ants[j as int].1 && u >= 0
                                        && fwd_point(ants[i as int].1, ants[j as int].1, u, q)
                                        && spec_in_bounds(w, h, q));
                                }
                                assert forall|k: int|
                                    0 <= k < found@.len() implies spec_in_bounds(
                                    w,
                                    h,
                                    #[trigger] found@[k],
                                ) && antinode2(ants, w, h, found@[k]) by {
                                    if k < pre.len() {
                                        assert(found@[k] == pre[k]);
                                    } else {
                                        assert(found@[k] == q);
                                    }
                                }
                                assert(found@[pre.len() as int] == q);
                                lemma_covered_push(ants, w, h, i as int, j as int, pre, q);
                                assert forall|t2: int, pp: Position|
                                    0 <= t2 < u && #[trigger] fwd_point(a1, a2, t2, pp)
                                    implies found@.contains(pp) by {
                                    lemma_push_keeps(pre, q, pp);
                                }
                                if spec_in_bounds(w, h, a1) {
                                    assert forall|t2: int, pp: Position|
                                        t2 >= 0 && #[trigger] back_point(a1, a2, t2, pp)
                                            && spec_in_bounds(w, h, pp)
                                        implies found@.contains(pp) by {
                                        lemma_push_keeps(pre, q, pp);
                                    }
                                }
                            }
                        }
                        proof {
                            assert(found@.contains(q));
                            assert forall|t2: int, pp: Position|
                                0 <= t2 < u + 1 && #[trigger] fwd_point(a1, a2, t2, pp)
                                implies found@.contains(pp) by {
                                if t2 == u {
                                    assert(pp == q);
                                }
                            }
                        }
                        let ghost poldx: int = q.x as int;
                        let ghost poldy: int = q.y as int;
                        q = Position { x: q.x + dx, y: q.y + dy };
                        proof {
                            u = u + 1;
                            assert(poldx == a2.x + (u - 1) * (a2.x - a1.x) && poldy == a2.y + (u
                                - 1) * (a2.y - a1.y));
                            assert(q.x == a2.x + u * (a2.x - a1.x) && q.y == a2.y + u * (a2.y
                                - a1.y)) by (nonlinear_arith)
                                requires
                                    q.x == poldx + (a2.x - a1.x),
                                    q.y == poldy + (a2.y - a1.y),
                                    poldx == a2.x + (u - 1) * (a2.x - a1.x),
                                    poldy == a2.y + (u - 1) * (a2.y - a1.y),
                            ;
                            assert(fwd_point(a1, a2, u, q));
                        }
                    }
                    proof {
                        assert(!spec_in_bounds(w, h, q));
                        if spec_in_bounds(w, h, a2) {
                            lemma_fwd_no_reentry(a1, a2, u, q, w, h);
                        }
                        assert forall|a: int, b: int, t2: int, pp: Position|
                            #![trigger back_point(ants[a].1, ants[b].1, t2, pp)]
                            #![trigger fwd_point(ants[a].1, ants[b].1, t2, pp)]
                            (((0 <= a < i && a < b < ants.len()) || (a == i && 0 <= i && i < b < j
                                + 1 && b < ants.len())) && ants[a].0 == ants[b].0 && ants[a].1
                                != ants[b].1 && spec_in_bounds(w, h, ants[a].1) && spec_in_bounds(
                                w,
                                h,
                                ants[b].1,
                            ) && t2 >= 0 && (back_point(ants[a].1, ants[b].1, t2, pp) || fwd_point(
                                ants[a].1,
                                ants[b].1,
                                t2,
                                pp,
                            )) && spec_in_bounds(w, h, pp)) implies found@.contains(pp) by {
                            if a == i && b == j && fwd_point(ants[a].1, ants[b].1, t2, pp) && t2
                                >= u {
                                assert(!spec_in_bounds(w, h, pp));
                            }
                        }
                        assert(pairs_covered(ants, w, h, i as int, j as int + 1, found@));
                    }
                } else {
                    proof {
                        assert forall|a: int, b: int, t2: int, pp: Position|
                            #![trigger back_point(ants[a].1, ants[b].1, t2, pp)]
                            #![trigger fwd_point(ants[a].1, ants[b].1, t2, pp)]
                            (((0 <= a < i && a < b < ants.len()) || (a == i && 0 <= i && i < b < j
                                + 1 && b < ants.len())) && ants[a].0 == ants[b].0 && ants[a].1
                                != ants[b].1 && spec_in_bounds(w, h, ants[a].1) && spec_in_bounds(
                                w,
                                h,
                                ants[b].1,
                            ) && t2 >= 0 && (back_point(ants[a].1, ants[b].1, t2, pp) || fwd_point(
                                ants[a].1,
                                ants[b].1,
                                t2,
                                pp,
                            )) && spec_in_bounds(w, h, pp)) implies found@.contains(pp) by {
                            if a == i && b == j {
                                assert(ants[a].0 != ants[b].0 || ants[a].1 == ants[b].1);
                            }
                        }
                        assert(pairs_covered(ants, w, h, i as int, j as int + 1, found@));
                    }
                }
                j = j + 1;
            }
            proof {
                assert forall|a: int, b: int, t2: int, pp: Position|
                    #![trigger back_point(ants[a].1, ants[b].1, t2, pp)]
                    #![trigger fwd_point(ants[a].1, ants[b].1, t2, pp)]
                    (((0 <= a < i + 1 && a < b < ants.len()) || (a == i + 1 && 0 <= i + 1 && i + 1
                        < b < i + 2 && b < ants.len())) && ants[a].0 == ants[b].0 && ants[a].1
                        != ants[b].1 && spec_in_bounds(w, h, ants[a].1) && spec_in_bounds(
                        w,
                        h,
                        ants[b].1,
                    ) && t2 >= 0 && (back_point(ants[a].1, ants[b].1, t2, pp) || fwd_point(
                        ants[a].1,
                        ants[b].1,
                        t2,
                        pp,
                    )) && spec_in_bounds(w, h, pp)) implies found@.contains(pp) by {}
                assert(pairs_covered(ants, w, h, i as int + 1, i as int + 2, found@));
            }
            i = i + 1;
        }
        proof {
            lemma_distinct_in_bounds_count(found@, self.width as int, self.height as int);
            assert(pairs_covered(ants, w, h, ants.len() as int, ants.len() as int + 1, found@));
        }
        found.len()
    }
}

/// Pushing a fresh antinode keeps the found list duplicate-free, sound,
/// and no smaller.
proof fn lemma_found_push(
    pre: Seq<Position>,
    post: Seq<Position>,
    c: Position,
    ants: Seq<(char, Position)>,
    w: int,
    h: int,
    i: int,
    j: int,
)
    requires
        post == pre.push(c),
        pre.no_duplicates(),
        !pre.contains(c),
        0 <= i < j < ants.len(),
        ants[i].0 == ants[j].0,
        c == mirror(ants[i].1, ants[j].1) || c == mirror(ants[j].1, ants[i].1),
        spec_in_bounds(w, h, c),
        forall|k: int| 0 <= k < pre.len() ==> antinode1(ants, w, h, #[trigger] pre[k]),
    ensures
        post.no_duplicates(),
        forall|k: int| 0 <= k < post.len() ==> antinode1(ants, w, h, #[trigger] post[k]),
        forall|p: Position| pre.contains(p) ==> post.contains(p),
        post.contains(c),
{
    assert(antinode1(ants, w, h, c)) by {
        assert(0 <= i < j < ants.len() && ants[i].0 == ants[j].0 && (c == mirror(
            ants[i].1,
            ants[j].1,
        ) || c == mirror(ants[j].1, ants[i].1)) && spec_in_bounds(w, h, c));
    }
    assert forall|k: int| 0 <= k < post.len() implies antinode1(ants, w, h, #[trigger] post[k]) by {
        if k < pre.len() {
            assert(post[k] == pre[k]);
        } else {
            assert(post[k] == c);
        }
    }
    assert forall|p: Position| pre.contains(p) implies post.contains(p) by {
        let k = choose|k: int| 0 <= k < pre.len() && pre[k] == p;
        assert(post[k] == p);
    }
    assert(post.contains(c)) by {
        assert(post[post.len() - 1] == c);
    }
}

/// Whether `p` occurs in `v`.
fn contains_pos(v: &Vec<Position>, p: Position) -> (r: bool)
    ensures
        r == v@.contains(p),
{
    let mut i: usize = 0;
    while i < v.len()
        invariant
            i <= v@.len(),
            forall|k: int| 0 <= k < i ==> v@[k] != p,
        decreases v@.len() - i,
    {
        if v[i].x == p.x && v[i].y == p.y {
            proof {
                assert(v@[i as int] == p);
            }
            return true;
        }
        i = i + 1;
    }
    proof {
        if v@.contains(p) {
            let k = choose|k: int| 0 <= k < v@.len() && v@[k] == p;
            assert(v@[k] != p);
        }
    }
    false
}

/// A duplicate-free list of in-bounds positions is no longer than the
/// number of cells.
proof fn lemma_distinct_in_bounds_count(s: Seq<Position>, width: int, height: int)
    requires
        s.no_duplicates(),
        0 < width <= 0x1000_0000,
        0 < height <= 0x1000_0000,
        forall|k: int| 0 <= k < s.len() ==> spec_in_bounds(width, height, #[trigger] s[k]),
    ensures
        s.len() <= width * height,
{
    let f = |p: Position| p.y * width + p.x;
    assert forall|k: int| 0 <= k < s.len() implies 0 <= #[trigger] f(s[k]) < width * height by {
        assert(0 <= s[k].y * width <= (height - 1) * width) by (nonlinear_arith)
            requires
                0 <= s[k].y < height,
                0 < width,
        ;
        assert(s[k].y * width + s[k].x < height * width) by (nonlinear_arith)
            requires
                s[k].y * width <= (height - 1) * width,
                s[k].x < width,
        ;
    }
    let mapped = s.map_values(f);
    assert(forall|k: int| 0 <= k < mapped.len() ==> 0 <= #[trigger] mapped[k] < width * height)
        by {
        assert(forall|k: int| 0 <= k < mapped.len() ==> #[trigger] mapped[k] == f(s[k]));
    }
    assert(mapped.no_duplicates()) by {
        assert forall|a: int, b: int|
            0 <= a < mapped.len() && 0 <= b < mapped.len() && a != b implies mapped[a]
            != mapped[b] by {
            assert(mapped[a] == f(s[a]));
            assert(mapped[b] == f(s[b]));
            assert(s[a] != s[b]);
            if f(s[a]) == f(s[b]) {
                assert(s[a].y * width + s[a].x == s[b].y * width + s[b].x);
                assert(s[a].y == s[b].y && s[a].x == s[b].x) by (nonlinear_arith)
                    requires
                        s[a].y * width + s[a].x == s[b].y * width + s[b].x,
                        0 <= s[a].x < width,
                        0 <= s[b].x < width,
                        0 < width,
                ;
            }
        }
    }
    assert(0 <= width * height) by (nonlinear_arith)
        requires
            0 < width,
            0 < height,
    ;
    lemma_distinct_ints_below(mapped, width * height);
}

/// A duplicate-free sequence of integers in `[0, n)` has at most `n`
/// entries.
proof fn lemma_distinct_ints_below(s: Seq<int>, n: int)
    requires
        s.no_duplicates(),
        0 <= n,
        forall|k: int| 0 <= k < s.len() ==> 0 <= #[trigger] s[k] < n,
    ensures
        s.len() <= n,
{
    let st = s.to_set();
    s.unique_seq_to_set();
    let below = vstd::set_lib::set_int_range(0, n);
    assert(st.subset_of(below)) by {
        assert forall|x: int| st.contains(x) implies below.contains(x) by {
            assert(s.contains(x));
            let k = choose|k: int| 0 <= k < s.len() && s[k] == x;
            assert(0 <= s[k] < n);
        }
    }
    assert(n >= 0);
    vstd::set_lib::lemma_int_range(0, n);
    vstd::set_lib::lemma_len_subset(st, below);
}

} // verus!
