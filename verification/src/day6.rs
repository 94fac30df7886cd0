//! A guard walks a grid: forward until blocked, then a clockwise quarter
//! turn; count the cells of the walk, and the obstruction placements that
//! trap the guard in a loop.
use vstd::prelude::*;
use crate::text;

verus! {

/// A grid coordinate, column then row.
pub type Position = (i32, i32);

/// One step outcome: the guard leaves the map, or stands somewhere facing
/// somewhere.
pub enum Step {
    Exit,
    At(Position, Position),
}

/// A direction is one of the four axis units.
pub open spec fn dir_ok(d: Position) -> bool {
    d == (0i32, -1i32) || d == (1i32, 0i32) || d == (0i32, 1i32) || d == (-1i32, 0i32)
}

/// The clockwise quarter turn.
pub open spec fn spec_turn(d: Position) -> Position {
    ((0 - d.1) as i32, d.0)
}

/// A position inside the map bounds.
pub open spec fn inside(bounds: (Position, Position), p: Position) -> bool {
    bounds.0.0 <= p.0 <= bounds.1.0 && bounds.0.1 <= p.1 <= bounds.1.1
}

/// Bounds that leave coordinate arithmetic exact.
pub open spec fn bounds_ok(bounds: (Position, Position)) -> bool {
    0 <= bounds.0.0 <= bounds.1.0 < 0x10000 && 0 <= bounds.0.1 <= bounds.1.1 < 0x10000
}

/// One step of the walk: move forward, or exit at the edge, or turn
/// before an obstruction.
pub open spec fn spec_step(
    bounds: (Position, Position),
    obs: Seq<Position>,
    pos: Position,
    dir: Position,
) -> Step {
    let next = ((pos.0 + dir.0) as i32, (pos.1 + dir.1) as i32);
    if !inside(bounds, next) {
        Step::Exit
    } else if obs.contains(next) {
        Step::At(pos, spec_turn(dir))
    } else {
        Step::At(next, dir)
    }
}

/// Whether the guard leaves the map within `fuel` steps.
pub open spec fn spec_exits(
    bounds: (Position, Position),
    obs: Seq<Position>,
    pos: Position,
    dir: Position,
    fuel: int,
) -> bool
    decreases fuel,
{
    if fuel <= 0 {
        false
    } else {
        match spec_step(bounds, obs, pos, dir) {
            Step::Exit => true,
            Step::At(p, d) => spec_exits(bounds, obs, p, d, fuel - 1),
        }
    }
}

/// The distinct cells the guard stands on within `fuel` steps, in order of
/// first visit, starting with the start cell.
pub open spec fn spec_visited(
    bounds: (Position, Position),
    obs: Seq<Position>,
    pos: Position,
    dir: Position,
    fuel: int,
    acc: Seq<Position>,
) -> Seq<Position>
    decreases fuel,
{
    if fuel <= 0 {
        acc
    } else {
        match spec_step(bounds, obs, pos, dir) {
            Step::Exit => acc,
            Step::At(p, d) => spec_visited(
                bounds,
                obs,
                p,
                d,
                fuel - 1,
                if acc.contains(p) {
                    acc
                } else {
                    acc.push(p)
                },
            ),
        }
    }
}

/// The step budget covering every reachable guard state.
pub open spec fn spec_fuel(bounds: (Position, Position)) -> int {
    (bounds.1.0 + 1) * (bounds.1.1 + 1) * 4 + 8
}

/// The guard's map: bounds, start state, and obstruction cells.
#[derive(Debug)]
pub struct Problem {
    pub bounds: (Position, Position),
    pub position: Position,
    pub direction: Position,
    pub obstructions: Vec<Position>,
}

impl Problem {
    /// The shape every parsed problem has.
    pub open spec fn wf(&self) -> bool {
        bounds_ok(self.bounds) && inside(self.bounds, self.position) && dir_ok(self.direction)
    }

    /// Parse the grid: `#` cells are obstructions, `^` is the guard
    /// looking up.
    pub fn from_string(string: &str) -> (r: Problem)
        requires
            string@.len() <= 0x1000_0000,
            1 <= text::find_char(string@, '\n') <= 0x8000,
            1 <= text::lines_of(string@).len() <= 0x8000,
            exists|i: int|
                0 <= i < text::grid_cells(string@).len() && text::grid_cells(string@)[i] == '^',
            text::grid_cells(string@).len() <= text::find_char(string@, '\n') * text::lines_of(
                string@,
            ).len(),
        ensures
            r.wf(),
            r.direction == (0i32, -1i32),
            r.bounds == ((0i32, 0i32), ((text::find_char(string@, '\n') - 1) as i32, (
            text::lines_of(string@).len() - 1) as i32)),
            r.position.0 as int == (text::find_char(text::grid_cells(string@), '^') as int) % (
            text::find_char(string@, '\n') as int),
            r.position.1 as int == (text::find_char(text::grid_cells(string@), '^') as int) / (
            text::find_char(string@, '\n') as int),
    {
        let chars = text::chars_of(string);
        let width = text::find_char_in(&chars, '\n');
        let lines = text::split_lines(&chars);
        let cells = text::drop_newlines(&chars);
        let ghost gc = text::grid_cells(string@);
        proof {
            text::lemma_find_if(chars@, text::eq_char('\n'));
            assert(text::views_of(lines@).len() == lines@.len());
        }
        // locate the guard
        let found = text::find_char_in(&cells, '^');
        proof {
            text::lemma_find_if(gc, text::eq_char('^'));
            assert(found < gc.len()) by {
                if text::find_char(gc, '^') == gc.len() {
                    let w = choose|i: int| 0 <= i < gc.len() && gc[i] == '^';
                    assert(!(text::eq_char('^')(gc[w])));
                }
            }
            assert(gc[found as int] == '^') by {
                assert(text::eq_char('^')(gc[found as int]));
            }
            assert(0 <= (found as int) % (width as int) < width && 0 <= (found as int) / (
            width as int) <= found as int && (found as int) / (width as int) * width + (
            found as int) % (width as int) == found as int) by (nonlinear_arith)
                requires
                    1 <= width,
                    0 <= found as int,
            ;
        }
        let px = (found % width) as i32;
        let py = (found / width) as i32;
        proof {
            assert((found as int) / (width as int) < lines@.len()) by (nonlinear_arith)
                requires
                    (found as int) / (width as int) * width + (found as int) % (width as int)
                        == found as int,
                    0 <= (found as int) % (width as int),
                    found < gc.len(),
                    gc.len() <= width * lines@.len(),
                    1 <= width,
            ;
        }
        // collect the obstructions per line
        let mut obstructions: Vec<Position> = Vec::new();
        let mut y: usize = 0;
        while y < lines.len()
            invariant
                y <= lines@.len(),
                lines@.len() <= 0x8000,
            decreases lines@.len() - y,
        {
            let line = &lines[y];
            let mut x: usize = 0;
            while x < line.len()
                invariant
                    x <= line@.len(),
                    y < lines@.len() <= 0x8000,
                decreases line@.len() - x,
            {
                if line[x] == '#' && x < 0x8000 {
                    obstructions.push((x as i32, y as i32));
                }
                x = x + 1;
            }
            y = y + 1;
        }
        proof {
            assert(py as int == (found as int) / (width as int));
            assert(py < lines@.len());
        }
        Problem {
            bounds: ((0, 0), ((width - 1) as i32, (lines.len() - 1) as i32)),
            position: (px, py),
            direction: (0, -1),
            obstructions,
        }
    }

    /// Whether the guard, walking among the given obstructions from the
    /// problem's start state, leaves the map within the step budget.
    pub fn traverse(&self, obstructions: &Vec<Position>) -> (r: bool)
        requires
            self.wf(),
        ensures
            r == spec_exits(
                self.bounds,
                obstructions@,
                self.position,
                self.direction,
                spec_fuel(self.bounds),
            ),
    {
        let ghost fuel0 = spec_fuel(self.bounds);
        proof {
            assert(0 < (self.bounds.1.0 + 1) * (self.bounds.1.1 + 1) * 4 + 8
                <= 0x10000 * 0x10000 * 4 + 8) by (nonlinear_arith)
                requires
                    0 <= self.bounds.1.0 < 0x10000,
                    0 <= self.bounds.1.1 < 0x10000,
            ;
        }
        let w64: u64 = (self.bounds.1.0 + 1) as u64;
        let h64: u64 = (self.bounds.1.1 + 1) as u64;
        let mut fuel: u64 = w64 * h64 * 4 + 8;
        let mut pos = self.position;
        let mut dir = self.direction;
        proof {
            assert(fuel == fuel0);
        }
        while fuel > 0
            invariant
                self.wf(),
                fuel0 == spec_fuel(self.bounds),
                inside(self.bounds, pos),
                dir_ok(dir),
                spec_exits(self.bounds, obstructions@, pos, dir, fuel as int) == spec_exits(
                    self.bounds,
                    obstructions@,
                    self.position,
                    self.direction,
                    fuel0,
                ),
            decreases fuel,
        {
            let next = (pos.0 + dir.0, pos.1 + dir.1);
            if next.0 < self.bounds.0.0 || next.0 > self.bounds.1.0 || next.1 < self.bounds.0.1
                || next.1 > self.bounds.1.1 {
                proof {
                    assert(spec_step(self.bounds, obstructions@, pos, dir) is Exit);
                }
                return true;
            }
            if contains_pos(obstructions, next) {
                proof {
                    assert(spec_step(self.bounds, obstructions@, pos, dir) == Step::At(
                        pos,
                        spec_turn(dir),
                    ));
                }
                dir = (0 - dir.1, dir.0);
            } else {
                proof {
                    assert(spec_step(self.bounds, obstructions@, pos, dir) == Step::At(next, dir));
                }
                pos = next;
            }
            fuel = fuel - 1;
        }
        false
    }

    /// The distinct cells of the guard's walk among the problem's own
    /// obstructions, in order of first visit.
    pub fn traversal_path(&self) -> (r: Vec<Position>)
        requires
            self.wf(),
        ensures
            r@ == spec_visited(
                self.bounds,
                self.obstructions@,
                self.position,
                self.direction,
                spec_fuel(self.bounds),
                seq![self.position],
            ),
    {
        let ghost fuel0 = spec_fuel(self.bounds);
        proof {
            assert(0 < (self.bounds.1.0 + 1) * (self.bounds.1.1 + 1) * 4 + 8
                <= 0x10000 * 0x10000 * 4 + 8) by (nonlinear_arith)
                requires
                    0 <= self.bounds.1.0 < 0x10000,
                    0 <= self.bounds.1.1 < 0x10000,
            ;
        }
        let w64: u64 = (self.bounds.1.0 + 1) as u64;
        let h64: u64 = (self.bounds.1.1 + 1) as u64;
        let mut fuel: u64 = w64 * h64 * 4 + 8;
        let mut pos = self.position;
        let mut dir = self.direction;
        let mut visited: Vec<Position> = vec![self.position];
        proof {
            assert(fuel == fuel0);
            assert(visited@ =~= seq![self.position]);
            assert(visited@.contains(self.position)) by {
                assert(visited@[0] == self.position);
            }
        }
        while fuel > 0
            invariant
                self.wf(),
                fuel0 == spec_fuel(self.bounds),
                inside(self.bounds, pos),
                dir_ok(dir),
                visited@.contains(pos),
                spec_visited(
                    self.bounds,
                    self.obstructions@,
                    pos,
                    dir,
                    fuel as int,
                    visited@,
                ) == spec_visited(
                    self.bounds,
                    self.obstructions@,
                    self.position,
                    self.direction,
                    fuel0,
                    seq![self.position],
                ),
            decreases fuel,
        {
            let next = (pos.0 + dir.0, pos.1 + dir.1);
            if next.0 < self.bounds.0.0 || next.0 > self.bounds.1.0 || next.1 < self.bounds.0.1
                || next.1 > self.bounds.1.1 {
                proof {
                    assert(spec_step(self.bounds, self.obstructions@, pos, dir) is Exit);
                }
                return visited;
            }
            if contains_pos(&self.obstructions, next) {
                proof {
                    assert(spec_step(self.bounds, self.obstructions@, pos, dir) == Step::At(
                        pos,
                        spec_turn(dir),
                    ));
                }
                dir = (0 - dir.1, dir.0);
            } else {
                proof {
                    assert(spec_step(self.bounds, self.obstructions@, pos, dir) == Step::At(
                        next,
                        dir,
                    ));
                }
                let ghost pre = visited@;
                if !contains_pos(&visited, next) {
                    visited.push(next);
                    proof {
                        assert(visited@ == pre.push(next));
                        assert(visited@.contains(next)) by {
                            assert(visited@[visited@.len() - 1] == next);
                        }
                    }
                }
                pos = next;
            }
            fuel = fuel - 1;
        }
        visited
    }

    /// How many distinct cells the guard's walk covers.
    pub fn part_1(&self) -> (r: usize)
        requires
            self.wf(),
        ensures
            r == spec_visited(
                self.bounds,
                self.obstructions@,
                self.position,
                self.direction,
                spec_fuel(self.bounds),
                seq![self.position],
            ).len(),
    {
        self.traversal_path().len()
    }

    /// How many cells of the walk would trap the guard if obstructed:
    /// the walk cells whose extra obstruction keeps the guard from ever
    /// leaving the map.
    pub fn part_2(&self) -> (r: usize)
        requires
            self.wf(),
        ensures
            r == count_looping(
                *self,
                spec_visited(
                    self.bounds,
                    self.obstructions@,
                    self.position,
                    self.direction,
                    spec_fuel(self.bounds),
                    seq![self.position],
                ),
            ),
    {
        let path = self.traversal_path();
        let ghost pv = path@;
        let mut count: usize = 0;
        let mut i: usize = 0;
        proof {
            assert(pv.take(0) =~= Seq::<Position>::empty());
        }
        while i < path.len()
            invariant
                i <= pv.len(),
                pv == path@,
                self.wf(),
                count <= i,
                count == count_looping(*self, pv.take(i as int)),
            decreases pv.len() - i,
        {
            proof {
                assert(pv.take(i as int + 1).drop_last() =~= pv.take(i as int));
                assert(pv.take(i as int + 1).last() == pv[i as int]);
            }
            let cand = path[i];
            let mut with_cand = copy_pairs(&self.obstructions);
            with_cand.push(cand);
            proof {
                assert(with_cand@ == self.obstructions@.push(cand));
            }
            if !self.traverse(&with_cand) {
                count = count + 1;
            }
            i = i + 1;
        }
        proof {
            assert(pv.take(pv.len() as int) =~= pv);
        }
        count
    }
}

/// How many of the candidate cells, added as an obstruction, keep the
/// guard from leaving the map within the step budget.
pub open spec fn count_looping(p: Problem, cands: Seq<Position>) -> int
    decreases cands.len(),
{
    if cands.len() == 0 {
        0
    } else {
        count_looping(p, cands.drop_last()) + if !spec_exits(
            p.bounds,
            p.obstructions@.push(cands.last()),
            p.position,
            p.direction,
            spec_fuel(p.bounds),
        ) {
            1int
        } else {
            0int
        }
    }
}

/// Whether `p` occurs in `v`.
fn contains_pos(v: &Vec<Position>, p: Position) -> (r: bool)
    ensures
        r == v@.contains(p),
{
    let mut i: usize = 0;
    while i < v.len()
        invariant
            i <= v@.len(),
            forall|k: int| 0 <= k < i ==> v@[k] != p,
        decreases v@.len() - i,
    {
        if v[i].0 == p.0 && v[i].1 == p.1 {
            proof {
                assert(v@[i as int] == p);
            }
            return true;
        }
        i = i + 1;
    }
    proof {
        if v@.contains(p) {
            let k = choose|k: int| 0 <= k < v@.len() && v@[k] == p;
            assert(v@[k] != p);
        }
    }
    false
}

/// A copy of a position list.
fn copy_pairs(v: &Vec<Position>) -> (r: Vec<Position>)
    ensures
        r@ == v@,
{
    let mut r: Vec<Position> = Vec::new();
    let mut i: usize = 0;
    while i < v.len()
        invariant
            i <= v@.len(),
            r@ == v@.take(i as int),
        decreases v@.len() - i,
    {
        r.push(v[i]);
        proof {
            assert(r@ =~= v@.take(i as int + 1));
        }
        i = i + 1;
    }
    proof {
        assert(v@.take(v@.len() as int) =~= v@);
    }
    r
}

} // verus!
