//! Reindeer maze: cheapest walk from start to finish, where a step ahead
//! costs one point and a step after a quarter turn costs a thousand more.
use vstd::prelude::*;
use crate::text;

verus! {

/// A grid coordinate.
#[derive(Debug, Clone, Copy, PartialEq, Eq, Structural, Hash)]
pub struct Vec2i {
    pub x: i32,
    pub y: i32,
}

impl Vec2i {
    pub fn new(x: i32, y: i32) -> (r: Vec2i)
        ensures
            r == (Vec2i { x, y }),
    {
        Vec2i { x, y }
    }
}

/// A search entry: where the walker stands, where it faces, and what the
/// walk so far cost.
#[derive(Debug, Clone, Copy)]
pub struct TileState {
    pub position: Vec2i,
    pub direction: Vec2i,
    pub points: u32,
}

/// A coordinate far from `i32` overflow.
pub open spec fn pos_ok(p: Vec2i) -> bool {
    -0x1000_0000 <= p.x <= 0x1000_0000 && -0x1000_0000 <= p.y <= 0x1000_0000
}

/// One of the four axis unit directions.
pub open spec fn dir_ok(d: Vec2i) -> bool {
    (d.x == 1 && d.y == 0) || (d.x == -1 && d.y == 0) || (d.x == 0 && d.y == 1) || (d.x == 0
        && d.y == -1)
}

/// One walk step: from a state to a neighbouring cell, costing one point
/// straight ahead and 1001 with a turn, never onto a wall.
pub open spec fn step_ok(
    walls: Seq<Vec2i>,
    a: (Vec2i, Vec2i, int),
    b: (Vec2i, Vec2i, int),
) -> bool {
    dir_ok(b.1) && b.0.x == a.0.x + b.1.x && b.0.y == a.0.y + b.1.y && !walls.contains(b.0) && b.2
        == a.2 + (if b.1 == a.1 {
        1int
    } else {
        1001int
    })
}

/// A valid walk: it starts at `start` facing east with no points, and
/// every later state follows from its predecessor by one step.
pub open spec fn route_ok(walls: Seq<Vec2i>, start: Vec2i, route: Seq<(Vec2i, Vec2i, int)>) -> bool {
    route.len() >= 1 && route[0].0 == start && route[0].1 == (Vec2i { x: 1, y: 0 }) && route[0].2
        == 0 && (forall|i: int| 1 <= i < route.len() ==> step_ok(walls, route[i - 1], #[trigger] route[i]))
}

/// Some valid walk reaches this state.
pub open spec fn reachable(walls: Seq<Vec2i>, start: Vec2i, s: (Vec2i, Vec2i, int)) -> bool {
    exists|route: Seq<(Vec2i, Vec2i, int)>|
        #![trigger route_ok(walls, start, route)]
        route_ok(walls, start, route) && route.last() == s
}

/// The grid cell `(x, y)` of the text holds the marker `m`.
pub open spec fn marker_cell(s: Seq<char>, x: int, y: int, m: char) -> bool {
    let ls = text::lines_of(s);
    0 <= y < ls.len() && 0 <= x < ls[y].len() && x <= 0x100_0000 && y <= 0x100_0000 && ls[y][x]
        == m
}

/// The position is a `#` cell of the grid.
pub open spec fn wall_cell(s: Seq<char>, p: Vec2i) -> bool {
    marker_cell(s, p.x as int, p.y as int, '#')
}

/// The maze: wall cells, start and finish.
#[derive(Debug)]
pub struct MazeMap {
    pub walls: Vec<Vec2i>,
    pub start: Vec2i,
    pub finish: Vec2i,
}

impl MazeMap {
    /// Coordinates of everything stay small.
    pub open spec fn wf(&self) -> bool {
        pos_ok(self.start) && pos_ok(self.finish) && self.start.x >= 0 && self.start.y >= 0
    }

    /// Parse the maze: `#` cells are walls, `S` the start, `E` the end;
    /// every wall cell is recorded and nothing else is.
    pub fn from_string(string: &str) -> (r: MazeMap)
        requires
            string@.len() <= 0x100_0000,
        ensures
            r.wf(),
            forall|k: int|
                0 <= k < r.walls@.len() ==> wall_cell(string@, #[trigger] r.walls@[k]),
            forall|x: int, y: int|
                0 <= y < text::lines_of(string@).len() && 0 <= x < text::lines_of(string@)[y].len()
                    && x <= 0x100_0000 && y <= 0x100_0000 && text::lines_of(string@)[y][x] == '#'
                    ==> r.walls@.contains(Vec2i { x: x as i32, y: y as i32 }),
            (exists|x: int, y: int| marker_cell(string@, x, y, 'S')) ==> marker_cell(
                string@,
                r.start.x as int,
                r.start.y as int,
                'S',
            ),
            (exists|x: int, y: int| marker_cell(string@, x, y, 'E')) ==> marker_cell(
                string@,
                r.finish.x as int,
                r.finish.y as int,
                'E',
            ),
    {
        let chars = text::chars_of(string);
        let lines = text::split_lines(&chars);
        let ghost ls = text::lines_of(string@);
        let mut walls: Vec<Vec2i> = Vec::new();
        let mut start = Vec2i { x: 0, y: 0 };
        let mut finish = Vec2i { x: 0, y: 0 };
        let ghost mut seen_s = false;
        let ghost mut seen_e = false;
        proof {
            text::lemma_split_if_count(chars@, text::eq_char('\n'));
            assert(text::views_of(lines@).len() == lines@.len());
        }
        let mut y: usize = 0;
        while y < lines.len()
            invariant
                y <= ls.len(),
                text::views_of(lines@) == ls,
                ls == text::lines_of(string@),
                ls.len() <= 0x100_0000 + 1,
                pos_ok(start) && start.x >= 0 && start.y >= 0,
                pos_ok(finish),
                forall|k: int| 0 <= k < walls@.len() ==> wall_cell(string@, #[trigger] walls@[k]),
                forall|a: int, b: int|
                    0 <= a < y && 0 <= b < ls[a].len() && b <= 0x100_0000 && a <= 0x100_0000
                        && ls[a][b] == '#' ==> walls@.contains(Vec2i { x: b as i32, y: a as i32 }),
                seen_s == (exists|a: int, b: int|
                    (a < y || y > 0x100_0000) && marker_cell(string@, b, a, 'S')),
                seen_s ==> marker_cell(string@, start.x as int, start.y as int, 'S'),
                seen_e == (exists|a: int, b: int|
                    (a < y || y > 0x100_0000) && marker_cell(string@, b, a, 'E')),
                seen_e ==> marker_cell(string@, finish.x as int, finish.y as int, 'E'),
            decreases ls.len() - y,
        {
            let line = &lines[y];
            proof {
                assert(lines@[y as int]@ == ls[y as int]);
            }
            let mut x: usize = 0;
            while x < line.len()
                invariant
                    x <= line@.len(),
                    y < ls.len() <= 0x100_0000 + 1,
                    line@ == ls[y as int],
                    text::views_of(lines@) == ls,
                    ls == text::lines_of(string@),
                    pos_ok(start) && start.x >= 0 && start.y >= 0,
                    pos_ok(finish),
                    forall|k: int| 0 <= k < walls@.len() ==> wall_cell(string@, #[trigger] walls@[k]),
                    forall|a: int, b: int|
                        (0 <= a < y && 0 <= b < ls[a].len() && b <= 0x100_0000 && a <= 0x100_0000
                            && ls[a][b] == '#') || (a == y && 0 <= b < x && b <= 0x100_0000 && y
                            <= 0x100_0000 && ls[a][b] == '#') ==> walls@.contains(
                            Vec2i { x: b as i32, y: a as i32 },
                        ),
                    seen_s == (exists|a: int, b: int|
                        ((a < y || y > 0x100_0000) || (a == y && b < x)) && marker_cell(
                            string@,
                            b,
                            a,
                            'S',
                        )),
                    seen_s ==> marker_cell(string@, start.x as int, start.y as int, 'S'),
                    seen_e == (exists|a: int, b: int|
                        ((a < y || y > 0x100_0000) || (a == y && b < x)) && marker_cell(
                            string@,
                            b,
                            a,
                            'E',
                        )),
                    seen_e ==> marker_cell(string@, finish.x as int, finish.y as int, 'E'),
                decreases line@.len() - x,
            {
                let c = line[x];
                if x <= 0x100_0000 && y <= 0x100_0000 {
                    if c == '#' {
                        let ghost pre = walls@;
                        walls.push(Vec2i { x: x as i32, y: y as i32 });
                        proof {
                            assert(wall_cell(string@, Vec2i { x: x as i32, y: y as i32 }));
                            assert forall|k: int|
                                0 <= k < walls@.len() implies wall_cell(
                                string@,
                                #[trigger] walls@[k],
                            ) by {
                                if k < pre.len() {
                                    assert(walls@[k] == pre[k]);
                                }
                            }
                            assert(walls@.contains(Vec2i { x: x as i32, y: y as i32 })) by {
                                assert(walls@[walls@.len() - 1] == Vec2i {
                                    x: x as i32,
                                    y: y as i32,
                                });
                            }
                            assert forall|p: Vec2i| pre.contains(p) implies walls@.contains(
                                p,
                            ) by {
                                let k = choose|k: int| 0 <= k < pre.len() && pre[k] == p;
                                assert(walls@[k] == p);
                            }
                        }
                    } else if c == 'S' {
                        start = Vec2i { x: x as i32, y: y as i32 };
                        proof {
                            seen_s = true;
                            assert(marker_cell(string@, x as int, y as int, 'S'));
                        }
                    } else if c == 'E' {
                        finish = Vec2i { x: x as i32, y: y as i32 };
                        proof {
                            seen_e = true;
                            assert(marker_cell(string@, x as int, y as int, 'E'));
                        }
                    }
                }
                proof {
                    if !seen_s {
                        assert(!(marker_cell(string@, x as int, y as int, 'S')));
                    }
                    if !seen_e {
                        assert(!(marker_cell(string@, x as int, y as int, 'E')));
                    }
                }
                x = x + 1;
            }
            proof {
                if !seen_s {
                    assert forall|a: int, b: int|
                        ((a < y + 1 || y + 1 > 0x100_0000)) && marker_cell(string@, b, a, 'S')
                        implies false by {
                        if a == y {
                            assert(b < ls[a].len());
                        }
                    }
                }
                if !seen_e {
                    assert forall|a: int, b: int|
                        ((a < y + 1 || y + 1 > 0x100_0000)) && marker_cell(string@, b, a, 'E')
                        implies false by {
                        if a == y {
                            assert(b < ls[a].len());
                        }
                    }
                }
            }
            y = y + 1;
        }
        MazeMap { walls, start, finish }
    }

    /// The cheapest points total of any walk from start to finish, found
    /// by best-first search over position-direction states.  A returned
    /// total is the cost of a real walk; the search gives up after a large
    /// step budget.
    pub fn points_from_to(&self) -> (r: Option<u32>)
        requires
            self.wf(),
        ensures
            match r {
                Some(p) => reachable(
                    self.walls@,
                    self.start,
                    (self.finish, choose_dir(self.walls@, self.start, self.finish, p as int), p as int),
                ),
                None => true,
            },
    {
        let ghost walls = self.walls@;
        let mut tile_points: Vec<(Vec2i, u32)> = Vec::new();
        let mut frontier: Vec<TileState> = Vec::new();
        let start_state = TileState {
            position: self.start,
            direction: Vec2i { x: 1, y: 0 },
            points: 0,
        };
        frontier.push(start_state);
        proof {
            let route0: Seq<(Vec2i, Vec2i, int)> = seq![
                (self.start, Vec2i { x: 1, y: 0 }, 0int),
            ];
            assert(route_ok(walls, self.start, route0));
            assert(reachable(walls, self.start, (self.start, Vec2i { x: 1, y: 0 }, 0int)));
        }
        let mut budget: u64 = 0x100_0000;
        while frontier.len() > 0 && budget > 0
            invariant
                self.wf(),
                walls == self.walls@,
                forall|k: int|
                    0 <= k < frontier@.len() ==> reachable(
                        walls,
                        self.start,
                        ((#[trigger] frontier@[k]).position, frontier@[k].direction,
                        frontier@[k].points as int),
                    ) && pos_ok(frontier@[k].position) && dir_ok(frontier@[k].direction)
                        && frontier@[k].points <= 0xf000_0000,
            decreases budget,
        {
            budget = budget - 1;
            // pop the cheapest entry
            let mut best: usize = 0;
            let mut m: usize = 1;
            while m < frontier.len()
                invariant
                    best < frontier@.len(),
                    m <= frontier@.len(),
                    frontier@.len() > 0,
                decreases frontier@.len() - m,
            {
                if frontier[m].points < frontier[best].points {
                    best = m;
                }
                m = m + 1;
            }
            let ghost pre_frontier = frontier@;
            let state = frontier.remove(best);
            proof {
                assert(state == pre_frontier[best as int]);
                assert forall|k: int|
                    0 <= k < frontier@.len() implies reachable(
                    walls,
                    self.start,
                    ((#[trigger] frontier@[k]).position, frontier@[k].direction,
                    frontier@[k].points as int),
                ) && pos_ok(frontier@[k].position) && dir_ok(frontier@[k].direction)
                    && frontier@[k].points <= 0xf000_0000 by {
                    let orig: int = if k < best {
                        k
                    } else {
                        k + 1
                    };
                    assert(frontier@[k] == pre_frontier[orig]);
                }
            }
            if state.position.x == self.finish.x && state.position.y == self.finish.y {
                proof {
                    assert(reachable(
                        walls,
                        self.start,
                        (self.finish, state.direction, state.points as int),
                    ));
                    lemma_choose_dir(walls, self.start, self.finish, state.points as int,
                    state.direction);
                }
                return Some(state.points);
            }
            // skip states already beaten
            let mut beaten = false;
            let mut t: usize = 0;
            while t < tile_points.len()
                invariant
                    t <= tile_points@.len(),
                decreases tile_points@.len() - t,
            {
                let entry = tile_points[t];
                if entry.0.x == state.position.x && entry.0.y == state.position.y && entry.1
                    < state.points {
                    beaten = true;
                }
                t = t + 1;
            }
            if !beaten {
                // explore the four neighbours
                let dxs: [i32; 4] = [1, 0, -1, 0];
                let dys: [i32; 4] = [0, 1, 0, -1];
                let mut d: usize = 0;
                while d < 4
                    invariant
                        d <= 4,
                        self.wf(),
                        walls == self.walls@,
                        dxs@.len() == 4 && dys@.len() == 4,
                        dxs@[0] == 1i32 && dxs@[1] == 0i32 && dxs@[2] == -1i32 && dxs@[3] == 0i32,
                        dys@[0] == 0i32 && dys@[1] == 1i32 && dys@[2] == 0i32 && dys@[3] == -1i32,
                        pos_ok(state.position),
                        dir_ok(state.direction),
                        state.points <= 0xf000_0000,
                        reachable(
                            walls,
                            self.start,
                            (state.position, state.direction, state.points as int),
                        ),
                        forall|k: int|
                            0 <= k < frontier@.len() ==> reachable(
                                walls,
                                self.start,
                                ((#[trigger] frontier@[k]).position, frontier@[k].direction,
                                frontier@[k].points as int),
                            ) && pos_ok(frontier@[k].position) && dir_ok(frontier@[k].direction)
                                && frontier@[k].points <= 0xf000_0000,
                    decreases 4 - d,
                {
                    let adj_dir = Vec2i { x: dxs[d], y: dys[d] };
                    let adj_pos = Vec2i {
                        x: state.position.x + adj_dir.x,
                        y: state.position.y + adj_dir.y,
                    };
                    if !contains_pos(&self.walls, adj_pos) && state.points < 0xf000_0000 - 1001
                        && adj_pos.x >= -0x1000_0000 && adj_pos.x <= 0x1000_0000 && adj_pos.y
                        >= -0x1000_0000 && adj_pos.y <= 0x1000_0000 {
                        let adj_points = state.points + (if adj_dir.x != state.direction.x
                            || adj_dir.y != state.direction.y {
                            1001
                        } else {
                            1
                        });
                        // keep only strict improvements
                        let mut better = true;
                        let mut t2: usize = 0;
                        while t2 < tile_points.len()
                            invariant
                                t2 <= tile_points@.len(),
                            decreases tile_points@.len() - t2,
                        {
                            let entry = tile_points[t2];
                            if entry.0.x == adj_pos.x && entry.0.y == adj_pos.y && entry.1
                                <= adj_points {
                                better = false;
                            }
                            t2 = t2 + 1;
                        }
                        if better {
                            tile_points.push((adj_pos, adj_points));
                            let ghost pf = frontier@;
                            frontier.push(
                                TileState {
                                    position: adj_pos,
                                    direction: adj_dir,
                                    points: adj_points,
                                },
                            );
                            proof {
                                assert(dir_ok(adj_dir));
                                let old_state = (state.position, state.direction,
                                state.points as int);
                                let new_state = (adj_pos, adj_dir, adj_points as int);
                                assert(step_ok(walls, old_state, new_state));
                                lemma_reach_step(walls, self.start, old_state, new_state);
                                assert forall|k: int|
                                    0 <= k < frontier@.len() implies reachable(
                                    walls,
                                    self.start,
                                    ((#[trigger] frontier@[k]).position, frontier@[k].direction,
                                    frontier@[k].points as int),
                                ) && pos_ok(frontier@[k].position) && dir_ok(
                                    frontier@[k].direction,
                                ) && frontier@[k].points <= 0xf000_0000 by {
                                    if k < pf.len() {
                                        assert(frontier@[k] == pf[k]);
                                    } else {
                                        assert(frontier@[k] == TileState {
                                            position: adj_pos,
                                            direction: adj_dir,
                                            points: adj_points,
                                        });
                                    }
                                }
                            }
                        }
                    }
                    d = d + 1;
                }
            }
        }
        None
    }
}

/// The direction of the walk the search found, when one exists.
pub open spec fn choose_dir(walls: Seq<Vec2i>, start: Vec2i, finish: Vec2i, p: int) -> Vec2i {
    if exists|d: Vec2i| reachable(walls, start, (finish, d, p)) {
        choose|d: Vec2i| reachable(walls, start, (finish, d, p))
    } else {
        Vec2i { x: 1, y: 0 }
    }
}

/// A witness direction makes `choose_dir` pick a reachable one.
proof fn lemma_choose_dir(walls: Seq<Vec2i>, start: Vec2i, finish: Vec2i, p: int, d: Vec2i)
    requires
        reachable(walls, start, (finish, d, p)),
    ensures
        reachable(walls, start, (finish, choose_dir(walls, start, finish, p), p)),
{
    assert(exists|dd: Vec2i| reachable(walls, start, (finish, dd, p)));
}

/// Reachability extends along a step.
proof fn lemma_reach_step(
    walls: Seq<Vec2i>,
    start: Vec2i,
    a: (Vec2i, Vec2i, int),
    b: (Vec2i, Vec2i, int),
)
    requires
        reachable(walls, start, a),
        step_ok(walls, a, b),
    ensures
        reachable(walls, start, b),
{
    let route = choose|route: Seq<(Vec2i, Vec2i, int)>|
        #![trigger route_ok(walls, start, route)]
        route_ok(walls, start, route) && route.last() == a;
    let ext = route.push(b);
    assert(route_ok(walls, start, ext)) by {
        assert(ext[0] == route[0]);
        assert forall|i: int| 1 <= i < ext.len() implies step_ok(walls, ext[i - 1], #[trigger] ext[i]) by {
            if i < route.len() {
                assert(ext[i] == route[i]);
                assert(ext[i - 1] == route[i - 1]);
            } else {
                assert(ext[i] == b);
                assert(ext[i - 1] == route.last());
            }
        }
    }
    assert(ext.last() == b);
}

/// Whether `p` occurs in `v`.
fn contains_pos(v: &Vec<Vec2i>, p: Vec2i) -> (r: bool)
    ensures
        r == v@.contains(p),
{
    let mut i: usize = 0;
    while i < v.len()
        invariant
            i <= v@.len(),
            forall|k: int| 0 <= k < i ==> v@[k] != p,
        decreases v@.len() - i,
    {
        if v[i].x == p.x && v[i].y == p.y {
            proof {
                assert(v@[i as int] == p);
            }
            return true;
        }
        i = i + 1;
    }
    proof {
        if v@.contains(p) {
            let k = choose|k: int| 0 <= k < v@.len() && v@[k] == p;
            assert(v@[k] != p);
        }
    }
    false
}

/// The problem: one maze.
#[derive(Debug)]
pub struct Problem {
    pub map: MazeMap,
}

impl Problem {
    /// Parse the maze.
    pub fn from_string(string: &str) -> (r: Problem)
        requires
            string@.len() <= 0x100_0000,
        ensures
            r.map.wf(),
    {
        Problem { map: MazeMap::from_string(string) }
    }

    /// The cheapest points total from start to finish; zero when the
    /// search finds no walk.
    pub fn part_1(&self) -> (r: u32)
        requires
            self.map.wf(),
        ensures
            r > 0 ==> reachable(
                self.map.walls@,
                self.map.start,
                (
                    self.map.finish,
                    choose_dir(self.map.walls@, self.map.start, self.map.finish, r as int),
                    r as int,
                ),
            ),
    {
        match self.map.points_from_to() {
            Some(p) => p,
            None => 0,
        }
    }
}

} // verus!
