//! Warehouse robot: the robot walks a move list, pushing lines of boxes
//! when there is free space behind them; boxes are scored by their GPS
//! coordinate.
use vstd::prelude::*;
use crate::text;

verus! {

/// A grid coordinate.
#[derive(Debug, Clone, Copy, PartialEq, Eq, Structural, Hash)]
pub struct Vec2i {
    pub x: i32,
    pub y: i32,
}

impl Vec2i {
    pub fn new(x: i32, y: i32) -> (r: Vec2i)
        ensures
            r == (Vec2i { x, y }),
    {
        Vec2i { x, y }
    }
}

/// Positive dimensions that keep coordinate arithmetic exact.
pub open spec fn dims_ok(d: Vec2i) -> bool {
    1 <= d.x <= 0x8000 && 1 <= d.y <= 0x8000
}

/// A cell inside the walls, relative to the inner area.
pub open spec fn in_area(d: Vec2i, p: Vec2i) -> bool {
    0 <= p.x < d.x && 0 <= p.y < d.y
}

/// One of the four axis unit directions.
pub open spec fn dir_ok(dd: Vec2i) -> bool {
    (dd.x == 1 && dd.y == 0) || (dd.x == -1 && dd.y == 0) || (dd.x == 0 && dd.y == 1) || (dd.x == 0
        && dd.y == -1)
}

/// GPS score of one box: one plus its column, plus a hundred times one
/// plus its row, counting the stripped border back in.
pub open spec fn gps_of(p: Vec2i) -> int {
    (p.x + 1) + (p.y + 1) * 100
}

/// Sum of the GPS scores.
pub open spec fn spec_gps_sum(bs: Seq<Vec2i>) -> int
    decreases bs.len(),
{
    if bs.len() == 0 {
        0
    } else {
        spec_gps_sum(bs.drop_last()) + gps_of(bs.last())
    }
}

/// One cell further along a direction.
pub open spec fn shifted(p: Vec2i, dd: Vec2i) -> Vec2i {
    Vec2i { x: (p.x + dd.x) as i32, y: (p.y + dd.y) as i32 }
}

/// The free cell that ends the straight box line ahead of `pos`, if the
/// line ends inside the area before a wall, searched at most `fuel` cells
/// far.
pub open spec fn scan_free(
    dims: Vec2i,
    walls: Seq<Vec2i>,
    boxes: Seq<Vec2i>,
    pos: Vec2i,
    dd: Vec2i,
    fuel: int,
) -> Option<Vec2i>
    decreases fuel,
{
    if fuel <= 0 {
        None
    } else {
        let next = shifted(pos, dd);
        if !(in_area(dims, next) && !walls.contains(next)) {
            None
        } else if boxes.contains(next) {
            scan_free(dims, walls, boxes, next, dd, fuel - 1)
        } else {
            Some(next)
        }
    }
}

/// One move: when the box line ahead ends in a free cell, the robot
/// advances one cell and the line's first box jumps to that free cell;
/// otherwise nothing changes.
pub open spec fn spec_move(
    dims: Vec2i,
    walls: Seq<Vec2i>,
    boxes: Seq<Vec2i>,
    robot: Vec2i,
    dd: Vec2i,
) -> (Seq<Vec2i>, Vec2i) {
    match scan_free(dims, walls, boxes, robot, dd, 0x10001) {
        Option::None => (boxes, robot),
        Option::Some(free) => {
            let first = shifted(robot, dd);
            match boxes.index_of_first(first) {
                Option::Some(i) => (boxes.update(i, free), first),
                Option::None => (boxes, first),
            }
        },
    }
}

/// The box layout and robot position after the first `k` moves.
pub open spec fn spec_run(
    dims: Vec2i,
    walls: Seq<Vec2i>,
    boxes: Seq<Vec2i>,
    robot: Vec2i,
    dirs: Seq<Vec2i>,
    k: int,
) -> (Seq<Vec2i>, Vec2i)
    decreases k,
{
    if k <= 0 {
        (boxes, robot)
    } else {
        let prev = spec_run(dims, walls, boxes, robot, dirs, k - 1);
        spec_move(dims, walls, prev.0, prev.1, dirs[k - 1])
    }
}

/// The first blank line at or after `i`, or the line count if none: the
/// grid block's height.
pub open spec fn grid_rows(ls: Seq<Seq<char>>, i: int) -> int
    decreases ls.len() - i,
{
    if i < 0 || i >= ls.len() {
        i
    } else if ls[i].len() == 0 {
        i
    } else {
        grid_rows(ls, i + 1)
    }
}

/// The interior height the parser keeps: the grid block minus its border
/// ring, at least one and capped at the dimension bound.
pub open spec fn spec_inner_h(s: Seq<char>) -> int {
    let gh = grid_rows(text::lines_of(s), 0);
    let raw = if gh >= 3 {
        gh - 2
    } else {
        1
    };
    if raw <= 0x8000 {
        raw
    } else {
        0x8000
    }
}

/// The move a map character stands for, if any.
pub open spec fn arrow_of(c: char) -> Option<Vec2i> {
    if c == '^' {
        Some(Vec2i { x: 0i32, y: -1i32 })
    } else if c == '>' {
        Some(Vec2i { x: 1i32, y: 0i32 })
    } else if c == 'v' {
        Some(Vec2i { x: 0i32, y: 1i32 })
    } else if c == '<' {
        Some(Vec2i { x: -1i32, y: 0i32 })
    } else {
        None
    }
}

/// The moves one line spells, other characters skipped.
pub open spec fn arrows_of_line(l: Seq<char>) -> Seq<Vec2i>
    decreases l.len(),
{
    if l.len() == 0 {
        Seq::empty()
    } else {
        arrows_of_line(l.drop_last()) + (match arrow_of(l.last()) {
            Some(dd) => seq![dd],
            None => Seq::empty(),
        })
    }
}

/// The moves of the lines in `[from, to)`, concatenated.
pub open spec fn all_arrows(ls: Seq<Seq<char>>, from: int, to: int) -> Seq<Vec2i>
    decreases to - from,
{
    if from >= to {
        Seq::empty()
    } else {
        all_arrows(ls, from, to - 1) + arrows_of_line(ls[to - 1])
    }
}

/// The line index the move block starts at: past the first blank line.
pub open spec fn moves_start(s: Seq<char>) -> int {
    let ls = text::lines_of(s);
    let gh = grid_rows(ls, 0);
    if gh < ls.len() {
        gh + 1
    } else {
        gh
    }
}

/// An empty or backwards line range spells no moves.
proof fn lemma_all_arrows_empty(ls: Seq<Seq<char>>, from: int, to: int)
    requires
        from >= to,
    ensures
        all_arrows(ls, from, to) == Seq::<Vec2i>::empty(),
{
}

/// The interior grid cell one ring inside the border holds `m`: the
/// struct's `(x, y)` names the text cell `(x + 1, y + 1)`.
pub open spec fn interior_cell(s: Seq<char>, x: int, y: int, m: char) -> bool {
    let ls = text::lines_of(s);
    0 <= y && y + 1 < ls.len() && 0 <= x && x + 1 < ls[y + 1].len() && ls[y + 1][x + 1] == m
}

/// The warehouse, with the outer wall ring stripped: interior dimensions,
/// boxes, interior walls, the robot, and its move list.
#[derive(Debug)]
pub struct WarehouseMap {
    pub dimensions: Vec2i,
    pub boxes: Vec<Vec2i>,
    pub walls: Vec<Vec2i>,
    pub robot_pos: Vec2i,
    pub directions: Vec<Vec2i>,
}

impl WarehouseMap {
    /// Everything sits inside the area and all moves are unit steps.
    pub open spec fn wf(&self) -> bool {
        dims_ok(self.dimensions) && in_area(self.dimensions, self.robot_pos) && self.boxes@.len()
            <= 0x100_0000 && (forall|i: int|
            0 <= i < self.boxes@.len() ==> in_area(self.dimensions, #[trigger] self.boxes@[i])) && (
        forall|i: int| 0 <= i < self.directions@.len() ==> dir_ok(#[trigger] self.directions@[i]))
    }

    /// Parse the warehouse: the grid up to the first blank line with its
    /// border ring stripped, then the move list.
    pub fn from_string(string: &str) -> (r: WarehouseMap)
        requires
            string@.len() <= 0x100_0000,
            3 <= text::find_char(string@, '\n') <= 0x8000,
        ensures
            r.wf() || !in_area(r.dimensions, r.robot_pos),
            dims_ok(r.dimensions),
            r.dimensions.x as int == text::find_char(string@, '\n') - 2,
            r.dimensions.y as int == spec_inner_h(string@),
            r.directions@ == all_arrows(
                text::lines_of(string@),
                moves_start(string@),
                text::lines_of(string@).len() as int,
            ),
            forall|k: int|
                0 <= k < r.boxes@.len() ==> interior_cell(
                    string@,
                    (#[trigger] r.boxes@[k]).x as int,
                    r.boxes@[k].y as int,
                    'O',
                ),
            forall|k: int|
                0 <= k < r.walls@.len() ==> interior_cell(
                    string@,
                    (#[trigger] r.walls@[k]).x as int,
                    r.walls@[k].y as int,
                    '#',
                ),
            in_area(r.dimensions, r.robot_pos) ==> interior_cell(
                string@,
                r.robot_pos.x as int,
                r.robot_pos.y as int,
                '@',
            ) || r.robot_pos == (Vec2i { x: 0, y: 0 }),
            (grid_rows(text::lines_of(string@), 0) >= 3 && exists|xx: int, yy: int|
                0 <= xx < text::find_char(string@, '\n') - 2 && 0 <= yy < spec_inner_h(string@)
                    && #[trigger] interior_cell(string@, xx, yy, '@')) ==> interior_cell(
                string@,
                r.robot_pos.x as int,
                r.robot_pos.y as int,
                '@',
            ),
            forall|xx: int, yy: int|
                grid_rows(text::lines_of(string@), 0) >= 3 && 0 <= xx
                    < text::find_char(string@, '\n') - 2 && 0 <= yy < spec_inner_h(string@)
                    && #[trigger] interior_cell(string@, xx, yy, '#') ==> r.walls@.contains(
                    Vec2i { x: xx as i32, y: yy as i32 },
                ),
            r.boxes@.len() < 0x100_0000 ==> (forall|xx: int, yy: int|
                grid_rows(text::lines_of(string@), 0) >= 3 && 0 <= xx
                    < text::find_char(string@, '\n') - 2 && 0 <= yy < spec_inner_h(string@)
                    && #[trigger] interior_cell(string@, xx, yy, 'O') ==> r.boxes@.contains(
                    Vec2i { x: xx as i32, y: yy as i32 },
                )),
    {
        let chars = text::chars_of(string);
        let width = text::find_char_in(&chars, '\n');
        let lines = text::split_lines(&chars);
        proof {
            text::lemma_find_if(chars@, text::eq_char('\n'));
            text::lemma_split_if_count(chars@, text::eq_char('\n'));
            assert(text::views_of(lines@).len() == lines@.len());
        }
        // find the blank line separating grid from moves
        let ghost ls = text::lines_of(string@);
        let mut grid_h: usize = 0;
        while grid_h < lines.len() && lines[grid_h].len() > 0
            invariant
                grid_h <= lines@.len(),
                lines@.len() <= 0x100_0000 + 1,
                text::views_of(lines@) == ls,
                ls == text::lines_of(string@),
                grid_rows(ls, 0) == grid_rows(ls, grid_h as int),
            decreases lines@.len() - grid_h,
        {
            proof {
                assert(lines@[grid_h as int]@ == ls[grid_h as int]);
                assert(ls[grid_h as int].len() > 0);
            }
            grid_h = grid_h + 1;
        }
        proof {
            if grid_h < lines@.len() {
                assert(lines@[grid_h as int]@ == ls[grid_h as int]);
                assert(ls[grid_h as int].len() == 0);
            }
            assert(grid_rows(ls, 0) == grid_h);
        }
        let raw_h: usize = if grid_h >= 3 {
            grid_h - 2
        } else {
            1
        };
        let inner_h: usize = if raw_h <= 0x8000 {
            raw_h
        } else {
            0x8000
        };
        let inner_w: usize = width - 2;
        let mut boxes: Vec<Vec2i> = Vec::new();
        let mut walls: Vec<Vec2i> = Vec::new();
        let mut robot_pos = Vec2i { x: 0, y: 0 };
        let ghost mut seen_r = false;
        let mut y: usize = 1;
        while grid_h >= 1 && y < grid_h - 1
            invariant
                1 <= y,
                y <= grid_h || y == 1,
                grid_h <= lines@.len(),
                lines@.len() <= 0x100_0000 + 1,
                text::views_of(lines@) == text::lines_of(string@),
                inner_w <= 0x8000,
                inner_h <= 0x8000,
                1 <= inner_h,
                inner_w == width - 2,
                3 <= width <= 0x8000,
                width == text::find_char(string@, '\n'),
                inner_h as int == spec_inner_h(string@),
                grid_h as int == grid_rows(text::lines_of(string@), 0),
                grid_h >= 3 ==> inner_h <= grid_h - 2,
                forall|k: int|
                    0 <= k < boxes@.len() ==> interior_cell(
                        string@,
                        (#[trigger] boxes@[k]).x as int,
                        boxes@[k].y as int,
                        'O',
                    ),
                forall|k: int|
                    0 <= k < walls@.len() ==> interior_cell(
                        string@,
                        (#[trigger] walls@[k]).x as int,
                        walls@[k].y as int,
                        '#',
                    ),
                robot_pos == (Vec2i { x: 0, y: 0 }) || interior_cell(
                    string@,
                    robot_pos.x as int,
                    robot_pos.y as int,
                    '@',
                ),
                in_area(
                    Vec2i { x: (if inner_w >= 1 { inner_w as i32 } else { 1 }), y: (if inner_h
                        >= 1 {
                        inner_h as i32
                    } else {
                        1
                    }) },
                    robot_pos,
                ) || robot_pos == (Vec2i { x: 0, y: 0 }),
                forall|i: int|
                    0 <= i < boxes@.len() ==> in_area(
                        Vec2i { x: (if inner_w >= 1 { inner_w as i32 } else { 1 }), y: (if inner_h
                            >= 1 {
                            inner_h as i32
                        } else {
                            1
                        }) },
                        #[trigger] boxes@[i],
                    ),
                boxes@.len() <= 0x100_0000,
                grid_h >= 3 ==> (forall|xx: int, yy: int|
                    0 <= xx < inner_w && 0 <= yy && yy + 1 < y && yy < inner_h
                        && #[trigger] interior_cell(string@, xx, yy, '#') ==> walls@.contains(
                        Vec2i { x: xx as i32, y: yy as i32 },
                    )),
                boxes@.len() < 0x100_0000 ==> (grid_h >= 3 ==> (forall|xx: int, yy: int|
                    0 <= xx < inner_w && 0 <= yy && yy + 1 < y && yy < inner_h
                        && #[trigger] interior_cell(string@, xx, yy, 'O') ==> boxes@.contains(
                        Vec2i { x: xx as i32, y: yy as i32 },
                    ))),
                !seen_r ==> (forall|xx: int, yy: int|
                    0 <= xx < inner_w && 0 <= yy && yy + 1 < y && yy < inner_h
                        ==> !(#[trigger] interior_cell(string@, xx, yy, '@'))),
                seen_r ==> interior_cell(string@, robot_pos.x as int, robot_pos.y as int, '@'),
            decreases grid_h - y,
        {
            let line = &lines[y];
            proof {
                assert(lines@[y as int]@ == text::lines_of(string@)[y as int]);
            }
            let mut x: usize = 1;
            while x < line.len() && x + 1 < width && x <= inner_w
                invariant
                    1 <= x,
                    x <= line@.len() || x == 1,
                    1 <= y,
                    grid_h >= 3,
                    y < grid_h - 1,
                    grid_h <= lines@.len(),
                    lines@.len() <= 0x100_0000 + 1,
                    line@ == text::lines_of(string@)[y as int],
                    y < text::lines_of(string@).len(),
                    inner_w <= 0x8000,
                    inner_h <= 0x8000,
                    1 <= inner_h,
                    inner_w == width - 2,
                    3 <= width <= 0x8000,
                    inner_h as int == spec_inner_h(string@),
                    grid_h >= 3 ==> inner_h <= grid_h - 2,
                    forall|k: int|
                        0 <= k < boxes@.len() ==> interior_cell(
                            string@,
                            (#[trigger] boxes@[k]).x as int,
                            boxes@[k].y as int,
                            'O',
                        ),
                    forall|k: int|
                        0 <= k < walls@.len() ==> interior_cell(
                            string@,
                            (#[trigger] walls@[k]).x as int,
                            walls@[k].y as int,
                            '#',
                        ),
                    robot_pos == (Vec2i { x: 0, y: 0 }) || interior_cell(
                        string@,
                        robot_pos.x as int,
                        robot_pos.y as int,
                        '@',
                    ),
                    in_area(
                        Vec2i { x: (if inner_w >= 1 { inner_w as i32 } else { 1 }), y: (if inner_h
                            >= 1 {
                            inner_h as i32
                        } else {
                            1
                        }) },
                        robot_pos,
                    ) || robot_pos == (Vec2i { x: 0, y: 0 }),
                    forall|i: int|
                        0 <= i < boxes@.len() ==> in_area(
                            Vec2i { x: (if inner_w >= 1 { inner_w as i32 } else { 1 }), y: (if
                            inner_h >= 1 {
                                inner_h as i32
                            } else {
                                1
                            }) },
                            #[trigger] boxes@[i],
                        ),
                    boxes@.len() <= 0x100_0000,
                    forall|xx: int, yy: int|
                        0 <= xx < inner_w && 0 <= yy && (yy + 1 < y || (yy + 1 == y && xx + 1
                            < x)) && yy < inner_h && #[trigger] interior_cell(string@, xx, yy, '#')
                            ==> walls@.contains(Vec2i { x: xx as i32, y: yy as i32 }),
                    boxes@.len() < 0x100_0000 ==> (forall|xx: int, yy: int|
                        0 <= xx < inner_w && 0 <= yy && (yy + 1 < y || (yy + 1 == y && xx + 1
                            < x)) && yy < inner_h && #[trigger] interior_cell(string@, xx, yy, 'O')
                            ==> boxes@.contains(Vec2i { x: xx as i32, y: yy as i32 })),
                    !seen_r ==> (forall|xx: int, yy: int|
                        0 <= xx < inner_w && 0 <= yy && (yy + 1 < y || (yy + 1 == y && xx + 1
                            < x)) && yy < inner_h ==> !(#[trigger] interior_cell(
                            string@,
                            xx,
                            yy,
                            '@',
                        ))),
                    seen_r ==> interior_cell(
                        string@,
                        robot_pos.x as int,
                        robot_pos.y as int,
                        '@',
                    ),
                decreases line@.len() - x,
            {
                let c = line[x];
                let px = (x - 1) as i32;
                let py = (y - 1) as i32;
                proof {
                    assert(x - 1 < inner_w);
                }
                if c == 'O' {
                    if boxes.len() < 0x100_0000 && y <= inner_h {
                        let ghost pre = boxes@;
                        boxes.push(Vec2i { x: px, y: py });
                        proof {
                            assert(interior_cell(string@, px as int, py as int, 'O'));
                            assert forall|k: int|
                                0 <= k < boxes@.len() implies interior_cell(
                                string@,
                                (#[trigger] boxes@[k]).x as int,
                                boxes@[k].y as int,
                                'O',
                            ) by {
                                if k < pre.len() {
                                    assert(boxes@[k] == pre[k]);
                                }
                            }
                            assert(boxes@.contains(Vec2i { x: px, y: py })) by {
                                assert(boxes@[boxes@.len() - 1] == Vec2i { x: px, y: py });
                            }
                            assert forall|b: Vec2i| pre.contains(b) implies boxes@.contains(b) by {
                                let k = choose|k: int| 0 <= k < pre.len() && pre[k] == b;
                                assert(boxes@[k] == b);
                            }
                            assert forall|i: int|
                                0 <= i < boxes@.len() implies in_area(
                                Vec2i { x: (if inner_w >= 1 { inner_w as i32 } else { 1 }), y: (
                                if inner_h >= 1 {
                                    inner_h as i32
                                } else {
                                    1
                                }) },
                                #[trigger] boxes@[i],
                            ) by {
                                if i < pre.len() {
                                    assert(boxes@[i] == pre[i]);
                                }
                            }
                        }
                    }
                } else if c == '#' {
                    let ghost prew = walls@;
                    walls.push(Vec2i { x: px, y: py });
                    proof {
                        assert(px as int + 1 == x as int && py as int + 1 == y as int);
                        assert(text::lines_of(string@)[py as int + 1] == line@);
                        assert(line@[px as int + 1] == '#');
                        assert(interior_cell(string@, px as int, py as int, '#'));
                        assert forall|k: int|
                            0 <= k < walls@.len() implies interior_cell(
                            string@,
                            (#[trigger] walls@[k]).x as int,
                            walls@[k].y as int,
                            '#',
                        ) by {
                            if k < prew.len() {
                                assert(walls@[k] == prew[k]);
                            }
                        }
                        assert(walls@.contains(Vec2i { x: px, y: py })) by {
                            assert(walls@[walls@.len() - 1] == Vec2i { x: px, y: py });
                        }
                        assert forall|b: Vec2i| prew.contains(b) implies walls@.contains(b) by {
                            let k = choose|k: int| 0 <= k < prew.len() && prew[k] == b;
                            assert(walls@[k] == b);
                        }
                    }
                } else if c == '@' && y <= inner_h {
                    robot_pos = Vec2i { x: px, y: py };
                    proof {
                        seen_r = true;
                        assert(interior_cell(string@, px as int, py as int, '@'));
                    }
                }
                proof {
                    if !seen_r {
                        assert forall|xx: int, yy: int|
                            0 <= xx < inner_w && 0 <= yy && (yy + 1 < y || (yy + 1 == y && xx + 1
                                < x + 1)) && yy < inner_h implies !(#[trigger] interior_cell(
                            string@,
                            xx,
                            yy,
                            '@',
                        )) by {
                            if yy + 1 == y && xx + 1 == x {
                                assert(interior_cell(string@, xx, yy, '@') ==> line@[x as int]
                                    == '@');
                                assert(c != '@' || y > inner_h);
                                if interior_cell(string@, xx, yy, '@') {
                                    assert(yy < inner_h);
                                    assert(y <= inner_h);
                                }
                            }
                        }
                    }
                }
                x = x + 1;
            }
            proof {
                assert forall|xx: int, yy: int|
                    0 <= xx < inner_w && 0 <= yy && yy + 1 < y + 1 && yy < inner_h
                        && #[trigger] interior_cell(string@, xx, yy, '#') implies walls@.contains(
                    Vec2i { x: xx as i32, y: yy as i32 },
                ) by {
                    if yy + 1 == y {
                        assert(text::lines_of(string@)[yy + 1] == line@);
                        assert(xx + 2 <= line@.len());
                        assert(xx + 1 <= inner_w);
                        if x < line@.len() && x + 1 < width && x <= inner_w {
                            assert(false);
                        }
                        assert(xx + 1 < x) by {
                            if x >= line@.len() {
                            } else if x + 1 >= width {
                                assert(x >= inner_w + 1);
                            } else {
                                assert(x > inner_w);
                            }
                        }
                    }
                    assert(0 <= xx < inner_w && 0 <= yy && (yy + 1 < y || (yy + 1 == y && xx + 1
                        < x)) && yy < inner_h && interior_cell(string@, xx, yy, '#'));
                }
                if !seen_r {
                    assert forall|xx: int, yy: int|
                        0 <= xx < inner_w && 0 <= yy && yy + 1 < y + 1 && yy < inner_h
                        implies !(#[trigger] interior_cell(string@, xx, yy, '@')) by {
                        if yy + 1 == y && interior_cell(string@, xx, yy, '@') {
                            assert(text::lines_of(string@)[yy + 1] == line@);
                            assert(xx + 2 <= line@.len());
                            assert(xx + 1 <= inner_w);
                            if x < line@.len() && x + 1 < width && x <= inner_w {
                                assert(false);
                            }
                            assert(xx + 1 < x) by {
                                if x >= line@.len() {
                                } else if x + 1 >= width {
                                    assert(x >= inner_w + 1);
                                } else {
                                    assert(x > inner_w);
                                }
                            }
                        }
                    }
                }
                if boxes@.len() < 0x100_0000 {
                    assert forall|xx: int, yy: int|
                        0 <= xx < inner_w && 0 <= yy && yy + 1 < y + 1 && yy < inner_h
                            && #[trigger] interior_cell(string@, xx, yy, 'O')
                        implies boxes@.contains(Vec2i { x: xx as i32, y: yy as i32 }) by {
                        if yy + 1 == y {
                            assert(text::lines_of(string@)[yy + 1] == line@);
                            assert(xx + 2 <= line@.len());
                            assert(xx + 1 <= inner_w);
                            if x < line@.len() && x + 1 < width && x <= inner_w {
                                assert(false);
                            }
                            assert(xx + 1 < x) by {
                                if x >= line@.len() {
                                } else if x + 1 >= width {
                                    assert(x >= inner_w + 1);
                                } else {
                                    assert(x > inner_w);
                                }
                            }
                        }
                        assert(0 <= xx < inner_w && 0 <= yy && (yy + 1 < y || (yy + 1 == y && xx
                            + 1 < x)) && yy < inner_h && interior_cell(string@, xx, yy, 'O'));
                    }
                }
            }
            y = y + 1;
        }
        // the move list
        let mut directions: Vec<Vec2i> = Vec::new();
        let mut m: usize = if grid_h < lines.len() {
            grid_h + 1
        } else {
            grid_h
        };
        let ghost mstart = m as int;
        proof {
            assert(mstart == moves_start(string@));
            assert(all_arrows(ls, mstart, mstart) =~= Seq::<Vec2i>::empty());
        }
        while m < lines.len()
            invariant
                mstart <= m,
                m <= lines@.len() || m == mstart,
                text::views_of(lines@) == ls,
                ls == text::lines_of(string@),
                mstart == moves_start(string@),
                directions@ == all_arrows(ls, mstart, m as int),
                forall|i: int|
                    0 <= i < directions@.len() ==> dir_ok(#[trigger] directions@[i]),
            decreases lines@.len() - m,
        {
            let line = &lines[m];
            proof {
                assert(lines@[m as int]@ == ls[m as int]);
            }
            let ghost base = directions@;
            let mut k: usize = 0;
            proof {
                assert(arrows_of_line(line@.take(0)) =~= Seq::<Vec2i>::empty());
                assert(directions@ =~= base + arrows_of_line(line@.take(0)));
            }
            while k < line.len()
                invariant
                    k <= line@.len(),
                    line@ == ls[m as int],
                    mstart <= m < ls.len(),
                    ls == text::lines_of(string@),
                    base == all_arrows(ls, mstart, m as int),
                    directions@ == base + arrows_of_line(line@.take(k as int)),
                    forall|i: int|
                        0 <= i < directions@.len() ==> dir_ok(#[trigger] directions@[i]),
                decreases line@.len() - k,
            {
                let c = line[k];
                let ghost pre = directions@;
                proof {
                    assert(line@.take(k as int + 1).drop_last() =~= line@.take(k as int));
                    assert(line@.take(k as int + 1).last() == c);
                }
                let mut pushed = false;
                if c == '^' {
                    directions.push(Vec2i { x: 0, y: -1 });
                    pushed = true;
                } else if c == '>' {
                    directions.push(Vec2i { x: 1, y: 0 });
                    pushed = true;
                } else if c == 'v' {
                    directions.push(Vec2i { x: 0, y: 1 });
                    pushed = true;
                } else if c == '<' {
                    directions.push(Vec2i { x: -1, y: 0 });
                    pushed = true;
                }
                proof {
                    assert(directions@ =~= base + arrows_of_line(line@.take(k as int + 1)));
                    if pushed {
                        assert forall|i: int|
                            0 <= i < directions@.len() implies dir_ok(
                            #[trigger] directions@[i],
                        ) by {
                            if i < pre.len() {
                                assert(directions@[i] == pre[i]);
                            }
                        }
                    }
                }
                k = k + 1;
            }
            proof {
                assert(line@.take(line@.len() as int) =~= line@);
                assert(all_arrows(ls, mstart, m as int + 1) == all_arrows(ls, mstart, m as int)
                    + arrows_of_line(ls[m as int]));
                assert(directions@ =~= all_arrows(ls, mstart, m as int + 1));
            }
            m = m + 1;
        }
        proof {
            if mstart >= ls.len() {
                assert(directions@ =~= all_arrows(ls, mstart, ls.len() as int)) by {
                    assert(m == mstart);
                    assert(all_arrows(ls, mstart, ls.len() as int) =~= Seq::<Vec2i>::empty())
                        by {
                        lemma_all_arrows_empty(ls, mstart, ls.len() as int);
                    }
                }
            }
        }
        let dim_x: i32 = if inner_w >= 1 {
            inner_w as i32
        } else {
            1
        };
        let dim_y: i32 = if inner_h >= 1 {
            inner_h as i32
        } else {
            1
        };
        WarehouseMap {
            dimensions: Vec2i { x: dim_x, y: dim_y },
            boxes,
            walls,
            robot_pos,
            directions,
        }
    }

    /// Whether a position lies in the area and is not a wall.
    pub fn is_accessible(&self, pos: Vec2i) -> (r: bool)
        requires
            dims_ok(self.dimensions),
        ensures
            r == (in_area(self.dimensions, pos) && !self.walls@.contains(pos)),
    {
        pos.x >= 0 && pos.x < self.dimensions.x && pos.y >= 0 && pos.y < self.dimensions.y
            && !contains_pos(&self.walls, pos)
    }

    /// Run the whole move list: each move pushes the straight line of
    /// boxes ahead of the robot when a free cell ends it, else nothing
    /// happens.  Walls, dimensions, moves and the number of boxes stay as
    /// they are.
    pub fn move_robot(&self) -> (r: WarehouseMap)
        requires
            self.wf(),
        ensures
            r.dimensions == self.dimensions,
            r.walls@ == self.walls@,
            r.directions@ == self.directions@,
            r.boxes@.len() == self.boxes@.len(),
            r.boxes@ == spec_run(
                self.dimensions,
                self.walls@,
                self.boxes@,
                self.robot_pos,
                self.directions@,
                self.directions@.len() as int,
            ).0,
            r.robot_pos == spec_run(
                self.dimensions,
                self.walls@,
                self.boxes@,
                self.robot_pos,
                self.directions@,
                self.directions@.len() as int,
            ).1,
            r.wf(),
    {
        let ghost dims = self.dimensions;
        let ghost walls0 = self.walls@;
        let ghost boxes0 = self.boxes@;
        let ghost robot0 = self.robot_pos;
        let ghost dirs = self.directions@;
        let mut boxes = copy_positions(&self.boxes);
        let mut robot_pos = self.robot_pos;
        let mut d: usize = 0;
        while d < self.directions.len()
            invariant
                d <= dirs.len(),
                self.wf(),
                dims == self.dimensions,
                walls0 == self.walls@,
                boxes0 == self.boxes@,
                robot0 == self.robot_pos,
                dirs == self.directions@,
                boxes@.len() == boxes0.len(),
                in_area(dims, robot_pos),
                forall|i: int| 0 <= i < boxes@.len() ==> in_area(dims, #[trigger] boxes@[i]),
                boxes@ == spec_run(dims, walls0, boxes0, robot0, dirs, d as int).0,
                robot_pos == spec_run(dims, walls0, boxes0, robot0, dirs, d as int).1,
            decreases dirs.len() - d,
        {
            let direction = self.directions[d];
            proof {
                assert(dir_ok(direction));
                assert(dirs[d as int] == direction);
            }
            // scan ahead of the robot for the end of the box line
            let mut pos = robot_pos;
            let mut steps: u32 = 0;
            let mut outcome: u8 = 0;  // 0 scanning, 1 blocked, 2 free cell found
            let bound: u32 = 0x10001;
            while outcome == 0 && steps < bound
                invariant
                    self.wf(),
                    dims == self.dimensions,
                    walls0 == self.walls@,
                    dir_ok(direction),
                    in_area(dims, robot_pos),
                    steps <= bound,
                    bound == 0x10001,
                    -0x8001 <= pos.x <= 0x8001,
                    -0x8001 <= pos.y <= 0x8001,
                    outcome == 0 || outcome == 1 || outcome == 2,
                    outcome == 0 ==> scan_free(
                        dims,
                        walls0,
                        boxes@,
                        pos,
                        direction,
                        bound - steps,
                    ) == scan_free(dims, walls0, boxes@, robot_pos, direction, bound as int),
                    outcome == 1 ==> scan_free(
                        dims,
                        walls0,
                        boxes@,
                        robot_pos,
                        direction,
                        bound as int,
                    ) is None,
                    outcome == 2 ==> scan_free(
                        dims,
                        walls0,
                        boxes@,
                        robot_pos,
                        direction,
                        bound as int,
                    ) == Some(pos),
                    outcome == 2 ==> in_area(dims, pos) && !walls0.contains(pos)
                        && !boxes@.contains(pos),
                    boxes@.len() == boxes0.len(),
                    forall|i: int| 0 <= i < boxes@.len() ==> in_area(dims, #[trigger] boxes@[i]),
                decreases bound - steps, 1int - (if outcome == 0 {
                    0int
                } else {
                    1int
                }),
            {
                let next = Vec2i { x: pos.x + direction.x, y: pos.y + direction.y };
                proof {
                    assert(next == shifted(pos, direction));
                    assert(bound - steps >= 1);
                }
                if !self.is_accessible(next) {
                    proof {
                        assert(scan_free(dims, walls0, boxes@, pos, direction, bound - steps)
                            is None);
                    }
                    outcome = 1;
                } else if contains_pos(&boxes, next) {
                    proof {
                        assert(scan_free(dims, walls0, boxes@, pos, direction, bound - steps)
                            == scan_free(
                            dims,
                            walls0,
                            boxes@,
                            next,
                            direction,
                            bound - steps - 1,
                        ));
                    }
                    pos = next;
                } else {
                    proof {
                        assert(scan_free(dims, walls0, boxes@, pos, direction, bound - steps)
                            == Some(next));
                    }
                    pos = next;
                    outcome = 2;
                }
                steps = steps + 1;
            }
            proof {
                if outcome == 0 {
                    assert(steps == bound);
                    assert(scan_free(dims, walls0, boxes@, pos, direction, 0) is None);
                }
            }
            let ghost pre_boxes = boxes@;
            if outcome == 2 {
                // shift the box line: move the first box to the free end
                let first = Vec2i { x: robot_pos.x + direction.x, y: robot_pos.y + direction.y };
                proof {
                    assert(first == shifted(robot_pos, direction));
                }
                if contains_pos(&boxes, first) {
                    let idx = index_of_pos(&boxes, first);
                    let ghost pre = boxes@;
                    proof {
                        assert(in_area(dims, pre[idx as int]));
                        pre.index_of_first_ensures(first);
                        assert(pre.index_of_first(first) == Some(idx as int)) by {
                            match pre.index_of_first(first) {
                                Option::Some(j) => {
                                    if j < idx {
                                        assert(pre[j] != first);
                                    }
                                    if j > idx {
                                        assert(pre[idx as int] != first);
                                    }
                                },
                                Option::None => {
                                    assert(pre.contains(first));
                                },
                            }
                        }
                    }
                    boxes.set(idx, pos);
                    proof {
                        assert(boxes@ == pre.update(idx as int, pos));
                        assert forall|i: int|
                            0 <= i < boxes@.len() implies in_area(
                            dims,
                            #[trigger] boxes@[i],
                        ) by {
                            if i != idx {
                                assert(boxes@[i] == pre[i]);
                            }
                        }
                    }
                    robot_pos = first;
                    proof {
                        assert(in_area(dims, robot_pos));
                        assert((boxes@, robot_pos) == spec_move(
                            dims,
                            walls0,
                            pre,
                            spec_run(dims, walls0, boxes0, robot0, dirs, d as int).1,
                            direction,
                        ));
                    }
                } else {
                    proof {
                        // the free cell is the very next cell: nothing to shift
                        assert(scan_free(dims, walls0, boxes@, robot_pos, direction, bound as int)
                            == Some(first)) by {
                            assert(in_area(dims, first) && !walls0.contains(first)) by {
                                if !(in_area(dims, first) && !walls0.contains(first)) {
                                    assert(scan_free(
                                        dims,
                                        walls0,
                                        boxes@,
                                        robot_pos,
                                        direction,
                                        bound as int,
                                    ) is None);
                                }
                            }
                        }
                        assert(pos == first);
                        pre_boxes.index_of_first_ensures(first);
                        assert(pre_boxes.index_of_first(first) is None) by {
                            match pre_boxes.index_of_first(first) {
                                Option::Some(j) => {
                                    assert(pre_boxes[j] == first);
                                    assert(pre_boxes.contains(first));
                                },
                                Option::None => {},
                            }
                        }
                    }
                    robot_pos = pos;
                    proof {
                        assert((boxes@, robot_pos) == spec_move(
                            dims,
                            walls0,
                            pre_boxes,
                            spec_run(dims, walls0, boxes0, robot0, dirs, d as int).1,
                            direction,
                        ));
                    }
                }
            } else {
                proof {
                    assert((boxes@, robot_pos) == spec_move(
                        dims,
                        walls0,
                        pre_boxes,
                        spec_run(dims, walls0, boxes0, robot0, dirs, d as int).1,
                        direction,
                    ));
                }
            }
            proof {
                assert(spec_run(dims, walls0, boxes0, robot0, dirs, d as int + 1) == spec_move(
                    dims,
                    walls0,
                    spec_run(dims, walls0, boxes0, robot0, dirs, d as int).0,
                    spec_run(dims, walls0, boxes0, robot0, dirs, d as int).1,
                    dirs[d as int],
                ));
            }
            d = d + 1;
        }
        WarehouseMap {
            dimensions: self.dimensions,
            boxes,
            walls: copy_positions(&self.walls),
            robot_pos,
            directions: copy_positions(&self.directions),
        }
    }

    /// Sum of the GPS scores of all boxes.
    pub fn box_gps_sum(&self) -> (r: u64)
        requires
            self.wf(),
        ensures
            r == spec_gps_sum(self.boxes@),
    {
        let ghost bs = self.boxes@;
        let mut total: u64 = 0;
        let mut i: usize = 0;
        proof {
            lemma_gps_bound(bs, self.dimensions);
        }
        while i < self.boxes.len()
            invariant
                i <= bs.len(),
                bs == self.boxes@,
                self.wf(),
                total == spec_gps_sum(bs.take(i as int)),
                total <= i * 0x33_8000,
            decreases bs.len() - i,
        {
            proof {
                assert(bs.take(i as int + 1).drop_last() =~= bs.take(i as int));
                assert(bs.take(i as int + 1).last() == bs[i as int]);
                assert(in_area(self.dimensions, bs[i as int]));
                assert(total + gps_of(bs[i as int]) <= (i + 1) * 0x33_8000) by (nonlinear_arith)
                    requires
                        total <= i * 0x33_8000,
                        0 <= gps_of(bs[i as int]) <= 0x33_8000,
                        0 <= i,
                ;
                assert((i + 1) * 0x33_8000 <= (bs.len() as int) * 0x33_8000) by (nonlinear_arith)
                    requires
                        i + 1 <= bs.len(),
                ;
                assert((bs.len() as int) * 0x33_8000 <= 0x100_0000 * 0x33_8000)
                    by (nonlinear_arith)
                    requires
                        bs.len() <= 0x100_0000,
                ;
            }
            let b = self.boxes[i];
            let add = ((b.x + 1) as u64) + ((b.y + 1) as u64) * 100;
            total = total + add;
            i = i + 1;
        }
        proof {
            assert(bs.take(bs.len() as int) =~= bs);
        }
        total
    }
}

/// GPS scores of in-area boxes are small.
proof fn lemma_gps_bound(bs: Seq<Vec2i>, d: Vec2i)
    requires
        dims_ok(d),
        forall|i: int| 0 <= i < bs.len() ==> in_area(d, #[trigger] bs[i]),
    ensures
        forall|i: int| 0 <= i < bs.len() ==> 0 <= gps_of(#[trigger] bs[i]) <= 0x33_8000,
{
    assert forall|i: int| 0 <= i < bs.len() implies 0 <= gps_of(#[trigger] bs[i]) <= 0x33_8000 by {
        assert(0 <= bs[i].x < 0x8000 && 0 <= bs[i].y < 0x8000);
    }
}

/// Whether `p` occurs in `v`.
fn contains_pos(v: &Vec<Vec2i>, p: Vec2i) -> (r: bool)
    ensures
        r == v@.contains(p),
{
    let mut i: usize = 0;
    while i < v.len()
        invariant
            i <= v@.len(),
            forall|k: int| 0 <= k < i ==> v@[k] != p,
        decreases v@.len() - i,
    {
        if v[i].x == p.x && v[i].y == p.y {
            proof {
                assert(v@[i as int] == p);
            }
            return true;
        }
        i = i + 1;
    }
    proof {
        if v@.contains(p) {
            let k = choose|k: int| 0 <= k < v@.len() && v@[k] == p;
            assert(v@[k] != p);
        }
    }
    false
}

/// The index of `p` in `v`, which must occur.
fn index_of_pos(v: &Vec<Vec2i>, p: Vec2i) -> (r: usize)
    requires
        v@.contains(p),
    ensures
        r < v@.len(),
        v@[r as int] == p,
        forall|q: int| 0 <= q < r ==> v@[q] != p,
{
    let mut i: usize = 0;
    while i < v.len()
        invariant
            i <= v@.len(),
            v@.contains(p),
            forall|k: int| 0 <= k < i ==> v@[k] != p,
        decreases v@.len() - i,
    {
        if v[i].x == p.x && v[i].y == p.y {
            proof {
                assert(v@[i as int] == p);
            }
            return i;
        }
        i = i + 1;
    }
    proof {
        let k = choose|k: int| 0 <= k < v@.len() && v@[k] == p;
        assert(v@[k] != p);
    }
    0
}

/// A copy of a position list.
fn copy_positions(v: &Vec<Vec2i>) -> (r: Vec<Vec2i>)
    ensures
        r@ == v@,
{
    let mut r: Vec<Vec2i> = Vec::new();
    let mut i: usize = 0;
    while i < v.len()
        invariant
            i <= v@.len(),
            r@ == v@.take(i as int),
        decreases v@.len() - i,
    {
        r.push(v[i]);
        proof {
            assert(r@ =~= v@.take(i as int + 1));
        }
        i = i + 1;
    }
    proof {
        assert(v@.take(v@.len() as int) =~= v@);
    }
    r
}

/// The problem: a warehouse and its move list.
#[derive(Debug)]
pub struct Problem {
    pub map: WarehouseMap,
}

impl Problem {
    /// Parse the warehouse.
    pub fn from_string(string: &str) -> (r: Problem)
        requires
            string@.len() <= 0x100_0000,
            3 <= text::find_char(string@, '\n') <= 0x8000,
        ensures
            dims_ok(r.map.dimensions),
    {
        Problem { map: WarehouseMap::from_string(string) }
    }

    /// GPS sum after running the whole move list: of exactly the box
    /// layout the moves produce.
    pub fn part_1(&self) -> (r: u64)
        requires
            self.map.wf(),
        ensures
            r == spec_gps_sum(
                spec_run(
                    self.map.dimensions,
                    self.map.walls@,
                    self.map.boxes@,
                    self.map.robot_pos,
                    self.map.directions@,
                    self.map.directions@.len() as int,
                ).0,
            ),
    {
        let moved = self.map.move_robot();
        moved.box_gps_sum()
    }
}

} // verus!
