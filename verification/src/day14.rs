//! Robots patrolling a wrapping area: positions advance by velocity modulo
//! the area size; safety factor multiplies the quadrant head-counts; the
//! picture search looks for a filled triangle top.
use vstd::prelude::*;
use crate::text;

verus! {

/// A two-dimensional integer vector.
#[derive(Debug, Clone, Copy, PartialEq, Eq, Structural, Hash)]
pub struct Vec2i {
    pub x: i32,
    pub y: i32,
}

impl Vec2i {
    pub fn new(x: i32, y: i32) -> (r: Vec2i)
        ensures
            r == (Vec2i { x, y }),
    {
        Vec2i { x, y }
    }
}

/// One robot: position and velocity.
#[derive(Debug, Clone, Copy, PartialEq, Eq, Structural)]
pub struct Robot {
    pub position: Vec2i,
    pub velocity: Vec2i,
}

/// Dimensions are positive and small; coordinates fit the area.
pub open spec fn dims_ok(d: Vec2i) -> bool {
    1 <= d.x <= 0x8000 && 1 <= d.y <= 0x8000
}

/// A robot whose coordinates lie inside the area and whose velocity is
/// bounded.
pub open spec fn robot_ok(r: Robot, d: Vec2i) -> bool {
    0 <= r.position.x < d.x && 0 <= r.position.y < d.y && -0x10000 <= r.velocity.x <= 0x10000
        && -0x10000 <= r.velocity.y <= 0x10000
}

/// Where a robot stands after `s` seconds: coordinates advance by the
/// velocity and wrap around the area edges.
pub open spec fn spec_elapse_robot(r: Robot, s: int, d: Vec2i) -> Robot {
    Robot {
        position: Vec2i {
            x: ((r.position.x + r.velocity.x * s) % (d.x as int)) as i32,
            y: ((r.position.y + r.velocity.y * s) % (d.y as int)) as i32,
        },
        velocity: r.velocity,
    }
}

/// Euclidean remainder of `t` by a positive `d`, computed on magnitudes.
fn euclid_mod(t: i64, d: i64) -> (r: i64)
    requires
        1 <= d <= 0x8000,
        -0x4000_0000_0000_0000 <= t <= 0x4000_0000_0000_0000,
    ensures
        r == (t as int) % (d as int),
        0 <= r < d,
{
    if t >= 0 {
        let r = ((t as u64) % (d as u64)) as i64;
        proof {
            assert((t as int) % (d as int) == ((t as u64) as int) % ((d as u64) as int));
        }
        r
    } else {
        let m = ((-t) as u64) % (d as u64);
        proof {
            vstd::arithmetic::div_mod::lemma_fundamental_div_mod((-t) as int, d as int);
        }
        if m == 0 {
            proof {
                let k = ((-t) as int) / (d as int);
                assert((-t) as int == (d as int) * k);
                assert(t as int == (-k) * (d as int) + 0) by (nonlinear_arith)
                    requires
                        (-t) as int == (d as int) * k,
                ;
                vstd::arithmetic::div_mod::lemma_fundamental_div_mod_converse(
                    t as int,
                    d as int,
                    -k,
                    0,
                );
            }
            0
        } else {
            let r = d - (m as i64);
            proof {
                let k = ((-t) as int) / (d as int);
                assert((-t) as int == (d as int) * k + m);
                assert(t as int == (-k - 1) * (d as int) + (d - m)) by (nonlinear_arith)
                    requires
                        (-t) as int == (d as int) * k + m,
                ;
                vstd::arithmetic::div_mod::lemma_fundamental_div_mod_converse(
                    t as int,
                    d as int,
                    -k - 1,
                    d - m,
                );
            }
            r
        }
    }
}

impl Robot {
    /// The robot after `seconds` steps, wrapped to the area.
    pub fn elapse_time(&self, seconds: u32, area_dims: Vec2i) -> (r: Robot)
        requires
            dims_ok(area_dims),
            robot_ok(*self, area_dims),
        ensures
            r == spec_elapse_robot(*self, seconds as int, area_dims),
            robot_ok(r, area_dims),
    {
        proof {
            assert(-0x4000_0000_0000_0000 <= self.position.x + self.velocity.x * (seconds as int)
                <= 0x4000_0000_0000_0000 && -0x4000_0000_0000_0000 <= self.position.y
                + self.velocity.y * (seconds as int) <= 0x4000_0000_0000_0000)
                by (nonlinear_arith)
                requires
                    -0x10000 <= self.velocity.x <= 0x10000,
                    -0x10000 <= self.velocity.y <= 0x10000,
                    0 <= self.position.x <= 0x10000,
                    0 <= self.position.y <= 0x10000,
                    0 <= seconds < 0x1_0000_0000,
            ;
        }
        let tx = (self.position.x as i64) + (self.velocity.x as i64) * (seconds as i64);
        let ty = (self.position.y as i64) + (self.velocity.y as i64) * (seconds as i64);
        let nx = euclid_mod(tx, area_dims.x as i64);
        let ny = euclid_mod(ty, area_dims.y as i64);
        Robot {
            position: Vec2i { x: nx as i32, y: ny as i32 },
            velocity: self.velocity,
        }
    }

    /// Steps until the robot's position first repeats: the returned step
    /// lands on a position some earlier step already held.  The search
    /// gives up after the area size in steps, by which time a position
    /// must have recurred.
    pub fn repeat_interval(&self, area_dims: Vec2i) -> (r: u32)
        requires
            dims_ok(area_dims),
            robot_ok(*self, area_dims),
        ensures
            1 <= r,
            r == area_width_limit(area_dims) || exists|j: int|
                0 <= j < r && pos_after(*self, j, area_dims) == pos_after(
                    *self,
                    r as int,
                    area_dims,
                ),
    {
        proof {
            assert(0 <= area_dims.x * area_dims.y <= 0x4000_0000) by (nonlinear_arith)
                requires
                    1 <= area_dims.x <= 0x8000,
                    1 <= area_dims.y <= 0x8000,
            ;
        }
        let limit: u32 = (area_dims.x as u32) * (area_dims.y as u32) + 1;
        proof {
            assert(limit == area_width_limit(area_dims));
        }
        let mut robot = *self;
        let mut seen: Vec<Vec2i> = Vec::new();
        let mut n: u32 = 0;
        while n < limit
            invariant
                dims_ok(area_dims),
                robot_ok(robot, area_dims),
                n <= limit,
                limit <= 0x1_0000_0001,
                robot == step_robot(*self, n as int, area_dims),
                robot_ok(*self, area_dims),
                seen@.len() == n,
                forall|k: int|
                    0 <= k < n ==> #[trigger] seen@[k] == pos_after(*self, k, area_dims),
            decreases limit - n,
        {
            seen.push(robot.position);
            proof {
                assert(seen@[n as int] == pos_after(*self, n as int, area_dims));
            }
            robot = robot.elapse_time(1, area_dims);
            n = n + 1;
            proof {
                assert(robot == step_robot(*self, n as int, area_dims));
            }
            // does the new position appear among the seen ones?
            let mut j: usize = 0;
            let mut found = false;
            while j < seen.len()
                invariant
                    j <= seen@.len(),
                    seen@.len() == n,
                    1 <= n,
                    robot == step_robot(*self, n as int, area_dims),
                    robot_ok(*self, area_dims),
                    dims_ok(area_dims),
                    forall|k: int|
                        0 <= k < n ==> #[trigger] seen@[k] == pos_after(*self, k, area_dims),
                    found ==> exists|k: int|
                        0 <= k < n && pos_after(*self, k, area_dims) == pos_after(
                            *self,
                            n as int,
                            area_dims,
                        ),
                decreases seen@.len() - j,
            {
                if seen[j] == robot.position {
                    proof {
                        assert(seen@[j as int] == pos_after(*self, j as int, area_dims));
                        assert(robot.position == pos_after(*self, n as int, area_dims));
                    }
                    found = true;
                }
                j = j + 1;
            }
            if found {
                return n;
            }
        }
        limit
    }
}

/// One more than the number of cells: a walk this long must revisit one.
pub open spec fn area_width_limit(d: Vec2i) -> int {
    d.x * d.y + 1
}

/// The robot after `k` single-second steps.
pub open spec fn step_robot(r: Robot, k: int, d: Vec2i) -> Robot
    decreases k,
{
    if k <= 0 {
        r
    } else {
        spec_elapse_robot(step_robot(r, k - 1, d), 1, d)
    }
}

/// Where the robot stands after `k` steps.
pub open spec fn pos_after(r: Robot, k: int, d: Vec2i) -> Vec2i {
    step_robot(r, k, d).position
}

/// The robots whose positions lie strictly inside the given quadrant of
/// an area split through the middle row and column.
pub open spec fn quad_pred(qd: Vec2i, i: int, j: int) -> spec_fn(Robot) -> bool {
    |r: Robot|
        r.position.x >= i * qd.x + i && r.position.x < (i + 1) * qd.x + i && r.position.y >= j
            * qd.y + j && r.position.y < (j + 1) * qd.y + j
}

/// The area: its dimensions and its robots.
#[derive(Debug)]
pub struct Area {
    pub dimensions: Vec2i,
    pub robots: Vec<Robot>,
}

/// Some robot stands at `p`.
pub open spec fn robot_at_pos(rs: Seq<Robot>, p: Vec2i) -> bool {
    exists|i: int| 0 <= i < rs.len() && (#[trigger] rs[i]).position == p
}

/// A filled triangle top at robot `i`: the two rows below it are present.
pub open spec fn peak_at(rs: Seq<Robot>, i: int) -> bool {
    &&& 0 <= i < rs.len()
    &&& robot_at_pos(rs, shifted(rs[i].position, -1, 1))
    &&& robot_at_pos(rs, shifted(rs[i].position, 1, 1))
    &&& robot_at_pos(rs, shifted(rs[i].position, -2, 2))
    &&& robot_at_pos(rs, shifted(rs[i].position, 2, 2))
    &&& robot_at_pos(rs, shifted(rs[i].position, 0, 1))
    &&& robot_at_pos(rs, shifted(rs[i].position, -1, 2))
    &&& robot_at_pos(rs, shifted(rs[i].position, 0, 2))
    &&& robot_at_pos(rs, shifted(rs[i].position, 1, 2))
}

/// A position moved by the given offsets.
pub open spec fn shifted(p: Vec2i, dx: int, dy: int) -> Vec2i {
    Vec2i { x: (p.x + dx) as i32, y: (p.y + dy) as i32 }
}

/// Some robot tops a filled triangle.
pub open spec fn has_peak(rs: Seq<Robot>) -> bool {
    exists|i: int| #[trigger] peak_at(rs, i)
}

impl Area {
    /// All robots inside the area with bounded velocities.
    pub open spec fn wf(&self) -> bool {
        dims_ok(self.dimensions) && self.robots@.len() <= 0x1000_0000 && (forall|i: int|
            0 <= i < self.robots@.len() ==> robot_ok(#[trigger] self.robots@[i], self.dimensions))
    }

    /// Parse robots: every four numbers are a position and velocity pair.
    /// The area dimensions are given, not read from the text.
    pub fn from_string(width: u32, height: u32, string: &str) -> (r: Area)
        requires
            forall|p: Seq<char>|
                text::split_if(string@, text::non_number_pred()).contains(p)
                    && text::is_int_literal(p) ==> -0x7fff_ffff <= #[trigger] text::int_val(p)
                    <= 0x7fff_ffff,
            1 <= width <= 0x10000,
            1 <= height <= 0x10000,
        ensures
            r.dimensions.x == width && r.dimensions.y == height,
            r.robots@.len() == text::numbers_of(string@).len() / 4,
            forall|i: int|
                0 <= i < r.robots@.len() ==> (#[trigger] r.robots@[i]).position.x
                    == text::numbers_of(string@)[4 * i] as i32 && r.robots@[i].position.y
                    == text::numbers_of(string@)[4 * i + 1] as i32 && r.robots@[i].velocity.x
                    == text::numbers_of(string@)[4 * i + 2] as i32 && r.robots@[i].velocity.y
                    == text::numbers_of(string@)[4 * i + 3] as i32,
    {
        let chars = text::chars_of(string);
        let nums = text::extract_numbers(&chars);
        let ghost gn = text::numbers_of(string@);
        proof {
            assert(nums@.map_values(text::to_int_fn()).len() == nums@.len());
            assert forall|k: int| 0 <= k < nums@.len() implies gn[k] == #[trigger] nums@[k] as int by {
                assert(gn[k] == nums@.map_values(text::to_int_fn())[k]);
            }
        }
        let mut robots: Vec<Robot> = Vec::new();
        let mut i: usize = 0;
        while nums.len() >= 4 && i <= nums.len() - 4
            invariant
                0 <= i,
                i % 4 == 0,
                i <= nums@.len() || i == 0,
                gn.len() == nums@.len(),
                forall|k: int| 0 <= k < nums@.len() ==> gn[k] == #[trigger] nums@[k] as int,
                robots@.len() == i / 4,
                forall|j: int|
                    0 <= j < robots@.len() ==> (#[trigger] robots@[j]).position.x == gn[4 * j] as i32
                        && robots@[j].position.y == gn[4 * j + 1] as i32 && robots@[j].velocity.x
                        == gn[4 * j + 2] as i32 && robots@[j].velocity.y == gn[4 * j + 3] as i32,
            decreases nums@.len() - i,
        {
            let ghost pre = robots@;
            let m = Robot {
                position: Vec2i { x: nums[i] as i32, y: nums[i + 1] as i32 },
                velocity: Vec2i { x: nums[i + 2] as i32, y: nums[i + 3] as i32 },
            };
            robots.push(m);
            proof {
                assert((i + 4) / 4 == i / 4 + 1 && (i + 4) % 4 == 0) by (nonlinear_arith)
                    requires
                        i % 4 == 0,
                        0 <= i,
                ;
                assert forall|j: int|
                    0 <= j < robots@.len() implies (#[trigger] robots@[j]).position.x == gn[4
                    * j] as i32 && robots@[j].position.y == gn[4 * j + 1] as i32
                    && robots@[j].velocity.x == gn[4 * j + 2] as i32 && robots@[j].velocity.y
                    == gn[4 * j + 3] as i32 by {
                    if j < pre.len() {
                        assert(robots@[j] == pre[j]);
                    } else {
                        assert(robots@[j] == m);
                        assert(4 * j == i) by (nonlinear_arith)
                            requires
                                j == i / 4,
                                i % 4 == 0,
                                0 <= i,
                        ;
                    }
                }
            }
            i = i + 4;
        }
        proof {
            assert(robots@.len() == gn.len() / 4) by {
                assert(i / 4 == gn.len() / 4) by (nonlinear_arith)
                    requires
                        i % 4 == 0,
                        i <= gn.len() < i + 4 || (gn.len() < 4 && i == 0),
                ;
            }
        }
        Area { dimensions: Vec2i { x: width as i32, y: height as i32 }, robots }
    }

    /// The area after `seconds` steps: every robot advances and wraps.
    pub fn elapse_time(&self, seconds: u32) -> (r: Area)
        requires
            self.wf(),
        ensures
            r.dimensions == self.dimensions,
            r.robots@.len() == self.robots@.len(),
            forall|i: int|
                0 <= i < r.robots@.len() ==> r.robots@[i] == spec_elapse_robot(
                    #[trigger] self.robots@[i],
                    seconds as int,
                    self.dimensions,
                ),
            r.wf(),
    {
        let mut robots: Vec<Robot> = Vec::new();
        let mut i: usize = 0;
        while i < self.robots.len()
            invariant
                i <= self.robots@.len(),
                self.wf(),
                robots@.len() == i,
                forall|k: int|
                    0 <= k < i ==> robots@[k] == spec_elapse_robot(
                        #[trigger] self.robots@[k],
                        seconds as int,
                        self.dimensions,
                    ) && robot_ok(robots@[k], self.dimensions),
            decreases self.robots@.len() - i,
        {
            let r = self.robots[i].elapse_time(seconds, self.dimensions);
            robots.push(r);
            i = i + 1;
        }
        proof {
            assert forall|k: int| 0 <= k < robots@.len() implies robot_ok(
                #[trigger] robots@[k],
                self.dimensions,
            ) by {
                assert(robots@[k] == spec_elapse_robot(self.robots@[k], seconds as int,
                self.dimensions));
            }
        }
        Area { dimensions: self.dimensions, robots }
    }

    /// The four quadrants: robots strictly inside each quarter, middle row
    /// and column dropped; quadrant dimensions are the halves.
    pub fn quadrants(&self) -> (r: Vec<Area>)
        requires
            self.wf(),
        ensures
            r@.len() == 4,
            forall|q: int|
                0 <= q < 4 ==> (#[trigger] r@[q]).dimensions == (Vec2i {
                    x: (self.dimensions.x / 2) as i32,
                    y: (self.dimensions.y / 2) as i32,
                }),
            forall|q: int|
                0 <= q < 4 ==> (#[trigger] r@[q]).robots@ == self.robots@.filter(
                    quad_pred(
                        Vec2i { x: (self.dimensions.x / 2) as i32, y: (self.dimensions.y / 2) as i32 },
                        q / 2,
                        q % 2,
                    ),
                ),
    {
        let qx = self.dimensions.x / 2;
        let qy = self.dimensions.y / 2;
        let qd = Vec2i { x: qx, y: qy };
        let mut out: Vec<Area> = Vec::new();
        let mut ii: usize = 0;
        while ii < 2
            invariant
                ii <= 2,
                qx == qd.x,
                qy == qd.y,
                self.wf(),
                qd == (Vec2i { x: (self.dimensions.x / 2) as i32, y: (self.dimensions.y / 2) as i32 }),
                0 <= qd.x <= 0x8000,
                0 <= qd.y <= 0x8000,
                out@.len() == 2 * ii,
                forall|q: int| 0 <= q < out@.len() ==> (#[trigger] out@[q]).dimensions == qd,
                forall|q: int|
                    0 <= q < out@.len() ==> (#[trigger] out@[q]).robots@ == self.robots@.filter(
                        quad_pred(qd, q / 2, q % 2),
                    ),
            decreases 2 - ii,
        {
            let mut jj: usize = 0;
            while jj < 2
                invariant
                    ii < 2,
                    jj <= 2,
                    qx == qd.x,
                    qy == qd.y,
                    self.wf(),
                    qd == (Vec2i { x: (self.dimensions.x / 2) as i32, y: (self.dimensions.y / 2) as i32 }),
                    0 <= qd.x <= 0x8000,
                    0 <= qd.y <= 0x8000,
                    out@.len() == 2 * ii + jj,
                    forall|q: int| 0 <= q < out@.len() ==> (#[trigger] out@[q]).dimensions == qd,
                    forall|q: int|
                        0 <= q < out@.len() ==> (#[trigger] out@[q]).robots@ == self.robots@.filter(
                            quad_pred(qd, q / 2, q % 2),
                        ),
                decreases 2 - jj,
            {
                let ghost pred = quad_pred(qd, ii as int, jj as int);
                let mut picked: Vec<Robot> = Vec::new();
                let mut k: usize = 0;
                proof {
                    reveal(Seq::filter);
                    assert(self.robots@.take(0).filter(pred) =~= Seq::<Robot>::empty());
                }
                while k < self.robots.len()
                    invariant
                        k <= self.robots@.len(),
                        self.wf(),
                        ii < 2,
                        jj < 2,
                        qx == qd.x,
                        qy == qd.y,
                        0 <= qd.x <= 0x8000,
                        0 <= qd.y <= 0x8000,
                        pred == quad_pred(qd, ii as int, jj as int),
                        picked@ == self.robots@.take(k as int).filter(pred),
                    decreases self.robots@.len() - k,
                {
                    let rb = self.robots[k];
                    proof {
                        reveal(Seq::filter);
                        assert(self.robots@.take(k as int + 1).drop_last() =~= self.robots@.take(
                            k as int,
                        ));
                        assert(self.robots@.take(k as int + 1).last() == rb);
                    }
                    proof {
                        assert(0 <= (ii as int) * (qd.x as int) <= 0x8000 && 0 <= ((ii as int) + 1)
                            * (qd.x as int) <= 0x10000 && 0 <= (jj as int) * (qd.y as int) <= 0x8000
                            && 0 <= ((jj as int) + 1) * (qd.y as int) <= 0x10000)
                            by (nonlinear_arith)
                            requires
                                0 <= ii < 2,
                                0 <= jj < 2,
                                0 <= qd.x <= 0x8000,
                                0 <= qd.y <= 0x8000,
                        ;
                    }
                    let keep = rb.position.x >= (ii as i32) * qx + (ii as i32) && rb.position.x
                        < ((ii as i32) + 1) * qx + (ii as i32) && rb.position.y >= (jj as i32) * qy
                        + (jj as i32) && rb.position.y < ((jj as i32) + 1) * qy + (jj as i32);
                    proof {
                        assert(keep == pred(rb));
                    }
                    if keep {
                        picked.push(rb);
                        proof {
                            assert(picked@ =~= self.robots@.take(k as int + 1).filter(pred));
                        }
                    } else {
                        proof {
                            assert(picked@ =~= self.robots@.take(k as int + 1).filter(pred));
                        }
                    }
                    k = k + 1;
                }
                proof {
                    assert(self.robots@.take(self.robots@.len() as int) =~= self.robots@);
                }
                let ghost pre_out = out@;
                out.push(Area { dimensions: qd, robots: picked });
                proof {
                    assert forall|q: int| 0 <= q < out@.len() implies (
                    #[trigger] out@[q]).dimensions == qd by {
                        if q < pre_out.len() {
                            assert(out@[q] == pre_out[q]);
                        }
                    }
                    assert forall|q: int|
                        0 <= q < out@.len() implies (#[trigger] out@[q]).robots@
                        == self.robots@.filter(quad_pred(qd, q / 2, q % 2)) by {
                        if q < pre_out.len() {
                            assert(out@[q] == pre_out[q]);
                        } else {
                            assert(q == 2 * ii + jj);
                            assert(q / 2 == ii && q % 2 == jj) by (nonlinear_arith)
                                requires
                                    q == 2 * ii + jj,
                                    0 <= ii < 2,
                                    0 <= jj < 2,
                            ;
                        }
                    }
                }
                jj = jj + 1;
            }
            ii = ii + 1;
        }
        out
    }

    /// How many robots the area holds.
    pub fn robot_count(&self) -> (r: usize)
        ensures
            r == self.robots@.len(),
    {
        self.robots.len()
    }

    /// Some robot standing at `position`, if any.
    pub fn robot_at(&self, position: Vec2i) -> (r: Option<&Robot>)
        ensures
            match r {
                Some(rb) => robot_at_pos(self.robots@, position) && rb.position == position,
                None => !robot_at_pos(self.robots@, position),
            },
    {
        let mut i: usize = 0;
        while i < self.robots.len()
            invariant
                i <= self.robots@.len(),
                forall|k: int| 0 <= k < i ==> (#[trigger] self.robots@[k]).position != position,
            decreases self.robots@.len() - i,
        {
            if self.robots[i].position.x == position.x && self.robots[i].position.y == position.y {
                proof {
                    assert(self.robots@[i as int].position == position);
                }
                return Some(&self.robots[i]);
            }
            i = i + 1;
        }
        proof {
            if robot_at_pos(self.robots@, position) {
                let w = choose|k: int|
                    0 <= k < self.robots@.len() && (#[trigger] self.robots@[k]).position
                        == position;
                assert(self.robots@[w].position != position);
            }
        }
        None
    }

    /// The robot in the middle of the top row, when it is the row's only
    /// robot.
    pub fn _top_centered_robot(&self) -> (r: Option<Robot>)
        requires
            self.wf(),
        ensures
            r is Some ==> robot_at_pos(
                self.robots@,
                Vec2i { x: (self.dimensions.x / 2) as i32, y: 0 },
            ),
    {
        let centre = Vec2i { x: self.dimensions.x / 2, y: 0 };
        match self.robot_at(centre) {
            Some(found) => {
                let robot = *found;
                // count the robots on the top row
                let mut count: usize = 0;
                let mut x: i32 = 0;
                while x < self.dimensions.x
                    invariant
                        self.wf(),
                        0 <= x <= self.dimensions.x,
                        count <= 0x10000,
                    decreases self.dimensions.x - x,
                {
                    if count < 0x10000 {
                        match self.robot_at(Vec2i { x, y: 0 }) {
                            Some(_) => {
                                count = count + 1;
                            },
                            None => {},
                        }
                    }
                    x = x + 1;
                }
                if count == 1 {
                    Some(robot)
                } else {
                    None
                }
            },
            None => None,
        }
    }

    /// The top robot of a filled triangle, if one stands in the area.
    pub fn peak_robot(&self) -> (r: Option<Robot>)
        requires
            self.wf(),
        ensures
            r is Some ==> has_peak(self.robots@),
            r is None ==> !has_peak(self.robots@),
    {
        let mut i: usize = 0;
        while i < self.robots.len()
            invariant
                i <= self.robots@.len(),
                self.wf(),
                forall|k: int| 0 <= k < i ==> !peak_at(self.robots@, k),
            decreases self.robots@.len() - i,
        {
            let p = self.robots[i].position;
            proof {
                assert(0 <= p.x <= 0x8000 && 0 <= p.y <= 0x8000);
            }
            let ok = self.robot_at(Vec2i { x: p.x - 1, y: p.y + 1 }).is_some() && self.robot_at(
                Vec2i { x: p.x + 1, y: p.y + 1 },
            ).is_some() && self.robot_at(Vec2i { x: p.x - 2, y: p.y + 2 }).is_some()
                && self.robot_at(Vec2i { x: p.x + 2, y: p.y + 2 }).is_some() && self.robot_at(
                Vec2i { x: p.x, y: p.y + 1 },
            ).is_some() && self.robot_at(Vec2i { x: p.x - 1, y: p.y + 2 }).is_some()
                && self.robot_at(Vec2i { x: p.x, y: p.y + 2 }).is_some() && self.robot_at(
                Vec2i { x: p.x + 1, y: p.y + 2 },
            ).is_some();
            proof {
                assert(ok == peak_at(self.robots@, i as int));
            }
            if ok {
                proof {
                    assert(has_peak(self.robots@));
                }
                return Some(self.robots[i]);
            }
            i = i + 1;
        }
        proof {
            if has_peak(self.robots@) {
                let w = choose|k: int| #[trigger] peak_at(self.robots@, k);
                assert(!peak_at(self.robots@, w));
            }
        }
        None
    }
}

/// The problem: an area of robots.
#[derive(Debug)]
pub struct Problem {
    pub area: Area,
}

impl Problem {
    /// Parse the robots into an area of the given size.
    pub fn from_string(width: u32, height: u32, string: &str) -> (r: Problem)
        requires
            forall|p: Seq<char>|
                text::split_if(string@, text::non_number_pred()).contains(p)
                    && text::is_int_literal(p) ==> -0x7fff_ffff <= #[trigger] text::int_val(p)
                    <= 0x7fff_ffff,
            1 <= width <= 0x10000,
            1 <= height <= 0x10000,
        ensures
            r.area.dimensions.x == width && r.area.dimensions.y == height,
            r.area.robots@.len() == text::numbers_of(string@).len() / 4,
    {
        Problem { area: Area::from_string(width, height, string) }
    }

    /// Safety factor: the product of the four quadrant head-counts after
    /// one hundred seconds.
    pub fn part_1(&self) -> (r: usize)
        requires
            self.area.wf(),
            ({
                let moved = self.area.robots@.map_values(
                    |rb: Robot| spec_elapse_robot(rb, 100, self.area.dimensions),
                );
                let qd = Vec2i {
                    x: (self.area.dimensions.x / 2) as i32,
                    y: (self.area.dimensions.y / 2) as i32,
                };
                moved.filter(quad_pred(qd, 0, 0)).len() * moved.filter(quad_pred(qd, 0, 1)).len()
                    * moved.filter(quad_pred(qd, 1, 0)).len() * moved.filter(
                    quad_pred(qd, 1, 1),
                ).len() <= usize::MAX
            }),
        ensures
            ({
                let moved = self.area.robots@.map_values(
                    |rb: Robot| spec_elapse_robot(rb, 100, self.area.dimensions),
                );
                let qd = Vec2i {
                    x: (self.area.dimensions.x / 2) as i32,
                    y: (self.area.dimensions.y / 2) as i32,
                };
                r == moved.filter(quad_pred(qd, 0, 0)).len() * moved.filter(
                    quad_pred(qd, 0, 1),
                ).len() * moved.filter(quad_pred(qd, 1, 0)).len() * moved.filter(
                    quad_pred(qd, 1, 1),
                ).len()
            }),
    {
        let moved = self.area.elapse_time(100);
        proof {
            assert(moved.robots@ =~= self.area.robots@.map_values(
                |rb: Robot| spec_elapse_robot(rb, 100, self.area.dimensions),
            ));
        }
        let quads = moved.quadrants();
        let c0 = quads[0].robot_count();
        let c1 = quads[1].robot_count();
        let c2 = quads[2].robot_count();
        let c3 = quads[3].robot_count();
        proof {
            let ms = moved.robots@;
            broadcast use vstd::seq_lib::group_seq_properties;

            assert(c0 <= 0x1000_0000 && c1 <= 0x1000_0000 && c2 <= 0x1000_0000 && c3
                <= 0x1000_0000) by {
                let qd = Vec2i {
                    x: (self.area.dimensions.x / 2) as i32,
                    y: (self.area.dimensions.y / 2) as i32,
                };
                ms.lemma_filter_len(quad_pred(qd, 0, 0));
                ms.lemma_filter_len(quad_pred(qd, 0, 1));
                ms.lemma_filter_len(quad_pred(qd, 1, 0));
                ms.lemma_filter_len(quad_pred(qd, 1, 1));
            }
            assert(c0 * c1 <= 0x1000_0000 * 0x1000_0000) by (nonlinear_arith)
                requires
                    0 <= c0 <= 0x1000_0000,
                    0 <= c1 <= 0x1000_0000,
            ;
            assert(c0 * c1 * c2 <= 0x1000_0000 * 0x1000_0000 * 0x1000_0000) by (nonlinear_arith)
                requires
                    0 <= c0 * c1 <= 0x1000_0000 * 0x1000_0000,
                    0 <= c2 <= 0x1000_0000,
            ;
            assert(c0 * c1 * c2 * c3 <= 0x1000_0000 * 0x1000_0000 * 0x1000_0000 * 0x1000_0000)
                by (nonlinear_arith)
                requires
                    0 <= c0 * c1 * c2 <= 0x1000_0000 * 0x1000_0000 * 0x1000_0000,
                    0 <= c3 <= 0x1000_0000,
            ;
        }
        let prod: u128 = (c0 as u128) * (c1 as u128) * (c2 as u128) * (c3 as u128);
        proof {
            assert(prod == c0 * c1 * c2 * c3);
            assert(prod <= usize::MAX);
        }
        prod as usize
    }

    /// Seconds until the robots draw the tree picture: the first step at
    /// which a filled triangle top appears, searched up to the first
    /// robot's repeat interval.
    pub fn part_2(&self) -> (r: u32)
        requires
            self.area.wf(),
            self.area.robots@.len() > 0,
        ensures
            r >= 1,
            exists|limit: int|
                #![trigger first_peak_step(self.area.robots@, self.area.dimensions, 1, limit)]
                1 <= limit && (limit == area_width_limit(self.area.dimensions) || exists|j: int|
                    0 <= j < limit && pos_after(self.area.robots@[0], j, self.area.dimensions)
                        == pos_after(self.area.robots@[0], limit, self.area.dimensions)) && r
                    == first_peak_step(self.area.robots@, self.area.dimensions, 1, limit),
    {
        let ghost rs = self.area.robots@;
        let ghost d = self.area.dimensions;
        let interval = self.area.robots[0].repeat_interval(self.area.dimensions);
        let ghost limit = interval as int;
        let mut n: u32 = 1;
        proof {
            assert(limit == area_width_limit(d) || exists|j: int|
                0 <= j < limit && pos_after(rs[0], j, d) == pos_after(rs[0], limit, d));
        }
        while n < interval
            invariant
                1 <= n <= limit,
                limit == interval as int,
                rs == self.area.robots@,
                rs.len() > 0,
                d == self.area.dimensions,
                self.area.wf(),
                limit == area_width_limit(d) || exists|j: int|
                    0 <= j < limit && pos_after(rs[0], j, d) == pos_after(rs[0], limit, d),
                first_peak_step(rs, d, 1, limit) == first_peak_step(rs, d, n as int, limit),
            decreases interval - n,
        {
            let area = self.area.elapse_time(n);
            proof {
                assert(area.robots@ =~= robots_after(rs, n as int, d));
            }
            if area.peak_robot().is_some() {
                proof {
                    assert(has_peak(robots_after(rs, n as int, d)));
                    assert(first_peak_step(rs, d, n as int, limit) == n);
                    assert(n as int == first_peak_step(rs, d, 1, limit));
                }
                return n;
            }
            proof {
                assert(!has_peak(robots_after(rs, n as int, d)));
                assert(first_peak_step(rs, d, n as int, limit) == first_peak_step(
                    rs,
                    d,
                    n as int + 1,
                    limit,
                ));
            }
            n = n + 1;
        }
        proof {
            assert(first_peak_step(rs, d, n as int, limit) == limit);
            assert(interval as int == first_peak_step(rs, d, 1, limit));
        }
        interval
    }
}

/// Every robot advanced by `n` steps.
pub open spec fn robots_after(rs: Seq<Robot>, n: int, d: Vec2i) -> Seq<Robot> {
    rs.map_values(|r: Robot| spec_elapse_robot(r, n, d))
}

/// The first step in `[n, limit)` at which the triangle top appears, or
/// `limit` when none does.
pub open spec fn first_peak_step(rs: Seq<Robot>, d: Vec2i, n: int, limit: int) -> int
    decreases limit - n,
{
    if n >= limit {
        limit
    } else if has_peak(robots_after(rs, n, d)) {
        n
    } else {
        first_peak_step(rs, d, n + 1, limit)
    }
}

} // verus!

