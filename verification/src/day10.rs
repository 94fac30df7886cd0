//! Hiking trails: from every trailhead (height 0), walk only uphill by
//! exactly one; score reachable peaks (height 9) and count distinct trails.
use vstd::prelude::*;
use crate::text;

verus! {

/// A grid coordinate, column then row.
pub type Position = (u32, u32);

/// The uphill step relation discovered from a trailhead: each position
/// maps to the neighbours one higher.  Entries may repeat; repeated
/// entries carry the same neighbour list.
pub struct Directions {
    pub steps: Vec<(Position, Vec<Position>)>,
}

/// The first neighbour list recorded for `from`, if any.
pub open spec fn lookup(steps: Seq<(Position, Seq<Position>)>, from: Position) -> Option<
    Seq<Position>,
>
    decreases steps.len(),
{
    if steps.len() == 0 {
        None
    } else if steps[0].0 == from {
        Some(steps[0].1)
    } else {
        lookup(steps.drop_first(), from)
    }
}

/// The step views of the recorded entries.
pub open spec fn step_views(steps: Seq<(Position, Vec<Position>)>) -> Seq<(Position, Seq<
    Position,
>)> {
    steps.map_values(|e: (Position, Vec<Position>)| (e.0, e.1@))
}

/// Paths from `from` to `to` along the steps, exploring at most `fuel`
/// steps deep: one for an edge ending at `to`, otherwise the sum over the
/// successors.
pub open spec fn spec_count_paths(
    steps: Seq<(Position, Seq<Position>)>,
    from: Position,
    to: Position,
    fuel: int,
) -> int
    decreases fuel, 0int,
{
    if fuel <= 0 {
        0
    } else {
        match lookup(steps, from) {
            Option::None => 0,
            Option::Some(nexts) => if nexts.contains(to) {
                1
            } else {
                spec_count_sum(steps, nexts, to, fuel - 1)
            },
        }
    }
}

/// Sum of path counts over a list of starting positions.
pub open spec fn spec_count_sum(
    steps: Seq<(Position, Seq<Position>)>,
    froms: Seq<Position>,
    to: Position,
    fuel: int,
) -> int
    decreases fuel, 1int, froms.len(),
{
    if froms.len() == 0 || fuel < 0 {
        0
    } else {
        spec_count_sum(steps, froms.drop_last(), to, fuel) + spec_count_paths(
            steps,
            froms.last(),
            to,
            fuel,
        )
    }
}

/// Some recorded step leads to `goal`.
pub open spec fn spec_leads_to(steps: Seq<(Position, Seq<Position>)>, goal: Position) -> bool {
    exists|i: int| 0 <= i < steps.len() && (#[trigger] steps[i]).1.contains(goal)
}

impl Directions {
    /// Paths from `from` to `to`, searched to the longest possible chain
    /// of heights.  The precondition bounds every count the recursion can
    /// meet; a caller that cannot establish it uses the saturating search
    /// below, which needs none.
    pub fn count_paths(&self, from: Position, to: Position) -> (r: u64)
        requires
            spec_count_paths(step_views(self.steps@), from, to, 130) <= u64::MAX,
            counts_fit(step_views(self.steps@), 130),
        ensures
            r == spec_count_paths(step_views(self.steps@), from, to, 130),
    {
        count_paths_fueled(&self.steps, from, to, 130)
    }

    /// Whether any recorded step ends at `goal`.
    pub fn leads_to(&self, goal: Position) -> (r: bool)
        ensures
            r == spec_leads_to(step_views(self.steps@), goal),
    {
        let ghost sv = step_views(self.steps@);
        let mut i: usize = 0;
        while i < self.steps.len()
            invariant
                i <= self.steps@.len(),
                sv == step_views(self.steps@),
                forall|k: int| 0 <= k < i ==> !(#[trigger] sv[k]).1.contains(goal),
            decreases self.steps@.len() - i,
        {
            let entry = &self.steps[i];
            proof {
                assert(sv[i as int] == (entry.0, entry.1@));
            }
            let mut j: usize = 0;
            while j < entry.1.len()
                invariant
                    j <= entry.1@.len(),
                    sv == step_views(self.steps@),
                    0 <= i < sv.len(),
                    sv[i as int] == (entry.0, entry.1@),
                    forall|q: int| 0 <= q < j ==> entry.1@[q] != goal,
                decreases entry.1@.len() - j,
            {
                let p = entry.1[j];
                if p.0 == goal.0 && p.1 == goal.1 {
                    proof {
                        assert(entry.1@[j as int] == goal);
                        assert(sv[i as int].1.contains(goal));
                    }
                    return true;
                }
                j = j + 1;
            }
            proof {
                assert(!sv[i as int].1.contains(goal)) by {
                    if sv[i as int].1.contains(goal) {
                        let q = choose|q: int|
                            0 <= q < sv[i as int].1.len() && sv[i as int].1[q] == goal;
                        assert(entry.1@[q] != goal);
                    }
                }
            }
            i = i + 1;
        }
        proof {
            if spec_leads_to(sv, goal) {
                let w = choose|k: int| 0 <= k < sv.len() && (#[trigger] sv[k]).1.contains(goal);
                assert(!sv[w].1.contains(goal));
            }
        }
        false
    }
}

/// Every path count within `fuel` stays inside `u64`.
pub open spec fn counts_fit(steps: Seq<(Position, Seq<Position>)>, fuel: int) -> bool {
    forall|from: Position, to: Position, f: int|
        0 <= f <= fuel ==> 0 <= #[trigger] spec_count_paths(steps, from, to, f) <= u64::MAX
}

/// Path counts are sums of non-negative terms.
proof fn lemma_count_nonneg(
    steps: Seq<(Position, Seq<Position>)>,
    from: Position,
    to: Position,
    fuel: int,
)
    ensures
        spec_count_paths(steps, from, to, fuel) >= 0,
    decreases fuel, 0int, 0int,
{
    if fuel > 0 {
        match lookup(steps, from) {
            Option::None => {},
            Option::Some(nexts) => {
                if !nexts.contains(to) {
                    lemma_count_sum_nonneg(steps, nexts, to, fuel - 1);
                }
            },
        }
    }
}

proof fn lemma_count_sum_nonneg(
    steps: Seq<(Position, Seq<Position>)>,
    froms: Seq<Position>,
    to: Position,
    fuel: int,
)
    ensures
        spec_count_sum(steps, froms, to, fuel) >= 0,
    decreases fuel, 1int, froms.len(),
{
    if froms.len() > 0 && fuel >= 0 {
        lemma_count_sum_nonneg(steps, froms.drop_last(), to, fuel);
        lemma_count_nonneg(steps, froms.last(), to, fuel);
    }
}

/// Find the first recorded neighbour list for `from`.
fn lookup_exec(steps: &Vec<(Position, Vec<Position>)>, from: Position) -> (r: Option<&Vec<
    Position,
>>)
    ensures
        match r {
            Some(v) => lookup(step_views(steps@), from) == Some(v@),
            None => lookup(step_views(steps@), from) is None,
        },
{
    let ghost sv = step_views(steps@);
    let mut i: usize = 0;
    proof {
        assert(sv.skip(0) =~= sv);
    }
    while i < steps.len()
        invariant
            i <= steps@.len(),
            sv == step_views(steps@),
            lookup(sv, from) == lookup(sv.skip(i as int), from),
        decreases steps@.len() - i,
    {
        let entry = &steps[i];
        proof {
            assert(sv[i as int] == (entry.0, entry.1@));
            assert(sv.skip(i as int)[0] == sv[i as int]);
            assert(sv.skip(i as int).drop_first() =~= sv.skip(i as int + 1));
        }
        if entry.0.0 == from.0 && entry.0.1 == from.1 {
            proof {
                assert(sv.skip(i as int)[0].0 == from);
                assert(lookup(sv.skip(i as int), from) == Some(sv[i as int].1));
            }
            return Some(&entry.1);
        }
        proof {
            assert(sv.skip(i as int)[0].0 != from);
        }
        i = i + 1;
    }
    proof {
        assert(sv.skip(sv.len() as int).len() == 0);
    }
    None
}

/// Paths from `from` to `to` along the steps, at most `fuel` levels deep.
fn count_paths_fueled(
    steps: &Vec<(Position, Vec<Position>)>,
    from: Position,
    to: Position,
    fuel: u32,
) -> (r: u64)
    requires
        counts_fit(step_views(steps@), fuel as int),
    ensures
        r == spec_count_paths(step_views(steps@), from, to, fuel as int),
    decreases fuel, 1int,
{
    let ghost sv = step_views(steps@);
    if fuel == 0 {
        return 0;
    }
    match lookup_exec(steps, from) {
        None => 0,
        Some(nexts) => {
            // a direct edge to the goal is one path
            let mut j: usize = 0;
            while j < nexts.len()
                invariant
                    j <= nexts@.len(),
                    sv == step_views(steps@),
                    fuel >= 1,
                    lookup(sv, from) == Some(nexts@),
                    forall|q: int| 0 <= q < j ==> nexts@[q] != to,
                decreases nexts@.len() - j,
            {
                let p = nexts[j];
                if p.0 == to.0 && p.1 == to.1 {
                    proof {
                        assert(nexts@[j as int] == to);
                        assert(nexts@.contains(to));
                    }
                    return 1;
                }
                j = j + 1;
            }
            proof {
                assert(!nexts@.contains(to)) by {
                    if nexts@.contains(to) {
                        let q = choose|q: int| 0 <= q < nexts@.len() && nexts@[q] == to;
                        assert(nexts@[q] != to);
                    }
                }
            }
            // otherwise sum over the successors
            let mut total: u64 = 0;
            let mut k: usize = 0;
            proof {
                assert(nexts@.take(0).len() == 0);
            }
            while k < nexts.len()
                invariant
                    k <= nexts@.len(),
                    sv == step_views(steps@),
                    counts_fit(sv, fuel as int),
                    fuel >= 1,
                    !nexts@.contains(to),
                    lookup(sv, from) == Some(nexts@),
                    total == spec_count_sum(sv, nexts@.take(k as int), to, fuel - 1),
                decreases nexts@.len() - k,
            {
                proof {
                    assert(nexts@.take(k as int + 1).drop_last() =~= nexts@.take(k as int));
                    assert(nexts@.take(k as int + 1).last() == nexts@[k as int]);
                    lemma_count_sum_nonneg(sv, nexts@.take(k as int), to, fuel - 1);
                    lemma_count_nonneg(sv, nexts@[k as int], to, fuel - 1);
                    lemma_count_sum_prefix(sv, nexts@, to, fuel as int - 1, k as int + 1);
                    assert(spec_count_paths(sv, from, to, fuel as int) == spec_count_sum(
                        sv,
                        nexts@,
                        to,
                        fuel as int - 1,
                    ));
                    assert(spec_count_paths(sv, from, to, fuel as int) <= u64::MAX);
                }
                let c = count_paths_fueled(steps, nexts[k], to, fuel - 1);
                total = total + c;
                k = k + 1;
            }
            proof {
                assert(nexts@.take(nexts@.len() as int) =~= nexts@);
            }
            total
        },
    }
}

/// Partial successor sums stay below the full successor sum.
proof fn lemma_count_sum_prefix(
    steps: Seq<(Position, Seq<Position>)>,
    froms: Seq<Position>,
    to: Position,
    fuel: int,
    i: int,
)
    requires
        0 <= i <= froms.len(),
    ensures
        spec_count_sum(steps, froms.take(i), to, fuel) <= spec_count_sum(steps, froms, to, fuel),
    decreases froms.len() - i,
{
    if i == froms.len() {
        assert(froms.take(i) =~= froms);
    } else {
        lemma_count_sum_prefix(steps, froms, to, fuel, i + 1);
        assert(froms.take(i + 1).drop_last() =~= froms.take(i));
        assert(froms.take(i + 1).last() == froms[i]);
        if fuel >= 0 {
            lemma_count_nonneg(steps, froms[i], to, fuel);
        } else {
            assert(spec_count_sum(steps, froms.take(i + 1), to, fuel) == 0);
            assert(spec_count_sum(steps, froms.take(i), to, fuel) == 0);
        }
    }
}


/// The height grid.
#[derive(Debug)]
pub struct TrailMap {
    pub width: u32,
    pub height: u32,
    pub heights: Vec<u8>,
}

/// The height of a grid character: its digit value, or 127 for any other
/// symbol.
pub open spec fn height_of_char(c: char) -> int {
    if text::is_digit_char(c) {
        text::digit_of(c)
    } else {
        127
    }
}

impl TrailMap {
    /// Bounds under which coordinate arithmetic is exact.
    pub open spec fn wf(&self) -> bool {
        0 < self.width <= 0x10000 && 0 < self.height <= 0x10000 && self.heights@.len()
            <= 0x1000_0000
    }

    /// Parse the grid of height digits.
    pub fn from_string(string: &str) -> (r: TrailMap)
        requires
            string@.len() <= 0x1000_0000,
        ensures
            r.width == text::find_char(string@, '\n'),
            r.height == text::lines_of(string@).len(),
            r.heights@.len() == text::grid_cells(string@).len(),
            forall|i: int|
                0 <= i < r.heights@.len() ==> #[trigger] r.heights@[i] as int == height_of_char(
                    text::grid_cells(string@)[i],
                ),
    {
        let chars = text::chars_of(string);
        let width = text::find_char_in(&chars, '\n');
        let lines = text::split_lines(&chars);
        let cells = text::drop_newlines(&chars);
        let ghost gc = text::grid_cells(string@);
        let mut heights: Vec<u8> = Vec::new();
        let mut i: usize = 0;
        while i < cells.len()
            invariant
                i <= cells@.len(),
                cells@ == gc,
                heights@.len() == i,
                forall|k: int|
                    0 <= k < i ==> #[trigger] heights@[k] as int == height_of_char(gc[k]),
            decreases cells@.len() - i,
        {
            let c = cells[i];
            if '0' <= c && c <= '9' {
                heights.push((c as u32 - '0' as u32) as u8);
            } else {
                heights.push(127);
            }
            i = i + 1;
        }
        proof {
            text::lemma_find_if(chars@, text::eq_char('\n'));
            text::lemma_split_if_count(chars@, text::eq_char('\n'));
            assert(text::views_of(lines@).len() == lines@.len());
        }
        TrailMap { width: width as u32, height: lines.len() as u32, heights }
    }

    /// Positions whose cell holds exactly the given height, in scan order.
    pub fn positions_of_height(&self, of_height: u8) -> (r: Vec<Position>)
        requires
            self.wf(),
        ensures
            forall|k: int|
                0 <= k < r@.len() ==> 0 <= (#[trigger] r@[k]).0 < self.width && r@[k].1
                    <= 0x1000_0000 && r@[k].1 as int * self.width + r@[k].0 < self.heights@.len()
                    && self.heights@[r@[k].1 as int * self.width + r@[k].0] == of_height,
            r@.len() <= self.heights@.len(),
    {
        let mut r: Vec<Position> = Vec::new();
        let mut i: usize = 0;
        while i < self.heights.len()
            invariant
                i <= self.heights@.len(),
                self.wf(),
                r@.len() <= i,
                forall|k: int|
                    0 <= k < r@.len() ==> 0 <= (#[trigger] r@[k]).0 < self.width && r@[k].1
                        <= 0x1000_0000 && r@[k].1 as int * self.width + r@[k].0
                        < self.heights@.len() && self.heights@[r@[k].1 as int * self.width
                        + r@[k].0] == of_height,
            decreases self.heights@.len() - i,
        {
            if self.heights[i] == of_height {
                let x = (i as u32) % self.width;
                let y = (i as u32) / self.width;
                proof {
                    assert(0 <= (i as int) % (self.width as int) < self.width && (i as int) / (
                    self.width as int) * self.width + (i as int) % (self.width as int) == i as int
                        && 0 <= (i as int) / (self.width as int) <= i as int) by (nonlinear_arith)
                        requires
                            1 <= self.width,
                            0 <= i as int,
                    ;
                    assert(i as u32 as int == i as int);
                }
                let ghost pre = r@;
                r.push((x, y));
                proof {
                    assert forall|k: int|
                        0 <= k < r@.len() implies 0 <= (#[trigger] r@[k]).0 < self.width && r@[k].1
                        <= 0x1000_0000 && r@[k].1 as int * self.width + r@[k].0
                        < self.heights@.len() && self.heights@[r@[k].1 as int * self.width
                        + r@[k].0] == of_height by {
                        if k < pre.len() {
                            assert(r@[k] == pre[k]);
                        } else {
                            assert(r@[k] == (x, y));
                        }
                    }
                }
            }
            i = i + 1;
        }
        r
    }

    /// The trail starting points: cells of height zero.
    pub fn trailheads(&self) -> (r: Vec<Position>)
        requires
            self.wf(),
        ensures
            r@.len() <= self.heights@.len(),
            forall|k: int|
                0 <= k < r@.len() ==> (#[trigger] r@[k]).0 <= 0x1000_0000 && r@[k].1
                    <= 0x1000_0000,
    {
        self.positions_of_height(0)
    }

    /// The peaks: cells of height nine.
    pub fn peaks(&self) -> (r: Vec<Position>)
        requires
            self.wf(),
        ensures
            r@.len() <= self.heights@.len(),
            forall|k: int|
                0 <= k < r@.len() ==> (#[trigger] r@[k]).0 <= 0x1000_0000 && r@[k].1
                    <= 0x1000_0000,
    {
        self.positions_of_height(9)
    }

    /// The in-bounds 4-directional neighbours, in the order left, right,
    /// up, down.
    pub fn neighbours_of(&self, pos: Position) -> (r: Vec<Position>)
        requires
            self.wf(),
            pos.0 <= 0x1000_0000,
            pos.1 <= 0x1000_0000,
        ensures
            r@ == spec_neighbours(pos, self.width as int, self.height as int),
    {
        let mut neighbours: Vec<Position> = Vec::new();
        if pos.0 > 0 {
            neighbours.push((pos.0 - 1, pos.1));
        }
        if pos.0 < self.width - 1 {
            neighbours.push((pos.0 + 1, pos.1));
        }
        if pos.1 > 0 {
            neighbours.push((pos.0, pos.1 - 1));
        }
        if pos.1 < self.height - 1 {
            neighbours.push((pos.0, pos.1 + 1));
        }
        proof {
            assert(neighbours@ =~= spec_neighbours(pos, self.width as int, self.height as int));
        }
        neighbours
    }

    /// Explore uphill steps from `from`: record, for every reached cell,
    /// the neighbours exactly one higher.  Each recorded cell carries
    /// exactly its uphill neighbours — every recorded edge is a real
    /// uphill step, and every uphill step from a recorded cell is
    /// recorded — and every recorded cell has at least one.  The search
    /// stops after a large step budget, which a height-increasing grid
    /// never exhausts.
    pub fn directions_from(&self, from: Position) -> (r: Directions)
        requires
            self.wf(),
            from.0 <= 0x1000_0000,
            from.1 <= 0x1000_0000,
        ensures
            forall|k: int|
                0 <= k < r.steps@.len() ==> (#[trigger] r.steps@[k]).0.0 <= 0x1000_0000
                    && r.steps@[k].0.1 <= 0x1000_0000,
            forall|k: int|
                0 <= k < r.steps@.len() ==> (#[trigger] r.steps@[k]).1@.len() > 0 && (forall|
                    q: int,
                |
                    0 <= q < r.steps@[k].1@.len() ==> uphill_step(
                        *self,
                        r.steps@[k].0,
                        #[trigger] r.steps@[k].1@[q],
                    )),
            forall|k: int, np: Position|
                0 <= k < r.steps@.len() && #[trigger] uphill_step(*self, r.steps@[k].0, np)
                    ==> r.steps@[k].1@.contains(np),
    {
        let mut steps: Vec<(Position, Vec<Position>)> = Vec::new();
        let mut frontier: Vec<Position> = vec![from];
        let mut budget: u64 = 0x100_0000;
        while frontier.len() > 0 && budget > 0
            invariant
                self.wf(),
                forall|k: int|
                    0 <= k < frontier@.len() ==> (#[trigger] frontier@[k]).0 <= 0x1000_0000
                        && frontier@[k].1 <= 0x1000_0000,
                forall|k: int|
                    0 <= k < steps@.len() ==> (#[trigger] steps@[k]).0.0 <= 0x1000_0000
                        && steps@[k].0.1 <= 0x1000_0000,
                forall|k: int|
                    0 <= k < steps@.len() ==> (#[trigger] steps@[k]).1@.len() > 0 && (forall|
                        q: int,
                    |
                        0 <= q < steps@[k].1@.len() ==> uphill_step(
                            *self,
                            steps@[k].0,
                            #[trigger] steps@[k].1@[q],
                        )),
                forall|k: int, np: Position|
                    0 <= k < steps@.len() && #[trigger] uphill_step(*self, steps@[k].0, np)
                        ==> steps@[k].1@.contains(np),
            decreases budget,
        {
            budget = budget - 1;
            let ghost pre_frontier = frontier@;
            let current = frontier.pop().unwrap();
            proof {
                assert(current == pre_frontier.last());
                assert(forall|k: int|
                    0 <= k < frontier@.len() ==> #[trigger] frontier@[k] == pre_frontier[k]);
            }
            proof {
                assert(0 <= (current.1 as int) * (self.width as int)
                    <= 0x1000_0000 * 0x10000) by (nonlinear_arith)
                    requires
                        0 <= current.1 <= 0x1000_0000,
                        0 < self.width <= 0x10000,
                ;
            }
            let idx64 = (current.0 as u64) + (current.1 as u64) * (self.width as u64);
            if idx64 < self.heights.len() as u64 {
                let h = self.heights[idx64 as usize];
                if h < 127 {
                    let neighbours = self.neighbours_of(current);
                    let mut ups: Vec<Position> = Vec::new();
                    let mut j: usize = 0;
                    while j < neighbours.len()
                        invariant
                            j <= neighbours@.len(),
                            self.wf(),
                            h < 127,
                            h == self.heights@[current.0 + current.1 * self.width],
                            0 <= current.0 + current.1 * self.width < self.heights@.len(),
                            current.0 <= 0x1000_0000 && current.1 <= 0x1000_0000,
                            neighbours@ == spec_neighbours(
                                current,
                                self.width as int,
                                self.height as int,
                            ),
                            forall|k: int|
                                0 <= k < neighbours@.len() ==> (#[trigger] neighbours@[k]).0
                                    <= 0x1000_0000 && neighbours@[k].1 <= 0x1000_0000,
                            forall|k: int|
                                0 <= k < ups@.len() ==> (#[trigger] ups@[k]).0 <= 0x1000_0000
                                    && ups@[k].1 <= 0x1000_0000 && uphill_step(
                                    *self,
                                    current,
                                    ups@[k],
                                ),
                            forall|q2: int|
                                0 <= q2 < j && uphill_step(
                                    *self,
                                    current,
                                    #[trigger] neighbours@[q2],
                                ) ==> ups@.contains(neighbours@[q2]),
                        decreases neighbours@.len() - j,
                    {
                        let np = neighbours[j];
                        proof {
                            assert(0 <= (np.1 as int) * (self.width as int)
                                <= 0x1000_0000 * 0x10000) by (nonlinear_arith)
                                requires
                                    0 <= np.1 <= 0x1000_0000,
                                    0 < self.width <= 0x10000,
                            ;
                        }
                        let nidx = (np.0 as u64) + (np.1 as u64) * (self.width as u64);
                        if nidx < self.heights.len() as u64 {
                            let nh = self.heights[nidx as usize];
                            if nh == h + 1 {
                                let ghost pu = ups@;
                                ups.push(np);
                                proof {
                                    assert(neighbours@.contains(np)) by {
                                        assert(neighbours@[j as int] == np);
                                    }
                                    assert(nidx as int == np.0 + np.1 * self.width);
                                    assert(uphill_step(*self, current, np));
                                    assert forall|k: int|
                                        0 <= k < ups@.len() implies (#[trigger] ups@[k]).0
                                        <= 0x1000_0000 && ups@[k].1 <= 0x1000_0000 && uphill_step(
                                        *self,
                                        current,
                                        ups@[k],
                                    ) by {
                                        if k < pu.len() {
                                            assert(ups@[k] == pu[k]);
                                        }
                                    }
                                    assert(ups@.contains(np)) by {
                                        assert(ups@[pu.len() as int] == np);
                                    }
                                    assert forall|q2: int|
                                        0 <= q2 < j + 1 && uphill_step(
                                            *self,
                                            current,
                                            #[trigger] neighbours@[q2],
                                        ) implies ups@.contains(neighbours@[q2]) by {
                                        if q2 < j && pu.contains(neighbours@[q2]) {
                                            let w = choose|w: int|
                                                0 <= w < pu.len() && pu[w] == neighbours@[q2];
                                            assert(ups@[w] == neighbours@[q2]);
                                        }
                                    }
                                }
                            } else {
                                proof {
                                    // a same-index neighbour one higher would have been kept
                                    if uphill_step(*self, current, np) {
                                        assert(nidx as int == np.0 + np.1 * self.width);
                                        assert(false);
                                    }
                                }
                            }
                        } else {
                            proof {
                                // an uphill neighbour's cell lies inside the grid
                                if uphill_step(*self, current, np) {
                                    assert(nidx as int == np.0 + np.1 * self.width);
                                    assert(false);
                                }
                            }
                        }
                        proof {
                            assert(neighbours@[j as int] == np);
                        }
                        j = j + 1;
                    }
                    // push the uphill neighbours onto the frontier
                    let mut q: usize = 0;
                    while q < ups.len()
                        invariant
                            q <= ups@.len(),
                            forall|k: int|
                                0 <= k < ups@.len() ==> (#[trigger] ups@[k]).0 <= 0x1000_0000
                                    && ups@[k].1 <= 0x1000_0000 && uphill_step(
                                    *self,
                                    current,
                                    ups@[k],
                                ),
                            forall|k: int|
                                0 <= k < frontier@.len() ==> (#[trigger] frontier@[k]).0 <= 0x1000_0000
                                    && frontier@[k].1 <= 0x1000_0000,
                        decreases ups@.len() - q,
                    {
                        let p = ups[q];
                        let ghost pf = frontier@;
                        frontier.push(p);
                        proof {
                            assert forall|k: int|
                                0 <= k < frontier@.len() implies (#[trigger] frontier@[k]).0
                                <= 0x1000_0000 && frontier@[k].1 <= 0x1000_0000 by {
                                if k < pf.len() {
                                    assert(frontier@[k] == pf[k]);
                                }
                            }
                        }
                        q = q + 1;
                    }
                    if ups.len() > 0 {
                        let ghost ps = steps@;
                        let ghost uv = ups@;
                        steps.push((current, ups));
                        proof {
                            assert forall|k: int|
                                0 <= k < steps@.len() implies (#[trigger] steps@[k]).0.0 <= 0x1000_0000
                                && steps@[k].0.1 <= 0x1000_0000 by {
                                if k < ps.len() {
                                    assert(steps@[k] == ps[k]);
                                }
                            }
                            assert forall|k: int|
                                0 <= k < steps@.len() implies (#[trigger] steps@[k]).1@.len() > 0
                                && (forall|q: int|
                                0 <= q < steps@[k].1@.len() ==> uphill_step(
                                    *self,
                                    steps@[k].0,
                                    #[trigger] steps@[k].1@[q],
                                )) by {
                                if k < ps.len() {
                                    assert(steps@[k] == ps[k]);
                                } else {
                                    assert(steps@[k] == (current, ups));
                                    assert(steps@[k].1@ == uv);
                                }
                            }
                            assert forall|k: int, np: Position|
                                0 <= k < steps@.len() && #[trigger] uphill_step(
                                    *self,
                                    steps@[k].0,
                                    np,
                                ) implies steps@[k].1@.contains(np) by {
                                if k < ps.len() {
                                    assert(steps@[k] == ps[k]);
                                } else {
                                    assert(steps@[k] == (current, ups));
                                    assert(steps@[k].1@ == uv);
                                    let nb = spec_neighbours(
                                        current,
                                        self.width as int,
                                        self.height as int,
                                    );
                                    assert(nb.contains(np));
                                    let q2 = choose|q2: int| 0 <= q2 < nb.len() && nb[q2] == np;
                                    assert(uv.contains(np));
                                }
                            }
                        }
                    }
                }
            }
        }
        Directions { steps }
    }
}

/// A single uphill step of the map: `q` is an in-bounds 4-neighbour of
/// `p` whose cell is exactly one higher.
pub open spec fn uphill_step(m: TrailMap, p: Position, q: Position) -> bool {
    let ip = p.0 + p.1 * m.width;
    let iq = q.0 + q.1 * m.width;
    &&& spec_neighbours(p, m.width as int, m.height as int).contains(q)
    &&& 0 <= ip < m.heights@.len()
    &&& 0 <= iq < m.heights@.len()
    &&& m.heights@[iq] == m.heights@[ip] + 1
}

/// The in-bounds 4-directional neighbours of a position.
pub open spec fn spec_neighbours(pos: Position, width: int, height: int) -> Seq<Position> {
    let left: Seq<Position> = if pos.0 > 0 {
        seq![((pos.0 - 1) as u32, pos.1)]
    } else {
        seq![]
    };
    let right: Seq<Position> = if pos.0 < width - 1 {
        seq![((pos.0 + 1) as u32, pos.1)]
    } else {
        seq![]
    };
    let up: Seq<Position> = if pos.1 > 0 {
        seq![(pos.0, (pos.1 - 1) as u32)]
    } else {
        seq![]
    };
    let down: Seq<Position> = if pos.1 < height - 1 {
        seq![(pos.0, (pos.1 + 1) as u32)]
    } else {
        seq![]
    };
    left + right + up + down
}

/// The problem: a height map.
#[derive(Debug)]
pub struct Problem {
    pub map: TrailMap,
}

impl Problem {
    /// Parse the height grid.
    pub fn from_string(string: &str) -> (r: Problem)
        requires
            string@.len() <= 0x1000_0000,
        ensures
            r.map.width == text::find_char(string@, '\n'),
            r.map.heights@.len() == text::grid_cells(string@).len(),
    {
        Problem { map: TrailMap::from_string(string) }
    }

    /// Total score: for each trailhead, how many peaks its trails reach.
    pub fn part_1(&self) -> (r: u64)
        requires
            self.map.wf(),
        ensures
            r <= self.map.heights@.len() * self.map.heights@.len(),
    {
        let peaks = self.map.peaks();
        let trailheads = self.map.trailheads();
        let np = peaks.len() as u64;
        let mut total: u64 = 0;
        let mut i: usize = 0;
        proof {
            assert(0 <= (self.map.heights@.len() as int) * (self.map.heights@.len() as int)
                && (trailheads@.len() as int) * (peaks@.len() as int) <= (
            self.map.heights@.len() as int) * (self.map.heights@.len() as int))
                by (nonlinear_arith)
                requires
                    0 <= trailheads@.len() <= self.map.heights@.len(),
                    0 <= peaks@.len() <= self.map.heights@.len(),
            ;
            assert(trailheads@.len() * np == (trailheads@.len() as int) * (peaks@.len() as int));
            assert(self.map.heights@.len() * self.map.heights@.len() <= 0x1000_0000 * 0x1000_0000)
                by (nonlinear_arith)
                requires
                    0 <= self.map.heights@.len() <= 0x1000_0000,
            ;
        }
        while i < trailheads.len()
            invariant
                i <= trailheads@.len(),
                self.map.wf(),
                np == peaks@.len(),
                total <= i * np,
                trailheads@.len() * np <= self.map.heights@.len() * self.map.heights@.len(),
                self.map.heights@.len() * self.map.heights@.len() <= 0x1000_0000 * 0x1000_0000,
                forall|k: int|
                    0 <= k < trailheads@.len() ==> (#[trigger] trailheads@[k]).0 <= 0x1000_0000
                        && trailheads@[k].1 <= 0x1000_0000,
            decreases trailheads@.len() - i,
        {
            let th = trailheads[i];
            let trails = self.map.directions_from(th);
            let mut here: u64 = 0;
            let mut j: usize = 0;
            while j < peaks.len()
                invariant
                    j <= peaks@.len(),
                    np == peaks@.len(),
                    here <= j,
                decreases peaks@.len() - j,
            {
                if trails.leads_to(peaks[j]) {
                    here = here + 1;
                }
                j = j + 1;
            }
            proof {
                assert(total + here <= (i + 1) * np) by (nonlinear_arith)
                    requires
                        total <= i * np,
                        here <= np,
                        0 <= i,
                        0 <= np,
                ;
                assert((i + 1) * np <= trailheads@.len() * np) by (nonlinear_arith)
                    requires
                        i + 1 <= trailheads@.len(),
                        0 <= np,
                ;
            }
            total = total + here;
            i = i + 1;
        }
        proof {
            assert(total <= trailheads@.len() * np) by (nonlinear_arith)
                requires
                    total <= i * np,
                    i <= trailheads@.len(),
                    0 <= np,
            ;
        }
        total
    }

    /// Total rating: for each trailhead, the number of distinct trails to
    /// each peak.
    pub fn part_2(&self) -> (r: u64)
        requires
            self.map.wf(),
    {
        let peaks = self.map.peaks();
        let trailheads = self.map.trailheads();
        let mut total: u64 = 0;
        let mut i: usize = 0;
        while i < trailheads.len()
            invariant
                i <= trailheads@.len(),
                self.map.wf(),
                forall|k: int|
                    0 <= k < trailheads@.len() ==> (#[trigger] trailheads@[k]).0 <= 0x1000_0000
                        && trailheads@[k].1 <= 0x1000_0000,
            decreases trailheads@.len() - i,
        {
            let th = trailheads[i];
            let trails = self.map.directions_from(th);
            let mut j: usize = 0;
            while j < peaks.len()
                invariant
                    j <= peaks@.len(),
                decreases peaks@.len() - j,
            {
                let c = count_paths_saturating(&trails.steps, th, peaks[j], 130);
                if total <= u64::MAX - c {
                    total = total + c;
                }
                j = j + 1;
            }
            i = i + 1;
        }
        total
    }
}

/// Adding a term unless the sum would leave `u64`.
pub open spec fn sat_add(a: int, b: int) -> int {
    if a + b <= u64::MAX {
        a + b
    } else {
        a
    }
}

/// As `spec_count_paths`, but clamping at the `u64` ceiling instead of
/// overflowing.
pub open spec fn spec_sat_paths(
    steps: Seq<(Position, Seq<Position>)>,
    from: Position,
    to: Position,
    fuel: int,
) -> int
    decreases fuel, 0int,
{
    if fuel <= 0 {
        0
    } else {
        match lookup(steps, from) {
            Option::None => 0,
            Option::Some(nexts) => if nexts.contains(to) {
                1
            } else {
                spec_sat_sum(steps, nexts, to, fuel - 1)
            },
        }
    }
}

/// Saturating left-to-right sum of path counts.
pub open spec fn spec_sat_sum(
    steps: Seq<(Position, Seq<Position>)>,
    froms: Seq<Position>,
    to: Position,
    fuel: int,
) -> int
    decreases fuel, 1int, froms.len(),
{
    if froms.len() == 0 || fuel < 0 {
        0
    } else {
        sat_add(
            spec_sat_sum(steps, froms.drop_last(), to, fuel),
            spec_sat_paths(steps, froms.last(), to, fuel),
        )
    }
}

/// Saturating counts stay between zero and the `u64` ceiling.
proof fn lemma_sat_paths_bounds(
    steps: Seq<(Position, Seq<Position>)>,
    from: Position,
    to: Position,
    fuel: int,
)
    ensures
        0 <= spec_sat_paths(steps, from, to, fuel) <= u64::MAX,
    decreases fuel, 0int, 0int,
{
    if fuel > 0 {
        match lookup(steps, from) {
            Option::None => {},
            Option::Some(nexts) => {
                if !nexts.contains(to) {
                    lemma_sat_sum_bounds(steps, nexts, to, fuel - 1);
                }
            },
        }
    }
}

proof fn lemma_sat_sum_bounds(
    steps: Seq<(Position, Seq<Position>)>,
    froms: Seq<Position>,
    to: Position,
    fuel: int,
)
    ensures
        0 <= spec_sat_sum(steps, froms, to, fuel) <= u64::MAX,
    decreases fuel, 1int, froms.len(),
{
    if froms.len() > 0 && fuel >= 0 {
        lemma_sat_sum_bounds(steps, froms.drop_last(), to, fuel);
        lemma_sat_paths_bounds(steps, froms.last(), to, fuel);
    }
}

/// As the fuelled count, clamping at the `u64` ceiling instead of
/// overflowing: the precondition-free variant the totals build on.
fn count_paths_saturating(
    steps: &Vec<(Position, Vec<Position>)>,
    from: Position,
    to: Position,
    fuel: u32,
) -> (r: u64)
    ensures
        r == spec_sat_paths(step_views(steps@), from, to, fuel as int),
    decreases fuel, 1int,
{
    let ghost sv = step_views(steps@);
    if fuel == 0 {
        return 0;
    }
    match lookup_exec(steps, from) {
        None => 0,
        Some(nexts) => {
            let mut j: usize = 0;
            while j < nexts.len()
                invariant
                    j <= nexts@.len(),
                    sv == step_views(steps@),
                    fuel >= 1,
                    lookup(sv, from) == Some(nexts@),
                    forall|q: int| 0 <= q < j ==> nexts@[q] != to,
                decreases nexts@.len() - j,
            {
                let p = nexts[j];
                if p.0 == to.0 && p.1 == to.1 {
                    proof {
                        assert(nexts@[j as int] == to);
                        assert(nexts@.contains(to));
                    }
                    return 1;
                }
                j = j + 1;
            }
            proof {
                assert(!nexts@.contains(to)) by {
                    if nexts@.contains(to) {
                        let q = choose|q: int| 0 <= q < nexts@.len() && nexts@[q] == to;
                        assert(nexts@[q] != to);
                    }
                }
            }
            let owned = copy_positions(nexts);
            let mut total: u64 = 0;
            let mut k: usize = 0;
            proof {
                assert(owned@.take(0).len() == 0);
            }
            while k < owned.len()
                invariant
                    k <= owned@.len(),
                    sv == step_views(steps@),
                    fuel >= 1,
                    owned@ == nexts@,
                    !nexts@.contains(to),
                    lookup(sv, from) == Some(nexts@),
                    total == spec_sat_sum(sv, owned@.take(k as int), to, fuel - 1),
                decreases owned@.len() - k,
            {
                proof {
                    assert(owned@.take(k as int + 1).drop_last() =~= owned@.take(k as int));
                    assert(owned@.take(k as int + 1).last() == owned@[k as int]);
                    lemma_sat_sum_bounds(sv, owned@.take(k as int), to, fuel - 1);
                    lemma_sat_paths_bounds(sv, owned@[k as int], to, fuel - 1);
                }
                let c = count_paths_saturating(steps, owned[k], to, fuel - 1);
                if total <= u64::MAX - c {
                    total = total + c;
                }
                k = k + 1;
            }
            proof {
                assert(owned@.take(owned@.len() as int) =~= owned@);
            }
            total
        },
    }
}

/// A copy of a position list./// A copy of a position list.
fn copy_positions(v: &Vec<Position>) -> (r: Vec<Position>)
    ensures
        r@ == v@,
{
    let mut r: Vec<Position> = Vec::new();
    let mut i: usize = 0;
    while i < v.len()
        invariant
            i <= v@.len(),
            r@ == v@.take(i as int),
        decreases v@.len() - i,
    {
        r.push(v[i]);
        proof {
            assert(r@ =~= v@.take(i as int + 1));
        }
        i = i + 1;
    }
    proof {
        assert(v@.take(v@.len() as int) =~= v@);
    }
    r
}

} // verus!
