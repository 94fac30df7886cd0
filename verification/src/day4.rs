//! Word search: count occurrences of a word in all eight directions of a
//! character grid, and crossed `MAS` pairs around a central `A`.
use vstd::prelude::*;
use crate::text;

verus! {

/// The grid: row width and all cells in row-major order.
pub struct Problem {
    pub width: usize,
    pub chars: Vec<char>,
}

/// The character at `(x, y)`, if the column is inside the width and the
/// flat index inside the cells.
pub open spec fn spec_char_at(cells: Seq<char>, width: int, x: int, y: int) -> Option<char> {
    if x >= width {
        None
    } else if 0 <= x && 0 <= y && x + y * width < cells.len() {
        Some(cells[x + y * width])
    } else {
        None
    }
}

/// Step `k` of the walk lands in bounds on the word's `k`-th character.
pub open spec fn step_ok(
    cells: Seq<char>,
    width: int,
    x: int,
    y: int,
    dx: int,
    dy: int,
    word: Seq<char>,
    k: int,
) -> bool {
    x + k * dx >= 0 && y + k * dy >= 0 && spec_char_at(cells, width, x + k * dx, y + k * dy)
        == Some(word[k])
}

/// The word's first `k` characters match walking from `(x, y)` in
/// direction `(dx, dy)`.
pub open spec fn prefix_match(
    cells: Seq<char>,
    width: int,
    x: int,
    y: int,
    dx: int,
    dy: int,
    word: Seq<char>,
    k: int,
) -> bool
    decreases k,
{
    if k <= 0 {
        true
    } else {
        prefix_match(cells, width, x, y, dx, dy, word, k - 1) && step_ok(
            cells,
            width,
            x,
            y,
            dx,
            dy,
            word,
            k - 1,
        )
    }
}

/// The whole word matches walking from `(x, y)` in direction `(dx, dy)`:
/// every step lands on a cell holding the word's next character.
pub open spec fn dir_match(
    cells: Seq<char>,
    width: int,
    x: int,
    y: int,
    dx: int,
    dy: int,
    word: Seq<char>,
) -> bool {
    prefix_match(cells, width, x, y, dx, dy, word, word.len() as int)
}

/// A matching prefix makes every earlier step good.
proof fn lemma_prefix_steps(
    cells: Seq<char>,
    width: int,
    x: int,
    y: int,
    dx: int,
    dy: int,
    word: Seq<char>,
    m: int,
    k: int,
)
    requires
        prefix_match(cells, width, x, y, dx, dy, word, m),
        0 <= k < m,
    ensures
        step_ok(cells, width, x, y, dx, dy, word, k),
    decreases m,
{
    if k < m - 1 {
        lemma_prefix_steps(cells, width, x, y, dx, dy, word, m - 1, k);
    }
}

/// The eight search directions.
pub open spec fn spec_dirs() -> Seq<(int, int)> {
    seq![(-1, -1), (0, -1), (1, -1), (-1, 0), (1, 0), (-1, 1), (0, 1), (1, 1)]
}

/// How many of the eight directions match the word from `(x, y)`.
pub open spec fn dir_count(cells: Seq<char>, width: int, x: int, y: int, word: Seq<char>, d: int)
    -> int
    decreases d,
{
    if d <= 0 {
        0
    } else {
        dir_count(cells, width, x, y, word, d - 1) + if dir_match(
            cells,
            width,
            x,
            y,
            spec_dirs()[d - 1].0,
            spec_dirs()[d - 1].1,
            word,
        ) {
            1int
        } else {
            0int
        }
    }
}

/// Matches of the word starting anywhere in the first `n` cells, in any of
/// the eight directions.
pub open spec fn spec_word_count(cells: Seq<char>, width: int, word: Seq<char>, n: int) -> int
    decreases n,
{
    if n <= 0 || width <= 0 {
        0
    } else {
        spec_word_count(cells, width, word, n - 1) + if cells[n - 1] == word[0] {
            dir_count(cells, width, (n - 1) % width, (n - 1) / width, word, 8)
        } else {
            0int
        }
    }
}

/// The diagonal neighbours of `(x, y)` spell one of the four crossed-`MAS`
/// patterns.
pub open spec fn x_mas_at(cells: Seq<char>, width: int, x: int, y: int) -> bool {
    let ul = spec_char_at(cells, width, x - 1, y - 1);
    let ur = spec_char_at(cells, width, x + 1, y - 1);
    let ll = spec_char_at(cells, width, x - 1, y + 1);
    let lr = spec_char_at(cells, width, x + 1, y + 1);
    ul is Some && ur is Some && ll is Some && lr is Some && ((ul == Some('M') && ur == Some('M')
        && ll == Some('S') && lr == Some('S')) || (ul == Some('S') && ur == Some('S') && ll == Some(
        'M',
    ) && lr == Some('M')) || (ul == Some('S') && ur == Some('M') && ll == Some('S') && lr == Some(
        'M',
    )) || (ul == Some('M') && ur == Some('S') && ll == Some('M') && lr == Some('S')))
}

/// Crossed-`MAS` centres among the first `n` cells: an `A` away from the
/// first row and column whose diagonal neighbours cross two `MAS`.
pub open spec fn spec_x_mas_count(cells: Seq<char>, width: int, n: int) -> int
    decreases n,
{
    if n <= 0 || width <= 0 {
        0
    } else {
        spec_x_mas_count(cells, width, n - 1) + if cells[n - 1] == 'A' && (n - 1) % width > 0 && (n
            - 1) / width > 0 && x_mas_at(cells, width, (n - 1) % width, (n - 1) / width) {
            1int
        } else {
            0int
        }
    }
}

impl Problem {
    /// Bounds under which index arithmetic stays exact.
    pub open spec fn wf(&self) -> bool {
        self.chars@.len() <= 0x1000_0000 && 0 < self.width <= 0x1000_0000
    }

    /// Parse a rectangular grid: the width is the row length, the cells
    /// are all symbols in row-major order.  A ragged text is a parse
    /// error, ruled out by the precondition.
    pub fn from_string(string: &str) -> (r: Problem)
        requires
            string@.len() <= 0x1000_0000,
            text::find_char(string@, '\n') < string@.len(),
            text::rect_grid(string@),
        ensures
            r.width == text::find_char(string@, '\n'),
            r.chars@ == text::grid_cells(string@),
            r.chars@.len() <= string@.len(),
    {
        let chars = text::chars_of(string);
        let width = text::find_char_in(&chars, '\n');
        let cells = text::drop_newlines(&chars);
        Problem { width, chars: cells }
    }

    /// The character at `(x, y)`, if any.
    pub fn char_at(&self, x: usize, y: usize) -> (r: Option<&char>)
        requires
            self.wf(),
            x <= 0x1000_0000,
            y <= 0x1000_0000,
        ensures
            match r {
                Some(c) => spec_char_at(self.chars@, self.width as int, x as int, y as int)
                    == Some(*c),
                None => spec_char_at(self.chars@, self.width as int, x as int, y as int) is None,
            },
    {
        if x >= self.width {
            return None;
        }
        proof {
            assert(0 <= (y as int) * (self.width as int) <= 0x1000_0000 * 0x1000_0000)
                by (nonlinear_arith)
                requires
                    0 <= y <= 0x1000_0000,
                    0 <= self.width <= 0x1000_0000,
            ;
        }
        let idx: u64 = (x as u64) + (y as u64) * (self.width as u64);
        if idx < self.chars.len() as u64 {
            Some(&self.chars[idx as usize])
        } else {
            None
        }
    }

    /// A character match at one walked position of the word.
    fn probe(&self, x: i64, y: i64, want: char) -> (r: bool)
        requires
            self.wf(),
            -0x2000_0000 <= x <= 0x2000_0000,
            -0x2000_0000 <= y <= 0x2000_0000,
        ensures
            r == (x >= 0 && y >= 0 && spec_char_at(self.chars@, self.width as int, x as int, y as int)
                == Some(want)),
    {
        if x < 0 || y < 0 {
            return false;
        }
        if x >= self.width as i64 {
            return false;
        }
        proof {
            assert(0 <= (y as int) * (self.width as int) <= 0x2000_0000 * 0x1000_0000)
                by (nonlinear_arith)
                requires
                    0 <= y <= 0x2000_0000,
                    0 <= self.width <= 0x1000_0000,
            ;
        }
        let idx = x + y * (self.width as i64);
        if idx < self.chars.len() as i64 {
            let c = self.chars[idx as usize];
            c == want
        } else {
            false
        }
    }

    /// The word matches walking from `(x, y)` in direction `(dx, dy)`.
    fn walk_match(&self, x: i64, y: i64, dx: i64, dy: i64, wchars: &Vec<char>) -> (r: bool)
        requires
            self.wf(),
            0 <= x <= 0x1000_0000,
            0 <= y <= 0x1000_0000,
            -1 <= dx <= 1,
            -1 <= dy <= 1,
            wchars@.len() <= 0x100,
        ensures
            r == dir_match(
                self.chars@,
                self.width as int,
                x as int,
                y as int,
                dx as int,
                dy as int,
                wchars@,
            ),
    {
        let ghost cells = self.chars@;
        let ghost w = self.width as int;
        let mut k: usize = 0;
        let mut ok: bool = true;
        while k < wchars.len() && ok
            invariant
                k <= wchars@.len(),
                self.wf(),
                cells == self.chars@,
                w == self.width as int,
                wchars@.len() <= 0x100,
                -1 <= dx <= 1,
                -1 <= dy <= 1,
                0 <= x <= 0x1000_0000,
                0 <= y <= 0x1000_0000,
                ok ==> prefix_match(cells, w, x as int, y as int, dx as int, dy as int, wchars@,
                k as int),
                !ok ==> !dir_match(cells, w, x as int, y as int, dx as int, dy as int, wchars@),
            decreases wchars@.len() - k, (if ok {
                1int
            } else {
                0int
            }),
        {
            proof {
                assert(-0x100 <= k * dx <= 0x100 && -0x100 <= k * dy <= 0x100)
                    by (nonlinear_arith)
                    requires
                        0 <= k <= 0x100,
                        -1 <= dx <= 1,
                        -1 <= dy <= 1,
                ;
            }
            let px = x + (k as i64) * dx;
            let py = y + (k as i64) * dy;
            let hit = self.probe(px, py, wchars[k]);
            proof {
                assert(px as int == x + k * dx && py as int == y + k * dy);
            }
            if !hit {
                ok = false;
                proof {
                    assert(!step_ok(cells, w, x as int, y as int, dx as int, dy as int, wchars@,
                    k as int));
                    if dir_match(cells, w, x as int, y as int, dx as int, dy as int, wchars@) {
                        lemma_prefix_steps(cells, w, x as int, y as int, dx as int, dy as int,
                        wchars@, wchars@.len() as int, k as int);
                    }
                }
            } else {
                proof {
                    assert(step_ok(cells, w, x as int, y as int, dx as int, dy as int, wchars@,
                    k as int));
                    assert(prefix_match(cells, w, x as int, y as int, dx as int, dy as int,
                    wchars@, k as int + 1));
                }
                k = k + 1;
            }
        }
                ok
    }

    /// How many of the eight directions match from `(x, y)`.
    fn count_dirs(&self, x: i64, y: i64, wchars: &Vec<char>) -> (r: usize)
        requires
            self.wf(),
            0 <= x <= 0x1000_0000,
            0 <= y <= 0x1000_0000,
            wchars@.len() <= 0x100,
        ensures
            r == dir_count(self.chars@, self.width as int, x as int, y as int, wchars@, 8),
            r <= 8,
    {
        let ghost cells = self.chars@;
        let ghost w = self.width as int;
        let dxs: [i64; 8] = [-1, 0, 1, -1, 1, -1, 0, 1];
        let dys: [i64; 8] = [-1, -1, -1, 0, 0, 1, 1, 1];
        proof {
            assert forall|dd: int|
                0 <= dd < 8 implies #[trigger] spec_dirs()[dd] == (dxs@[dd] as int,
            dys@[dd] as int) && -1 <= dxs@[dd] <= 1 && -1 <= dys@[dd] <= 1 by {
                assert(spec_dirs().len() == 8);
            }
        }
        let mut here: usize = 0;
        let mut d: usize = 0;
        while d < 8
            invariant
                d <= 8,
                self.wf(),
                cells == self.chars@,
                w == self.width as int,
                wchars@.len() <= 0x100,
                0 <= x <= 0x1000_0000,
                0 <= y <= 0x1000_0000,
                forall|dd: int|
                    0 <= dd < 8 ==> #[trigger] spec_dirs()[dd] == (dxs@[dd] as int,
                    dys@[dd] as int) && -1 <= dxs@[dd] <= 1 && -1 <= dys@[dd] <= 1,
                dxs@.len() == 8,
                dys@.len() == 8,
                here == dir_count(cells, w, x as int, y as int, wchars@, d as int),
                here <= d,
            decreases 8 - d,
        {
            let dx = dxs[d];
            let dy = dys[d];
            proof {
                assert(spec_dirs()[d as int] == (dx as int, dy as int));
            }
            let ok = self.walk_match(x, y, dx, dy, wchars);
            proof {
                assert(dir_count(cells, w, x as int, y as int, wchars@, d as int + 1)
                    == dir_count(cells, w, x as int, y as int, wchars@, d as int) + if ok {
                    1int
                } else {
                    0int
                });
            }
            if ok {
                here = here + 1;
            }
            d = d + 1;
        }
        here
    }

    /// How often the word occurs, in any of the eight directions.
    pub fn word_count(&self, word: String) -> (r: usize)
        requires
            self.wf(),
            word@.len() >= 1,
            word@.len() <= 0x100,
        ensures
            r == spec_word_count(self.chars@, self.width as int, word@, self.chars@.len() as int),
    {
        let wchars = text::chars_of(word.as_str());
        let ghost cells = self.chars@;
        let ghost w = self.width as int;
        let mut total: usize = 0;
        let mut i: usize = 0;
        while i < self.chars.len()
            invariant
                i <= cells.len(),
                self.wf(),
                cells == self.chars@,
                w == self.width as int,
                cells.len() <= 0x1000_0000,
                wchars@ == word@,
                word@.len() >= 1,
                word@.len() <= 0x100,
                total == spec_word_count(cells, w, word@, i as int),
                total <= 8 * i,
            decreases cells.len() - i,
        {
            let c = self.chars[i];
            if c == wchars[0] {
                let x = (i % self.width) as i64;
                let y = (i / self.width) as i64;
                proof {
                    assert(0 <= (i as int) % w < w && 0 <= (i as int) / w <= i as int
                        && (i as int) % w <= i as int) by (nonlinear_arith)
                        requires
                            1 <= w,
                            0 <= i as int,
                    ;
                }
                let here = self.count_dirs(x, y, &wchars);
                proof {
                    assert(spec_word_count(cells, w, word@, i as int + 1) == spec_word_count(
                        cells,
                        w,
                        word@,
                        i as int,
                    ) + dir_count(cells, w, (i as int) % w, (i as int) / w, word@, 8));
                }
                total = total + here;
            } else {
                proof {
                    assert(spec_word_count(cells, w, word@, i as int + 1) == spec_word_count(
                        cells,
                        w,
                        word@,
                        i as int,
                    ));
                }
            }
            i = i + 1;
        }
        total
    }

    /// Occurrences of the word `XMAS`.
    pub fn part_1(&self) -> (r: usize)
        requires
            self.wf(),
        ensures
            r == spec_word_count(
                self.chars@,
                self.width as int,
                seq!['X', 'M', 'A', 'S'],
                self.chars@.len() as int,
            ),
    {
        let word = make_word();
        self.word_count(word)
    }

    /// Centres of crossed `MAS` pairs.
    pub fn part_2(&self) -> (r: usize)
        requires
            self.wf(),
        ensures
            r == spec_x_mas_count(self.chars@, self.width as int, self.chars@.len() as int),
    {
        let ghost cells = self.chars@;
        let ghost w = self.width as int;
        let mut total: usize = 0;
        let mut i: usize = 0;
        while i < self.chars.len()
            invariant
                i <= cells.len(),
                self.wf(),
                cells == self.chars@,
                w == self.width as int,
                cells.len() <= 0x1000_0000,
                total == spec_x_mas_count(cells, w, i as int),
                total <= i,
            decreases cells.len() - i,
        {
            let c = self.chars[i];
            if c == 'A' {
                let x = (i % self.width) as i64;
                let y = (i / self.width) as i64;
                proof {
                    assert(0 <= (i as int) % w < w && 0 <= (i as int) / w <= i as int
                        && (i as int) % w <= i as int) by (nonlinear_arith)
                        requires
                            1 <= w,
                            0 <= i as int,
                    ;
                }
                if x > 0 && y > 0 {
                    let ul = self.probe(x - 1, y - 1, 'M');
                    let ul_s = self.probe(x - 1, y - 1, 'S');
                    let ur = self.probe(x + 1, y - 1, 'M');
                    let ur_s = self.probe(x + 1, y - 1, 'S');
                    let ll = self.probe(x - 1, y + 1, 'M');
                    let ll_s = self.probe(x - 1, y + 1, 'S');
                    let lr = self.probe(x + 1, y + 1, 'M');
                    let lr_s = self.probe(x + 1, y + 1, 'S');
                    let crossed = (ul && ur && ll_s && lr_s) || (ul_s && ur_s && ll && lr) || (ul_s
                        && ur && ll_s && lr) || (ul && ur_s && ll && lr_s);
                    proof {
                        let sul = spec_char_at(cells, w, x - 1, y - 1);
                        let sur = spec_char_at(cells, w, x + 1, y - 1);
                        let sll = spec_char_at(cells, w, x - 1, y + 1);
                        let slr = spec_char_at(cells, w, x + 1, y + 1);
                        assert(ul == (sul == Some('M')));
                        assert(ul_s == (sul == Some('S')));
                        assert(ur == (sur == Some('M')));
                        assert(ur_s == (sur == Some('S')));
                        assert(ll == (sll == Some('M')));
                        assert(ll_s == (sll == Some('S')));
                        assert(lr == (slr == Some('M')));
                        assert(lr_s == (slr == Some('S')));
                        assert(crossed == x_mas_at(cells, w, x as int, y as int));
                    }
                    if crossed {
                        total = total + 1;
                    }
                }
            }
            i = i + 1;
        }
        total
    }
}

/// The searched word.
fn make_word() -> (r: String)
    ensures
        r@ == seq!['X', 'M', 'A', 'S'],
        r@.len() == 4,
{
    let r: String = String::from_str("XMAS");
    proof {
        reveal_strlit("XMAS");
    }
    r
}

} // verus!
