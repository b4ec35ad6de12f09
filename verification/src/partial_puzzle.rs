use vstd::prelude::*;

use crate::geometry::dir_dx;
use crate::geometry::dir_dy;
use crate::geometry::grid_wf;
use crate::geometry::on_grid;
use crate::geometry::step_x;
use crate::geometry::step_y;
use crate::geometry::is_unit_delta;
use crate::geometry::letter_ok;
use crate::geometry::reads_word_at;
use crate::geometry::on_path;
use crate::geometry::direction;
use crate::puzzle::distinct_seqs;
use crate::puzzle::all_nonempty;
use crate::puzzle::Location;
use crate::support::random_below;

verus! {

/// Count of blank (`' '`) cells among the first `n` of `row`.
pub open spec fn count_blank_row(row: Seq<char>, n: int) -> int
    decreases n,
{
    if n <= 0 {
        0
    } else {
        count_blank_row(row, n - 1) + if row[n - 1] == ' ' {
            1int
        } else {
            0int
        }
    }
}

/// Count of blank cells in the first `y` rows of `g`.
pub open spec fn count_blank_rows(g: Seq<Seq<char>>, y: int) -> int
    decreases y,
{
    if y <= 0 {
        0
    } else {
        count_blank_rows(g, y - 1) + count_blank_row(g[y - 1], g[y - 1].len() as int)
    }
}

/// Count of blank cells in the whole grid.
pub open spec fn count_blanks(g: Seq<Seq<char>>) -> int {
    count_blank_rows(g, g.len() as int)
}

/// No character of `w` is the blank marker.
pub open spec fn no_blank_chars(w: Seq<char>) -> bool {
    forall|i: int| 0 <= i < w.len() ==> w[i] != ' '
}

pub proof fn lemma_count_blank_row_bounds(row: Seq<char>, n: int)
    requires
        0 <= n,
    ensures
        0 <= count_blank_row(row, n) <= n,
    decreases n,
{
    if n > 0 {
        lemma_count_blank_row_bounds(row, n - 1);
    }
}

/// A positive prefix count yields a blank cell in the prefix.
pub proof fn lemma_count_blank_row_pos(row: Seq<char>, n: int)
    requires
        0 <= n <= row.len(),
        count_blank_row(row, n) >= 1,
    ensures
        exists|x: int| 0 <= x < n && row[x] == ' ',
    decreases n,
{
    if n > 0 {
        if row[n - 1] == ' ' {
        } else {
            lemma_count_blank_row_pos(row, n - 1);
        }
    }
}

pub proof fn lemma_count_blank_rows_pos(g: Seq<Seq<char>>, y: int)
    requires
        0 <= y <= g.len(),
        count_blank_rows(g, y) >= 1,
    ensures
        exists|cx: int, cy: int|
            0 <= cy < y && 0 <= cx < g[cy].len() && #[trigger] g[cy][cx] == ' ',
    decreases y,
{
    if y > 0 {
        let row = g[y - 1];
        if count_blank_row(row, row.len() as int) >= 1 {
            lemma_count_blank_row_pos(row, row.len() as int);
            let x = choose|x: int| 0 <= x < row.len() && row[x] == ' ';
            assert(g[y - 1][x] == ' ');
        } else {
            lemma_count_blank_row_bounds(row, row.len() as int);
            lemma_count_blank_rows_pos(g, y - 1);
        }
    }
}

/// How a single-cell update moves the prefix blank count.
pub proof fn lemma_count_blank_row_update(row: Seq<char>, x: int, c: char, n: int)
    requires
        0 <= x < row.len(),
        0 <= n <= row.len(),
    ensures
        count_blank_row(row.update(x, c), n) == count_blank_row(row, n) + if x < n {
            (if c == ' ' {
                1int
            } else {
                0int
            }) - (if row[x] == ' ' {
                1int
            } else {
                0int
            })
        } else {
            0int
        },
    decreases n,
{
    if n > 0 {
        lemma_count_blank_row_update(row, x, c, n - 1);
    }
}

/// The same for a whole-grid update at `(x, y)`.
pub proof fn lemma_count_blank_rows_update(g: Seq<Seq<char>>, x: int, y: int, c: char, yy: int)
    requires
        0 <= y < g.len(),
        0 <= x < g[y].len(),
        0 <= yy <= g.len(),
    ensures
        count_blank_rows(g.update(y, g[y].update(x, c)), yy) == count_blank_rows(g, yy) + if y
            < yy {
            (if c == ' ' {
                1int
            } else {
                0int
            }) - (if g[y][x] == ' ' {
                1int
            } else {
                0int
            })
        } else {
            0int
        },
    decreases yy,
{
    if yy > 0 {
        lemma_count_blank_rows_update(g, x, y, c, yy - 1);
        if y == yy - 1 {
            lemma_count_blank_row_update(g[y], x, c, g[y].len() as int);
        }
    }
}

/// An all-blank rectangular grid has `width * height` blank cells.
pub proof fn lemma_count_blanks_full(g: Seq<Seq<char>>, width: int, y: int)
    requires
        0 <= y <= g.len(),
        width >= 0,
        forall|yy: int| 0 <= yy < g.len() ==> (#[trigger] g[yy]).len() == width,
        forall|yy: int, xx: int| 0 <= yy < g.len() && 0 <= xx < width ==> #[trigger] g[yy][xx] == ' ',
    ensures
        count_blank_rows(g, y) == y * width,
    decreases y,
{
    if y > 0 {
        lemma_count_blanks_full(g, width, y - 1);
        lemma_count_blank_row_full(g[y - 1], width);
        assert(count_blank_rows(g, y - 1) == (y - 1) * width);
        assert(g[y - 1].len() == width);
        assert(count_blank_row(g[y - 1], width) == width);
        assert(y * width == (y - 1) * width + width) by (nonlinear_arith);
    } else {
        assert(count_blank_rows(g, 0) == 0);
        assert(0int * width == 0) by (nonlinear_arith);
    }
}

/// Any cell's row-major index lies below the grid's cell count.
pub proof fn lemma_cell_index_bound(y: int, x: int, w: int, h: int)
    requires
        0 <= y < h,
        0 <= x < w,
    ensures
        y * w + x + 1 <= h * w,
{
    assert(y * w + x + 1 <= h * w) by (nonlinear_arith)
        requires
            0 <= y < h,
            0 <= x < w,
    ;
}

pub proof fn lemma_count_blank_row_full(row: Seq<char>, n: int)
    requires
        0 <= n <= row.len(),
        forall|xx: int| 0 <= xx < row.len() ==> #[trigger] row[xx] == ' ',
    ensures
        count_blank_row(row, n) == n,
    decreases n,
{
    if n > 0 {
        lemma_count_blank_row_full(row, n - 1);
    }
}

/// The in-progress grid: random word placements over a blank grid, with
/// enough blanks always held back for the hidden message.
pub struct PartialPuzzle {
    width: usize,
    height: usize,
    message: String,
    grid: Vec<Vec<char>>,
    words: Vec<String>,
}

impl PartialPuzzle {
    pub closed spec fn spec_width(self) -> int {
        self.width as int
    }

    pub closed spec fn spec_height(self) -> int {
        self.height as int
    }

    pub closed spec fn spec_grid(self) -> Seq<Seq<char>> {
        self.grid.deep_view()
    }

    pub closed spec fn spec_message(self) -> Seq<char> {
        self.message@
    }

    pub closed spec fn spec_words(self) -> Seq<Seq<char>> {
        self.words.deep_view()
    }

    /// Well-formed builder: rectangular grid, distinct nonempty non-blank
    /// words, and at least as many blank cells as message characters.
    pub closed spec fn wf(self) -> bool {
        &&& grid_wf(self.spec_grid(), self.spec_width(), self.spec_height())
        &&& distinct_seqs(self.spec_words())
        &&& all_nonempty(self.spec_words())
        &&& forall|k: int| 0 <= k < self.spec_words().len() ==> no_blank_chars(
            #[trigger] self.spec_words()[k],
        )
        &&& self.spec_message().len() <= count_blanks(self.spec_grid())
        &&& self.spec_width() * self.spec_height() <= usize::MAX
    }

    /// What well-formedness guarantees, for callers outside this module.
    pub proof fn lemma_wf_consequences(self)
        requires
            self.wf(),
        ensures
            count_blanks(self.spec_grid()) >= self.spec_message().len(),
            grid_wf(self.spec_grid(), self.spec_width(), self.spec_height()),
            self.spec_width() * self.spec_height() <= usize::MAX,
    {
    }

    /// A fresh all-blank grid for the given message.
    pub fn create(width: usize, height: usize, message: String) -> (p: PartialPuzzle)
        requires
            width >= 1,
            height >= 1,
            width * height <= usize::MAX,
            message@.len() <= width * height,
        ensures
            p.wf(),
            p.spec_width() == width,
            p.spec_height() == height,
            p.spec_message() == message@,
            p.spec_words() == Seq::<Seq<char>>::empty(),
            forall|cy: int, cx: int|
                0 <= cy < height && 0 <= cx < width ==> #[trigger] p.spec_grid()[cy][cx] == ' ',
            count_blanks(p.spec_grid()) == width * height,
    {
        let mut grid: Vec<Vec<char>> = Vec::new();
        let mut y: usize = 0;
        while y < height
            invariant
                y <= height,
                grid.deep_view().len() == y,
                forall|yy: int| 0 <= yy < y ==> (#[trigger] grid.deep_view()[yy]).len() == width,
                forall|yy: int, xx: int|
                    0 <= yy < y && 0 <= xx < width ==> #[trigger] grid.deep_view()[yy][xx] == ' ',
            decreases height - y,
        {
            let mut row: Vec<char> = Vec::new();
            let mut x: usize = 0;
            while x < width
                invariant
                    x <= width,
                    row@.len() == x,
                    forall|xx: int| 0 <= xx < x ==> #[trigger] row@[xx] == ' ',
                decreases width - x,
            {
                row.push(' ');
                x = x + 1;
            }
            let ghost g0 = grid.deep_view();
            grid.push(row);
            proof {
                assert(grid.deep_view().len() == y + 1);
                assert forall|yy: int| 0 <= yy < y implies #[trigger] grid.deep_view()[yy]
                    == g0[yy] by {
                    assert(grid@[yy].deep_view() == g0[yy]);
                }
                assert(grid.deep_view()[y as int] =~= row@);
            }
            y = y + 1;
        }
        let p = PartialPuzzle { width, height, message, grid, words: Vec::new() };
        proof {
            assert(p.words.deep_view() =~= Seq::<Seq<char>>::empty());
            lemma_count_blanks_full(p.grid.deep_view(), width as int, height as int);
            assert(count_blanks(p.spec_grid()) == height * width);
            assert(height * width == width * height) by (nonlinear_arith);
        }
        p
    }

    /// Number of blank cells left in the grid.
    fn count_empty_cells(&self) -> (r: usize)
        requires
            self.wf(),
        ensures
            r == count_blanks(self.spec_grid()),
    {
        let mut empty_cells: usize = 0;
        let mut y: usize = 0;
        while y < self.height
            invariant
                self.wf(),
                y <= self.height,
                empty_cells == count_blank_rows(self.spec_grid(), y as int),
                empty_cells <= y * self.width,
            decreases self.height - y,
        {
            let mut x: usize = 0;
            proof {
                lemma_count_blank_row_bounds(self.spec_grid()[y as int], 0);
            }
            while x < self.width
                invariant
                    self.wf(),
                    y < self.height,
                    x <= self.width,
                    empty_cells == count_blank_rows(self.spec_grid(), y as int) + count_blank_row(
                        self.spec_grid()[y as int],
                        x as int,
                    ),
                    empty_cells <= y * self.width + x,
                decreases self.width - x,
            {
                proof {
                    assert(self.grid@[y as int]@[x as int] == self.spec_grid()[y as int][x as int]);
                }
                proof {
                    lemma_cell_index_bound(y as int, x as int, self.width as int, self.height as int);
                    assert((self.height as int) * (self.width as int) == (self.width as int) * (
                    self.height as int)) by (nonlinear_arith);
                }
                if self.grid[y][x] == ' ' {
                    empty_cells = empty_cells + 1;
                } else {
                }
                x = x + 1;
            }
            proof {
                assert((y + 1) * self.width == y * self.width + self.width) by (nonlinear_arith);
            }
            y = y + 1;
        }
        empty_cells
    }

    /// Complete exactly when the blanks left equal the message length.
    pub fn is_complete(&self) -> (r: bool)
        requires
            self.wf(),
        ensures
            r == (count_blanks(self.spec_grid()) == self.spec_message().len()),
    {
        self.count_empty_cells() == self.message.as_str().unicode_len()
    }

    /// How many distinct words have been committed to the grid.
    pub fn word_count(&self) -> (r: usize)
        requires
            self.wf(),
        ensures
            r == self.spec_words().len(),
    {
        self.words.len()
    }
}

/// The `i`-th cell of the path is free for the `i`-th letter: on the grid
/// and either blank or already holding that same letter.
pub open spec fn cell_fits(
    g: Seq<Seq<char>>,
    w: int,
    h: int,
    word: Seq<char>,
    x: int,
    y: int,
    dx: int,
    dy: int,
    i: int,
) -> bool {
    &&& on_grid(w, h, step_x(x, dx, i), step_y(y, dy, i))
    &&& (g[step_y(y, dy, i)][step_x(x, dx, i)] == ' ' || g[step_y(y, dy, i)][step_x(x, dx, i)]
        == word[i])
}

/// How many of the first `n` path cells are still blank (cells the word
/// would newly fill).
pub open spec fn count_new_upto(
    g: Seq<Seq<char>>,
    x: int,
    y: int,
    dx: int,
    dy: int,
    n: int,
) -> int
    decreases n,
{
    if n <= 0 {
        0
    } else {
        count_new_upto(g, x, y, dx, dy, n - 1) + if g[step_y(y, dy, n - 1)][step_x(x, dx, n - 1)]
            == ' ' {
            1int
        } else {
            0int
        }
    }
}

/// A placement is legal: every cell fits, and the newly filled cells still
/// leave at least `msg_len` blanks for the message.
pub open spec fn can_place_at(
    g: Seq<Seq<char>>,
    w: int,
    h: int,
    msg_len: int,
    word: Seq<char>,
    x: int,
    y: int,
    dx: int,
    dy: int,
) -> bool {
    &&& (forall|i: int| 0 <= i < word.len() ==> #[trigger] cell_fits(g, w, h, word, x, y, dx, dy, i))
    &&& count_new_upto(g, x, y, dx, dy, word.len() as int) + msg_len <= count_blanks(g)
}

pub proof fn lemma_count_new_upto_bounds(g: Seq<Seq<char>>, x: int, y: int, dx: int, dy: int, n: int)
    requires
        0 <= n,
    ensures
        0 <= count_new_upto(g, x, y, dx, dy, n) <= n,
    decreases n,
{
    if n > 0 {
        lemma_count_new_upto_bounds(g, x, y, dx, dy, n - 1);
    }
}

/// Distinct steps along a unit direction land on distinct cells.
pub proof fn lemma_path_injective(x: int, y: int, dx: int, dy: int, i: int, j: int)
    requires
        is_unit_delta(dx, dy),
        i != j,
    ensures
        step_x(x, dx, i) != step_x(x, dx, j) || step_y(y, dy, i) != step_y(y, dy, j),
{
    if dx != 0 {
        assert(i * dx != j * dx) by (nonlinear_arith)
            requires
                dx != 0,
                i != j,
        ;
    } else {
        assert(i * dy != j * dy) by (nonlinear_arith)
            requires
                dy != 0,
                i != j,
        ;
    }
}

/// Rotated direction index: `t` wrapped back into the eight directions.
pub open spec fn wrap8(t: int) -> int {
    if t < 8 {
        t
    } else {
        t - 8
    }
}

/// No legal placement of `word` along direction `d` has `(ax, ay)` as its
/// `kk`-th letter.
pub open spec fn align_blocked(
    g: Seq<Seq<char>>,
    w: int,
    h: int,
    msg_len: int,
    word: Seq<char>,
    d: int,
    kk: int,
    ax: int,
    ay: int,
) -> bool {
    forall|x: int, y: int|
        #[trigger] can_place_at(g, w, h, msg_len, word, x, y, dir_dx(d), dir_dy(d)) && ax == step_x(
            x,
            dir_dx(d),
            kk,
        ) && ay == step_y(y, dir_dy(d), kk) ==> false
}

/// No legal placement of `word` along direction `d` covers `(ax, ay)`.
pub open spec fn dir_blocked(
    g: Seq<Seq<char>>,
    w: int,
    h: int,
    msg_len: int,
    word: Seq<char>,
    d: int,
    ax: int,
    ay: int,
) -> bool {
    forall|x: int, y: int|
        #[trigger] can_place_at(g, w, h, msg_len, word, x, y, dir_dx(d), dir_dy(d)) ==> !on_path(
            x,
            y,
            dir_dx(d),
            dir_dy(d),
            word.len() as int,
            ax,
            ay,
        )
}

/// No legal placement of `word`, in any direction, covers `(ax, ay)`.
pub open spec fn anchor_blocked(
    g: Seq<Seq<char>>,
    w: int,
    h: int,
    msg_len: int,
    word: Seq<char>,
    ax: int,
    ay: int,
) -> bool {
    forall|d: int| 0 <= d < 8 ==> #[trigger] dir_blocked(g, w, h, msg_len, word, d, ax, ay)
}

/// The placement a successful insertion committed, pinned to the scan
/// order: it makes `(ax, ay)` the `kk`-th letter of `word` along the
/// direction at rotation position `j`, it is legal, every direction tried
/// before it admits no placement covering the anchor, and every earlier
/// alignment of its own direction admits none either.
pub open spec fn placed_first(
    g: Seq<Seq<char>>,
    w: int,
    h: int,
    msg_len: int,
    word: Seq<char>,
    dir_offset: int,
    ax: int,
    ay: int,
    x: int,
    y: int,
    d: int,
    kk: int,
    j: int,
) -> bool {
    &&& 0 <= j < 8
    &&& d == wrap8(dir_offset + j)
    &&& 0 <= kk < word.len()
    &&& ax == step_x(x, dir_dx(d), kk)
    &&& ay == step_y(y, dir_dy(d), kk)
    &&& can_place_at(g, w, h, msg_len, word, x, y, dir_dx(d), dir_dy(d))
    &&& forall|j2: int|
        0 <= j2 < j ==> #[trigger] dir_blocked(g, w, h, msg_len, word, wrap8(dir_offset + j2), ax, ay)
    &&& forall|k2: int| 0 <= k2 < kk ==> #[trigger] align_blocked(g, w, h, msg_len, word, d, k2, ax, ay)
}

/// What a successful `try_insert_word` did: committed `word` at a legal
/// location, left every off-path cell alone, and added the word to the set.
pub open spec fn placed(
    pre: PartialPuzzle,
    post: PartialPuzzle,
    word: Seq<char>,
    x: int,
    y: int,
    dx: int,
    dy: int,
) -> bool {
    let w = pre.spec_width();
    let h = pre.spec_height();
    &&& is_unit_delta(dx, dy)
    &&& on_grid(w, h, x, y)
    &&& can_place_at(pre.spec_grid(), w, h, pre.spec_message().len() as int, word, x, y, dx, dy)
    &&& reads_word_at(post.spec_grid(), w, h, word, x, y, dx, dy)
    &&& forall|cx: int, cy: int|
        on_grid(w, h, cx, cy) && !on_path(x, y, dx, dy, word.len() as int, cx, cy)
            ==> post.spec_grid()[cy][cx] == #[trigger] pre.spec_grid()[cy][cx]
    &&& post.spec_words() == (if pre.spec_words().contains(word) {
        pre.spec_words()
    } else {
        pre.spec_words().push(word)
    })
    &&& count_blanks(post.spec_grid()) == count_blanks(pre.spec_grid()) - count_new_upto(
        pre.spec_grid(),
        x,
        y,
        dx,
        dy,
        word.len() as int,
    )
}

impl PartialPuzzle {
    /// The cell `offset` steps along the location's direction, or `None`
    /// when it leaves the grid.
    fn position_with_offset(&self, location: &Location, offset: usize) -> (r: Option<
        (usize, usize),
    >)
        requires
            is_unit_delta(location.dx as int, location.dy as int),
            location.x < self.spec_width(),
            location.y < self.spec_height(),
        ensures
            r is Some <==> on_grid(
                self.spec_width(),
                self.spec_height(),
                step_x(location.x as int, location.dx as int, offset as int),
                step_y(location.y as int, location.dy as int, offset as int),
            ),
            r is Some ==> (r->0).0 == step_x(location.x as int, location.dx as int, offset as int)
                && (r->0).1 == step_y(location.y as int, location.dy as int, offset as int),
    {
        let ox: usize;
        if location.dx == 1 {
            if offset < self.width - location.x {
                ox = location.x + offset;
            } else {
                return None;
            }
        } else if location.dx == -1 {
            if offset <= location.x {
                ox = location.x - offset;
            } else {
                return None;
            }
        } else {
            ox = location.x;
        }
        let oy: usize;
        if location.dy == 1 {
            if offset < self.height - location.y {
                oy = location.y + offset;
            } else {
                return None;
            }
        } else if location.dy == -1 {
            if offset <= location.y {
                oy = location.y - offset;
            } else {
                return None;
            }
        } else {
            oy = location.y;
        }
        Some((ox, oy))
    }

    /// The start cell that makes `(x, y)` the `offset`-th letter of a word
    /// running along `(dx, dy)`, or `None` when it leaves the grid.
    fn find_string_start(
        &self,
        x: usize,
        y: usize,
        dx: isize,
        dy: isize,
        offset: usize,
    ) -> (r: Option<(usize, usize)>)
        requires
            is_unit_delta(dx as int, dy as int),
            x < self.spec_width(),
            y < self.spec_height(),
        ensures
            r is Some <==> on_grid(
                self.spec_width(),
                self.spec_height(),
                step_x(x as int, dx as int, -(offset as int)),
                step_y(y as int, dy as int, -(offset as int)),
            ),
            r is Some ==> (r->0).0 == step_x(x as int, dx as int, -(offset as int)) && (r->0).1
                == step_y(y as int, dy as int, -(offset as int)),
    {
        let sx: usize;
        if dx == 1 {
            if offset <= x {
                sx = x - offset;
            } else {
                return None;
            }
        } else if dx == -1 {
            if offset < self.width - x {
                sx = x + offset;
            } else {
                return None;
            }
        } else {
            sx = x;
        }
        let sy: usize;
        if dy == 1 {
            if offset <= y {
                sy = y - offset;
            } else {
                return None;
            }
        } else if dy == -1 {
            if offset < self.height - y {
                sy = y + offset;
            } else {
                return None;
            }
        } else {
            sy = y;
        }
        Some((sx, sy))
    }

    /// Whether `word` may be committed at `location` without conflicts and
    /// without eating into the blanks reserved for the message.
    fn can_insert_word_at(&self, location: &Location, word: &String) -> (r: bool)
        requires
            self.wf(),
            is_unit_delta(location.dx as int, location.dy as int),
            location.x < self.spec_width(),
            location.y < self.spec_height(),
        ensures
            r == can_place_at(
                self.spec_grid(),
                self.spec_width(),
                self.spec_height(),
                self.spec_message().len() as int,
                word@,
                location.x as int,
                location.y as int,
                location.dx as int,
                location.dy as int,
            ),
    {
        let ghost g = self.spec_grid();
        let ghost w = self.spec_width();
        let ghost h = self.spec_height();
        let ghost lx = location.x as int;
        let ghost ly = location.y as int;
        let ghost ldx = location.dx as int;
        let ghost ldy = location.dy as int;
        let len = word.as_str().unicode_len();
        let mut new_letters: usize = 0;
        let mut i: usize = 0;
        while i < len
            invariant
                self.wf(),
                is_unit_delta(location.dx as int, location.dy as int),
                location.x < self.spec_width(),
                location.y < self.spec_height(),
                g == self.spec_grid(),
                w == self.spec_width(),
                h == self.spec_height(),
                lx == location.x as int,
                ly == location.y as int,
                ldx == location.dx as int,
                ldy == location.dy as int,
                len == word@.len(),
                i <= len,
                forall|k: int| 0 <= k < i ==> #[trigger] cell_fits(g, w, h, word@, lx, ly, ldx, ldy, k),
                new_letters == count_new_upto(g, lx, ly, ldx, ldy, i as int),
                new_letters <= i,
            decreases len - i,
        {
            let maybe_position = self.position_with_offset(location, i);
            if maybe_position.is_none() {
                proof {
                    assert(!cell_fits(g, w, h, word@, lx, ly, ldx, ldy, i as int));
                }
                return false;
            }
            let (cx, cy) = maybe_position.unwrap();
            proof {
                assert(self.grid@[cy as int]@[cx as int] == g[cy as int][cx as int]);
            }
            let grid_char = self.grid[cy][cx];
            if grid_char == ' ' {
                new_letters = new_letters + 1;
            } else {
                if grid_char != word.as_str().get_char(i) {
                    proof {
                        assert(!cell_fits(g, w, h, word@, lx, ly, ldx, ldy, i as int));
                    }
                    return false;
                }
            }
            proof {
                assert(cell_fits(g, w, h, word@, lx, ly, ldx, ldy, i as int));
            }
            i = i + 1;
        }
        let message_len = self.message.as_str().unicode_len();
        let empty = self.count_empty_cells();
        if message_len > empty {
            proof {
                lemma_count_new_upto_bounds(g, lx, ly, ldx, ldy, len as int);
            }
            return false;
        }
        new_letters <= empty - message_len
    }

    /// Commits `word` at `location`: writes its letters along the path and
    /// adds the word to the placed set.
    fn insert_word_at(&mut self, location: &Location, word: String)
        requires
            old(self).wf(),
            is_unit_delta(location.dx as int, location.dy as int),
            location.x < old(self).spec_width(),
            location.y < old(self).spec_height(),
            word@.len() >= 1,
            no_blank_chars(word@),
            can_place_at(
                old(self).spec_grid(),
                old(self).spec_width(),
                old(self).spec_height(),
                old(self).spec_message().len() as int,
                word@,
                location.x as int,
                location.y as int,
                location.dx as int,
                location.dy as int,
            ),
        ensures
            final(self).wf(),
            final(self).spec_width() == old(self).spec_width(),
            final(self).spec_height() == old(self).spec_height(),
            final(self).spec_message() == old(self).spec_message(),
            placed(
                *old(self),
                *final(self),
                word@,
                location.x as int,
                location.y as int,
                location.dx as int,
                location.dy as int,
            ),
    {
        let ghost g0 = self.spec_grid();
        let ghost w = self.spec_width();
        let ghost h = self.spec_height();
        let ghost lx = location.x as int;
        let ghost ly = location.y as int;
        let ghost ldx = location.dx as int;
        let ghost ldy = location.dy as int;
        let len = word.as_str().unicode_len();
        let mut i: usize = 0;
        while i < len
            invariant
                grid_wf(self.spec_grid(), w, h),
                self.width == old(self).width,
                self.height == old(self).height,
                self.message == old(self).message,
                self.words == old(self).words,
                old(self).wf(),
                is_unit_delta(ldx, ldy),
                g0 == old(self).spec_grid(),
                w == old(self).spec_width(),
                h == old(self).spec_height(),
                lx == location.x as int,
                ly == location.y as int,
                ldx == location.dx as int,
                ldy == location.dy as int,
                location.x < w,
                location.y < h,
                len == word@.len(),
                i <= len,
                no_blank_chars(word@),
                can_place_at(g0, w, h, old(self).spec_message().len() as int, word@, lx, ly, ldx, ldy),
                forall|k: int|
                    0 <= k < i ==> #[trigger] letter_ok(self.spec_grid(), w, h, word@, lx, ly, ldx, ldy, k),
                forall|cx: int, cy: int|
                    on_grid(w, h, cx, cy) && !on_path(lx, ly, ldx, ldy, i as int, cx, cy)
                        ==> self.spec_grid()[cy][cx] == #[trigger] g0[cy][cx],
                count_blanks(self.spec_grid()) == count_blanks(g0) - count_new_upto(
                    g0,
                    lx,
                    ly,
                    ldx,
                    ldy,
                    i as int,
                ),
            decreases len - i,
        {
            proof {
                assert(cell_fits(g0, w, h, word@, lx, ly, ldx, ldy, i as int));
            }
            let maybe_position = self.position_with_offset(location, i);
            let (cx, cy) = maybe_position.unwrap();
            let c = word.as_str().get_char(i);
            let ghost g_before = self.spec_grid();
            proof {
                assert forall|jj: int| 0 <= jj < i implies !(cx as int == step_x(lx, ldx, jj) && cy as int
                    == step_y(ly, ldy, jj)) by {
                    lemma_path_injective(lx, ly, ldx, ldy, jj, i as int);
                }
                assert(!on_path(lx, ly, ldx, ldy, i as int, cx as int, cy as int));
                assert(g_before[cy as int][cx as int] == g0[cy as int][cx as int]);
            }
            self.grid[cy][cx] = c;
            proof {
                let g_after = self.spec_grid();
                assert(self.grid@[cy as int]@ == g_before[cy as int].update(cx as int, c));
                assert(g_after =~~= g_before.update(cy as int, g_before[cy as int].update(cx as int, c)));
                lemma_count_blank_rows_update(g_before, cx as int, cy as int, c, g_before.len() as int);
                assert(word@[i as int] != ' ');
                assert forall|k: int| 0 <= k < i + 1 implies #[trigger] letter_ok(
                    g_after, w, h, word@, lx, ly, ldx, ldy, k,
                ) by {
                    if k < i {
                        lemma_path_injective(lx, ly, ldx, ldy, k, i as int);
                        assert(letter_ok(g_before, w, h, word@, lx, ly, ldx, ldy, k));
                    } else {
                        assert(g_after[cy as int][cx as int] == c);
                    }
                }
                assert forall|ccx: int, ccy: int|
                    on_grid(w, h, ccx, ccy) && !on_path(lx, ly, ldx, ldy, i + 1, ccx, ccy) implies
                    self.spec_grid()[ccy][ccx] == #[trigger] g0[ccy][ccx] by {
                    assert(!on_path(lx, ly, ldx, ldy, i as int, ccx, ccy));
                    assert(!(ccx == step_x(lx, ldx, i as int) && ccy == step_y(ly, ldy, i as int)));
                }
            }
            i = i + 1;
        }
        let already = crate::puzzle::contains_string(&self.words, &word);
        let ghost words0 = self.words.deep_view();
        if !already {
            self.words.push(word);
            proof {
                assert(self.words.deep_view() =~~= words0.push(word@));
            }
        }
        proof {
            assert(reads_word_at(self.spec_grid(), w, h, word@, lx, ly, ldx, ldy));
            assert(on_grid(w, h, lx, ly)) by {
                assert(cell_fits(g0, w, h, word@, lx, ly, ldx, ldy, 0));
                assert(step_x(lx, ldx, 0) == lx) by (nonlinear_arith);
                assert(step_y(ly, ldy, 0) == ly) by (nonlinear_arith);
            }
            lemma_count_new_upto_bounds(g0, lx, ly, ldx, ldy, len as int);
            assert(count_blanks(self.spec_grid()) >= old(self).spec_message().len());
        }
    }
}

/// Row-major order: `(cx, cy)` comes strictly before `(x, y)`.
pub open spec fn rm_before(cx: int, cy: int, x: int, y: int) -> bool {
    cy < y || (cy == y && cx < x)
}

/// `(bx, by)` is the first blank cell at or after `(sx, sy)` in row-major
/// order, wrapping past the end of the grid.
pub open spec fn first_blank_at(
    g: Seq<Seq<char>>,
    w: int,
    h: int,
    sx: int,
    sy: int,
    bx: int,
    by: int,
) -> bool {
    &&& on_grid(w, h, bx, by)
    &&& g[by][bx] == ' '
    &&& if !rm_before(bx, by, sx, sy) {
        forall|cx: int, cy: int|
            on_grid(w, h, cx, cy) && !rm_before(cx, cy, sx, sy) && rm_before(cx, cy, bx, by)
                ==> #[trigger] g[cy][cx] != ' '
    } else {
        &&& forall|cx: int, cy: int|
            on_grid(w, h, cx, cy) && !rm_before(cx, cy, sx, sy) ==> #[trigger] g[cy][cx] != ' '
        &&& forall|cx: int, cy: int|
            on_grid(w, h, cx, cy) && rm_before(cx, cy, bx, by) ==> #[trigger] g[cy][cx] != ' '
    }
}

impl PartialPuzzle {
    /// The first blank cell at or after `(sx, sy)` in row-major order,
    /// wrapping past the end of the grid.
    fn first_blank_from(&self, sx: usize, sy: usize) -> (r: (usize, usize))
        requires
            self.wf(),
            sx < self.spec_width(),
            sy < self.spec_height(),
            count_blanks(self.spec_grid()) >= 1,
        ensures
            on_grid(self.spec_width(), self.spec_height(), r.0 as int, r.1 as int),
            self.spec_grid()[r.1 as int][r.0 as int] == ' ',
            first_blank_at(
                self.spec_grid(),
                self.spec_width(),
                self.spec_height(),
                sx as int,
                sy as int,
                r.0 as int,
                r.1 as int,
            ),
    {
        let ghost g = self.spec_grid();
        let ghost w = self.spec_width();
        let ghost h = self.spec_height();
        let mut x = sx;
        let mut y = sy;
        while y < self.height
            invariant
                self.wf(),
                g == self.spec_grid(),
                w == self.spec_width(),
                h == self.spec_height(),
                sx < w,
                sy < h,
                x < w,
                sy <= y <= h,
                y == sy ==> sx <= x,
                forall|cx: int, cy: int|
                    on_grid(w, h, cx, cy) && !rm_before(cx, cy, sx as int, sy as int) && rm_before(
                        cx,
                        cy,
                        x as int,
                        y as int,
                    ) ==> #[trigger] g[cy][cx] != ' ',
            decreases h - y, self.width - x,
        {
            proof {
                assert(self.grid@[y as int]@[x as int] == g[y as int][x as int]);
            }
            if self.grid[y][x] == ' ' {
                return (x, y);
            }
            x = x + 1;
            if x == self.width {
                x = 0;
                y = y + 1;
            }
        }
        let mut x2: usize = 0;
        let mut y2: usize = 0;
        while y2 < sy || x2 < sx
            invariant
                self.wf(),
                g == self.spec_grid(),
                w == self.spec_width(),
                h == self.spec_height(),
                sx < w,
                sy < h,
                x2 < w,
                y2 <= sy,
                y2 == sy ==> x2 <= sx,
                forall|cx: int, cy: int|
                    on_grid(w, h, cx, cy) && !rm_before(cx, cy, sx as int, sy as int)
                        ==> #[trigger] g[cy][cx] != ' ',
                forall|cx: int, cy: int|
                    on_grid(w, h, cx, cy) && rm_before(cx, cy, x2 as int, y2 as int)
                        ==> #[trigger] g[cy][cx] != ' ',
            decreases sy - y2, self.width - x2,
        {
            proof {
                assert(self.grid@[y2 as int]@[x2 as int] == g[y2 as int][x2 as int]);
            }
            if self.grid[y2][x2] == ' ' {
                return (x2, y2);
            }
            x2 = x2 + 1;
            if x2 == self.width {
                x2 = 0;
                y2 = y2 + 1;
            }
        }
        proof {
            lemma_count_blank_rows_pos(g, g.len() as int);
            let (cx, cy) = choose|cx: int, cy: int|
                0 <= cy < g.len() && 0 <= cx < g[cy].len() && #[trigger] g[cy][cx] == ' ';
            assert(on_grid(w, h, cx, cy));
            assert(false);
        }
        (0, 0)
    }

    /// A random still-blank cell: a uniformly random cell, advanced to the
    /// next blank one in wrapped row-major order.
    fn get_random_empty_cell(&self) -> (r: (usize, usize))
        requires
            self.wf(),
            count_blanks(self.spec_grid()) >= 1,
        ensures
            on_grid(self.spec_width(), self.spec_height(), r.0 as int, r.1 as int),
            self.spec_grid()[r.1 as int][r.0 as int] == ' ',
    {
        let x = random_below(self.width);
        let y = random_below(self.height);
        self.first_blank_from(x, y)
    }

    /// `try_insert_word` with the random draws made explicit, so a fixed
    /// seed cell and direction rotation give a reproducible outcome: scans
    /// for a blank anchor from `(seed_x, seed_y)`, then tries the eight
    /// directions rotated by `dir_offset`, each with every alignment of the
    /// word across the anchor, committing the first legal placement.
    pub fn try_insert_word_from(
        &mut self,
        word: String,
        seed_x: usize,
        seed_y: usize,
        dir_offset: usize,
    ) -> (r: bool)
        requires
            old(self).wf(),
            word@.len() >= 1,
            no_blank_chars(word@),
            count_blanks(old(self).spec_grid()) >= 1,
            seed_x < old(self).spec_width(),
            seed_y < old(self).spec_height(),
            dir_offset < 8,
        ensures
            final(self).wf(),
            final(self).spec_width() == old(self).spec_width(),
            final(self).spec_height() == old(self).spec_height(),
            final(self).spec_message() == old(self).spec_message(),
            !r ==> *final(self) == *old(self),
            !r ==> exists|ax: int, ay: int|
                {
                    &&& first_blank_at(
                        old(self).spec_grid(),
                        old(self).spec_width(),
                        old(self).spec_height(),
                        seed_x as int,
                        seed_y as int,
                        ax,
                        ay,
                    )
                    &&& anchor_blocked(
                        old(self).spec_grid(),
                        old(self).spec_width(),
                        old(self).spec_height(),
                        old(self).spec_message().len() as int,
                        word@,
                        ax,
                        ay,
                    )
                },
            r ==> exists|ax: int, ay: int, px: int, py: int, d: int, kk: int, j: int|
                {
                    &&& first_blank_at(
                        old(self).spec_grid(),
                        old(self).spec_width(),
                        old(self).spec_height(),
                        seed_x as int,
                        seed_y as int,
                        ax,
                        ay,
                    )
                    &&& placed_first(
                        old(self).spec_grid(),
                        old(self).spec_width(),
                        old(self).spec_height(),
                        old(self).spec_message().len() as int,
                        word@,
                        dir_offset as int,
                        ax,
                        ay,
                        px,
                        py,
                        d,
                        kk,
                        j,
                    )
                    &&& placed(*old(self), *final(self), word@, px, py, dir_dx(d), dir_dy(d))
                },
    {
        let ghost g0 = self.spec_grid();
        let ghost w = self.spec_width();
        let ghost h = self.spec_height();
        let ghost msg_len = self.spec_message().len() as int;
        let (ax, ay) = self.first_blank_from(seed_x, seed_y);
        let len = word.as_str().unicode_len();
        let mut di: usize = 0;
        while di < 8
            invariant
                *self == *old(self),
                self.wf(),
                g0 == self.spec_grid(),
                w == self.spec_width(),
                h == self.spec_height(),
                msg_len == self.spec_message().len() as int,
                word@.len() >= 1,
                len == word@.len(),
                no_blank_chars(word@),
                dir_offset < 8,
                di <= 8,
                ax < w,
                ay < h,
                g0[ay as int][ax as int] == ' ',
                first_blank_at(g0, w, h, seed_x as int, seed_y as int, ax as int, ay as int),
                forall|j: int|
                    0 <= j < di ==> #[trigger] dir_blocked(
                        g0,
                        w,
                        h,
                        msg_len,
                        word@,
                        wrap8(dir_offset + j),
                        ax as int,
                        ay as int,
                    ),
            decreases 8 - di,
        {
            let mut d = di + dir_offset;
            if d >= 8 {
                d = d - 8;
            }
            let (ddx, ddy) = crate::geometry::direction(d);
            proof {
                crate::geometry::lemma_dir_index_injective(d as int, d as int);
                assert(d == wrap8(dir_offset + di));
            }
            let mut word_index: usize = 0;
            while word_index < len
                invariant
                    *self == *old(self),
                    self.wf(),
                    g0 == self.spec_grid(),
                    w == self.spec_width(),
                    h == self.spec_height(),
                    msg_len == self.spec_message().len() as int,
                    word@.len() >= 1,
                    len == word@.len(),
                    no_blank_chars(word@),
                    word_index <= len,
                    ax < w,
                    ay < h,
                    d < 8,
                    di < 8,
                    dir_offset < 8,
                    d as int == wrap8(dir_offset as int + di as int),
                    ddx as int == dir_dx(d as int),
                    ddy as int == dir_dy(d as int),
                    is_unit_delta(ddx as int, ddy as int),
                    first_blank_at(g0, w, h, seed_x as int, seed_y as int, ax as int, ay as int),
                    forall|j2: int|
                        0 <= j2 < di ==> #[trigger] dir_blocked(
                            g0,
                            w,
                            h,
                            msg_len,
                            word@,
                            wrap8(dir_offset as int + j2),
                            ax as int,
                            ay as int,
                        ),
                    forall|kk: int|
                        0 <= kk < word_index ==> #[trigger] align_blocked(
                            g0,
                            w,
                            h,
                            msg_len,
                            word@,
                            d as int,
                            kk,
                            ax as int,
                            ay as int,
                        ),
                decreases len - word_index,
            {
                let maybe_position = self.find_string_start(ax, ay, ddx, ddy, word_index);
                if let Some((start_x, start_y)) = maybe_position {
                    let location = Location { x: start_x, y: start_y, dx: ddx, dy: ddy };
                    if self.can_insert_word_at(&location, &word) {
                        let ghost pre = *self;
                        proof {
                            assert(d == wrap8(dir_offset + di));
                            assert(step_x(start_x as int, ddx as int, word_index as int)
                                == ax as int && step_y(start_y as int, ddy as int, word_index as int)
                                == ay as int) by (nonlinear_arith)
                                requires
                                    start_x as int == step_x(
                                        ax as int,
                                        ddx as int,
                                        -(word_index as int),
                                    ),
                                    start_y as int == step_y(
                                        ay as int,
                                        ddy as int,
                                        -(word_index as int),
                                    ),
                            ;
                        }
                        self.insert_word_at(&location, word.clone());
                        proof {
                            assert(placed(
                                *old(self),
                                *self,
                                word@,
                                start_x as int,
                                start_y as int,
                                ddx as int,
                                ddy as int,
                            ));
                            assert(placed_first(
                                g0,
                                w,
                                h,
                                msg_len,
                                word@,
                                dir_offset as int,
                                ax as int,
                                ay as int,
                                start_x as int,
                                start_y as int,
                                d as int,
                                word_index as int,
                                di as int,
                            ));
                        }
                        return true;
                    }
                }
                proof {
                    let kk = word_index as int;
                    let dd = d as int;
                    assert forall|x: int, y: int|
                        #[trigger] can_place_at(g0, w, h, msg_len, word@, x, y, dir_dx(dd), dir_dy(dd))
                            && ax as int == step_x(x, dir_dx(dd), kk) && ay as int == step_y(
                            y,
                            dir_dy(dd),
                            kk,
                        ) implies false by {
                        assert(cell_fits(g0, w, h, word@, x, y, dir_dx(dd), dir_dy(dd), 0));
                        assert(step_x(x, dir_dx(dd), 0) == x && step_y(y, dir_dy(dd), 0) == y)
                            by (nonlinear_arith);
                        assert(on_grid(w, h, x, y));
                        assert(step_x(ax as int, dir_dx(dd), -kk) == x) by (nonlinear_arith)
                            requires
                                ax as int == step_x(x, dir_dx(dd), kk),
                        ;
                        assert(step_y(ay as int, dir_dy(dd), -kk) == y) by (nonlinear_arith)
                            requires
                                ay as int == step_y(y, dir_dy(dd), kk),
                        ;
                    }
                    assert(align_blocked(g0, w, h, msg_len, word@, dd, kk, ax as int, ay as int));
                }
                word_index = word_index + 1;
            }
            proof {
                let dd = d as int;
                assert forall|x: int, y: int|
                    #[trigger] can_place_at(g0, w, h, msg_len, word@, x, y, dir_dx(dd), dir_dy(dd))
                        implies !on_path(
                        x,
                        y,
                        dir_dx(dd),
                        dir_dy(dd),
                        word@.len() as int,
                        ax as int,
                        ay as int,
                    ) by {
                    if on_path(x, y, dir_dx(dd), dir_dy(dd), word@.len() as int, ax as int, ay as int) {
                        let kk = choose|kk: int|
                            0 <= kk < word@.len() && ax as int == #[trigger] step_x(x, dir_dx(dd), kk)
                                && ay as int == step_y(y, dir_dy(dd), kk);
                        assert(align_blocked(g0, w, h, msg_len, word@, dd, kk, ax as int, ay as int));
                    }
                }
                assert(dir_blocked(g0, w, h, msg_len, word@, dd, ax as int, ay as int));
            }
            di = di + 1;
        }
        proof {
            assert forall|d0: int| 0 <= d0 < 8 implies #[trigger] dir_blocked(
                g0,
                w,
                h,
                msg_len,
                word@,
                d0,
                ax as int,
                ay as int,
            ) by {
                let j = if d0 >= dir_offset {
                    d0 - dir_offset
                } else {
                    d0 + 8 - dir_offset
                };
                assert(0 <= j < 8);
                assert(wrap8(dir_offset + j) == d0);
                assert(dir_blocked(g0, w, h, msg_len, word@, wrap8(dir_offset + j), ax as int, ay as int));
            }
            assert(anchor_blocked(g0, w, h, msg_len, word@, ax as int, ay as int));
        }
        false
    }

    /// Tries to place `word` somewhere legal, seeded by fresh random
    /// draws; `true` exactly when the word was committed.
    pub fn try_insert_word(&mut self, word: String) -> (r: bool)
        requires
            old(self).wf(),
            word@.len() >= 1,
            no_blank_chars(word@),
            count_blanks(old(self).spec_grid()) >= 1,
        ensures
            final(self).wf(),
            final(self).spec_width() == old(self).spec_width(),
            final(self).spec_height() == old(self).spec_height(),
            final(self).spec_message() == old(self).spec_message(),
            !r ==> *final(self) == *old(self),
            !r ==> exists|ax: int, ay: int|
                {
                    &&& on_grid(old(self).spec_width(), old(self).spec_height(), ax, ay)
                    &&& old(self).spec_grid()[ay][ax] == ' '
                    &&& anchor_blocked(
                        old(self).spec_grid(),
                        old(self).spec_width(),
                        old(self).spec_height(),
                        old(self).spec_message().len() as int,
                        word@,
                        ax,
                        ay,
                    )
                },
            r ==> exists|ax: int, ay: int, px: int, py: int, d: int, kk: int, j: int, doff: int|
                {
                    &&& 0 <= doff < 8
                    &&& on_grid(old(self).spec_width(), old(self).spec_height(), ax, ay)
                    &&& old(self).spec_grid()[ay][ax] == ' '
                    &&& placed_first(
                        old(self).spec_grid(),
                        old(self).spec_width(),
                        old(self).spec_height(),
                        old(self).spec_message().len() as int,
                        word@,
                        doff,
                        ax,
                        ay,
                        px,
                        py,
                        d,
                        kk,
                        j,
                    )
                    &&& placed(*old(self), *final(self), word@, px, py, dir_dx(d), dir_dy(d))
                },
    {
        let seed_x = random_below(self.width);
        let seed_y = random_below(self.height);
        let dir_offset = random_below(8);
        self.try_insert_word_from(word, seed_x, seed_y, dir_offset)
    }
}

pub proof fn lemma_count_blank_row_mono(row: Seq<char>, a: int, b: int)
    requires
        0 <= a <= b,
    ensures
        count_blank_row(row, a) <= count_blank_row(row, b),
    decreases b,
{
    if b > a {
        lemma_count_blank_row_mono(row, a, b - 1);
    }
}

pub proof fn lemma_count_blank_rows_mono(g: Seq<Seq<char>>, a: int, b: int)
    requires
        0 <= a <= b,
    ensures
        count_blank_rows(g, a) <= count_blank_rows(g, b),
    decreases b,
{
    if b > a {
        lemma_count_blank_rows_mono(g, a, b - 1);
        lemma_count_blank_row_bounds(g[b - 1], g[b - 1].len() as int);
    }
}

/// A rectangular grid holds at most `y * w` blanks in its first `y` rows.
pub proof fn lemma_count_blank_rows_le(g: Seq<Seq<char>>, w: int, y: int)
    requires
        0 <= y <= g.len(),
        forall|yy: int| 0 <= yy < g.len() ==> (#[trigger] g[yy]).len() == w,
    ensures
        count_blank_rows(g, y) <= y * w,
    decreases y,
{
    if y > 0 {
        lemma_count_blank_rows_le(g, w, y - 1);
        lemma_count_blank_row_bounds(g[y - 1], w);
        assert(y * w == (y - 1) * w + w) by (nonlinear_arith);
    } else {
        assert(0int * w == 0) by (nonlinear_arith);
    }
}

/// Blanks strictly before `(x, y)` in row-major order stay below the grid
/// total when `(x, y)` is itself blank.
pub proof fn lemma_blanks_before_strict(g: Seq<Seq<char>>, w: int, h: int, x: int, y: int)
    requires
        grid_wf(g, w, h),
        on_grid(w, h, x, y),
        g[y][x] == ' ',
    ensures
        0 <= count_blank_rows(g, y) + count_blank_row(g[y], x),
        count_blank_rows(g, y) + count_blank_row(g[y], x) + 1 <= count_blanks(g),
{
    lemma_count_blank_rows_mono(g, 0, y);
    lemma_count_blank_row_bounds(g[y], x);
    assert(count_blank_row(g[y], x + 1) == count_blank_row(g[y], x) + 1);
    lemma_count_blank_row_mono(g[y], x + 1, g[y].len() as int);
    assert(count_blank_rows(g, y + 1) == count_blank_rows(g, y) + count_blank_row(
        g[y],
        g[y].len() as int,
    ));
    lemma_count_blank_rows_mono(g, y + 1, h);
}

/// The rendered character at `(x, y)`: a blank cell shows the message
/// character whose index is the number of blanks before the cell.
pub open spec fn render_cell(g: Seq<Seq<char>>, msg: Seq<char>, x: int, y: int) -> char {
    if g[y][x] == ' ' {
        msg[count_blank_rows(g, y) + count_blank_row(g[y], x)]
    } else {
        g[y][x]
    }
}

pub open spec fn render_row(g: Seq<Seq<char>>, msg: Seq<char>, w: int, y: int) -> Seq<char> {
    Seq::new(w as nat, |x: int| render_cell(g, msg, x, y))
}

/// The first `y` grid rows rendered, each closed by a newline.
pub open spec fn render_rows(g: Seq<Seq<char>>, msg: Seq<char>, w: int, y: int) -> Seq<char>
    decreases y,
{
    if y <= 0 {
        Seq::empty()
    } else {
        render_rows(g, msg, w, y - 1) + render_row(g, msg, w, y - 1) + seq!['\n']
    }
}

/// The first `k` words joined by newlines.
pub open spec fn words_text(ws: Seq<Seq<char>>, k: int) -> Seq<char>
    decreases k,
{
    if k <= 0 {
        Seq::empty()
    } else if k == 1 {
        ws[0]
    } else {
        words_text(ws, k - 1) + seq!['\n'] + ws[k - 1]
    }
}

/// The full plain-text form: rendered rows, a blank separator line, then
/// the word list.
pub open spec fn render_puzzle(
    g: Seq<Seq<char>>,
    msg: Seq<char>,
    ws: Seq<Seq<char>>,
    w: int,
    h: int,
) -> Seq<char> {
    render_rows(g, msg, w, h) + seq!['\n'] + words_text(ws, ws.len() as int)
}

impl PartialPuzzle {
    /// The finished puzzle text: the grid with every blank replaced by the
    /// next message character in row-major order, a blank line, then the
    /// placed words.
    pub fn get_puzzle_string(&self) -> (r: String)
        requires
            self.wf(),
            count_blanks(self.spec_grid()) == self.spec_message().len(),
        ensures
            r@ == render_puzzle(
                self.spec_grid(),
                self.spec_message(),
                self.spec_words(),
                self.spec_width(),
                self.spec_height(),
            ),
    {
        let ghost g = self.spec_grid();
        let ghost msg = self.spec_message();
        let ghost w = self.spec_width();
        let ghost h = self.spec_height();
        let mut buffer: Vec<char> = Vec::new();
        let mut message_index: usize = 0;
        let mut y: usize = 0;
        while y < self.height
            invariant
                self.wf(),
                count_blanks(g) == msg.len(),
                g == self.spec_grid(),
                msg == self.spec_message(),
                w == self.spec_width(),
                h == self.spec_height(),
                y <= h,
                buffer@ == render_rows(g, msg, w, y as int),
                message_index == count_blank_rows(g, y as int),
            decreases h - y,
        {
            let mut x: usize = 0;
            proof {
                lemma_count_blank_row_bounds(g[y as int], 0);
            }
            while x < self.width
                invariant
                    self.wf(),
                    count_blanks(g) == msg.len(),
                    g == self.spec_grid(),
                    msg == self.spec_message(),
                    w == self.spec_width(),
                    h == self.spec_height(),
                    y < h,
                    x <= w,
                    buffer@ == render_rows(g, msg, w, y as int) + Seq::new(
                        x as nat,
                        |xx: int| render_cell(g, msg, xx, y as int),
                    ),
                    message_index == count_blank_rows(g, y as int) + count_blank_row(
                        g[y as int],
                        x as int,
                    ),
                decreases w - x,
            {
                proof {
                    assert(self.grid@[y as int]@[x as int] == g[y as int][x as int]);
                }
                let c = self.grid[y][x];
                if c == ' ' {
                    proof {
                        lemma_blanks_before_strict(g, w, h, x as int, y as int);
                        lemma_count_blank_rows_le(g, w, h);
                        assert(h * w == w * h) by (nonlinear_arith);
                    }
                    let mc = self.message.as_str().get_char(message_index);
                    buffer.push(mc);
                    message_index = message_index + 1;
                } else {
                    buffer.push(c);
                }
                proof {
                    assert(buffer@ =~= render_rows(g, msg, w, y as int) + Seq::new(
                        (x + 1) as nat,
                        |xx: int| render_cell(g, msg, xx, y as int),
                    ));
                }
                x = x + 1;
            }
            buffer.push('\n');
            proof {
                assert(Seq::new(w as nat, |xx: int| render_cell(g, msg, xx, y as int)) =~= render_row(
                    g,
                    msg,
                    w,
                    y as int,
                ));
                assert(buffer@ =~= render_rows(g, msg, w, y + 1));
            }
            y = y + 1;
        }
        buffer.push('\n');
        let ghost base = render_rows(g, msg, w, h) + seq!['\n'];
        proof {
            assert(buffer@ =~= base + words_text(self.spec_words(), 0));
        }
        let mut k: usize = 0;
        while k < self.words.len()
            invariant
                self.wf(),
                g == self.spec_grid(),
                msg == self.spec_message(),
                w == self.spec_width(),
                h == self.spec_height(),
                base == render_rows(g, msg, w, h) + seq!['\n'],
                k <= self.words.len(),
                buffer@ == base + words_text(self.spec_words(), k as int),
            decreases self.words.len() - k,
        {
            if k > 0 {
                buffer.push('\n');
            }
            let ghost before_word = buffer@;
            let word_len = self.words[k].as_str().unicode_len();
            let mut j: usize = 0;
            while j < word_len
                invariant
                    self.wf(),
                    k < self.words.len(),
                    word_len == self.spec_words()[k as int].len(),
                    j <= word_len,
                    before_word == buffer@.subrange(0, before_word.len() as int),
                    buffer@.len() == before_word.len() + j,
                    buffer@ == before_word + self.spec_words()[k as int].subrange(0, j as int),
                decreases word_len - j,
            {
                proof {
                    assert(self.words@[k as int]@ == self.spec_words()[k as int]);
                }
                let ch = self.words[k].as_str().get_char(j);
                buffer.push(ch);
                proof {
                    assert(buffer@ =~= before_word + self.spec_words()[k as int].subrange(
                        0,
                        j + 1,
                    ));
                }
                j = j + 1;
            }
            proof {
                assert(self.spec_words()[k as int].subrange(
                    0,
                    self.spec_words()[k as int].len() as int,
                ) =~= self.spec_words()[k as int]);
                if k == 0 {
                    assert(words_text(self.spec_words(), 1) == self.spec_words()[0]);
                    assert(buffer@ =~= base + words_text(self.spec_words(), 1));
                } else {
                    assert(buffer@ =~= base + words_text(self.spec_words(), k + 1));
                }
            }
            k = k + 1;
        }
        let r = crate::support::chars_to_string(&buffer);
        proof {
            assert(buffer@ =~= render_puzzle(g, msg, self.spec_words(), w, h));
        }
        r
    }
}

/// The first blank cell from a seed is unique.
pub proof fn lemma_first_blank_unique(
    g: Seq<Seq<char>>,
    w: int,
    h: int,
    sx: int,
    sy: int,
    b1x: int,
    b1y: int,
    b2x: int,
    b2y: int,
)
    requires
        first_blank_at(g, w, h, sx, sy, b1x, b1y),
        first_blank_at(g, w, h, sx, sy, b2x, b2y),
    ensures
        b1x == b2x && b1y == b2y,
{
    if !(b1x == b2x && b1y == b2y) {
        if !rm_before(b1x, b1y, sx, sy) && !rm_before(b2x, b2y, sx, sy) {
            if rm_before(b1x, b1y, b2x, b2y) {
                assert(g[b1y][b1x] != ' ');
            } else {
                assert(rm_before(b2x, b2y, b1x, b1y));
                assert(g[b2y][b2x] != ' ');
            }
        } else if !rm_before(b1x, b1y, sx, sy) && rm_before(b2x, b2y, sx, sy) {
            assert(g[b1y][b1x] != ' ');
        } else if rm_before(b1x, b1y, sx, sy) && !rm_before(b2x, b2y, sx, sy) {
            assert(g[b2y][b2x] != ' ');
        } else {
            if rm_before(b1x, b1y, b2x, b2y) {
                assert(g[b1y][b1x] != ' ');
            } else {
                assert(rm_before(b2x, b2y, b1x, b1y));
                assert(g[b2y][b2x] != ' ');
            }
        }
    }
}

/// Determinism of seeded insertion: the insertion contracts pin the
/// outcome, so two successful runs over equal grids with the same word,
/// seed cell and direction rotation commit exactly the same cells and
/// leave equal word sets.
pub proof fn lemma_seeded_insertion_deterministic(
    pre: PartialPuzzle,
    post1: PartialPuzzle,
    post2: PartialPuzzle,
    word: Seq<char>,
    seed_x: int,
    seed_y: int,
    dir_offset: int,
    ax1: int,
    ay1: int,
    x1: int,
    y1: int,
    d1: int,
    k1: int,
    j1: int,
    ax2: int,
    ay2: int,
    x2: int,
    y2: int,
    d2: int,
    k2: int,
    j2: int,
)
    requires
        word.len() >= 1,
        grid_wf(post1.spec_grid(), pre.spec_width(), pre.spec_height()),
        grid_wf(post2.spec_grid(), pre.spec_width(), pre.spec_height()),
        first_blank_at(
            pre.spec_grid(),
            pre.spec_width(),
            pre.spec_height(),
            seed_x,
            seed_y,
            ax1,
            ay1,
        ),
        placed_first(
            pre.spec_grid(),
            pre.spec_width(),
            pre.spec_height(),
            pre.spec_message().len() as int,
            word,
            dir_offset,
            ax1,
            ay1,
            x1,
            y1,
            d1,
            k1,
            j1,
        ),
        placed(pre, post1, word, x1, y1, dir_dx(d1), dir_dy(d1)),
        first_blank_at(
            pre.spec_grid(),
            pre.spec_width(),
            pre.spec_height(),
            seed_x,
            seed_y,
            ax2,
            ay2,
        ),
        placed_first(
            pre.spec_grid(),
            pre.spec_width(),
            pre.spec_height(),
            pre.spec_message().len() as int,
            word,
            dir_offset,
            ax2,
            ay2,
            x2,
            y2,
            d2,
            k2,
            j2,
        ),
        placed(pre, post2, word, x2, y2, dir_dx(d2), dir_dy(d2)),
    ensures
        post1.spec_grid() == post2.spec_grid(),
        post1.spec_words() == post2.spec_words(),
{
    let g = pre.spec_grid();
    let w = pre.spec_width();
    let h = pre.spec_height();
    let msg_len = pre.spec_message().len() as int;
    lemma_first_blank_unique(g, w, h, seed_x, seed_y, ax1, ay1, ax2, ay2);
    let ax = ax1;
    let ay = ay1;
    // the rotation position is the same: an earlier direction would be
    // blocked, yet the other run placed the word through the anchor there
    assert(j1 == j2) by {
        if j1 < j2 {
            assert(dir_blocked(g, w, h, msg_len, word, wrap8(dir_offset + j1), ax, ay));
            assert(on_path(x1, y1, dir_dx(d1), dir_dy(d1), word.len() as int, ax, ay));
        } else if j2 < j1 {
            assert(dir_blocked(g, w, h, msg_len, word, wrap8(dir_offset + j2), ax, ay));
            assert(on_path(x2, y2, dir_dx(d2), dir_dy(d2), word.len() as int, ax, ay));
        }
    }
    assert(d1 == d2);
    // the alignment is the same: an earlier alignment would be blocked
    assert(k1 == k2) by {
        if k1 < k2 {
            assert(align_blocked(g, w, h, msg_len, word, d1, k1, ax, ay));
        } else if k2 < k1 {
            assert(align_blocked(g, w, h, msg_len, word, d2, k2, ax, ay));
        }
    }
    assert(x1 == x2 && y1 == y2);
    // both runs wrote the same letters over the same grid
    assert forall|cy: int| 0 <= cy < h implies #[trigger] post1.spec_grid()[cy]
        == post2.spec_grid()[cy] by {
        assert forall|cx: int| 0 <= cx < w implies #[trigger] post1.spec_grid()[cy][cx]
            == post2.spec_grid()[cy][cx] by {
            if on_path(x1, y1, dir_dx(d1), dir_dy(d1), word.len() as int, cx, cy) {
                let i = choose|i: int|
                    0 <= i < word.len() && cx == #[trigger] step_x(x1, dir_dx(d1), i) && cy
                        == step_y(y1, dir_dy(d1), i);
                assert(letter_ok(post1.spec_grid(), w, h, word, x1, y1, dir_dx(d1), dir_dy(d1), i));
                assert(letter_ok(post2.spec_grid(), w, h, word, x2, y2, dir_dx(d2), dir_dy(d2), i));
            } else {
                assert(post1.spec_grid()[cy][cx] == pre.spec_grid()[cy][cx]);
                assert(post2.spec_grid()[cy][cx] == pre.spec_grid()[cy][cx]);
            }
        }
        assert(post1.spec_grid()[cy] =~= post2.spec_grid()[cy]);
    }
    assert(post1.spec_grid() =~= post2.spec_grid());
}

} // verus!
