use vstd::prelude::*;

verus! {

/// The eight compass directions a word may run in, as a fixed order of
/// `(dx, dy)` unit steps starting east and turning counter-clockwise
/// (screen coordinates: y grows downward, so `(1, -1)` is north-east).
pub open spec fn dir_dx(d: int) -> int {
    if d == 0 {
        1
    } else if d == 1 {
        1
    } else if d == 2 {
        0
    } else if d == 3 {
        -1
    } else if d == 4 {
        -1
    } else if d == 5 {
        -1
    } else if d == 6 {
        0
    } else {
        1
    }
}

pub open spec fn dir_dy(d: int) -> int {
    if d == 0 {
        0
    } else if d == 1 {
        -1
    } else if d == 2 {
        -1
    } else if d == 3 {
        -1
    } else if d == 4 {
        0
    } else if d == 5 {
        1
    } else if d == 6 {
        1
    } else {
        1
    }
}

/// A legal step vector: one of the eight unit/diagonal directions.
pub open spec fn is_unit_delta(dx: int, dy: int) -> bool {
    -1 <= dx <= 1 && -1 <= dy <= 1 && !(dx == 0 && dy == 0)
}

/// Every direction index names a unit delta, and distinct indices name
/// distinct deltas.
pub proof fn lemma_dir_index_injective(d1: int, d2: int)
    requires
        0 <= d1 < 8,
        0 <= d2 < 8,
    ensures
        is_unit_delta(dir_dx(d1), dir_dy(d1)),
        (dir_dx(d1) == dir_dx(d2) && dir_dy(d1) == dir_dy(d2)) ==> d1 == d2,
{
}

/// Direction index to `(dx, dy)` step vector.
pub fn direction(d: usize) -> (r: (isize, isize))
    requires
        d < 8,
    ensures
        r.0 as int == dir_dx(d as int),
        r.1 as int == dir_dy(d as int),
{
    if d == 0 {
        (1, 0)
    } else if d == 1 {
        (1, -1)
    } else if d == 2 {
        (0, -1)
    } else if d == 3 {
        (-1, -1)
    } else if d == 4 {
        (-1, 0)
    } else if d == 5 {
        (-1, 1)
    } else if d == 6 {
        (0, 1)
    } else {
        (1, 1)
    }
}

/// A rectangular character grid of the given dimensions.
pub open spec fn grid_wf(g: Seq<Seq<char>>, width: int, height: int) -> bool {
    &&& g.len() == height
    &&& width >= 1
    &&& height >= 1
    &&& forall|y: int| 0 <= y < height ==> (#[trigger] g[y]).len() == width
}

pub open spec fn on_grid(width: int, height: int, cx: int, cy: int) -> bool {
    0 <= cx < width && 0 <= cy < height
}

/// The x coordinate of the `i`-th cell stepped from `x` by `dx`.
pub open spec fn step_x(x: int, dx: int, i: int) -> int {
    x + i * dx
}

pub open spec fn step_y(y: int, dy: int, i: int) -> int {
    y + i * dy
}

/// The `i`-th cell of the path lies on the grid and holds the `i`-th
/// letter of `word`.
pub open spec fn letter_ok(
    g: Seq<Seq<char>>,
    width: int,
    height: int,
    word: Seq<char>,
    x: int,
    y: int,
    dx: int,
    dy: int,
    i: int,
) -> bool {
    &&& on_grid(width, height, step_x(x, dx, i), step_y(y, dy, i))
    &&& g[step_y(y, dy, i)][step_x(x, dx, i)] == word[i]
}

/// Reading `word.len()` cells from `(x, y)` along `(dx, dy)` stays on the
/// grid and spells `word`.
pub open spec fn reads_word_at(
    g: Seq<Seq<char>>,
    width: int,
    height: int,
    word: Seq<char>,
    x: int,
    y: int,
    dx: int,
    dy: int,
) -> bool {
    forall|i: int| 0 <= i < word.len() ==> #[trigger] letter_ok(g, width, height, word, x, y, dx, dy, i)
}

/// Cell `(cx, cy)` lies on the length-`len` path from `(x, y)` along
/// `(dx, dy)`.
pub open spec fn on_path(x: int, y: int, dx: int, dy: int, len: int, cx: int, cy: int) -> bool {
    exists|i: int| 0 <= i < len && cx == #[trigger] step_x(x, dx, i) && cy == step_y(y, dy, i)
}

} // verus!
