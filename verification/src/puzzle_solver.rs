use vstd::prelude::*;

use crate::geometry::dir_dx;
use crate::geometry::dir_dy;
use crate::geometry::is_unit_delta;
use crate::geometry::letter_ok;
use crate::geometry::on_grid;
use crate::geometry::on_path;
use crate::geometry::reads_word_at;
use crate::geometry::step_x;
use crate::geometry::step_y;
use crate::puzzle::grid_consistent;
use crate::puzzle::parse_text;
use crate::puzzle::Puzzle;

verus! {

/// A rectangular boolean mask with the grid's dimensions.
pub open spec fn marks_wf(m: Seq<Seq<bool>>, w: int, h: int) -> bool {
    &&& m.len() == h
    &&& forall|y: int| 0 <= y < h ==> (#[trigger] m[y]).len() == w
}

/// `(x, y, d)` is a reading of `word` in the grid: it starts on the grid
/// and spells the word along direction `d`.
pub open spec fn cand_ok(
    g: Seq<Seq<char>>,
    w: int,
    h: int,
    word: Seq<char>,
    x: int,
    y: int,
    d: int,
) -> bool {
    &&& 0 <= d < 8
    &&& on_grid(w, h, x, y)
    &&& reads_word_at(g, w, h, word, x, y, dir_dx(d), dir_dy(d))
}

/// The reading covers at least one cell not yet marked.
pub open spec fn covers_unmarked(m: Seq<Seq<bool>>, len: int, x: int, y: int, d: int) -> bool {
    exists|i: int|
        0 <= i < len && !m[step_y(y, dir_dy(d), i)][#[trigger] step_x(x, dir_dx(d), i)]
}

/// A live candidate: a reading of `word` that still covers an unmarked
/// cell (readings lying wholly inside marked cells are stale).
pub open spec fn is_live_cand(
    g: Seq<Seq<char>>,
    m: Seq<Seq<bool>>,
    w: int,
    h: int,
    word: Seq<char>,
    x: int,
    y: int,
    d: int,
) -> bool {
    &&& cand_ok(g, w, h, word, x, y, d)
    &&& covers_unmarked(m, word.len() as int, x, y, d)
}

/// Exactly one live candidate for `word` remains.
pub open spec fn exactly_one_live(
    g: Seq<Seq<char>>,
    m: Seq<Seq<bool>>,
    w: int,
    h: int,
    word: Seq<char>,
) -> bool {
    exists|x: int, y: int, d: int|
        #[trigger] is_live_cand(g, m, w, h, word, x, y, d) && (forall|x2: int, y2: int, d2: int|
            #[trigger] is_live_cand(g, m, w, h, word, x2, y2, d2) ==> x2 == x && y2 == y && d2
                == d)
}

/// Cell `(cx, cy)` lies on the committed location of some word other than
/// word `k`.
pub open spec fn covered_by_other(
    ws: Seq<Seq<char>>,
    locs: Map<int, (int, int, int)>,
    k: int,
    cx: int,
    cy: int,
) -> bool {
    exists|j: int|
        0 <= j < ws.len() && j != k && #[trigger] locs.contains_key(j) && on_path(
            locs[j].0,
            locs[j].1,
            dir_dx(locs[j].2),
            dir_dy(locs[j].2),
            ws[j].len() as int,
            cx,
            cy,
        )
}

/// Cell `(cx, cy)` lies on some committed location.
pub open spec fn covered_by_any(
    ws: Seq<Seq<char>>,
    locs: Map<int, (int, int, int)>,
    cx: int,
    cy: int,
) -> bool {
    exists|j: int|
        0 <= j < ws.len() && #[trigger] locs.contains_key(j) && on_path(
            locs[j].0,
            locs[j].1,
            dir_dx(locs[j].2),
            dir_dy(locs[j].2),
            ws[j].len() as int,
            cx,
            cy,
        )
}

/// Every cell of the reading `(x, y, d)` of word `k` is covered by some
/// other committed word.
pub open spec fn rival_covered(
    ws: Seq<Seq<char>>,
    locs: Map<int, (int, int, int)>,
    k: int,
    x: int,
    y: int,
    d: int,
) -> bool {
    forall|i: int|
        0 <= i < ws[k].len() ==> covered_by_other(
            ws,
            locs,
            k,
            #[trigger] step_x(x, dir_dx(d), i),
            step_y(y, dir_dy(d), i),
        )
}

/// The solver's running invariant over its committed locations and marks:
/// every committed location reads its word; the marks are exactly the
/// cells of committed locations; and any rival reading of a committed word
/// lies wholly inside other words' committed cells — word `k`'s location
/// is the only reading of it that touches a cell of its own.
pub open spec fn solver_inv(
    g: Seq<Seq<char>>,
    ws: Seq<Seq<char>>,
    w: int,
    h: int,
    locs: Map<int, (int, int, int)>,
    m: Seq<Seq<bool>>,
) -> bool {
    &&& marks_wf(m, w, h)
    &&& forall|k: int| #[trigger]
        locs.contains_key(k) ==> 0 <= k < ws.len() && cand_ok(
            g,
            w,
            h,
            ws[k],
            locs[k].0,
            locs[k].1,
            locs[k].2,
        )
    &&& forall|cx: int, cy: int|
        on_grid(w, h, cx, cy) ==> (#[trigger] m[cy][cx] <==> covered_by_any(ws, locs, cx, cy))
    &&& forall|k: int, x: int, y: int, d: int|
        locs.contains_key(k) && #[trigger] cand_ok(g, w, h, ws[k], x, y, d) && !(x == locs[k].0 && y
            == locs[k].1 && d == locs[k].2) ==> rival_covered(ws, locs, k, x, y, d)
}

/// The unmarked characters of one row prefix, in order.
pub open spec fn unmarked_row(row: Seq<char>, mrow: Seq<bool>, n: int) -> Seq<char>
    decreases n,
{
    if n <= 0 {
        Seq::empty()
    } else {
        unmarked_row(row, mrow, n - 1) + if !mrow[n - 1] {
            seq![row[n - 1]]
        } else {
            Seq::<char>::empty()
        }
    }
}

/// The unmarked characters of the first `y` rows, row-major.
pub open spec fn unmarked_text(g: Seq<Seq<char>>, m: Seq<Seq<bool>>, y: int) -> Seq<char>
    decreases y,
{
    if y <= 0 {
        Seq::empty()
    } else {
        unmarked_text(g, m, y - 1) + unmarked_row(g[y - 1], m[y - 1], g[y - 1].len() as int)
    }
}

/// A successful solve: every word has a committed location, the marks are
/// their cells, rival readings lie inside other words' cells, and the
/// decoded message is the unmarked cells read row-major.
pub open spec fn solution_cert(
    g: Seq<Seq<char>>,
    ws: Seq<Seq<char>>,
    w: int,
    h: int,
    locs: Map<int, (int, int, int)>,
    m: Seq<Seq<bool>>,
    decoded: Seq<char>,
) -> bool {
    &&& solver_inv(g, ws, w, h, locs, m)
    &&& forall|k: int| 0 <= k < ws.len() ==> #[trigger] locs.contains_key(k)
    &&& decoded == unmarked_text(g, m, h)
}

/// A failed solve: a fixed point was reached with some word still pending
/// and no pending word having exactly one live candidate.
pub open spec fn stuck_cert(
    g: Seq<Seq<char>>,
    ws: Seq<Seq<char>>,
    w: int,
    h: int,
    locs: Map<int, (int, int, int)>,
    m: Seq<Seq<bool>>,
) -> bool {
    &&& solver_inv(g, ws, w, h, locs, m)
    &&& exists|k: int| 0 <= k < ws.len() && !(#[trigger] locs.contains_key(k))
    &&& forall|k: int|
        0 <= k < ws.len() && !(#[trigger] locs.contains_key(k)) ==> !exactly_one_live(
            g,
            m,
            w,
            h,
            ws[k],
        )
}

/// Some assignment of locations and marks certifies `decoded` as the
/// puzzle's unique reading.
pub open spec fn solvable_to(
    g: Seq<Seq<char>>,
    ws: Seq<Seq<char>>,
    w: int,
    h: int,
    decoded: Seq<char>,
) -> bool {
    exists|locs: Map<int, (int, int, int)>, m: Seq<Seq<bool>>|
        solution_cert(g, ws, w, h, locs, m, decoded)
}

/// Some fixed point of the propagation leaves a word pending.
pub open spec fn solver_stuck(g: Seq<Seq<char>>, ws: Seq<Seq<char>>, w: int, h: int) -> bool {
    exists|locs: Map<int, (int, int, int)>, m: Seq<Seq<bool>>| stuck_cert(g, ws, w, h, locs, m)
}

/// The cell `i` steps along `(ddx, ddy)` from `(x, y)`, or `None` when it
/// leaves a `w` by `h` grid.
fn offset_cell(
    w: usize,
    h: usize,
    x: usize,
    y: usize,
    ddx: isize,
    ddy: isize,
    i: usize,
) -> (r: Option<(usize, usize)>)
    requires
        is_unit_delta(ddx as int, ddy as int),
        x < w,
        y < h,
    ensures
        r is Some <==> on_grid(
            w as int,
            h as int,
            step_x(x as int, ddx as int, i as int),
            step_y(y as int, ddy as int, i as int),
        ),
        r is Some ==> (r->0).0 == step_x(x as int, ddx as int, i as int) && (r->0).1 == step_y(
            y as int,
            ddy as int,
            i as int,
        ),
{
    let cx: usize;
    if ddx == 1 {
        if i < w - x {
            cx = x + i;
        } else {
            return None;
        }
    } else if ddx == -1 {
        if i <= x {
            cx = x - i;
        } else {
            return None;
        }
    } else {
        cx = x;
    }
    let cy: usize;
    if ddy == 1 {
        if i < h - y {
            cy = y + i;
        } else {
            return None;
        }
    } else if ddy == -1 {
        if i <= y {
            cy = y - i;
        } else {
            return None;
        }
    } else {
        cy = y;
    }
    Some((cx, cy))
}

/// Whether `(x, y, d)` is a live candidate for `word`: spells it and still
/// covers an unmarked cell.
fn check_candidate(
    p: &Puzzle,
    marked: &Vec<Vec<bool>>,
    word: &String,
    x: usize,
    y: usize,
    d: usize,
) -> (r: bool)
    requires
        p.wf(),
        marks_wf(marked.deep_view(), p.width as int, p.height as int),
        x < p.width,
        y < p.height,
        d < 8,
    ensures
        r == is_live_cand(
            p.grid.deep_view(),
            marked.deep_view(),
            p.width as int,
            p.height as int,
            word@,
            x as int,
            y as int,
            d as int,
        ),
{
    let ghost g = p.grid.deep_view();
    let ghost m = marked.deep_view();
    let ghost w = p.width as int;
    let ghost h = p.height as int;
    let (ddx, ddy) = crate::geometry::direction(d);
    proof {
        crate::geometry::lemma_dir_index_injective(d as int, d as int);
    }
    let len = word.as_str().unicode_len();
    let mut any_unmarked = false;
    let mut i: usize = 0;
    while i < len
        invariant
            p.wf(),
            marks_wf(m, w, h),
            g == p.grid.deep_view(),
            m == marked.deep_view(),
            w == p.width as int,
            h == p.height as int,
            x < w,
            y < h,
            d < 8,
            ddx as int == dir_dx(d as int),
            ddy as int == dir_dy(d as int),
            is_unit_delta(ddx as int, ddy as int),
            len == word@.len(),
            i <= len,
            forall|ii: int|
                0 <= ii < i ==> #[trigger] letter_ok(g, w, h, word@, x as int, y as int, ddx as int, ddy as int, ii),
            any_unmarked == exists|ii: int|
                0 <= ii < i && !m[step_y(y as int, ddy as int, ii)][#[trigger] step_x(
                    x as int,
                    ddx as int,
                    ii,
                )],
        decreases len - i,
    {
        let maybe_cell = offset_cell(p.width, p.height, x, y, ddx, ddy, i);
        if maybe_cell.is_none() {
            proof {
                assert(!letter_ok(g, w, h, word@, x as int, y as int, ddx as int, ddy as int, i as int));
                assert(!reads_word_at(g, w, h, word@, x as int, y as int, ddx as int, ddy as int));
            }
            return false;
        }
        let (cx, cy) = maybe_cell.unwrap();
        proof {
            assert(p.grid@[cy as int]@[cx as int] == g[cy as int][cx as int]);
            assert(marked@[cy as int]@[cx as int] == m[cy as int][cx as int]);
        }
        if p.grid[cy][cx] != word.as_str().get_char(i) {
            proof {
                assert(!letter_ok(g, w, h, word@, x as int, y as int, ddx as int, ddy as int, i as int));
                assert(!reads_word_at(g, w, h, word@, x as int, y as int, ddx as int, ddy as int));
            }
            return false;
        }
        if !marked[cy][cx] {
            any_unmarked = true;
            proof {
                assert(!m[step_y(y as int, ddy as int, i as int)][step_x(x as int, ddx as int, i as int)]);
            }
        }
        proof {
            assert(letter_ok(g, w, h, word@, x as int, y as int, ddx as int, ddy as int, i as int));
        }
        i = i + 1;
    }
    proof {
        assert(reads_word_at(g, w, h, word@, x as int, y as int, ddx as int, ddy as int));
        assert(any_unmarked == covers_unmarked(m, word@.len() as int, x as int, y as int, d as int));
    }
    any_unmarked
}

/// Marks every cell of the length-`len` path from `(x, y)` along direction
/// `d`.
fn mark_path(
    marked: &mut Vec<Vec<bool>>,
    w: usize,
    h: usize,
    x: usize,
    y: usize,
    d: usize,
    len: usize,
) -> (r: ())
    requires
        marks_wf(old(marked).deep_view(), w as int, h as int),
        x < w,
        y < h,
        d < 8,
        forall|i: int|
            0 <= i < len ==> on_grid(
                w as int,
                h as int,
                #[trigger] step_x(x as int, dir_dx(d as int), i),
                step_y(y as int, dir_dy(d as int), i),
            ),
    ensures
        marks_wf(final(marked).deep_view(), w as int, h as int),
        forall|cx: int, cy: int|
            on_grid(w as int, h as int, cx, cy) ==> (#[trigger] final(marked).deep_view()[cy][cx]
                == (old(marked).deep_view()[cy][cx] || on_path(
                x as int,
                y as int,
                dir_dx(d as int),
                dir_dy(d as int),
                len as int,
                cx,
                cy,
            ))),
{
    let ghost m0 = old(marked).deep_view();
    let (ddx, ddy) = crate::geometry::direction(d);
    proof {
        crate::geometry::lemma_dir_index_injective(d as int, d as int);
    }
    let mut i: usize = 0;
    while i < len
        invariant
            marks_wf(marked.deep_view(), w as int, h as int),
            m0 == old(marked).deep_view(),
            x < w,
            y < h,
            d < 8,
            ddx as int == dir_dx(d as int),
            ddy as int == dir_dy(d as int),
            is_unit_delta(ddx as int, ddy as int),
            i <= len,
            forall|ii: int|
                0 <= ii < len ==> on_grid(
                    w as int,
                    h as int,
                    #[trigger] step_x(x as int, ddx as int, ii),
                    step_y(y as int, ddy as int, ii),
                ),
            forall|cx: int, cy: int|
                on_grid(w as int, h as int, cx, cy) ==> (#[trigger] marked.deep_view()[cy][cx] == (
                m0[cy][cx] || on_path(x as int, y as int, ddx as int, ddy as int, i as int, cx, cy))),
        decreases len - i,
    {
        let maybe_cell = offset_cell(w, h, x, y, ddx, ddy, i);
        let (cx, cy) = maybe_cell.unwrap();
        let ghost m_before = marked.deep_view();
        proof {
            assert(marked.deep_view()[cy as int].len() == w as int);
            assert(marked@[cy as int]@.len() == w as int);
        }
        marked[cy][cx] = true;
        proof {
            assert(marked@[cy as int]@ == m_before[cy as int].update(cx as int, true));
            assert(marked.deep_view() =~~= m_before.update(
                cy as int,
                m_before[cy as int].update(cx as int, true),
            ));
            assert forall|ccx: int, ccy: int| on_grid(w as int, h as int, ccx, ccy) implies (
            #[trigger] marked.deep_view()[ccy][ccx] == (m0[ccy][ccx] || on_path(
                x as int,
                y as int,
                ddx as int,
                ddy as int,
                i + 1,
                ccx,
                ccy,
            ))) by {
                if ccx == cx as int && ccy == cy as int {
                    assert(on_path(x as int, y as int, ddx as int, ddy as int, i + 1, ccx, ccy));
                } else {
                    assert(marked.deep_view()[ccy][ccx] == m_before[ccy][ccx]);
                    if on_path(x as int, y as int, ddx as int, ddy as int, i + 1, ccx, ccy) {
                        let ii = choose|ii: int|
                            0 <= ii < i + 1 && ccx == #[trigger] step_x(x as int, ddx as int, ii)
                                && ccy == step_y(y as int, ddy as int, ii);
                        assert(ii < i);
                        assert(on_path(x as int, y as int, ddx as int, ddy as int, i as int, ccx, ccy));
                    } else {
                        assert(!on_path(x as int, y as int, ddx as int, ddy as int, i as int, ccx, ccy));
                    }
                }
            }
        }
        i = i + 1;
    }
}

/// `(cy, cx, cd)` comes strictly before `(y, x, d)` in scan order.
pub open spec fn scan_before(cy: int, cx: int, cd: int, y: int, x: int, d: int) -> bool {
    cy < y || (cy == y && (cx < x || (cx == x && cd < d)))
}

/// Scans every cell and direction for live candidates of `word`: returns
/// how many there are, capped at two, together with the first one found.
fn find_unique_candidate(
    p: &Puzzle,
    marked: &Vec<Vec<bool>>,
    word: &String,
) -> (r: (usize, usize, usize, usize))
    requires
        p.wf(),
        marks_wf(marked.deep_view(), p.width as int, p.height as int),
    ensures
        ({
            let g = p.grid.deep_view();
            let m = marked.deep_view();
            let w = p.width as int;
            let h = p.height as int;
            &&& r.0 <= 2
            &&& r.0 >= 1 ==> is_live_cand(g, m, w, h, word@, r.1 as int, r.2 as int, r.3 as int)
                && r.1 < p.width && r.2 < p.height && r.3 < 8
            &&& r.0 == 0 ==> forall|xx: int, yy: int, dd: int|
                !is_live_cand(g, m, w, h, word@, xx, yy, dd)
            &&& r.0 == 1 ==> forall|xx: int, yy: int, dd: int|
                #[trigger] is_live_cand(g, m, w, h, word@, xx, yy, dd) ==> xx == r.1 && yy == r.2
                    && dd == r.3
            &&& r.0 == 1 ==> exactly_one_live(g, m, w, h, word@)
            &&& r.0 != 1 ==> !exactly_one_live(g, m, w, h, word@)
        }),
{
    let ghost g = p.grid.deep_view();
    let ghost m = marked.deep_view();
    let ghost w = p.width as int;
    let ghost h = p.height as int;
    let mut count: usize = 0;
    let mut fx: usize = 0;
    let mut fy: usize = 0;
    let mut fd: usize = 0;
    let mut y: usize = 0;
    while y < p.height
        invariant
            p.wf(),
            marks_wf(marked.deep_view(), p.width as int, p.height as int),
            g == p.grid.deep_view(),
            m == marked.deep_view(),
            w == p.width as int,
            h == p.height as int,
            y <= h,
            count <= 1,
            count == 0 ==> forall|xx: int, yy: int, dd: int|
                0 <= yy < y && #[trigger] is_live_cand(g, m, w, h, word@, xx, yy, dd) ==> false,
            count == 1 ==> {
                &&& is_live_cand(g, m, w, h, word@, fx as int, fy as int, fd as int)
                &&& fx < p.width
                &&& fy < p.height
                &&& fd < 8
                &&& (fy as int) < y
                &&& forall|xx: int, yy: int, dd: int|
                    0 <= yy < y && #[trigger] is_live_cand(g, m, w, h, word@, xx, yy, dd) ==> xx
                        == fx && yy == fy && dd == fd
            },
        decreases h - y,
    {
        let mut x: usize = 0;
        while x < p.width
            invariant
                p.wf(),
                marks_wf(marked.deep_view(), p.width as int, p.height as int),
                g == p.grid.deep_view(),
                m == marked.deep_view(),
                w == p.width as int,
                h == p.height as int,
                y < h,
                x <= w,
                count <= 1,
                count == 0 ==> forall|xx: int, yy: int, dd: int|
                    (yy < y || (yy == y && xx < x)) && 0 <= yy && #[trigger] is_live_cand(
                        g,
                        m,
                        w,
                        h,
                        word@,
                        xx,
                        yy,
                        dd,
                    ) ==> false,
                count == 1 ==> {
                    &&& is_live_cand(g, m, w, h, word@, fx as int, fy as int, fd as int)
                    &&& fx < p.width
                    &&& fy < p.height
                    &&& fd < 8
                    &&& ((fy as int) < y || ((fy as int) == y && (fx as int) < x))
                    &&& forall|xx: int, yy: int, dd: int|
                        (yy < y || (yy == y && xx < x)) && 0 <= yy && #[trigger] is_live_cand(
                            g,
                            m,
                            w,
                            h,
                            word@,
                            xx,
                            yy,
                            dd,
                        ) ==> xx == fx && yy == fy && dd == fd
                },
            decreases w - x,
        {
            let mut d: usize = 0;
            while d < 8
                invariant
                    p.wf(),
                    marks_wf(marked.deep_view(), p.width as int, p.height as int),
                    g == p.grid.deep_view(),
                    m == marked.deep_view(),
                    w == p.width as int,
                    h == p.height as int,
                    y < h,
                    x < w,
                    d <= 8,
                    count <= 1,
                    count == 0 ==> forall|xx: int, yy: int, dd: int|
                        scan_before(yy, xx, dd, y as int, x as int, d as int) && 0 <= yy && 0 <= dd
                            && #[trigger] is_live_cand(g, m, w, h, word@, xx, yy, dd) ==> false,
                    count == 1 ==> {
                        &&& is_live_cand(g, m, w, h, word@, fx as int, fy as int, fd as int)
                        &&& fx < p.width
                        &&& fy < p.height
                        &&& fd < 8
                        &&& scan_before(fy as int, fx as int, fd as int, y as int, x as int, d as int)
                        &&& forall|xx: int, yy: int, dd: int|
                            scan_before(yy, xx, dd, y as int, x as int, d as int) && 0 <= yy && 0
                                <= dd && #[trigger] is_live_cand(g, m, w, h, word@, xx, yy, dd)
                                ==> xx == fx && yy == fy && dd == fd
                    },
                decreases 8 - d,
            {
                let live = check_candidate(p, marked, word, x, y, d);
                if live {
                    if count == 0 {
                        fx = x;
                        fy = y;
                        fd = d;
                        count = 1;
                    } else {
                        proof {
                            assert(is_live_cand(g, m, w, h, word@, fx as int, fy as int, fd as int));
                            assert(is_live_cand(g, m, w, h, word@, x as int, y as int, d as int));
                            assert(!(fx as int == x as int && fy as int == y as int && fd as int
                                == d as int));
                            assert(!exactly_one_live(g, m, w, h, word@)) by {
                                if exactly_one_live(g, m, w, h, word@) {
                                    let (ux, uy, ud) = choose|ux: int, uy: int, ud: int|
                                        #[trigger] is_live_cand(g, m, w, h, word@, ux, uy, ud) && (
                                        forall|x2: int, y2: int, d2: int|
                                            #[trigger] is_live_cand(g, m, w, h, word@, x2, y2, d2)
                                                ==> x2 == ux && y2 == uy && d2 == ud);
                                }
                            }
                        }
                        return (2, fx, fy, fd);
                    }
                }
                d = d + 1;
            }
            x = x + 1;
        }
        y = y + 1;
    }
    proof {
        if count == 0 {
            assert forall|xx: int, yy: int, dd: int| !is_live_cand(g, m, w, h, word@, xx, yy, dd) by {
                if is_live_cand(g, m, w, h, word@, xx, yy, dd) {
                    assert(on_grid(w, h, xx, yy));
                    assert(0 <= yy < y);
                }
            }
            assert(!exactly_one_live(g, m, w, h, word@));
        } else {
            assert forall|xx: int, yy: int, dd: int| #[trigger] is_live_cand(g, m, w, h, word@, xx, yy, dd)
                implies xx == fx as int && yy == fy as int && dd == fd as int by {
                assert(on_grid(w, h, xx, yy));
                assert(0 <= dd < 8);
            }
            assert(exactly_one_live(g, m, w, h, word@));
        }
    }
    (count, fx, fy, fd)
}

/// Count of `true` entries among the first `n` of `s`.
pub open spec fn count_true(s: Seq<bool>, n: int) -> int
    decreases n,
{
    if n <= 0 {
        0
    } else {
        count_true(s, n - 1) + if s[n - 1] {
            1int
        } else {
            0int
        }
    }
}

pub proof fn lemma_count_true_bounds(s: Seq<bool>, n: int)
    requires
        0 <= n,
    ensures
        0 <= count_true(s, n) <= n,
    decreases n,
{
    if n > 0 {
        lemma_count_true_bounds(s, n - 1);
    }
}

pub proof fn lemma_count_true_update(s: Seq<bool>, k: int, v: bool, n: int)
    requires
        0 <= k < s.len(),
        0 <= n <= s.len(),
    ensures
        count_true(s.update(k, v), n) == count_true(s, n) + if k < n {
            (if v {
                1int
            } else {
                0int
            }) - (if s[k] {
                1int
            } else {
                0int
            })
        } else {
            0int
        },
    decreases n,
{
    if n > 0 {
        lemma_count_true_update(s, k, v, n - 1);
    }
}

/// A full count means every entry is `true`; a short count yields a
/// `false` entry.
pub proof fn lemma_count_true_all(s: Seq<bool>, n: int)
    requires
        0 <= n,
        count_true(s, n) == n,
    ensures
        forall|i: int| 0 <= i < n ==> s[i],
    decreases n,
{
    if n > 0 {
        lemma_count_true_bounds(s, n - 1);
        lemma_count_true_all(s, n - 1);
    }
}

pub proof fn lemma_count_true_missing(s: Seq<bool>, n: int)
    requires
        0 <= n,
        count_true(s, n) < n,
    ensures
        exists|i: int| 0 <= i < n && !s[i],
    decreases n,
{
    if n > 0 {
        if s[n - 1] {
            lemma_count_true_missing(s, n - 1);
        }
    }
}

pub proof fn lemma_count_true_none(s: Seq<bool>, n: int)
    requires
        0 <= n,
        forall|i: int| 0 <= i < n ==> !s[i],
    ensures
        count_true(s, n) == 0,
    decreases n,
{
    if n > 0 {
        lemma_count_true_none(s, n - 1);
    }
}

/// Solves rendered puzzles: finds each word's unique location by
/// constraint propagation and reads off the hidden message.
pub struct PuzzleSolver {
    puzzle: Puzzle,
}

impl PuzzleSolver {
    pub closed spec fn spec_puzzle(self) -> Puzzle {
        self.puzzle
    }

    pub closed spec fn wf(self) -> bool {
        self.puzzle.wf()
    }

    /// Wraps an already-parsed puzzle.
    pub fn new(puzzle: Puzzle) -> (r: PuzzleSolver)
        requires
            puzzle.wf(),
        ensures
            r.wf(),
            r.spec_puzzle() == puzzle,
    {
        PuzzleSolver { puzzle }
    }

    /// Parses the plain-text puzzle form; `None` exactly when the grid
    /// section is missing or ragged.
    pub fn from_string(input: String) -> (r: Option<PuzzleSolver>)
        ensures
            r is Some <==> grid_consistent(parse_text(input@).grid),
            r is Some ==> {
                &&& r->0.wf()
                &&& r->0.spec_puzzle().grid.deep_view() == parse_text(input@).grid
                &&& r->0.spec_puzzle().words.deep_view() == parse_text(input@).words
                &&& r->0.spec_puzzle().width == parse_text(input@).grid[0].len()
                &&& r->0.spec_puzzle().height == parse_text(input@).grid.len()
            },
    {
        match Puzzle::from_string(input) {
            Some(p) => Some(PuzzleSolver { puzzle: p }),
            None => None,
        }
    }

    /// Runs the fixed-point resolution: each pass commits every pending
    /// word that has exactly one live candidate and marks its cells; on
    /// success returns the unmarked cells read row-major — the hidden
    /// message — and on a fixed point with words still pending, `None`.
    pub fn solve(&self) -> (r: Option<String>)
        requires
            self.wf(),
        ensures
            r is Some ==> solvable_to(
                self.spec_puzzle().grid.deep_view(),
                self.spec_puzzle().words.deep_view(),
                self.spec_puzzle().width as int,
                self.spec_puzzle().height as int,
                r->0@,
            ),
            r is None ==> solver_stuck(
                self.spec_puzzle().grid.deep_view(),
                self.spec_puzzle().words.deep_view(),
                self.spec_puzzle().width as int,
                self.spec_puzzle().height as int,
            ),
    {
        let p = &self.puzzle;
        let ghost g = p.grid.deep_view();
        let ghost w = p.width as int;
        let ghost h = p.height as int;
        let ghost ws = p.words.deep_view();
        let n = p.words.len();

        let mut marked: Vec<Vec<bool>> = Vec::new();
        let mut y0: usize = 0;
        while y0 < p.height
            invariant
                p.wf(),
                w == p.width as int,
                h == p.height as int,
                y0 <= h,
                marked.deep_view().len() == y0,
                forall|yy: int| 0 <= yy < y0 ==> (#[trigger] marked.deep_view()[yy]).len() == w,
                forall|yy: int, xx: int|
                    0 <= yy < y0 && 0 <= xx < w ==> #[trigger] marked.deep_view()[yy][xx] == false,
            decreases h - y0,
        {
            let mut row: Vec<bool> = Vec::new();
            let mut x0: usize = 0;
            while x0 < p.width
                invariant
                    w == p.width as int,
                    x0 <= w,
                    row@.len() == x0,
                    forall|xx: int| 0 <= xx < x0 ==> #[trigger] row@[xx] == false,
                decreases w - x0,
            {
                row.push(false);
                x0 = x0 + 1;
            }
            let ghost m0 = marked.deep_view();
            marked.push(row);
            proof {
                assert forall|yy: int| 0 <= yy < y0 implies #[trigger] marked.deep_view()[yy]
                    == m0[yy] by {
                    assert(marked@[yy].deep_view() == m0[yy]);
                }
                assert(marked.deep_view()[y0 as int] =~= row@);
            }
            y0 = y0 + 1;
        }

        let mut resolved: Vec<bool> = Vec::new();
        let mut k0: usize = 0;
        while k0 < n
            invariant
                k0 <= n,
                resolved@.len() == k0,
                forall|kk: int| 0 <= kk < k0 ==> #[trigger] resolved@[kk] == false,
            decreases n - k0,
        {
            resolved.push(false);
            k0 = k0 + 1;
        }
        let ghost mut locs: Map<int, (int, int, int)> = Map::empty();
        let mut num_resolved: usize = 0;
        proof {
            lemma_count_true_none(resolved@, n as int);
            assert(solver_inv(g, ws, w, h, locs, marked.deep_view())) by {
                assert forall|cx: int, cy: int| on_grid(w, h, cx, cy) implies (
                #[trigger] marked.deep_view()[cy][cx] <==> covered_by_any(ws, locs, cx, cy)) by {
                    assert(marked.deep_view()[cy][cx] == false);
                    if covered_by_any(ws, locs, cx, cy) {
                        let j = choose|j: int|
                            0 <= j < ws.len() && #[trigger] locs.contains_key(j) && on_path(
                                locs[j].0,
                                locs[j].1,
                                dir_dx(locs[j].2),
                                dir_dy(locs[j].2),
                                ws[j].len() as int,
                                cx,
                                cy,
                            );
                        assert(false);
                    }
                }
            }
        }

        loop
            invariant
                p == &self.puzzle,
                p.wf(),
                g == p.grid.deep_view(),
                w == p.width as int,
                h == p.height as int,
                ws == p.words.deep_view(),
                n == ws.len(),
                resolved@.len() == n,
                solver_inv(g, ws, w, h, locs, marked.deep_view()),
                forall|kk: int| 0 <= kk < n ==> (#[trigger] resolved@[kk] <==> locs.contains_key(kk)),
                num_resolved == count_true(resolved@, n as int),
                num_resolved <= n,
            decreases n - num_resolved,
        {
            let ghost m_pass0 = marked.deep_view();
            let ghost locs_pass0 = locs;
            let ghost nr0 = num_resolved;
            let mut progress = false;
            let mut k: usize = 0;
            while k < n
                invariant
                    p == &self.puzzle,
                    p.wf(),
                    g == p.grid.deep_view(),
                    w == p.width as int,
                    h == p.height as int,
                    ws == p.words.deep_view(),
                    n == ws.len(),
                    k <= n,
                    resolved@.len() == n,
                    solver_inv(g, ws, w, h, locs, marked.deep_view()),
                    forall|kk: int|
                        0 <= kk < n ==> (#[trigger] resolved@[kk] <==> locs.contains_key(kk)),
                    num_resolved == count_true(resolved@, n as int),
                    num_resolved <= n,
                    progress ==> num_resolved > nr0,
                    !progress ==> marked.deep_view() == m_pass0 && locs == locs_pass0
                        && num_resolved == nr0,
                    !progress ==> forall|kk: int|
                        0 <= kk < k && !(#[trigger] resolved@[kk]) ==> !exactly_one_live(
                            g,
                            m_pass0,
                            w,
                            h,
                            ws[kk],
                        ),
                decreases n - k,
            {
                if !resolved[k] {
                    proof {
                        assert(p.words@[k as int]@ == ws[k as int]);
                    }
                    let word = &p.words[k];
                    let (cnt, cx, cy, cd) = find_unique_candidate(p, &marked, word);
                    if cnt == 1 {
                        let ghost m_before = marked.deep_view();
                        let wlen = word.as_str().unicode_len();
                        proof {
                            assert(is_live_cand(g, m_before, w, h, ws[k as int], cx as int, cy as int, cd as int));
                            assert forall|i: int| 0 <= i < wlen implies on_grid(
                                w,
                                h,
                                #[trigger] step_x(cx as int, dir_dx(cd as int), i),
                                step_y(cy as int, dir_dy(cd as int), i),
                            ) by {
                                assert(letter_ok(g, w, h, ws[k as int], cx as int, cy as int, dir_dx(cd as int), dir_dy(cd as int), i));
                            }
                        }
                        mark_path(&mut marked, p.width, p.height, cx, cy, cd, wlen);
                        let ghost resolved0 = resolved@;
                        resolved[k] = true;
                        proof {
                            lemma_count_true_update(resolved0, k as int, true, n as int);
                            lemma_count_true_bounds(resolved0, n as int);
                            if count_true(resolved0, n as int) == n as int {
                                lemma_count_true_all(resolved0, n as int);
                                assert(resolved0[k as int]);
                            }
                        }
                        num_resolved = num_resolved + 1;
                        progress = true;
                        proof {
                            let ghost locs_old = locs;
                            locs = locs.insert(k as int, (cx as int, cy as int, cd as int));
                            let m_after = marked.deep_view();
                            let kk = k as int;
                            let lx = cx as int;
                            let ly = cy as int;
                            let ld = cd as int;
                            let wk = ws[kk];
                            // the marks are exactly the committed cells
                            assert forall|ccx: int, ccy: int| on_grid(w, h, ccx, ccy) implies (
                            #[trigger] m_after[ccy][ccx] <==> covered_by_any(ws, locs, ccx, ccy)) by {
                                if m_after[ccy][ccx] {
                                    if m_before[ccy][ccx] {
                                        let j = choose|j: int|
                                            0 <= j < ws.len() && #[trigger] locs_old.contains_key(j)
                                                && on_path(
                                                locs_old[j].0,
                                                locs_old[j].1,
                                                dir_dx(locs_old[j].2),
                                                dir_dy(locs_old[j].2),
                                                ws[j].len() as int,
                                                ccx,
                                                ccy,
                                            );
                                        assert(locs.contains_key(j) && locs[j] == locs_old[j]);
                                        assert(covered_by_any(ws, locs, ccx, ccy));
                                    } else {
                                        assert(on_path(lx, ly, dir_dx(ld), dir_dy(ld), wk.len() as int, ccx, ccy));
                                        assert(locs.contains_key(kk) && locs[kk] == (lx, ly, ld));
                                        assert(covered_by_any(ws, locs, ccx, ccy));
                                    }
                                }
                                if covered_by_any(ws, locs, ccx, ccy) {
                                    let j = choose|j: int|
                                        0 <= j < ws.len() && #[trigger] locs.contains_key(j)
                                            && on_path(
                                            locs[j].0,
                                            locs[j].1,
                                            dir_dx(locs[j].2),
                                            dir_dy(locs[j].2),
                                            ws[j].len() as int,
                                            ccx,
                                            ccy,
                                        );
                                    if j == kk {
                                        assert(m_after[ccy][ccx]);
                                    } else {
                                        assert(locs_old.contains_key(j) && locs_old[j] == locs[j]);
                                        assert(covered_by_any(ws, locs_old, ccx, ccy));
                                        assert(m_before[ccy][ccx]);
                                        assert(m_after[ccy][ccx]);
                                    }
                                }
                            }
                            // every committed location still reads its word
                            assert forall|j: int| #[trigger] locs.contains_key(j) implies 0 <= j
                                < ws.len() && cand_ok(g, w, h, ws[j], locs[j].0, locs[j].1, locs[j].2) by {
                                if j != kk {
                                    assert(locs_old.contains_key(j));
                                }
                            }
                            // rival readings of committed words stay inside other words' cells
                            assert forall|j: int, rx: int, ry: int, rd: int|
                                locs.contains_key(j) && #[trigger] cand_ok(g, w, h, ws[j], rx, ry, rd)
                                    && !(rx == locs[j].0 && ry == locs[j].1 && rd == locs[j].2) implies
                                rival_covered(ws, locs, j, rx, ry, rd) by {
                                if j != kk {
                                    assert(locs_old.contains_key(j));
                                    assert(locs[j] == locs_old[j]);
                                    assert(rival_covered(ws, locs_old, j, rx, ry, rd));
                                    assert forall|i: int| 0 <= i < ws[j].len() implies covered_by_other(
                                        ws,
                                        locs,
                                        j,
                                        #[trigger] step_x(rx, dir_dx(rd), i),
                                        step_y(ry, dir_dy(rd), i),
                                    ) by {
                                        let sx = step_x(rx, dir_dx(rd), i);
                                        let sy = step_y(ry, dir_dy(rd), i);
                                        assert(covered_by_other(ws, locs_old, j, sx, sy));
                                        let j2 = choose|j2: int|
                                            0 <= j2 < ws.len() && j2 != j && #[trigger] locs_old.contains_key(j2)
                                                && on_path(
                                                locs_old[j2].0,
                                                locs_old[j2].1,
                                                dir_dx(locs_old[j2].2),
                                                dir_dy(locs_old[j2].2),
                                                ws[j2].len() as int,
                                                sx,
                                                sy,
                                            );
                                        assert(locs.contains_key(j2) && locs[j2] == locs_old[j2]);
                                    }
                                } else {
                                    // a rival reading of the word just resolved was not live,
                                    // so its cells were all marked, hence covered by words
                                    // committed earlier -- none of which is this word
                                    assert(!(rx == lx && ry == ly && rd == ld));
                                    assert(!is_live_cand(g, m_before, w, h, wk, rx, ry, rd)) by {
                                        if is_live_cand(g, m_before, w, h, wk, rx, ry, rd) {
                                            assert(rx == lx && ry == ly && rd == ld);
                                        }
                                    }
                                    assert(!covers_unmarked(m_before, wk.len() as int, rx, ry, rd));
                                    assert forall|i: int| 0 <= i < ws[j].len() implies covered_by_other(
                                        ws,
                                        locs,
                                        j,
                                        #[trigger] step_x(rx, dir_dx(rd), i),
                                        step_y(ry, dir_dy(rd), i),
                                    ) by {
                                        let sx = step_x(rx, dir_dx(rd), i);
                                        let sy = step_y(ry, dir_dy(rd), i);
                                        assert(letter_ok(g, w, h, wk, rx, ry, dir_dx(rd), dir_dy(rd), i));
                                        assert(on_grid(w, h, sx, sy));
                                        assert(m_before[sy][sx]);
                                        assert(covered_by_any(ws, locs_old, sx, sy));
                                        let j2 = choose|j2: int|
                                            0 <= j2 < ws.len() && #[trigger] locs_old.contains_key(j2)
                                                && on_path(
                                                locs_old[j2].0,
                                                locs_old[j2].1,
                                                dir_dx(locs_old[j2].2),
                                                dir_dy(locs_old[j2].2),
                                                ws[j2].len() as int,
                                                sx,
                                                sy,
                                            );
                                        assert(j2 != kk);
                                        assert(locs.contains_key(j2) && locs[j2] == locs_old[j2]);
                                    }
                                }
                            }
                            assert(solver_inv(g, ws, w, h, locs, marked.deep_view()));
                        }
                    } else {
                        proof {
                            assert(!exactly_one_live(g, marked.deep_view(), w, h, ws[k as int]));
                        }
                    }
                }
                k = k + 1;
            }
            if num_resolved == n {
                proof {
                    lemma_count_true_all(resolved@, n as int);
                }
                let mut buf: Vec<char> = Vec::new();
                let ghost m = marked.deep_view();
                let mut yy: usize = 0;
                while yy < p.height
                    invariant
                        p.wf(),
                        g == p.grid.deep_view(),
                        w == p.width as int,
                        h == p.height as int,
                        m == marked.deep_view(),
                        marks_wf(m, w, h),
                        yy <= h,
                        buf@ == unmarked_text(g, m, yy as int),
                    decreases h - yy,
                {
                    let mut xx: usize = 0;
                    while xx < p.width
                        invariant
                            p.wf(),
                            g == p.grid.deep_view(),
                            w == p.width as int,
                            h == p.height as int,
                            m == marked.deep_view(),
                            marks_wf(m, w, h),
                            yy < h,
                            xx <= w,
                            buf@ == unmarked_text(g, m, yy as int) + unmarked_row(
                                g[yy as int],
                                m[yy as int],
                                xx as int,
                            ),
                        decreases w - xx,
                    {
                        proof {
                            assert(marked@[yy as int]@[xx as int] == m[yy as int][xx as int]);
                            assert(p.grid@[yy as int]@[xx as int] == g[yy as int][xx as int]);
                        }
                        if !marked[yy][xx] {
                            buf.push(p.grid[yy][xx]);
                        }
                        proof {
                            assert(buf@ =~= unmarked_text(g, m, yy as int) + unmarked_row(
                                g[yy as int],
                                m[yy as int],
                                xx + 1,
                            ));
                        }
                        xx = xx + 1;
                    }
                    proof {
                        assert(buf@ =~= unmarked_text(g, m, yy + 1));
                    }
                    yy = yy + 1;
                }
                let out = crate::support::chars_to_string(&buf);
                proof {
                    assert forall|kk: int| 0 <= kk < ws.len() implies #[trigger] locs.contains_key(
                        kk,
                    ) by {
                        assert(resolved@[kk]);
                    }
                    assert(solver_inv(g, ws, w, h, locs, m));
                    assert(out@ == unmarked_text(g, m, h));
                    assert(solution_cert(g, ws, w, h, locs, m, out@));
                    assert(solvable_to(g, ws, w, h, out@));
                }
                return Some(out);
            }
            if !progress {
                proof {
                    lemma_count_true_missing(resolved@, n as int);
                    let miss = choose|i: int| 0 <= i < n && !resolved@[i];
                    assert(!locs.contains_key(miss));
                    assert forall|kk: int|
                        0 <= kk < ws.len() && !(#[trigger] locs.contains_key(kk)) implies
                        !exactly_one_live(g, marked.deep_view(), w, h, ws[kk]) by {
                        assert(!resolved@[kk]);
                        assert(marked.deep_view() == m_pass0);
                    }
                    assert(stuck_cert(g, ws, w, h, locs, marked.deep_view()));
                    assert(solver_stuck(g, ws, w, h));
                }
                return None;
            }
        }
    }
}

/// Count of marked cells in the first `y` rows.
pub open spec fn count_marked_rows(m: Seq<Seq<bool>>, y: int) -> int
    decreases y,
{
    if y <= 0 {
        0
    } else {
        count_marked_rows(m, y - 1) + count_true(m[y - 1], m[y - 1].len() as int)
    }
}

pub proof fn lemma_unmarked_row_len(row: Seq<char>, mrow: Seq<bool>, n: int)
    requires
        0 <= n,
    ensures
        unmarked_row(row, mrow, n).len() + count_true(mrow, n) == n,
    decreases n,
{
    if n > 0 {
        lemma_unmarked_row_len(row, mrow, n - 1);
    }
}

pub proof fn lemma_unmarked_text_len(g: Seq<Seq<char>>, m: Seq<Seq<bool>>, w: int, y: int)
    requires
        0 <= y <= g.len(),
        forall|yy: int| 0 <= yy < g.len() ==> (#[trigger] g[yy]).len() == w,
        forall|yy: int| 0 <= yy < g.len() ==> (#[trigger] m[yy]).len() == w,
        w >= 0,
    ensures
        unmarked_text(g, m, y).len() + count_marked_rows(m, y) == y * w,
    decreases y,
{
    if y > 0 {
        lemma_unmarked_text_len(g, m, w, y - 1);
        lemma_unmarked_row_len(g[y - 1], m[y - 1], g[y - 1].len() as int);
        assert(y * w == (y - 1) * w + w) by (nonlinear_arith);
    } else {
        assert(0int * w == 0) by (nonlinear_arith);
    }
}

/// Completeness of an accepted solution: the marks are exactly the cells
/// covered by the words' committed locations, and the decoded message is
/// as long as the grid leaves cells uncovered — decoded length plus
/// covered-cell count is the whole grid.
pub proof fn lemma_solution_completeness(
    g: Seq<Seq<char>>,
    ws: Seq<Seq<char>>,
    w: int,
    h: int,
    locs: Map<int, (int, int, int)>,
    m: Seq<Seq<bool>>,
    decoded: Seq<char>,
)
    requires
        crate::geometry::grid_wf(g, w, h),
        solution_cert(g, ws, w, h, locs, m, decoded),
    ensures
        forall|cx: int, cy: int|
            on_grid(w, h, cx, cy) ==> (#[trigger] m[cy][cx] <==> covered_by_any(ws, locs, cx, cy)),
        decoded.len() + count_marked_rows(m, h) == w * h,
{
    lemma_unmarked_text_len(g, m, w, h);
    assert(h * w == w * h) by (nonlinear_arith);
}

/// Uniqueness of an accepted solution: a reading of word `k` that covers
/// at least one cell lying on no other word's committed location must be
/// word `k`'s own committed location.
pub proof fn lemma_solution_uniqueness(
    g: Seq<Seq<char>>,
    ws: Seq<Seq<char>>,
    w: int,
    h: int,
    locs: Map<int, (int, int, int)>,
    m: Seq<Seq<bool>>,
    decoded: Seq<char>,
    k: int,
    x: int,
    y: int,
    d: int,
)
    requires
        solution_cert(g, ws, w, h, locs, m, decoded),
        0 <= k < ws.len(),
        cand_ok(g, w, h, ws[k], x, y, d),
        exists|i: int|
            0 <= i < ws[k].len() && !covered_by_other(
                ws,
                locs,
                k,
                #[trigger] step_x(x, dir_dx(d), i),
                step_y(y, dir_dy(d), i),
            ),
    ensures
        locs.contains_key(k),
        x == locs[k].0 && y == locs[k].1 && d == locs[k].2,
{
    assert(locs.contains_key(k));
    if !(x == locs[k].0 && y == locs[k].1 && d == locs[k].2) {
        assert(rival_covered(ws, locs, k, x, y, d));
        let i = choose|i: int|
            0 <= i < ws[k].len() && !covered_by_other(
                ws,
                locs,
                k,
                #[trigger] step_x(x, dir_dx(d), i),
                step_y(y, dir_dy(d), i),
            );
        assert(covered_by_other(ws, locs, k, step_x(x, dir_dx(d), i), step_y(y, dir_dy(d), i)));
    }
}

/// Idempotence of marking: laying a word's path over marks that already
/// cover every one of its cells changes no cell of the mask, so a repeated
/// marking step leaves the solver's state — and everything derived from
/// it — unchanged.
pub proof fn lemma_marking_idempotent(
    m: Seq<Seq<bool>>,
    m2: Seq<Seq<bool>>,
    w: int,
    h: int,
    x: int,
    y: int,
    d: int,
    len: int,
)
    requires
        marks_wf(m, w, h),
        marks_wf(m2, w, h),
        0 <= d < 8,
        forall|i: int|
            0 <= i < len ==> on_grid(
                w,
                h,
                #[trigger] step_x(x, dir_dx(d), i),
                step_y(y, dir_dy(d), i),
            ),
        forall|i: int|
            0 <= i < len ==> m[step_y(y, dir_dy(d), i)][#[trigger] step_x(x, dir_dx(d), i)],
        forall|cx: int, cy: int|
            on_grid(w, h, cx, cy) ==> #[trigger] m2[cy][cx] == (m[cy][cx] || on_path(
                x,
                y,
                dir_dx(d),
                dir_dy(d),
                len,
                cx,
                cy,
            )),
    ensures
        m2 == m,
{
    assert forall|cy: int| 0 <= cy < h implies #[trigger] m2[cy] == m[cy] by {
        assert forall|cx: int| 0 <= cx < w implies #[trigger] m2[cy][cx] == m[cy][cx] by {
            if on_path(x, y, dir_dx(d), dir_dy(d), len, cx, cy) {
                let i = choose|i: int|
                    0 <= i < len && cx == #[trigger] step_x(x, dir_dx(d), i) && cy == step_y(
                        y,
                        dir_dy(d),
                        i,
                    );
                assert(m[cy][cx]);
            }
        }
        assert(m2[cy] =~= m[cy]);
    }
    assert(m2 =~= m);
}

} // verus!
