use vstd::prelude::*;

use crate::dictionary::Dictionary;
use crate::partial_puzzle::count_blanks;
use crate::partial_puzzle::lemma_cell_index_bound;
use crate::partial_puzzle::render_cell;
use crate::partial_puzzle::render_puzzle;
use crate::partial_puzzle::render_row;
use crate::partial_puzzle::render_rows;
use crate::partial_puzzle::words_text;
use crate::partial_puzzle::PartialPuzzle;
use crate::puzzle::finish_line;
use crate::puzzle::grid_consistent;
use crate::puzzle::is_space_char;
use crate::puzzle::lemma_parse_prefix_is_run;
use crate::puzzle::lemma_parse_run_append;
use crate::puzzle::lemma_parse_run_line;
use crate::puzzle::parse_init;
use crate::puzzle::parse_run;
use crate::puzzle::parse_text;
use crate::puzzle::ParseState;
use crate::puzzle::Puzzle;
use crate::puzzle_solver::count_marked_rows;
use crate::puzzle_solver::lemma_solution_completeness;
use crate::puzzle_solver::solution_cert;
use crate::puzzle_solver::solvable_to;
use crate::puzzle_solver::unmarked_row;
use crate::puzzle_solver::unmarked_text;
use crate::puzzle_solver::PuzzleSolver;

verus! {

/// A generated puzzle is sound: its text parses back to a consistent
/// grid whose word set the solver resolves uniquely, decoding exactly the
/// hidden message.
pub open spec fn generated_ok(text: Seq<char>, message: Seq<char>) -> bool {
    let pt = parse_text(text);
    &&& grid_consistent(pt.grid)
    &&& solvable_to(pt.grid, pt.words, pt.grid[0].len() as int, pt.grid.len() as int, message)
}

/// The message may stand in rendered grid rows: none of its characters is
/// whitespace, a newline, or the comment marker.
pub open spec fn message_renderable(msg: Seq<char>) -> bool {
    forall|i: int|
        0 <= i < msg.len() ==> !is_space_char(#[trigger] msg[i]) && msg[i] != '\n' && msg[i] != '#'
}

/// Completeness of an accepted puzzle: some certificate commits every
/// word to a location, marks exactly the committed cells, and leaves
/// uncovered exactly as many cells as the hidden message has characters.
pub proof fn lemma_generated_message_fits(text: Seq<char>, message: Seq<char>)
    requires
        generated_ok(text, message),
    ensures
        ({
            let pt = parse_text(text);
            let w = pt.grid[0].len() as int;
            let h = pt.grid.len() as int;
            exists|locs: Map<int, (int, int, int)>, m: Seq<Seq<bool>>|
                #[trigger] solution_cert(pt.grid, pt.words, w, h, locs, m, message)
                    && message.len() + count_marked_rows(m, h) == w * h
        }),
{
    let pt = parse_text(text);
    let w = pt.grid[0].len() as int;
    let h = pt.grid.len() as int;
    let (locs, m) = choose|locs: Map<int, (int, int, int)>, m: Seq<Seq<bool>>|
        #[trigger] solution_cert(pt.grid, pt.words, w, h, locs, m, message);
    assert(crate::geometry::grid_wf(pt.grid, w, h));
    lemma_solution_completeness(pt.grid, pt.words, w, h, locs, m, message);
    assert(solution_cert(pt.grid, pt.words, w, h, locs, m, message) && message.len()
        + count_marked_rows(m, h) == w * h);
}

/// In an all-blank grid the rendered cell is the message character at the
/// cell's row-major index.
proof fn lemma_blank_render_cell(g: Seq<Seq<char>>, msg: Seq<char>, w: int, h: int, x: int, y: int)
    requires
        crate::geometry::grid_wf(g, w, h),
        forall|yy: int, xx: int| 0 <= yy < h && 0 <= xx < w ==> #[trigger] g[yy][xx] == ' ',
        msg.len() == h * w,
        0 <= y < h,
        0 <= x < w,
    ensures
        0 <= y * w + x < msg.len(),
        render_cell(g, msg, x, y) == msg[y * w + x],
{
    crate::partial_puzzle::lemma_count_blanks_full(g, w, y);
    crate::partial_puzzle::lemma_count_blank_row_full(g[y], x);
    lemma_cell_index_bound(y, x, w, h);
    assert(y * w >= 0) by (nonlinear_arith)
        requires
            y >= 0,
            w >= 0,
    ;
}

/// Parsing the rendered rows of an all-blank grid yields exactly those
/// rows, with no words and the separator not yet seen.
proof fn lemma_parse_blank_rows(g: Seq<Seq<char>>, msg: Seq<char>, w: int, h: int, y: int)
    requires
        crate::geometry::grid_wf(g, w, h),
        forall|yy: int, xx: int| 0 <= yy < h && 0 <= xx < w ==> #[trigger] g[yy][xx] == ' ',
        msg.len() == h * w,
        message_renderable(msg),
        0 <= y <= h,
    ensures
        parse_run(parse_init(), render_rows(g, msg, w, y)) == (ParseState {
            cur: Seq::empty(),
            grid: Seq::new(y as nat, |yy: int| render_row(g, msg, w, yy)),
            words: Seq::empty(),
            in_words: false,
        }),
    decreases y,
{
    if y == 0 {
        assert(render_rows(g, msg, w, 0) =~= Seq::<char>::empty());
        assert(Seq::new(0, |yy: int| render_row(g, msg, w, yy)) =~= Seq::<Seq<char>>::empty());
        assert(parse_run(parse_init(), Seq::<char>::empty()) == parse_init());
    } else {
        lemma_parse_blank_rows(g, msg, w, h, y - 1);
        let st_prev = ParseState {
            cur: Seq::empty(),
            grid: Seq::new((y - 1) as nat, |yy: int| render_row(g, msg, w, yy)),
            words: Seq::empty(),
            in_words: false,
        };
        let row = render_row(g, msg, w, y - 1);
        assert(render_rows(g, msg, w, y) =~= render_rows(g, msg, w, y - 1) + (row + seq!['\n']));
        lemma_parse_run_append(parse_init(), render_rows(g, msg, w, y - 1), row + seq!['\n']);
        assert forall|i: int| 0 <= i < row.len() implies #[trigger] row[i] != '\n'
            && !is_space_char(row[i]) by {
            lemma_blank_render_cell(g, msg, w, h, i, y - 1);
            assert(row[i] == msg[(y - 1) * w + i]);
        }
        lemma_parse_run_line(st_prev, row);
        assert(st_prev.cur + row =~= row);
        let st_line = ParseState { cur: row, ..st_prev };
        assert(parse_run(parse_init(), render_rows(g, msg, w, y)) == finish_line(st_line));
        assert(row.len() == w >= 1);
        assert(row[0] != '#') by {
            lemma_blank_render_cell(g, msg, w, h, 0, y - 1);
        }
        assert(finish_line(st_line).grid =~= Seq::new(y as nat, |yy: int| render_row(g, msg, w, yy)));
    }
}

/// Parsing the full rendered text of a complete all-blank grid (the
/// message fills every cell; no words were placed) recovers the rendered
/// rows exactly, with an empty word list.
proof fn lemma_parse_blank_text(g: Seq<Seq<char>>, msg: Seq<char>, w: int, h: int)
    requires
        crate::geometry::grid_wf(g, w, h),
        forall|yy: int, xx: int| 0 <= yy < h && 0 <= xx < w ==> #[trigger] g[yy][xx] == ' ',
        msg.len() == h * w,
        message_renderable(msg),
    ensures
        ({
            let pt = parse_text(render_puzzle(g, msg, Seq::<Seq<char>>::empty(), w, h));
            &&& pt.grid == Seq::new(h as nat, |yy: int| render_row(g, msg, w, yy))
            &&& pt.words == Seq::<Seq<char>>::empty()
            &&& grid_consistent(pt.grid)
            &&& pt.grid.len() == h
            &&& pt.grid[0].len() == w
            &&& forall|yy: int, xx: int|
                0 <= yy < h && 0 <= xx < w ==> #[trigger] pt.grid[yy][xx] == msg[yy * w + xx]
        }),
{
    let text = render_puzzle(g, msg, Seq::<Seq<char>>::empty(), w, h);
    assert(words_text(Seq::<Seq<char>>::empty(), 0) =~= Seq::<char>::empty());
    assert(text =~= render_rows(g, msg, w, h) + seq!['\n']);
    lemma_parse_blank_rows(g, msg, w, h, h);
    let st_rows = ParseState {
        cur: Seq::empty(),
        grid: Seq::new(h as nat, |yy: int| render_row(g, msg, w, yy)),
        words: Seq::empty(),
        in_words: false,
    };
    lemma_parse_run_append(parse_init(), render_rows(g, msg, w, h), seq!['\n']);
    assert(Seq::<char>::empty() + seq!['\n'] =~= seq!['\n']);
    lemma_parse_run_line(st_rows, Seq::<char>::empty());
    assert(st_rows.cur + Seq::<char>::empty() =~= st_rows.cur);
    assert(parse_run(parse_init(), text) == finish_line(st_rows));
    lemma_parse_prefix_is_run(text, text.len() as int);
    assert(text.subrange(0, text.len() as int) =~= text);
    assert(parse_text(text) == finish_line(finish_line(st_rows)));
    let pt = parse_text(text);
    assert(pt.grid == st_rows.grid && pt.words == Seq::<Seq<char>>::empty());
    assert forall|yy: int, xx: int| 0 <= yy < h && 0 <= xx < w implies #[trigger] pt.grid[yy][xx]
        == msg[yy * w + xx] by {
        lemma_blank_render_cell(g, msg, w, h, xx, yy);
    }
    assert forall|yy: int| 0 <= yy < pt.grid.len() implies (#[trigger] pt.grid[yy]).len()
        == pt.grid[0].len() by {}
}

/// With no marks at all, one row's unmarked text is the row itself.
proof fn lemma_unmarked_row_all_false(row: Seq<char>, mrow: Seq<bool>, n: int)
    requires
        0 <= n <= row.len(),
        forall|j: int| 0 <= j < n ==> !(#[trigger] mrow[j]),
    ensures
        unmarked_row(row, mrow, n) == row.subrange(0, n),
    decreases n,
{
    if n > 0 {
        lemma_unmarked_row_all_false(row, mrow, n - 1);
        assert(unmarked_row(row, mrow, n) =~= row.subrange(0, n - 1) + seq![row[n - 1]]);
        assert(row.subrange(0, n) =~= row.subrange(0, n - 1) + seq![row[n - 1]]);
    } else {
        assert(row.subrange(0, 0) =~= Seq::<char>::empty());
    }
}

/// A grid whose rows spell the message in row-major order, with nothing
/// marked, decodes to the message prefix the rows cover.
proof fn lemma_message_grid_decodes(
    gr: Seq<Seq<char>>,
    m: Seq<Seq<bool>>,
    msg: Seq<char>,
    w: int,
    h: int,
    y: int,
)
    requires
        w >= 1,
        h >= 1,
        msg.len() == h * w,
        gr.len() == h,
        forall|yy: int| 0 <= yy < h ==> (#[trigger] gr[yy]).len() == w,
        m.len() == h,
        forall|yy: int| 0 <= yy < h ==> (#[trigger] m[yy]).len() == w,
        forall|yy: int, xx: int|
            0 <= yy < h && 0 <= xx < w ==> #[trigger] gr[yy][xx] == msg[yy * w + xx],
        forall|yy: int, xx: int| 0 <= yy < h && 0 <= xx < w ==> !(#[trigger] m[yy][xx]),
        0 <= y <= h,
    ensures
        unmarked_text(gr, m, y) == msg.subrange(0, y * w),
    decreases y,
{
    assert(y * w >= 0 && y * w <= h * w) by (nonlinear_arith)
        requires
            0 <= y <= h,
            w >= 1,
    ;
    if y == 0 {
        assert(msg.subrange(0, 0) =~= Seq::<char>::empty());
    } else {
        lemma_message_grid_decodes(gr, m, msg, w, h, y - 1);
        assert forall|j: int| 0 <= j < w implies !(#[trigger] m[y - 1][j]) by {}
        lemma_unmarked_row_all_false(gr[y - 1], m[y - 1], w);
        assert(gr[y - 1].subrange(0, w) =~= gr[y - 1]);
        assert((y - 1) * w + w == y * w) by (nonlinear_arith);
        assert((y - 1) * w >= 0) by (nonlinear_arith)
            requires
                y >= 1,
                w >= 1,
        ;
        assert(msg.subrange(0, y * w) =~= msg.subrange(0, (y - 1) * w) + gr[y - 1]);
        assert(unmarked_text(gr, m, y) =~= msg.subrange(0, (y - 1) * w) + gr[y - 1]);
    }
}

/// Repeatedly builds candidate grids and accepts the first one whose
/// rendered text parses back with the intended dimensions, draws all its
/// word lines from the dictionary, and is decoded by the solver back to
/// `message`; each attempt starts from a fresh empty grid with fresh
/// random draws. Gives up after `max_attempts` fruitless attempts rather
/// than looping forever. When the message fills the whole grid no word
/// needs placing and the first attempt is sure to be accepted.
pub fn generate(
    width: usize,
    height: usize,
    message: String,
    dictionary: &Dictionary,
    max_attempts: usize,
) -> (r: Option<String>)
    requires
        width >= 1,
        height >= 1,
        width * height <= usize::MAX,
        message@.len() <= width * height,
        dictionary.wf(),
        dictionary.spec_words().len() >= 1,
    ensures
        r is Some ==> ({
            let pt = parse_text((r->0)@);
            &&& generated_ok((r->0)@, message@)
            &&& pt.grid.len() == height
            &&& pt.grid[0].len() == width
            &&& forall|k: int|
                0 <= k < pt.words.len() ==> dictionary.spec_words().contains(#[trigger] pt.words[k])
        }),
        max_attempts == 0 ==> r is None,
        max_attempts >= 1 && message@.len() == width * height && message_renderable(message@)
            ==> r is Some,
{
    let ghost full: bool = max_attempts >= 1 && message@.len() == width * height
        && message_renderable(message@);
    let dict_len = dictionary.len();
    let mut attempt: usize = 0;
    while attempt < max_attempts
        invariant
            width >= 1,
            height >= 1,
            width * height <= usize::MAX,
            message@.len() <= width * height,
            dictionary.wf(),
            dictionary.spec_words().len() >= 1,
            dict_len == dictionary.spec_words().len(),
            attempt <= max_attempts,
            full == (max_attempts >= 1 && message@.len() == width * height && message_renderable(
                message@,
            )),
            full ==> attempt == 0,
        decreases max_attempts - attempt,
    {
        let mut partial_puzzle = PartialPuzzle::create(width, height, message.clone());
        let ghost pp0 = partial_puzzle;
        let mut last_word_count = partial_puzzle.word_count();
        let mut passes: usize = 0;
        while passes < dict_len
            invariant
                partial_puzzle.wf(),
                partial_puzzle.spec_message() == message@,
                dictionary.wf(),
                dictionary.spec_words().len() >= 1,
                dict_len == dictionary.spec_words().len(),
                passes <= dict_len,
                full == (max_attempts >= 1 && message@.len() == width * height
                    && message_renderable(message@)),
                full ==> partial_puzzle == pp0,
                count_blanks(pp0.spec_grid()) == width * height,
            decreases dict_len - passes,
        {
            if partial_puzzle.is_complete() {
                break ;
            }
            proof {
                partial_puzzle.lemma_wf_consequences();
                if full {
                    assert(count_blanks(partial_puzzle.spec_grid()) == message@.len());
                    assert(false);
                }
            }
            let mut words = dictionary.iter();
            let mut done = false;
            while !done
                invariant
                    partial_puzzle.wf(),
                    partial_puzzle.spec_message() == message@,
                    dictionary.wf(),
                    dictionary.spec_words().len() >= 1,
                    words.spec_dict() == *dictionary,
                    0 <= words.spec_offset() < dictionary.spec_words().len(),
                    0 <= words.spec_index() <= dictionary.spec_words().len(),
                    !done ==> count_blanks(partial_puzzle.spec_grid()) >= 1,
                    !full,
                decreases dictionary.spec_words().len() - words.spec_index() + (if done {
                    0int
                } else {
                    1int
                }),
            {
                let maybe_word = words.next();
                match maybe_word {
                    None => {
                        done = true;
                    },
                    Some(word) => {
                        proof {
                            assert(words.spec_index() >= 1);
                            let wi = crate::dictionary::wrapped_index(
                                words.spec_index() - 1,
                                words.spec_offset(),
                                dictionary.spec_words().len() as int,
                            );
                            assert(0 <= wi < dictionary.spec_words().len());
                            assert(dictionary.spec_words()[wi].len() >= 1);
                            assert(crate::partial_puzzle::no_blank_chars(
                                dictionary.spec_words()[wi],
                            ));
                        }
                        if partial_puzzle.try_insert_word(word) {
                            done = true;
                        }
                    },
                }
            }
            if partial_puzzle.word_count() == last_word_count {
                break ;
            }
            last_word_count = partial_puzzle.word_count();
            passes = passes + 1;
        }
        if partial_puzzle.is_complete() {
            let puzzle_string = partial_puzzle.get_puzzle_string();
            proof {
                if full {
                    assert(partial_puzzle == pp0);
                    pp0.lemma_wf_consequences();
                    assert((height as int) * (width as int) == (width as int) * (height as int))
                        by (nonlinear_arith);
                    lemma_parse_blank_text(
                        pp0.spec_grid(),
                        message@,
                        width as int,
                        height as int,
                    );
                    assert(pp0.spec_words() =~= Seq::<Seq<char>>::empty());
                    assert(puzzle_string@ == render_puzzle(
                        pp0.spec_grid(),
                        message@,
                        Seq::<Seq<char>>::empty(),
                        width as int,
                        height as int,
                    ));
                }
            }
            match Puzzle::from_string(puzzle_string.clone()) {
                Some(parsed) => {
                    let ghost pv = parsed;
                    let dims_ok = parsed.width == width && parsed.height == height;
                    proof {
                        if full && !dims_ok {
                            assert(pv.width == width && pv.height == height);
                            assert(false);
                        }
                    }
                    if dims_ok {
                        let word_total = parsed.words.len();
                        let mut all_in = true;
                        let mut wk: usize = 0;
                        while wk < word_total
                            invariant
                                word_total == pv.words.deep_view().len(),
                                parsed.words.deep_view() == pv.words.deep_view(),
                                dictionary.wf(),
                                wk <= word_total,
                                word_total == 0 ==> all_in,
                                all_in ==> forall|j: int|
                                    0 <= j < wk ==> dictionary.spec_words().contains(
                                        #[trigger] pv.words.deep_view()[j],
                                    ),
                            decreases word_total - wk,
                        {
                            proof {
                                assert(parsed.words@[wk as int]@ == pv.words.deep_view()[
                                wk as int]);
                            }
                            if !dictionary.contains_word(&parsed.words[wk]) {
                                all_in = false;
                            }
                            wk = wk + 1;
                        }
                        proof {
                            if full && !all_in {
                                assert(word_total == 0);
                                assert(false);
                            }
                        }
                        if all_in {
                            let solver = PuzzleSolver::new(parsed);
                            match solver.solve() {
                                Some(decoded) => {
                                    proof {
                                        if full {
                                            let pt = parse_text(puzzle_string@);
                                            let (locs, m) = choose|
                                                locs: Map<int, (int, int, int)>,
                                                m: Seq<Seq<bool>>,
                                            |
                                                #[trigger] solution_cert(
                                                    pt.grid,
                                                    pt.words,
                                                    width as int,
                                                    height as int,
                                                    locs,
                                                    m,
                                                    decoded@,
                                                );
                                            assert forall|yy: int, xx: int|
                                                0 <= yy < height && 0 <= xx < width implies !(
                                            #[trigger] m[yy][xx]) by {
                                                if m[yy][xx] {
                                                    let j = choose|j: int|
                                                        0 <= j < pt.words.len()
                                                            && #[trigger] locs.contains_key(j)
                                                            && crate::geometry::on_path(
                                                            locs[j].0,
                                                            locs[j].1,
                                                            crate::geometry::dir_dx(locs[j].2),
                                                            crate::geometry::dir_dy(locs[j].2),
                                                            pt.words[j].len() as int,
                                                            xx,
                                                            yy,
                                                        );
                                                }
                                            }
                                            lemma_message_grid_decodes(
                                                pt.grid,
                                                m,
                                                message@,
                                                width as int,
                                                height as int,
                                                height as int,
                                            );
                                            assert(message@.subrange(
                                                0,
                                                (height as int) * (width as int),
                                            ) =~= message@);
                                            assert(decoded@ == message@);
                                        }
                                    }
                                    if decoded == message {
                                        return Some(puzzle_string);
                                    }
                                },
                                None => {
                                    proof {
                                        if full {
                                            let pt = parse_text(puzzle_string@);
                                            assert(crate::puzzle_solver::solver_stuck(
                                                pt.grid,
                                                pt.words,
                                                width as int,
                                                height as int,
                                            ));
                                            let (locs, m) = choose|
                                                locs: Map<int, (int, int, int)>,
                                                m: Seq<Seq<bool>>,
                                            |
                                                crate::puzzle_solver::stuck_cert(
                                                    pt.grid,
                                                    pt.words,
                                                    width as int,
                                                    height as int,
                                                    locs,
                                                    m,
                                                );
                                            let bad = choose|k: int|
                                                0 <= k < pt.words.len() && !(
                                                #[trigger] locs.contains_key(k));
                                            assert(false);
                                        }
                                    }
                                },
                            }
                        }
                    }
                },
                None => {
                    proof {
                        if full {
                            assert(grid_consistent(parse_text(puzzle_string@).grid));
                            assert(false);
                        }
                    }
                },
            }
        } else {
            proof {
                if full {
                    partial_puzzle.lemma_wf_consequences();
                    assert(count_blanks(partial_puzzle.spec_grid()) == message@.len());
                    assert(false);
                }
            }
        }
        proof {
            if full {
                assert(false);
            }
        }
        attempt = attempt + 1;
    }
    proof {
        if full {
            assert(attempt == 0 && attempt >= max_attempts && max_attempts >= 1);
        }
    }
    None
}

} // verus!
