use vstd::prelude::*;

use crate::geometry::grid_wf;
use crate::geometry::on_grid;
use crate::support::chars_to_string;

verus! {

/// A starting cell `(x, y)` plus a unit direction vector `(dx, dy)`; a word
/// occupies the cells stepped from the start by the direction vector.
pub struct Location {
    pub x: usize,
    pub y: usize,
    pub dx: isize,
    pub dy: isize,
}

/// A parsed puzzle: a rectangular grid of characters and the set of words to
/// find, kept as a duplicate-free list.
pub struct Puzzle {
    pub grid: Vec<Vec<char>>,
    pub words: Vec<String>,
    pub width: usize,
    pub height: usize,
}

/// Characters stripped from within a line before it is used.
pub open spec fn is_space_char(c: char) -> bool {
    c == ' ' || c == '\t' || c == '\r'
}

/// The parser state after some prefix of the input: the stripped characters
/// of the line being read, the grid rows and distinct word lines finished so
/// far, and whether the blank separator line has been passed.
pub ghost struct ParseState {
    pub cur: Seq<char>,
    pub grid: Seq<Seq<char>>,
    pub words: Seq<Seq<char>>,
    pub in_words: bool,
}

/// Ends the current line: an empty line switches from grid rows to words, a
/// `#` comment line is dropped, and otherwise the line joins the grid or,
/// when not seen before, the word list.
pub open spec fn finish_line(st: ParseState) -> ParseState {
    if st.cur.len() == 0 {
        ParseState { cur: Seq::empty(), in_words: true, ..st }
    } else if st.cur[0] == '#' {
        ParseState { cur: Seq::empty(), ..st }
    } else if !st.in_words {
        ParseState { cur: Seq::empty(), grid: st.grid.push(st.cur), ..st }
    } else if st.words.contains(st.cur) {
        ParseState { cur: Seq::empty(), ..st }
    } else {
        ParseState { cur: Seq::empty(), words: st.words.push(st.cur), ..st }
    }
}

pub open spec fn parse_step(st: ParseState, c: char) -> ParseState {
    if c == '\n' {
        finish_line(st)
    } else if is_space_char(c) {
        st
    } else {
        ParseState { cur: st.cur.push(c), ..st }
    }
}

pub open spec fn parse_init() -> ParseState {
    ParseState { cur: Seq::empty(), grid: Seq::empty(), words: Seq::empty(), in_words: false }
}

/// The parser state after the first `n` characters of `s`.
pub open spec fn parse_prefix(s: Seq<char>, n: int) -> ParseState
    decreases n,
{
    if n <= 0 {
        parse_init()
    } else {
        parse_step(parse_prefix(s, n - 1), s[n - 1])
    }
}

/// The grid rows and word lines of the whole input (the segment after the
/// last newline counts as a line of its own).
pub open spec fn parse_text(s: Seq<char>) -> ParseState {
    finish_line(parse_prefix(s, s.len() as int))
}

/// No two entries of `ws` are equal.
pub open spec fn distinct_seqs(ws: Seq<Seq<char>>) -> bool {
    forall|i: int, j: int| 0 <= i < j < ws.len() ==> #[trigger] ws[i] !== #[trigger] ws[j]
}

pub open spec fn all_nonempty(ws: Seq<Seq<char>>) -> bool {
    forall|i: int| 0 <= i < ws.len() ==> (#[trigger] ws[i]).len() >= 1
}

/// Invariants the parser keeps: finished lines are nonempty, and the word
/// list holds no duplicates.
pub proof fn lemma_parse_prefix_invariants(s: Seq<char>, n: int)
    requires
        0 <= n <= s.len(),
    ensures
        distinct_seqs(parse_prefix(s, n).words),
        all_nonempty(parse_prefix(s, n).words),
        all_nonempty(parse_prefix(s, n).grid),
    decreases n,
{
    if n > 0 {
        lemma_parse_prefix_invariants(s, n - 1);
        lemma_finish_line_invariants(parse_prefix(s, n - 1));
    }
}

pub proof fn lemma_finish_line_invariants(st: ParseState)
    requires
        distinct_seqs(st.words),
        all_nonempty(st.words),
        all_nonempty(st.grid),
    ensures
        distinct_seqs(finish_line(st).words),
        all_nonempty(finish_line(st).words),
        all_nonempty(finish_line(st).grid),
{
    let fin = finish_line(st);
    if st.cur.len() != 0 && st.cur[0] != '#' && st.in_words && !st.words.contains(st.cur) {
        assert forall|i: int, j: int| 0 <= i < j < fin.words.len() implies #[trigger] fin.words[i] !== #[trigger] fin.words[j] by {
            if j == st.words.len() {
                assert(fin.words[j] == st.cur);
                assert(st.words[i] !== st.cur);
            }
        }
    }
}

/// The grid section is usable: at least one row, every row the same nonzero
/// width.
pub open spec fn grid_consistent(gr: Seq<Seq<char>>) -> bool {
    &&& gr.len() >= 1
    &&& gr[0].len() >= 1
    &&& forall|y: int| 0 <= y < gr.len() ==> (#[trigger] gr[y]).len() == gr[0].len()
}

impl Puzzle {
    /// Well-formed puzzle: rectangular grid, duplicate-free nonempty words.
    pub open spec fn wf(self) -> bool {
        &&& grid_wf(self.grid.deep_view(), self.width as int, self.height as int)
        &&& distinct_seqs(self.words.deep_view())
        &&& all_nonempty(self.words.deep_view())
    }

    /// Parses the plain-text puzzle form: grid rows, a blank separator line,
    /// then word lines; `#` lines are comments and whitespace within a line
    /// is stripped. Returns `None` exactly when the grid section is missing
    /// or its rows disagree in width.
    pub fn from_string(input: String) -> (r: Option<Puzzle>)
        ensures
            r is Some <==> grid_consistent(parse_text(input@).grid),
            r is Some ==> {
                let p = parse_text(input@);
                &&& r->0.wf()
                &&& r->0.grid.deep_view() == p.grid
                &&& r->0.words.deep_view() == p.words
                &&& r->0.width == p.grid[0].len()
                &&& r->0.height == p.grid.len()
            },
    {
        let s: &str = input.as_str();
        let n: usize = s.unicode_len();
        let mut cur: Vec<char> = Vec::new();
        let mut grid: Vec<Vec<char>> = Vec::new();
        let mut words: Vec<String> = Vec::new();
        let mut in_words: bool = false;

        let mut i: usize = 0;
        while i < n
            invariant
                n == s@.len(),
                i <= n,
                cur@ == parse_prefix(s@, i as int).cur,
                grid.deep_view() == parse_prefix(s@, i as int).grid,
                words.deep_view() == parse_prefix(s@, i as int).words,
                in_words == parse_prefix(s@, i as int).in_words,
            decreases n - i,
        {
            let c = s.get_char(i);
            if c == '\n' {
                finish_line_exec(&mut cur, &mut grid, &mut words, &mut in_words);
            } else if c == ' ' || c == '\t' || c == '\r' {
            } else {
                cur.push(c);
                proof {
                    assert(cur@ == parse_prefix(s@, i + 1).cur);
                }
            }
            proof {
                assert(parse_prefix(s@, i + 1) == parse_step(parse_prefix(s@, i as int), s@[i as int]));
            }
            i = i + 1;
        }
        finish_line_exec(&mut cur, &mut grid, &mut words, &mut in_words);
        proof {
            lemma_parse_prefix_invariants(s@, n as int);
            lemma_finish_line_invariants(parse_prefix(s@, n as int));
            assert(grid.deep_view() == parse_text(s@).grid);
            assert(words.deep_view() == parse_text(s@).words);
        }

        if grid.len() == 0 {
            return None;
        }
        let width = grid[0].len();
        if width == 0 {
            return None;
        }
        let height = grid.len();
        let mut y: usize = 1;
        while y < height
            invariant
                grid.deep_view() == parse_text(input@).grid,
                words.deep_view() == parse_text(input@).words,
                height == grid.len(),
                width == grid.deep_view()[0].len(),
                1 <= y <= height,
                forall|k: int| 0 <= k < y ==> (#[trigger] grid.deep_view()[k]).len() == width,
            decreases height - y,
        {
            if grid[y].len() != width {
                proof {
                    assert(grid.deep_view()[y as int].len() != width);
                    assert(!grid_consistent(parse_text(input@).grid));
                }
                return None;
            }
            proof {
                assert(grid.deep_view()[y as int].len() == width);
            }
            y = y + 1;
        }
        let p = Puzzle { grid, words, width, height };
        proof {
            assert(grid_consistent(parse_text(input@).grid));
            assert(grid_wf(p.grid.deep_view(), p.width as int, p.height as int));
        }
        Some(p)
    }

    /// The character at `(x, y)`, or `None` outside the grid.
    pub fn get(&self, x: usize, y: usize) -> (r: Option<char>)
        requires
            self.wf(),
        ensures
            on_grid(self.width as int, self.height as int, x as int, y as int) ==> r == Some(
                self.grid.deep_view()[y as int][x as int],
            ),
            !on_grid(self.width as int, self.height as int, x as int, y as int) ==> r is None,
    {
        if x >= self.width || y >= self.height {
            return None;
        }
        proof {
            assert(self.grid.deep_view()[y as int] == self.grid@[y as int]@);
        }
        Some(self.grid[y][x])
    }
}

/// One `finish_line` step on the in-progress parser state.
fn finish_line_exec(
    cur: &mut Vec<char>,
    grid: &mut Vec<Vec<char>>,
    words: &mut Vec<String>,
    in_words: &mut bool,
) -> (r: ())
    ensures
        ({
            let st = ParseState {
                cur: old(cur)@,
                grid: old(grid).deep_view(),
                words: old(words).deep_view(),
                in_words: *old(in_words),
            };
            let fin = finish_line(st);
            &&& final(cur)@ == fin.cur
            &&& final(grid).deep_view() == fin.grid
            &&& final(words).deep_view() == fin.words
            &&& *final(in_words) == fin.in_words
        }),
{
    let ghost st = ParseState {
        cur: cur@,
        grid: grid.deep_view(),
        words: words.deep_view(),
        in_words: *in_words,
    };
    if cur.len() == 0 {
        *in_words = true;
    } else if cur[0] == '#' {
        cur.clear();
    } else if !*in_words {
        let mut line: Vec<char> = Vec::new();
        core::mem::swap(&mut line, cur);
        grid.push(line);
        proof {
            assert(line.deep_view() =~= st.cur);
            assert(grid.deep_view() =~~= st.grid.push(st.cur));
        }
    } else {
        let line: String = chars_to_string(cur);
        cur.clear();
        if !contains_string(words, &line) {
            words.push(line);
            proof {
                assert(words.deep_view() =~~= st.words.push(line@));
            }
        }
    }
    proof {
        assert(cur@ =~= Seq::<char>::empty() || (st.cur.len() == 0 && cur@ == st.cur));
        assert(cur@ =~= finish_line(st).cur);
    }
}

/// Whether `line`'s text already stands in `words`.
pub(crate) fn contains_string(words: &Vec<String>, line: &String) -> (r: bool)
    ensures
        r == words.deep_view().contains(line@),
{
    let mut k: usize = 0;
    while k < words.len()
        invariant
            k <= words.len(),
            forall|j: int| 0 <= j < k ==> words.deep_view()[j] !== line@,
        decreases words.len() - k,
    {
        if words[k] == *line {
            proof {
                assert(words.deep_view()[k as int] == line@);
            }
            return true;
        }
        proof {
            assert(words.deep_view()[k as int] !== line@);
        }
        k = k + 1;
    }
    proof {
        if words.deep_view().contains(line@) {
            let j = choose|j: int| 0 <= j < words.deep_view().len() && words.deep_view()[j] == line@;
            assert(words.deep_view()[j] !== line@);
        }
    }
    false
}

/// The parser state after folding all of `s` from `st`.
pub open spec fn parse_run(st: ParseState, s: Seq<char>) -> ParseState
    decreases s.len(),
{
    if s.len() == 0 {
        st
    } else {
        parse_run(parse_step(st, s[0]), s.drop_first())
    }
}

/// Folding a concatenation folds the parts in order.
pub proof fn lemma_parse_run_append(st: ParseState, a: Seq<char>, b: Seq<char>)
    ensures
        parse_run(st, a + b) == parse_run(parse_run(st, a), b),
    decreases a.len(),
{
    if a.len() == 0 {
        assert(a + b =~= b);
    } else {
        assert((a + b).drop_first() =~= a.drop_first() + b);
        assert((a + b)[0] == a[0]);
        lemma_parse_run_append(parse_step(st, a[0]), a.drop_first(), b);
    }
}

/// The prefix parser is the fold of the prefix.
pub proof fn lemma_parse_prefix_is_run(s: Seq<char>, n: int)
    requires
        0 <= n <= s.len(),
    ensures
        parse_prefix(s, n) == parse_run(parse_init(), s.subrange(0, n)),
    decreases n,
{
    if n == 0 {
        assert(s.subrange(0, 0) =~= Seq::<char>::empty());
    } else {
        lemma_parse_prefix_is_run(s, n - 1);
        assert(s.subrange(0, n) =~= s.subrange(0, n - 1) + seq![s[n - 1]]);
        lemma_parse_run_append(parse_init(), s.subrange(0, n - 1), seq![s[n - 1]]);
        let mid = parse_run(parse_init(), s.subrange(0, n - 1));
        assert(seq![s[n - 1]].drop_first() =~= Seq::<char>::empty());
        assert(parse_run(mid, seq![s[n - 1]]) == parse_run(parse_step(mid, s[n - 1]), seq![s[n - 1]].drop_first()));
        assert(parse_run(mid, seq![s[n - 1]]) == parse_step(mid, s[n - 1]));
    }
}

/// Folding one line of plain characters followed by a newline finishes
/// that line.
pub proof fn lemma_parse_run_line(st: ParseState, line: Seq<char>)
    requires
        forall|i: int|
            0 <= i < line.len() ==> #[trigger] line[i] != '\n' && !is_space_char(line[i]),
    ensures
        parse_run(st, line + seq!['\n']) == finish_line(
            ParseState { cur: st.cur + line, ..st },
        ),
    decreases line.len(),
{
    if line.len() == 0 {
        assert(line + seq!['\n'] =~= seq!['\n']);
        assert(st.cur + line =~= st.cur);
        assert(ParseState { cur: st.cur + line, ..st } == st);
        assert(seq!['\n'].drop_first() =~= Seq::<char>::empty());
        assert(parse_run(st, seq!['\n']) == parse_run(parse_step(st, '\n'), seq!['\n'].drop_first()));
        assert(parse_run(st, seq!['\n']) == finish_line(st));
    } else {
        assert(line[0] != '\n' && !is_space_char(line[0]));
        let st2 = parse_step(st, line[0]);
        assert(st2 == ParseState { cur: st.cur.push(line[0]), ..st });
        assert((line + seq!['\n'])[0] == line[0]);
        assert((line + seq!['\n']).drop_first() =~= line.drop_first() + seq!['\n']);
        assert forall|i: int| 0 <= i < line.drop_first().len() implies #[trigger] line.drop_first()[i]
            != '\n' && !is_space_char(line.drop_first()[i]) by {
            assert(line.drop_first()[i] == line[i + 1]);
            assert(line[i + 1] != '\n' && !is_space_char(line[i + 1]));
        }
        lemma_parse_run_line(st2, line.drop_first());
        assert(parse_run(st, line + seq!['\n']) == parse_run(st2, line.drop_first() + seq!['\n']));
        assert(st2.cur + line.drop_first() =~= st.cur + line);
        assert(ParseState { cur: st2.cur + line.drop_first(), ..st2 } == ParseState {
            cur: st.cur + line,
            ..st
        });
    }
}

} // verus!
