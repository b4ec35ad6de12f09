use vstd::prelude::*;

use crate::puzzle::all_nonempty;
use crate::puzzle::contains_string;
use crate::puzzle::distinct_seqs;
use crate::puzzle::is_space_char;
use crate::partial_puzzle::no_blank_chars;
use crate::support::random_below;
use crate::support::chars_to_string;

verus! {

/// Words shorter than this never enter the dictionary.
pub open spec fn spec_min_word_len() -> int {
    3
}

/// A name for what `str::to_uppercase` returns: it depends on the
/// characters alone.
pub uninterp spec fn upper_of(s: Seq<char>) -> Seq<char>;

/// Relies on str::to_uppercase: the uppercase form of the string, a
/// function of its characters alone.
#[verifier::external_body]
fn uppercase(s: &str) -> (r: String)
    ensures
        r@ == upper_of(s@),
{
    s.to_uppercase()
}

/// The word a raw line yields: uppercased, with space characters stripped.
pub open spec fn normalized_word(line: Seq<char>) -> Seq<char> {
    upper_of(line).filter(|c: char| !is_space_char(c))
}

/// The word-list reader's state after some prefix of the input: the
/// space-stripped characters of the line being read, and the words kept so
/// far.
pub ghost struct WordListState {
    pub cur: Seq<char>,
    pub words: Seq<Seq<char>>,
}

/// Ends the current line: comments and lines whose normalized form fails
/// the length checks are dropped; a new word is kept once.
pub open spec fn finish_word_line(st: WordListState, max_len: int) -> WordListState {
    if st.cur.len() >= 1 && st.cur[0] != '#' {
        let w = normalized_word(st.cur);
        if w.len() >= spec_min_word_len() && (max_len == 0 || w.len() <= max_len)
            && !st.words.contains(w) {
            WordListState { cur: Seq::empty(), words: st.words.push(w) }
        } else {
            WordListState { cur: Seq::empty(), ..st }
        }
    } else {
        WordListState { cur: Seq::empty(), ..st }
    }
}

pub open spec fn word_line_step(st: WordListState, c: char, max_len: int) -> WordListState {
    if c == '\n' {
        finish_word_line(st, max_len)
    } else if is_space_char(c) {
        st
    } else {
        WordListState { cur: st.cur.push(c), ..st }
    }
}

/// The reader's state after the first `n` characters of `s`.
pub open spec fn word_list_prefix(s: Seq<char>, max_len: int, n: int) -> WordListState
    decreases n,
{
    if n <= 0 {
        WordListState { cur: Seq::empty(), words: Seq::empty() }
    } else {
        word_line_step(word_list_prefix(s, max_len, n - 1), s[n - 1], max_len)
    }
}

/// The words a word-list text yields, in first-occurrence order (the
/// segment after the last newline counts as a line of its own).
pub open spec fn word_list(s: Seq<char>, max_len: int) -> Seq<Seq<char>> {
    finish_word_line(word_list_prefix(s, max_len, s.len() as int), max_len).words
}

/// A usable dictionary word: long enough, within the cap when one is set,
/// and free of blanks.
pub open spec fn word_ok(w: Seq<char>, max_len: int) -> bool {
    &&& w.len() >= spec_min_word_len()
    &&& max_len > 0 ==> w.len() <= max_len
    &&& no_blank_chars(w)
}

/// A deduplicated set of uppercase candidate words for the grid builder.
pub struct Dictionary {
    words: Vec<String>,
}

impl Dictionary {
    pub closed spec fn spec_words(self) -> Seq<Seq<char>> {
        self.words.deep_view()
    }

    pub closed spec fn wf_with(self, max_len: int) -> bool {
        &&& distinct_seqs(self.spec_words())
        &&& forall|k: int| 0 <= k < self.spec_words().len() ==> word_ok(
            #[trigger] self.spec_words()[k],
            max_len,
        )
    }

    /// Usable by the grid builder: distinct words, each at least the
    /// minimum length and free of blanks.
    pub open spec fn wf(self) -> bool {
        &&& distinct_seqs(self.spec_words())
        &&& all_nonempty(self.spec_words())
        &&& forall|k: int| 0 <= k < self.spec_words().len() ==> no_blank_chars(
            #[trigger] self.spec_words()[k],
        )
    }

    /// Builds a dictionary from the text of a word-list file: one word per
    /// line, uppercased, with whitespace stripped; comment lines starting
    /// `#`, lines shorter than the minimum, and (when `max_len > 0`) lines
    /// longer than `max_len` are dropped; duplicates are kept once. The
    /// length and blank checks are made on the uppercased, stripped form.
    pub fn from_text(data: &str, max_len: usize) -> (r: Dictionary)
        ensures
            r.wf_with(max_len as int),
            r.wf(),
            r.spec_words() == word_list(data@, max_len as int),
    {
        let mut words: Vec<String> = Vec::new();
        let n = data.unicode_len();
        let mut cur: Vec<char> = Vec::new();
        let mut i: usize = 0;
        while i < n
            invariant
                n == data@.len(),
                i <= n,
                cur@ == word_list_prefix(data@, max_len as int, i as int).cur,
                words.deep_view() == word_list_prefix(data@, max_len as int, i as int).words,
                distinct_seqs(words.deep_view()),
                forall|k: int| 0 <= k < words.deep_view().len() ==> word_ok(
                    #[trigger] words.deep_view()[k],
                    max_len as int,
                ),
            decreases n - i,
        {
            let c = data.get_char(i);
            if c == '\n' {
                absorb_line(&mut words, &mut cur, max_len);
            } else if c == ' ' || c == '\t' || c == '\r' {
            } else {
                cur.push(c);
            }
            proof {
                assert(word_list_prefix(data@, max_len as int, i + 1) == word_line_step(
                    word_list_prefix(data@, max_len as int, i as int),
                    data@[i as int],
                    max_len as int,
                ));
            }
            i = i + 1;
        }
        absorb_line(&mut words, &mut cur, max_len);
        Dictionary { words }
    }

    /// Whether the dictionary holds this word.
    pub fn contains_word(&self, w: &String) -> (r: bool)
        ensures
            r == self.spec_words().contains(w@),
    {
        contains_string(&self.words, w)
    }

    /// How many words the dictionary holds.
    pub fn len(&self) -> (r: usize)
        ensures
            r == self.spec_words().len(),
    {
        self.words.len()
    }

    /// A randomized full traversal: every word once, starting at a fresh
    /// uniformly random rotation offset.
    pub fn iter(&self) -> (r: DictionarylIterator<'_>)
        requires
            self.spec_words().len() >= 1,
        ensures
            r.spec_dict() == *self,
            r.spec_index() == 0,
            0 <= r.spec_offset() < self.spec_words().len(),
    {
        let offset = random_below(self.words.len());
        DictionarylIterator { dictionary: self, index: 0, offset }
    }

    /// The traversal with its rotation offset made explicit, for
    /// reproducible runs.
    pub fn iter_from(&self, offset: usize) -> (r: DictionarylIterator<'_>)
        requires
            offset < self.spec_words().len(),
        ensures
            r.spec_dict() == *self,
            r.spec_index() == 0,
            r.spec_offset() == offset,
            r.spec_offset() >= 0,
    {
        DictionarylIterator { dictionary: self, index: 0, offset }
    }
}

/// Finishes one word-list line: drops comments and lines whose normalized
/// form fails the length checks, uppercases the rest, and keeps each new
/// word once — one `finish_word_line` step.
fn absorb_line(words: &mut Vec<String>, cur: &mut Vec<char>, max_len: usize)
    ensures
        ({
            let st = WordListState { cur: old(cur)@, words: old(words).deep_view() };
            let fin = finish_word_line(st, max_len as int);
            &&& final(cur)@ == fin.cur
            &&& final(words).deep_view() == fin.words
        }),
        distinct_seqs(old(words).deep_view()) && (forall|k: int|
            0 <= k < old(words).deep_view().len() ==> word_ok(
                #[trigger] old(words).deep_view()[k],
                max_len as int,
            )) ==> distinct_seqs(final(words).deep_view()) && (forall|k: int|
            0 <= k < final(words).deep_view().len() ==> word_ok(
                #[trigger] final(words).deep_view()[k],
                max_len as int,
            )),
{
    let ghost st = WordListState { cur: cur@, words: words.deep_view() };
    if cur.len() >= 1 && cur[0] != '#' {
        let line = chars_to_string(cur);
        let upper = uppercase(line.as_str());
        let normalized = strip_spaces(&upper);
        proof {
            assert(normalized@ == normalized_word(st.cur));
        }
        if normalized.len() >= 3 && (max_len == 0 || normalized.len() <= max_len) {
            let word = chars_to_string(&normalized);
            if !contains_string(words, &word) {
                let ghost words0 = words.deep_view();
                words.push(word);
                proof {
                    assert(words.deep_view() =~~= words0.push(word@));
                    if distinct_seqs(words0) && (forall|k: int|
                        0 <= k < words0.len() ==> word_ok(#[trigger] words0[k], max_len as int)) {
                        assert forall|k: int| 0 <= k < words.deep_view().len() implies word_ok(
                            #[trigger] words.deep_view()[k],
                            max_len as int,
                        ) by {
                            if k < words0.len() {
                                assert(words.deep_view()[k] == words0[k]);
                            } else {
                                assert(words.deep_view()[k] == word@);
                            }
                        }
                        assert forall|a: int, b: int|
                            0 <= a < b < words.deep_view().len() implies #[trigger] words.deep_view()[a]
                            !== #[trigger] words.deep_view()[b] by {
                            if b == words0.len() {
                                assert(!words0.contains(word@));
                            }
                        }
                    }
                }
            }
        }
    }
    cur.clear();
    proof {
        assert(words.deep_view() =~~= finish_word_line(st, max_len as int).words);
    }
}

/// Strips the space characters out of a line.
fn strip_spaces(s: &String) -> (r: Vec<char>)
    ensures
        r@ == s@.filter(|c: char| !is_space_char(c)),
{
    let n = s.as_str().unicode_len();
    let mut out: Vec<char> = Vec::new();
    let mut i: usize = 0;
    while i < n
        invariant
            n == s@.len(),
            i <= n,
            out@ == s@.subrange(0, i as int).filter(|c: char| !is_space_char(c)),
        decreases n - i,
    {
        let c = s.as_str().get_char(i);
        proof {
            assert(s@.subrange(0, i + 1).drop_last() =~= s@.subrange(0, i as int));
            reveal_with_fuel(Seq::filter, 2);
            assert(s@.subrange(0, i + 1).last() == s@[i as int]);
        }
        if !(c == ' ' || c == '\t' || c == '\r') {
            out.push(c);
        }
        i = i + 1;
    }
    proof {
        assert(s@.subrange(0, n as int) =~= s@);
    }
    out
}

/// Yields each dictionary word exactly once, rotated by a fixed offset:
/// index `i` yields the word at `i + offset`, wrapping at the end.
pub struct DictionarylIterator<'a> {
    dictionary: &'a Dictionary,
    index: usize,
    offset: usize,
}

/// Where the rotated traversal stands in the underlying order.
pub open spec fn wrapped_index(i: int, offset: int, n: int) -> int {
    if i + offset < n {
        i + offset
    } else {
        i + offset - n
    }
}

impl<'a> DictionarylIterator<'a> {
    pub closed spec fn spec_dict(self) -> Dictionary {
        *self.dictionary
    }

    pub closed spec fn spec_index(self) -> int {
        self.index as int
    }

    pub closed spec fn spec_offset(self) -> int {
        self.offset as int
    }

    /// The next word of the pass, or `None` once every word was yielded.
    pub fn next(&mut self) -> (r: Option<String>)
        requires
            old(self).spec_offset() < old(self).spec_dict().spec_words().len(),
        ensures
            final(self).spec_dict() == old(self).spec_dict(),
            final(self).spec_offset() == old(self).spec_offset(),
            old(self).spec_index() >= old(self).spec_dict().spec_words().len() ==> r is None
                && final(self).spec_index() == old(self).spec_index(),
            old(self).spec_index() < old(self).spec_dict().spec_words().len() ==> {
                &&& final(self).spec_index() == old(self).spec_index() + 1
                &&& r is Some
                &&& (r->0)@ == old(self).spec_dict().spec_words()[wrapped_index(
                    old(self).spec_index(),
                    old(self).spec_offset(),
                    old(self).spec_dict().spec_words().len() as int,
                )]
            },
    {
        let n = self.dictionary.words.len();
        if self.index >= n {
            return None;
        }
        let actual_index = if self.index < n - self.offset {
            self.index + self.offset
        } else {
            self.index - (n - self.offset)
        };
        self.index = self.index + 1;
        proof {
            assert(self.dictionary.words@[actual_index as int]@
                == self.dictionary.words.deep_view()[actual_index as int]);
        }
        Some(self.dictionary.words[actual_index].clone())
    }
}

} // verus!
