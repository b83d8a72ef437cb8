//! The log pane: wrapping messages to the pane's width, and scrolling.

use vstd::prelude::*;
use crate::text::{
    chars_of, split_whitespace, string_of, words_of, visible, is_ws, lemma_visible_add,
    lemma_words_visible, no_ws, lemma_words_no_ws, lemma_words_join, lemma_words_plain,
};

verus! {

// ---------------------------------------------------------------------------
// Scrolling
// ---------------------------------------------------------------------------

/// `a - b`, or zero where `b` is larger (as `usize::saturating_sub`).
pub open spec fn sat_sub(a: nat, b: nat) -> nat {
    if a >= b {
        (a - b) as nat
    } else {
        0
    }
}

/// Where the log pane is scrolled to. While `tail` holds, the pane follows
/// the newest messages; `vertical_scroll` is the number of wrapped lines
/// above the first one shown.
#[derive(Debug, Clone, Copy, PartialEq, Eq, Structural)]
pub struct LogState {
    pub vertical_scroll: usize,
    pub tail: bool,
    pub content_height: usize,
    pub viewport_height: usize,
}

impl LogState {
    /// The scroll position at which the last line is in view.
    pub open spec fn bottom(self) -> nat {
        sat_sub(self.content_height as nat, self.viewport_height as nat)
    }

    /// Scrolled to (or past) the bottom.
    pub open spec fn at_bottom(self) -> bool {
        self.vertical_scroll >= self.bottom()
    }

    /// One step up: the first step leaves following mode without moving,
    /// later steps move one line up, stopping at the top.
    pub open spec fn scrolled_up(self) -> LogState {
        if self.tail {
            LogState { tail: false, ..self }
        } else {
            LogState { vertical_scroll: sat_sub(self.vertical_scroll as nat, 1) as usize, ..self }
        }
    }

    /// One step down: at the bottom it starts following without moving,
    /// elsewhere it moves one line down (saturating at `usize::MAX`).
    pub open spec fn scrolled_down(self) -> LogState {
        if self.at_bottom() {
            LogState { tail: true, ..self }
        } else {
            LogState {
                vertical_scroll: if self.vertical_scroll == usize::MAX {
                    usize::MAX
                } else {
                    (self.vertical_scroll + 1) as usize
                },
                ..self
            }
        }
    }

    /// Scrolls up one step (see `scrolled_up`).
    pub fn scroll_up(&mut self)
        ensures
            *final(self) == old(self).scrolled_up(),
    {
        if self.tail {
            self.tail = false;
        } else {
            self.vertical_scroll = self.vertical_scroll.saturating_sub(1);
        }
    }

    /// Scrolls down one step (see `scrolled_down`).
    pub fn scroll_down(&mut self)
        ensures
            *final(self) == old(self).scrolled_down(),
    {
        if self.is_at_bottom() {
            self.tail = true;
        } else {
            self.vertical_scroll = self.vertical_scroll.saturating_add(1);
        }
    }

    /// Whether the last line is in view (see `at_bottom`).
    pub fn is_at_bottom(&self) -> (b: bool)
        ensures
            b == self.at_bottom(),
    {
        self.vertical_scroll >= self.content_height.saturating_sub(self.viewport_height)
    }
}

impl Default for LogState {
    /// A new pane follows the newest messages and has no content yet.
    fn default() -> (s: LogState)
        ensures
            s == (LogState { vertical_scroll: 0, tail: true, content_height: 0, viewport_height: 0 }),
    {
        LogState { vertical_scroll: 0, tail: true, content_height: 0, viewport_height: 0 }
    }
}

/// Law: one step up and one step down come back to where they started,
/// whether the pane was following at the bottom or scrolled back to a line
/// below the top and not past the bottom.
pub proof fn scroll_up_then_down(s: LogState)
    requires
        (s.tail && s.at_bottom()) || (!s.tail && 0 < s.vertical_scroll <= s.bottom()),
    ensures
        s.scrolled_up().scrolled_down() == s,
{
}

/// Law: stepping down never moves past the bottom: from a position at or
/// above the bottom, the pane stays at or above it.
pub proof fn scroll_down_stays_in_range(s: LogState)
    requires
        s.vertical_scroll <= s.bottom(),
    ensures
        s.scrolled_down().vertical_scroll <= s.bottom(),
        s.scrolled_down().bottom() == s.bottom(),
{
}

/// The pane after `k` steps down.
pub open spec fn scrolled_down_times(s: LogState, k: nat) -> LogState
    decreases k,
{
    if k == 0 {
        s
    } else {
        scrolled_down_times(s.scrolled_down(), (k - 1) as nat)
    }
}

/// Law: following resumes after a bounded number of steps down: with `k`
/// the lines left to the bottom, `k` steps reach the bottom and one more
/// step turns following on there.
pub proof fn tail_resumes(s: LogState)
    ensures
        ({
            let k = sat_sub(s.bottom(), s.vertical_scroll as nat);
            &&& scrolled_down_times(s, k).at_bottom()
            &&& scrolled_down_times(s, k + 1).at_bottom()
            &&& scrolled_down_times(s, k + 1).tail
        }),
    decreases sat_sub(s.bottom(), s.vertical_scroll as nat),
{
    let k = sat_sub(s.bottom(), s.vertical_scroll as nat);
    if s.at_bottom() {
        assert(k == 0);
        assert(scrolled_down_times(s.scrolled_down(), 0) == s.scrolled_down());
    } else {
        let t = s.scrolled_down();
        assert(t.vertical_scroll == s.vertical_scroll + 1);
        assert(sat_sub(t.bottom(), t.vertical_scroll as nat) == k - 1);
        tail_resumes(t);
        assert(scrolled_down_times(s, k) == scrolled_down_times(t, (k - 1) as nat));
        assert(scrolled_down_times(s, k + 1) == scrolled_down_times(t, k));
    }
}

// ---------------------------------------------------------------------------
// Word wrapping
// ---------------------------------------------------------------------------

/// The width available to the next line: the first line has `first_width`,
/// every later one `cont_width`.
pub open spec fn line_width(nlines: nat, first_width: nat, cont_width: nat) -> nat {
    if nlines == 0 {
        first_width
    } else {
        cont_width
    }
}

/// Whether the next line is the first one (`1`) or a later one (`0`).
pub open spec fn first_flag(lines: Seq<Seq<char>>) -> int {
    if lines.len() == 0 {
        1
    } else {
        0
    }
}

/// Breaking a word that does not fit: full-width pieces become lines until
/// the rest fits the width of the next line (a first line of width zero
/// stays empty). Gives the lines and the rest.
pub open spec fn chop(rem: Seq<char>, lines: Seq<Seq<char>>, fw: nat, cw: nat) -> (
    Seq<Seq<char>>,
    Seq<char>,
)
    decreases rem.len(), first_flag(lines),
{
    let w = line_width(lines.len(), fw, cw);
    if rem.len() <= w || (w == 0 && lines.len() > 0) {
        (lines, rem)
    } else {
        chop(rem.skip(w as int), lines.push(rem.take(w as int)), fw, cw)
    }
}

/// Breaking `rem` comes to an end: no piece after the first line must be
/// cut to width zero.
pub open spec fn chop_ends(rem: Seq<char>, lines: Seq<Seq<char>>, fw: nat, cw: nat) -> bool
    decreases rem.len(), first_flag(lines),
{
    let w = line_width(lines.len(), fw, cw);
    if rem.len() <= w {
        true
    } else if w == 0 && lines.len() > 0 {
        false
    } else {
        chop_ends(rem.skip(w as int), lines.push(rem.take(w as int)), fw, cw)
    }
}

/// Whether `word` joins the current line: its length, a separating space if
/// the line is not empty, and the line must fit the width.
pub open spec fn fits(st: (Seq<Seq<char>>, Seq<char>), word: Seq<char>, fw: nat, cw: nat) -> bool {
    let sep: nat = if st.1.len() == 0 {
        0
    } else {
        1
    };
    st.1.len() + sep + word.len() <= line_width(st.0.len(), fw, cw)
}

/// The finished lines once the current line is closed (an empty one is dropped).
pub open spec fn close_line(st: (Seq<Seq<char>>, Seq<char>)) -> Seq<Seq<char>> {
    if st.1.len() > 0 {
        st.0.push(st.1)
    } else {
        st.0
    }
}

/// Placing one word: on the current line if it fits, else the current line
/// is closed and the word is broken as needed; its rest starts the new line.
pub open spec fn place_word(st: (Seq<Seq<char>>, Seq<char>), word: Seq<char>, fw: nat, cw: nat) -> (
    Seq<Seq<char>>,
    Seq<char>,
) {
    if fits(st, word, fw, cw) {
        (
            st.0,
            if st.1.len() == 0 {
                word
            } else {
                st.1.push(' ') + word
            },
        )
    } else {
        chop(word, close_line(st), fw, cw)
    }
}

/// Placing `word` comes to an end.
pub open spec fn place_ends(st: (Seq<Seq<char>>, Seq<char>), word: Seq<char>, fw: nat, cw: nat) -> bool {
    fits(st, word, fw, cw) || chop_ends(word, close_line(st), fw, cw)
}

/// The lines and the current line after placing `words` in order.
pub open spec fn wrap_state(words: Seq<Seq<char>>, fw: nat, cw: nat) -> (
    Seq<Seq<char>>,
    Seq<char>,
)
    decreases words.len(),
{
    if words.len() == 0 {
        (Seq::empty(), Seq::empty())
    } else {
        place_word(wrap_state(words.drop_last(), fw, cw), words.last(), fw, cw)
    }
}

/// Placing every word comes to an end.
pub open spec fn wrap_ends(words: Seq<Seq<char>>, fw: nat, cw: nat) -> bool
    decreases words.len(),
{
    if words.len() == 0 {
        true
    } else {
        wrap_ends(words.drop_last(), fw, cw) && place_ends(
            wrap_state(words.drop_last(), fw, cw),
            words.last(),
            fw,
            cw,
        )
    }
}

/// Greedy word wrapping of `text`: the empty text gives one empty line;
/// otherwise the words (see `words_of`) are placed in order, a word that is
/// longer than the width of its line is broken into full-width pieces, and
/// the last line is kept if it is not empty.
pub open spec fn spec_word_wrap(text: Seq<char>, fw: nat, cw: nat) -> Seq<Seq<char>> {
    if text.len() == 0 {
        seq![Seq::empty()]
    } else {
        close_line(wrap_state(words_of(text), fw, cw))
    }
}

/// `word_wrap` returns: it does not go on forever breaking a word into
/// pieces of width zero.
pub open spec fn word_wrap_ends(text: Seq<char>, fw: nat, cw: nat) -> bool {
    text.len() == 0 || wrap_ends(words_of(text), fw, cw)
}

proof fn lemma_wrap_ends_prefix(words: Seq<Seq<char>>, fw: nat, cw: nat, j: int)
    requires
        wrap_ends(words, fw, cw),
        0 <= j <= words.len(),
    ensures
        wrap_ends(words.take(j), fw, cw),
    decreases words.len(),
{
    if j == words.len() {
        assert(words.take(j) =~= words);
    } else {
        assert(words.drop_last().take(j) =~= words.take(j));
        lemma_wrap_ends_prefix(words.drop_last(), fw, cw, j);
    }
}

fn push_line(lines: &mut Vec<Vec<char>>, l: Vec<char>)
    ensures
        final(lines).deep_view() == old(lines).deep_view().push(l@),
{
    let ghost before = lines.deep_view();
    assert(l.deep_view() =~= l@);
    let ghost lv = l.deep_view();
    lines.push(l);
    assert(lines.deep_view() =~= before.push(lv));
}

fn copy_range(v: &Vec<char>, lo: usize, hi: usize) -> (r: Vec<char>)
    requires
        lo <= hi <= v.len(),
    ensures
        r@ == v@.subrange(lo as int, hi as int),
{
    let mut r: Vec<char> = Vec::new();
    for i in lo..hi
        invariant
            lo <= hi <= v.len(),
            r@ == v@.subrange(lo as int, i as int),
    {
        r.push(v[i]);
    }
    r
}

fn append_chars(dst: &mut Vec<char>, src: &Vec<char>)
    ensures
        final(dst)@ == old(dst)@ + src@,
{
    let ghost start = dst@;
    for i in 0..src.len()
        invariant
            dst@ == start + src@.take(i as int),
    {
        dst.push(src[i]);
        assert(start + src@.take(i + 1) =~= (start + src@.take(i as int)).push(src@[i as int]));
    }
    assert(src@.take(src.len() as int) =~= src@);
}

fn strings_of(lines: &Vec<Vec<char>>) -> (out: Vec<String>)
    ensures
        out.len() == lines.deep_view().len(),
        forall|i: int| 0 <= i < out.len() ==> #[trigger] out[i]@ == lines.deep_view()[i],
{
    let mut out: Vec<String> = Vec::new();
    for i in 0..lines.len()
        invariant
            out.len() == i,
            i <= lines.len(),
            forall|k: int| 0 <= k < i ==> #[trigger] out[k]@ == lines.deep_view()[k],
    {
        let s = string_of(&lines[i]);
        out.push(s);
    }
    out
}

/// Wraps `text` into lines: the first line is at most `first_width`
/// characters wide, every later one at most `cont_width` (see
/// `spec_word_wrap`). It is not called on inputs where breaking a word would
/// never end.
pub fn word_wrap(text: &str, first_width: usize, cont_width: usize) -> (lines: Vec<String>)
    requires
        word_wrap_ends(text@, first_width as nat, cont_width as nat),
    ensures
        lines.len() == spec_word_wrap(text@, first_width as nat, cont_width as nat).len(),
        forall|i: int|
            0 <= i < lines.len() ==> #[trigger] lines[i]@ == spec_word_wrap(
                text@,
                first_width as nat,
                cont_width as nat,
            )[i],
{
    let ghost fw = first_width as nat;
    let ghost cw = cont_width as nat;
    if text.is_empty() {
        let mut v: Vec<String> = Vec::new();
        v.push(String::new());
        return v;
    }
    let chars = chars_of(text);
    let words = split_whitespace(&chars);
    let ghost ws = words.deep_view();
    let mut lines: Vec<Vec<char>> = Vec::new();
    let mut current: Vec<char> = Vec::new();
    for k in 0..words.len()
        invariant
            ws == words.deep_view(),
            ws == words_of(text@),
            wrap_ends(ws, fw, cw),
            fw == first_width,
            cw == cont_width,
            (lines.deep_view(), current@) == wrap_state(ws.take(k as int), fw, cw),
    {
        let word = &words[k];
        let ghost st = (lines.deep_view(), current@);
        proof {
            assert(ws.take(k + 1).drop_last() =~= ws.take(k as int));
            assert(word@ =~= ws[k as int]);
            lemma_wrap_ends_prefix(ws, fw, cw, k + 1);
        }
        let w = if lines.len() == 0 {
            first_width
        } else {
            cont_width
        };
        let sep: usize = if current.len() == 0 {
            0
        } else {
            1
        };
        if word.len() <= w && sep <= w - word.len() && current.len() <= w - word.len() - sep {
            if current.len() > 0 {
                current.push(' ');
            }
            append_chars(&mut current, word);
            assert(fits(st, word@, fw, cw));
            assert(current@ =~= place_word(st, word@, fw, cw).1);
        } else {
            assert(!fits(st, word@, fw, cw));
            if current.len() > 0 {
                let done = current;
                push_line(&mut lines, done);
                current = Vec::new();
            }
            let ghost l1 = lines.deep_view();
            assert(l1 == close_line(st));
            let mut pos: usize = 0;
            assert(word@.skip(0) =~= word@);
            loop
                invariant
                    pos <= word.len(),
                    fw == first_width,
                    cw == cont_width,
                    chop(word@.skip(pos as int), lines.deep_view(), fw, cw) == chop(word@, l1, fw, cw),
                    chop_ends(word@.skip(pos as int), lines.deep_view(), fw, cw),
                ensures
                    pos <= word.len(),
                    chop(word@.skip(pos as int), lines.deep_view(), fw, cw) == chop(word@, l1, fw, cw),
                    word.len() - pos <= line_width(lines.deep_view().len(), fw, cw),
                decreases word.len() - pos, first_flag(lines.deep_view()),
            {
                let w = if lines.len() == 0 {
                    first_width
                } else {
                    cont_width
                };
                assert(lines.deep_view().len() == lines.len());
                if word.len() - pos <= w {
                    break;
                }
                let piece = copy_range(word, pos, pos + w);
                proof {
                    assert(word@.skip(pos as int).skip(w as int) =~= word@.skip(pos + w));
                    assert(word@.skip(pos as int).take(w as int) =~= piece@);
                }
                push_line(&mut lines, piece);
                pos = pos + w;
            }
            current = copy_range(word, pos, word.len());
            assert(current@ =~= word@.skip(pos as int));
            assert((lines.deep_view(), current@) == chop(word@, l1, fw, cw));
        }
        assert((lines.deep_view(), current@) == place_word(st, word@, fw, cw));
    }
    assert(ws.take(words.len() as int) =~= ws);
    if current.len() > 0 {
        push_line(&mut lines, current);
    }
    strings_of(&lines)
}

/// Whether wrapping `text` comes to an end (see `word_wrap_ends`): it
/// places the words as `word_wrap` does and stops, with `false`, where a
/// piece would have to be cut to width zero after the first line.
pub fn wrap_ends_exec(text: &str, first_width: usize, cont_width: usize) -> (b: bool)
    ensures
        b == word_wrap_ends(text@, first_width as nat, cont_width as nat),
{
    let ghost fw = first_width as nat;
    let ghost cw = cont_width as nat;
    if text.is_empty() {
        return true;
    }
    let chars = chars_of(text);
    let words = split_whitespace(&chars);
    let ghost ws = words.deep_view();
    let mut lines: Vec<Vec<char>> = Vec::new();
    let mut current: Vec<char> = Vec::new();
    for k in 0..words.len()
        invariant
            ws == words.deep_view(),
            ws == words_of(text@),
            text@.len() > 0,
            wrap_ends(ws.take(k as int), fw, cw),
            fw == first_width,
            cw == cont_width,
            (lines.deep_view(), current@) == wrap_state(ws.take(k as int), fw, cw),
    {
        let word = &words[k];
        let ghost st = (lines.deep_view(), current@);
        proof {
            assert(ws.take(k + 1).drop_last() =~= ws.take(k as int));
            assert(word@ =~= ws[k as int]);
        }
        let w = if lines.len() == 0 {
            first_width
        } else {
            cont_width
        };
        let sep: usize = if current.len() == 0 {
            0
        } else {
            1
        };
        if word.len() <= w && sep <= w - word.len() && current.len() <= w - word.len() - sep {
            if current.len() > 0 {
                current.push(' ');
            }
            append_chars(&mut current, word);
            assert(fits(st, word@, fw, cw));
            assert(current@ =~= place_word(st, word@, fw, cw).1);
        } else {
            assert(!fits(st, word@, fw, cw));
            if current.len() > 0 {
                let done = current;
                push_line(&mut lines, done);
                current = Vec::new();
            }
            let ghost l1 = lines.deep_view();
            assert(l1 == close_line(st));
            let mut pos: usize = 0;
            assert(word@.skip(0) =~= word@);
            loop
                invariant
                    pos <= word.len(),
                    fw == first_width,
                    cw == cont_width,
                    ws == words_of(text@),
                    text@.len() > 0,
                    k < ws.len(),
                    word@ == ws[k as int],
                    !fits(st, word@, fw, cw),
                    l1 == close_line(st),
                    st == wrap_state(ws.take(k as int), fw, cw),
                    ws.take(k + 1).drop_last() == ws.take(k as int),
                    chop(word@.skip(pos as int), lines.deep_view(), fw, cw) == chop(word@, l1, fw, cw),
                    chop_ends(word@.skip(pos as int), lines.deep_view(), fw, cw) == chop_ends(
                        word@,
                        l1,
                        fw,
                        cw,
                    ),
                ensures
                    pos <= word.len(),
                    chop(word@.skip(pos as int), lines.deep_view(), fw, cw) == chop(word@, l1, fw, cw),
                    word.len() - pos <= line_width(lines.deep_view().len(), fw, cw),
                    chop_ends(word@, l1, fw, cw),
                decreases word.len() - pos, first_flag(lines.deep_view()),
            {
                let w = if lines.len() == 0 {
                    first_width
                } else {
                    cont_width
                };
                assert(lines.deep_view().len() == lines.len());
                if word.len() - pos <= w {
                    break;
                }
                if w == 0 && lines.len() > 0 {
                    proof {
                        assert(!chop_ends(word@.skip(pos as int), lines.deep_view(), fw, cw));
                        assert(!wrap_ends(ws.take(k + 1), fw, cw));
                        if wrap_ends(ws, fw, cw) {
                            lemma_wrap_ends_prefix(ws, fw, cw, k + 1);
                        }
                    }
                    return false;
                }
                let piece = copy_range(word, pos, pos + w);
                proof {
                    assert(word@.skip(pos as int).skip(w as int) =~= word@.skip(pos + w));
                    assert(word@.skip(pos as int).take(w as int) =~= piece@);
                }
                push_line(&mut lines, piece);
                pos = pos + w;
            }
            current = copy_range(word, pos, word.len());
            assert(current@ =~= word@.skip(pos as int));
            assert((lines.deep_view(), current@) == chop(word@, l1, fw, cw));
        }
        assert((lines.deep_view(), current@) == place_word(st, word@, fw, cw));
    }
    assert(ws.take(words.len() as int) =~= ws);
    true
}

// ---------------------------------------------------------------------------
// Laying out the log pane
// ---------------------------------------------------------------------------

/// The lines one message takes: its wrapped lines, or one empty line when
/// wrapping gives none (a message of white space only).
pub open spec fn entry_lines(msg: Seq<char>, fw: nat, cw: nat) -> Seq<Seq<char>> {
    let w = spec_word_wrap(msg, fw, cw);
    if w.len() == 0 {
        seq![Seq::empty()]
    } else {
        w
    }
}

/// All lines of the log, message after message.
pub open spec fn log_lines(logs: Seq<Seq<char>>, fw: nat, cw: nat) -> Seq<Seq<char>>
    decreases logs.len(),
{
    if logs.len() == 0 {
        Seq::empty()
    } else {
        log_lines(logs.drop_last(), fw, cw) + entry_lines(logs.last(), fw, cw)
    }
}

/// The lines drawn in a pane of `height` rows scrolled to `skip`: those from
/// `skip` on, as many as the rows (at least one line is drawn, even in a pane
/// of no rows), none if the scroll position is past the end.
pub open spec fn shown_lines(all: Seq<Seq<char>>, skip: nat, height: nat) -> Seq<Seq<char>> {
    if skip >= all.len() {
        Seq::empty()
    } else {
        let room: nat = if height == 0 {
            1
        } else {
            height
        };
        let n: nat = if all.len() - skip < room {
            (all.len() - skip) as nat
        } else {
            room
        };
        all.subrange(skip as int, (skip + n) as int)
    }
}

/// The width of continuation lines in a pane `width` columns wide: two
/// columns less, as an indent.
pub open spec fn cont_width_of(width: nat) -> nat {
    sat_sub(width, 2)
}

/// The messages of the log, as character sequences.
pub open spec fn log_texts(logs: Seq<String>) -> Seq<Seq<char>> {
    logs.map_values(|s: String| s@)
}

/// The log pane as drawn: its lines, and how far it can scroll.
pub struct LogView {
    pub lines: Vec<String>,
    pub scroll_range: usize,
}

/// Lays out the log pane for an inner area `width` by `height`: wraps every
/// message (see `entry_lines`), records the viewport and content heights in
/// `state`, scrolls to the bottom while following, and gives the lines to
/// draw (see `shown_lines`) and the scroll range (content height less the
/// viewport height).
pub fn layout_log(logs: &Vec<String>, width: u16, height: u16, state: &mut LogState) -> (view:
    LogView)
    requires
        forall|i: int|
            0 <= i < logs.len() ==> word_wrap_ends(
                #[trigger] logs[i]@,
                width as nat,
                cont_width_of(width as nat),
            ),
    ensures
        ({
            let all = log_lines(log_texts(logs@), width as nat, cont_width_of(width as nat));
            &&& final(state).viewport_height == height
            &&& final(state).content_height == all.len()
            &&& final(state).tail == old(state).tail
            &&& final(state).vertical_scroll == if old(state).tail {
                sat_sub(all.len(), height as nat)
            } else {
                old(state).vertical_scroll as nat
            }
            &&& view.scroll_range == sat_sub(all.len(), height as nat)
            &&& view.lines.len() == shown_lines(
                all,
                final(state).vertical_scroll as nat,
                height as nat,
            ).len()
            &&& forall|i: int|
                0 <= i < view.lines.len() ==> #[trigger] view.lines[i]@ == shown_lines(
                    all,
                    final(state).vertical_scroll as nat,
                    height as nat,
                )[i]
        }),
{
    let ghost texts = log_texts(logs@);
    let ghost fw = width as nat;
    let ghost cw = cont_width_of(width as nat);
    let first_width = width as usize;
    let cont_width = (width as usize).saturating_sub(2);
    let mut all: Vec<String> = Vec::new();
    for m in 0..logs.len()
        invariant
            texts == log_texts(logs@),
            fw == first_width,
            cw == cont_width,
            fw == width as nat,
            cw == cont_width_of(width as nat),
            forall|i: int|
                0 <= i < logs.len() ==> word_wrap_ends(
                    #[trigger] logs[i]@,
                    width as nat,
                    cont_width_of(width as nat),
                ),
            all.len() == log_lines(texts.take(m as int), fw, cw).len(),
            forall|k: int|
                0 <= k < all.len() ==> #[trigger] all[k]@ == log_lines(texts.take(m as int), fw, cw)[k],
    {
        let ghost before = log_lines(texts.take(m as int), fw, cw);
        proof {
            assert(texts.take(m + 1).drop_last() =~= texts.take(m as int));
            assert(texts.take(m + 1).last() == logs[m as int]@);
        }
        let wrapped = word_wrap(logs[m].as_str(), first_width, cont_width);
        let ghost entry = entry_lines(logs[m as int]@, fw, cw);
        let ghost start = all.len();
        if wrapped.len() == 0 {
            all.push(String::new());
            assert(entry =~= seq![Seq::<char>::empty()]);
        } else {
            for j in 0..wrapped.len()
                invariant
                    start == before.len(),
                    entry == spec_word_wrap(logs[m as int]@, fw, cw),
                    wrapped.len() == entry.len(),
                    forall|i: int| 0 <= i < wrapped.len() ==> #[trigger] wrapped[i]@ == entry[i],
                    all.len() == start + j,
                    forall|k: int| 0 <= k < start ==> #[trigger] all[k]@ == before[k],
                    forall|k: int| start <= k < all.len() ==> #[trigger] all[k]@ == entry[k - start],
            {
                all.push(wrapped[j].clone());
            }
        }
        assert(log_lines(texts.take(m + 1), fw, cw) == before + entry);
    }
    assert(texts.take(logs.len() as int) =~= texts);
    let ghost lines_spec = log_lines(texts, fw, cw);
    state.viewport_height = height as usize;
    state.content_height = all.len();
    let scroll_range = all.len().saturating_sub(height as usize);
    if state.tail {
        state.vertical_scroll = scroll_range;
    }
    let skip = state.vertical_scroll;
    let mut lines: Vec<String> = Vec::new();
    if skip < all.len() {
        let room: usize = if height == 0 {
            1
        } else {
            height as usize
        };
        let n: usize = if all.len() - skip < room {
            all.len() - skip
        } else {
            room
        };
        for i in 0..n
            invariant
                skip < all.len(),
                n <= all.len() - skip,
                all.len() == lines_spec.len(),
                forall|k: int| 0 <= k < all.len() ==> #[trigger] all[k]@ == lines_spec[k],
                lines.len() == i,
                forall|k: int| 0 <= k < i ==> #[trigger] lines[k]@ == lines_spec[skip + k],
        {
            lines.push(all[skip + i].clone());
        }
    }
    LogView { lines, scroll_range }
}

// ---------------------------------------------------------------------------
// Laws of word wrapping
// ---------------------------------------------------------------------------

/// Every finished line fits the width of its position, and is non-empty
/// unless that width is zero.
pub open spec fn lines_fit(lines: Seq<Seq<char>>, fw: nat, cw: nat) -> bool {
    forall|i: int|
        0 <= i < lines.len() ==> #[trigger] lines[i].len() <= line_width(i as nat, fw, cw) && (0
            < lines[i].len() || line_width(i as nat, fw, cw) == 0)
}

/// A wrapping state whose lines fit and whose current line fits the next position.
pub open spec fn state_fits(st: (Seq<Seq<char>>, Seq<char>), fw: nat, cw: nat) -> bool {
    lines_fit(st.0, fw, cw) && st.1.len() <= line_width(st.0.len(), fw, cw)
}

proof fn lemma_chop_fits(rem: Seq<char>, lines: Seq<Seq<char>>, fw: nat, cw: nat)
    requires
        lines_fit(lines, fw, cw),
        chop_ends(rem, lines, fw, cw),
    ensures
        state_fits(chop(rem, lines, fw, cw), fw, cw),
        chop(rem, lines, fw, cw).0.flatten() + chop(rem, lines, fw, cw).1 == lines.flatten() + rem,
    decreases rem.len(), first_flag(lines),
{
    let w = line_width(lines.len(), fw, cw);
    if rem.len() > w {
        let l2 = lines.push(rem.take(w as int));
        assert(lines_fit(l2, fw, cw)) by {
            assert forall|i: int| 0 <= i < l2.len() implies #[trigger] l2[i].len() <= line_width(
                i as nat,
                fw,
                cw,
            ) && (0 < l2[i].len() || line_width(i as nat, fw, cw) == 0) by {
                if i < lines.len() {
                    assert(l2[i] == lines[i]);
                }
            }
        }
        lemma_chop_fits(rem.skip(w as int), l2, fw, cw);
        lines.lemma_flatten_push(rem.take(w as int));
        assert(lines.flatten() + rem.take(w as int) + rem.skip(w as int) =~= lines.flatten() + rem);
    }
}

proof fn lemma_close_line(st: (Seq<Seq<char>>, Seq<char>), fw: nat, cw: nat)
    requires
        state_fits(st, fw, cw),
    ensures
        lines_fit(close_line(st), fw, cw),
        close_line(st).flatten() == st.0.flatten() + st.1,
{
    if st.1.len() > 0 {
        let l2 = st.0.push(st.1);
        assert forall|i: int| 0 <= i < l2.len() implies #[trigger] l2[i].len() <= line_width(
            i as nat,
            fw,
            cw,
        ) && (0 < l2[i].len() || line_width(i as nat, fw, cw) == 0) by {
            if i < st.0.len() {
                assert(l2[i] == st.0[i]);
            }
        }
        st.0.lemma_flatten_push(st.1);
    } else {
        assert(st.0.flatten() + st.1 =~= st.0.flatten());
    }
}

proof fn lemma_wrap_state_fits(words: Seq<Seq<char>>, fw: nat, cw: nat)
    requires
        wrap_ends(words, fw, cw),
    ensures
        state_fits(wrap_state(words, fw, cw), fw, cw),
        visible(wrap_state(words, fw, cw).0.flatten() + wrap_state(words, fw, cw).1) == visible(
            words.flatten(),
        ),
    decreases words.len(),
{
    if words.len() > 0 {
        let prev = wrap_state(words.drop_last(), fw, cw);
        let word = words.last();
        lemma_wrap_state_fits(words.drop_last(), fw, cw);
        words.drop_last().lemma_flatten_push(word);
        assert(words.drop_last().push(word) =~= words);
        lemma_visible_add(words.drop_last().flatten(), word);
        lemma_visible_add(prev.0.flatten(), prev.1);
        if fits(prev, word, fw, cw) {
            if prev.1.len() > 0 {
                lemma_visible_add(prev.0.flatten(), prev.1.push(' ') + word);
                lemma_visible_add(prev.1.push(' '), word);
                lemma_visible_add(prev.1, seq![' ']);
                assert(prev.1 + seq![' '] =~= prev.1.push(' '));
                assert(is_ws(' '));
                assert(visible(seq![' ']) =~= Seq::<char>::empty()) by {
                    let sp = seq![' '];
                    assert(sp.drop_last() =~= Seq::<char>::empty());
                    assert(sp.last() == ' ');
                    assert(visible(sp.drop_last()) =~= Seq::<char>::empty());
                }
            } else {
                lemma_visible_add(prev.0.flatten(), word);
                assert(prev.1 =~= Seq::<char>::empty());
                assert(visible(prev.1) =~= Seq::<char>::empty());
            }
        } else {
            lemma_close_line(prev, fw, cw);
            lemma_chop_fits(word, close_line(prev), fw, cw);
            let after = chop(word, close_line(prev), fw, cw);
            lemma_visible_add(after.0.flatten(), after.1);
            lemma_visible_add(close_line(prev).flatten(), word);
        }
    }
}

/// Law: every line that `word_wrap` gives is at most as wide as its
/// position allows (`first_width` for the first line, `cont_width` for the
/// others), and no line is empty unless the text itself is.
pub proof fn word_wrap_lines_fit(text: Seq<char>, fw: nat, cw: nat)
    requires
        word_wrap_ends(text, fw, cw),
    ensures
        forall|i: int|
            0 <= i < spec_word_wrap(text, fw, cw).len() ==> #[trigger] spec_word_wrap(
                text,
                fw,
                cw,
            )[i].len() <= line_width(i as nat, fw, cw),
        text.len() > 0 ==> lines_fit(spec_word_wrap(text, fw, cw), fw, cw),
{
    if text.len() > 0 {
        lemma_wrap_state_fits(words_of(text), fw, cw);
        lemma_close_line(wrap_state(words_of(text), fw, cw), fw, cw);
    }
}

/// Law: wrapping loses and adds no visible character: the lines, put end to
/// end, hold the text's characters other than white space, in order.
pub proof fn word_wrap_keeps_text(text: Seq<char>, fw: nat, cw: nat)
    requires
        word_wrap_ends(text, fw, cw),
    ensures
        visible(spec_word_wrap(text, fw, cw).flatten()) == visible(text),
{
    if text.len() == 0 {
        let one = seq![Seq::<char>::empty()];
        Seq::<Seq<char>>::empty().lemma_flatten_push(Seq::<char>::empty());
        assert(one =~= Seq::<Seq<char>>::empty().push(Seq::<char>::empty()));
        assert(one.flatten() =~= Seq::<char>::empty());
    } else {
        let ws = words_of(text);
        lemma_wrap_state_fits(ws, fw, cw);
        lemma_close_line(wrap_state(ws, fw, cw), fw, cw);
        lemma_words_visible(text);
        lemma_visible_twice(text);
    }
}

proof fn lemma_visible_twice(s: Seq<char>)
    ensures
        visible(visible(s)) == visible(s),
    decreases s.len(),
{
    if s.len() > 0 {
        lemma_visible_twice(s.drop_last());
        if !is_ws(s.last()) {
            let v = visible(s.drop_last()).push(s.last());
            assert(v.drop_last() =~= visible(s.drop_last()));
            assert(v.last() == s.last());
        }
    }
}

proof fn lemma_chop_ends_positive(rem: Seq<char>, lines: Seq<Seq<char>>, fw: nat, cw: nat)
    requires
        cw > 0,
    ensures
        chop_ends(rem, lines, fw, cw),
    decreases rem.len(), first_flag(lines),
{
    let w = line_width(lines.len(), fw, cw);
    if rem.len() > w {
        lemma_chop_ends_positive(rem.skip(w as int), lines.push(rem.take(w as int)), fw, cw);
    }
}

proof fn lemma_wrap_ends_positive(words: Seq<Seq<char>>, fw: nat, cw: nat)
    requires
        cw > 0,
    ensures
        wrap_ends(words, fw, cw),
    decreases words.len(),
{
    if words.len() > 0 {
        lemma_wrap_ends_positive(words.drop_last(), fw, cw);
        let prev = wrap_state(words.drop_last(), fw, cw);
        lemma_chop_ends_positive(words.last(), close_line(prev), fw, cw);
    }
}

/// Law: with a positive width for the lines after the first, wrapping
/// always comes to an end, whatever the first line's width (a first line of
/// width zero stays empty).
pub proof fn word_wrap_ends_for_positive_cont_width(text: Seq<char>, fw: nat, cw: nat)
    requires
        cw > 0,
    ensures
        word_wrap_ends(text, fw, cw),
{
    lemma_wrap_ends_positive(words_of(text), fw, cw);
}

/// The only white space in `l` is single spaces between characters that are
/// not white space: none at either end, and never two together.
pub open spec fn well_spaced(l: Seq<char>) -> bool {
    forall|k: int|
        0 <= k < l.len() && is_ws(#[trigger] l[k]) ==> l[k] == ' ' && 0 < k < l.len() - 1 && !is_ws(
            l[k - 1],
        ) && !is_ws(l[k + 1])
}

/// Every line of `ls` is well spaced.
pub open spec fn all_spaced(ls: Seq<Seq<char>>) -> bool {
    forall|i: int| 0 <= i < ls.len() ==> well_spaced(#[trigger] ls[i])
}

proof fn lemma_push_spaced(ls: Seq<Seq<char>>, l: Seq<char>)
    requires
        all_spaced(ls),
        well_spaced(l),
    ensures
        all_spaced(ls.push(l)),
{
    assert forall|i: int| 0 <= i < ls.push(l).len() implies well_spaced(#[trigger] ls.push(l)[i]) by {
        if i < ls.len() {
            assert(ls.push(l)[i] == ls[i]);
        }
    }
}

proof fn lemma_join_spaced(a: Seq<char>, w: Seq<char>)
    requires
        well_spaced(a),
        a.len() > 0,
        no_ws(w),
        w.len() > 0,
    ensures
        well_spaced(a.push(' ') + w),
{
    let r = a.push(' ') + w;
    assert forall|k: int| 0 <= k < r.len() && is_ws(#[trigger] r[k]) implies r[k] == ' ' && 0 < k
        < r.len() - 1 && !is_ws(r[k - 1]) && !is_ws(r[k + 1]) by {
        if k < a.len() {
            assert(r[k] == a[k]);
            if k < a.len() - 1 {
                assert(r[k + 1] == a[k + 1]);
            }
            if k > 0 {
                assert(r[k - 1] == a[k - 1]);
            }
            assert(k < a.len() - 1);
        } else if k == a.len() {
            assert(!is_ws(a[a.len() - 1])) by {
                if is_ws(a[a.len() - 1]) {
                    assert(a.len() - 1 < a.len() - 1);
                }
            }
            assert(r[k - 1] == a[a.len() - 1]);
            assert(r[k + 1] == w[0]);
        } else {
            assert(r[k] == w[k - a.len() - 1]);
        }
    }
}

proof fn lemma_no_ws_spaced(w: Seq<char>)
    requires
        no_ws(w),
    ensures
        well_spaced(w),
{
}

proof fn lemma_no_ws_parts(w: Seq<char>, n: int)
    requires
        no_ws(w),
        0 <= n <= w.len(),
    ensures
        no_ws(w.take(n)),
        no_ws(w.skip(n)),
{
    assert forall|k: int| 0 <= k < w.take(n).len() implies !is_ws(#[trigger] w.take(n)[k]) by {
        assert(w.take(n)[k] == w[k]);
    }
    assert forall|k: int| 0 <= k < w.skip(n).len() implies !is_ws(#[trigger] w.skip(n)[k]) by {
        assert(w.skip(n)[k] == w[k + n]);
    }
}

proof fn lemma_chop_spaced(rem: Seq<char>, lines: Seq<Seq<char>>, fw: nat, cw: nat)
    requires
        all_spaced(lines),
        no_ws(rem),
    ensures
        all_spaced(chop(rem, lines, fw, cw).0),
        no_ws(chop(rem, lines, fw, cw).1),
    decreases rem.len(), first_flag(lines),
{
    let w = line_width(lines.len(), fw, cw);
    if !(rem.len() <= w || (w == 0 && lines.len() > 0)) {
        lemma_no_ws_parts(rem, w as int);
        lemma_no_ws_spaced(rem.take(w as int));
        lemma_push_spaced(lines, rem.take(w as int));
        lemma_chop_spaced(rem.skip(w as int), lines.push(rem.take(w as int)), fw, cw);
    }
}

proof fn lemma_wrap_spaced(words: Seq<Seq<char>>, fw: nat, cw: nat)
    requires
        forall|i: int| 0 <= i < words.len() ==> no_ws(#[trigger] words[i]) && words[i].len() > 0,
    ensures
        all_spaced(wrap_state(words, fw, cw).0),
        well_spaced(wrap_state(words, fw, cw).1),
    decreases words.len(),
{
    if words.len() > 0 {
        let prev = wrap_state(words.drop_last(), fw, cw);
        let word = words.last();
        assert forall|i: int| 0 <= i < words.drop_last().len() implies no_ws(
            #[trigger] words.drop_last()[i],
        ) && words.drop_last()[i].len() > 0 by {
            assert(words.drop_last()[i] == words[i]);
        }
        lemma_wrap_spaced(words.drop_last(), fw, cw);
        assert(word == words[words.len() - 1]);
        if fits(prev, word, fw, cw) {
            if prev.1.len() > 0 {
                lemma_join_spaced(prev.1, word);
            } else {
                lemma_no_ws_spaced(word);
            }
        } else {
            if prev.1.len() > 0 {
                lemma_push_spaced(prev.0, prev.1);
            }
            lemma_chop_spaced(word, close_line(prev), fw, cw);
            lemma_no_ws_spaced(chop(word, close_line(prev), fw, cw).1);
        }
    }
}

/// Law: the words of the text are put on the lines with single spaces: no
/// line starts or ends with white space or holds two white space characters
/// together, and its only white space is the space. (With
/// `word_wrap_keeps_text`, the lines hold the text's words in order.)
pub proof fn word_wrap_single_spaces(text: Seq<char>, fw: nat, cw: nat)
    ensures
        all_spaced(spec_word_wrap(text, fw, cw)),
{
    if text.len() == 0 {
        assert(well_spaced(Seq::<char>::empty()));
        lemma_push_spaced(Seq::empty(), Seq::empty());
        assert(seq![Seq::<char>::empty()] =~= Seq::<Seq<char>>::empty().push(Seq::<char>::empty()));
    } else {
        let ws = words_of(text);
        lemma_words_no_ws(text);
        lemma_words_visible(text);
        lemma_wrap_spaced(ws, fw, cw);
        let st = wrap_state(ws, fw, cw);
        if st.1.len() > 0 {
            lemma_push_spaced(st.0, st.1);
        }
    }
}

/// The first word of a line: its characters before the first space.
pub open spec fn head_word(l: Seq<char>) -> Seq<char>
    decreases l.len(),
{
    if l.len() == 0 || l[0] == ' ' {
        Seq::empty()
    } else {
        seq![l[0]] + head_word(l.drop_first())
    }
}

proof fn lemma_head_word_join(a: Seq<char>, w: Seq<char>)
    ensures
        head_word(a.push(' ') + w) == head_word(a),
    decreases a.len(),
{
    let r = a.push(' ') + w;
    if a.len() == 0 {
        assert(r[0] == ' ');
    } else {
        assert(r[0] == a[0]);
        assert(r.drop_first() =~= a.drop_first().push(' ') + w);
        lemma_head_word_join(a.drop_first(), w);
    }
}

proof fn lemma_head_word_plain(w: Seq<char>)
    requires
        no_ws(w),
    ensures
        head_word(w) == w,
    decreases w.len(),
{
    if w.len() > 0 {
        assert(is_ws(' '));
        assert(w[0] != ' ');
        assert(no_ws(w.drop_first())) by {
            assert forall|k: int| 0 <= k < w.drop_first().len() implies !is_ws(
                #[trigger] w.drop_first()[k],
            ) by {
                assert(w.drop_first()[k] == w[k + 1]);
            }
        }
        lemma_head_word_plain(w.drop_first());
        assert(w =~= seq![w[0]] + w.drop_first());
    }
}

/// A break after line `i` was forced: the next line's first word would not
/// have fitted after it, with a space.
pub open spec fn break_forced(lines: Seq<Seq<char>>, i: int, next: Seq<char>, fw: nat, cw: nat) -> bool {
    lines[i].len() + 1 + head_word(next).len() > line_width(i as nat, fw, cw)
}

/// Every break between finished lines, and before the current line, was
/// forced; once a line is finished, the current line is not empty.
pub open spec fn greedy_state(st: (Seq<Seq<char>>, Seq<char>), fw: nat, cw: nat) -> bool {
    &&& forall|i: int| 0 <= i < st.0.len() - 1 ==> #[trigger] break_forced(st.0, i, st.0[i + 1], fw, cw)
    &&& st.0.len() > 0 ==> st.1.len() > 0 && break_forced(st.0, st.0.len() - 1, st.1, fw, cw)
}

proof fn lemma_wrap_greedy(words: Seq<Seq<char>>, fw: nat, cw: nat)
    requires
        forall|i: int|
            0 <= i < words.len() ==> no_ws(#[trigger] words[i]) && 0 < words[i].len() && words[i].len()
                <= fw && words[i].len() <= cw,
    ensures
        greedy_state(wrap_state(words, fw, cw), fw, cw),
    decreases words.len(),
{
    if words.len() > 0 {
        let prev = wrap_state(words.drop_last(), fw, cw);
        let word = words.last();
        assert forall|i: int| 0 <= i < words.drop_last().len() implies no_ws(
            #[trigger] words.drop_last()[i],
        ) && 0 < words.drop_last()[i].len() && words.drop_last()[i].len() <= fw
            && words.drop_last()[i].len() <= cw by {
            assert(words.drop_last()[i] == words[i]);
        }
        lemma_wrap_greedy(words.drop_last(), fw, cw);
        assert(word == words[words.len() - 1]);
        lemma_head_word_plain(word);
        let st = wrap_state(words, fw, cw);
        if fits(prev, word, fw, cw) {
            if prev.1.len() > 0 {
                lemma_head_word_join(prev.1, word);
            }
            assert(st.0 == prev.0);
        } else {
            assert(prev.1.len() > 0);
            let l2 = prev.0.push(prev.1);
            assert(close_line(prev) == l2);
            assert(chop(word, l2, fw, cw) == (l2, word));
            assert forall|i: int| 0 <= i < l2.len() - 1 implies #[trigger] break_forced(
                l2,
                i,
                l2[i + 1],
                fw,
                cw,
            ) by {
                assert(l2[i] == prev.0[i]);
                if i + 1 < prev.0.len() {
                    assert(l2[i + 1] == prev.0[i + 1]);
                    assert(break_forced(prev.0, i, prev.0[i + 1], fw, cw));
                } else {
                    assert(l2[i + 1] == prev.1);
                }
            }
        }
    }
}

/// Law: wrapping is greedy: when every word fits on any line, each break
/// between two lines is forced, because the next line's first word would
/// not have fitted at the end of the line before it.
pub proof fn word_wrap_breaks_forced(text: Seq<char>, fw: nat, cw: nat)
    requires
        forall|i: int|
            0 <= i < words_of(text).len() ==> #[trigger] words_of(text)[i].len() <= fw && words_of(
                text,
            )[i].len() <= cw,
    ensures
        forall|i: int|
            0 <= i < spec_word_wrap(text, fw, cw).len() - 1 ==> #[trigger] break_forced(
                spec_word_wrap(text, fw, cw),
                i,
                spec_word_wrap(text, fw, cw)[i + 1],
                fw,
                cw,
            ),
{
    if text.len() > 0 {
        let ws = words_of(text);
        lemma_words_no_ws(text);
        lemma_words_visible(text);
        lemma_wrap_greedy(ws, fw, cw);
        let st = wrap_state(ws, fw, cw);
        let l = close_line(st);
        if st.1.len() > 0 {
            assert forall|i: int| 0 <= i < l.len() - 1 implies #[trigger] break_forced(
                l,
                i,
                l[i + 1],
                fw,
                cw,
            ) by {
                assert(l[i] == st.0[i]);
                if i + 1 < st.0.len() {
                    assert(l[i + 1] == st.0[i + 1]);
                    assert(break_forced(st.0, i, st.0[i + 1], fw, cw));
                }
            }
        }
    }
}

proof fn lemma_visible_nonempty(l: Seq<char>)
    requires
        l.len() > 0,
        !is_ws(l[0]),
    ensures
        visible(l).len() >= 1,
{
    let c = seq![l[0]];
    assert(l =~= c + l.drop_first());
    lemma_visible_add(c, l.drop_first());
    assert(c.drop_last() =~= Seq::<char>::empty());
    assert(c.last() == l[0]);
    assert(visible(c) == visible(Seq::<char>::empty()).push(l[0]));
}

proof fn lemma_visible_lines(ls: Seq<Seq<char>>)
    requires
        forall|i: int| 1 <= i < ls.len() ==> #[trigger] ls[i].len() > 0 && !is_ws(ls[i][0]),
    ensures
        visible(ls.flatten()).len() + 1 >= ls.len(),
    decreases ls.len(),
{
    if ls.len() > 1 {
        let prev = ls.drop_last();
        assert forall|i: int| 1 <= i < prev.len() implies #[trigger] prev[i].len() > 0 && !is_ws(
            prev[i][0],
        ) by {
            assert(prev[i] == ls[i]);
        }
        lemma_visible_lines(prev);
        assert(ls =~= prev.push(ls.last()));
        prev.lemma_flatten_push(ls.last());
        lemma_visible_add(prev.flatten(), ls.last());
        assert(ls.last() == ls[ls.len() - 1]);
        lemma_visible_nonempty(ls.last());
    }
}

/// Law: with a positive width for the lines after the first, wrapping gives
/// at most one line more than the text has characters other than white
/// space (only a first line of width zero can be empty).
pub proof fn word_wrap_line_count(text: Seq<char>, fw: nat, cw: nat)
    requires
        cw > 0,
    ensures
        spec_word_wrap(text, fw, cw).len() <= visible(text).len() + 1,
{
    let ls = spec_word_wrap(text, fw, cw);
    if text.len() > 0 {
        word_wrap_ends_for_positive_cont_width(text, fw, cw);
        word_wrap_lines_fit(text, fw, cw);
        word_wrap_single_spaces(text, fw, cw);
        word_wrap_keeps_text(text, fw, cw);
        assert forall|i: int| 1 <= i < ls.len() implies #[trigger] ls[i].len() > 0 && !is_ws(
            ls[i][0],
        ) by {
            assert(line_width(i as nat, fw, cw) == cw);
            assert(ls[i].len() <= line_width(i as nat, fw, cw) && (0 < ls[i].len() || line_width(
                i as nat,
                fw,
                cw,
            ) == 0));
            assert(well_spaced(ls[i]));
            if is_ws(ls[i][0]) {
                assert(0 < 0int);
            }
        }
        lemma_visible_lines(ls);
    }
}

/// The words of the lines, line after line.
pub open spec fn lines_words(ls: Seq<Seq<char>>) -> Seq<Seq<char>>
    decreases ls.len(),
{
    if ls.len() == 0 {
        Seq::empty()
    } else {
        lines_words(ls.drop_last()) + words_of(ls.last())
    }
}

proof fn lemma_lines_words_push(ls: Seq<Seq<char>>, l: Seq<char>)
    ensures
        lines_words(ls.push(l)) == lines_words(ls) + words_of(l),
{
    assert(ls.push(l).drop_last() =~= ls);
}

proof fn lemma_wrap_words(words: Seq<Seq<char>>, fw: nat, cw: nat)
    requires
        forall|i: int|
            0 <= i < words.len() ==> no_ws(#[trigger] words[i]) && 0 < words[i].len() && words[i].len()
                <= fw && words[i].len() <= cw,
    ensures
        lines_words(wrap_state(words, fw, cw).0) + words_of(wrap_state(words, fw, cw).1) == words,
    decreases words.len(),
{
    if words.len() == 0 {
        assert(words_of(Seq::<char>::empty()) =~= Seq::<Seq<char>>::empty());
        assert(lines_words(Seq::<Seq<char>>::empty()) + Seq::<Seq<char>>::empty() =~= words);
    } else {
        let prev = wrap_state(words.drop_last(), fw, cw);
        let word = words.last();
        assert forall|i: int| 0 <= i < words.drop_last().len() implies no_ws(
            #[trigger] words.drop_last()[i],
        ) && 0 < words.drop_last()[i].len() && words.drop_last()[i].len() <= fw
            && words.drop_last()[i].len() <= cw by {
            assert(words.drop_last()[i] == words[i]);
        }
        lemma_wrap_words(words.drop_last(), fw, cw);
        assert(word == words[words.len() - 1]);
        lemma_words_plain(word);
        let st = wrap_state(words, fw, cw);
        assert(words =~= words.drop_last().push(word));
        if fits(prev, word, fw, cw) {
            if prev.1.len() > 0 {
                lemma_words_join(prev.1, word);
                assert(lines_words(prev.0) + words_of(prev.1).push(word) =~= (lines_words(prev.0)
                    + words_of(prev.1)).push(word));
            } else {
                assert(words_of(prev.1) =~= Seq::<Seq<char>>::empty()) by {
                    assert(prev.1 =~= Seq::<char>::empty());
                }
                assert(lines_words(prev.0) + seq![word] =~= (lines_words(prev.0) + Seq::<
                    Seq<char>,
                >::empty()).push(word));
            }
        } else {
            assert(prev.1.len() > 0);
            let l2 = prev.0.push(prev.1);
            assert(close_line(prev) == l2);
            assert(chop(word, l2, fw, cw) == (l2, word));
            lemma_lines_words_push(prev.0, prev.1);
            assert(lines_words(l2) + seq![word] =~= (lines_words(prev.0) + words_of(prev.1)).push(
                word,
            ));
        }
    }
}

/// Law: when every word of the text fits on any line, no word is broken:
/// the words of the lines, line after line, are the words of the text.
pub proof fn word_wrap_keeps_words(text: Seq<char>, fw: nat, cw: nat)
    requires
        forall|i: int|
            0 <= i < words_of(text).len() ==> #[trigger] words_of(text)[i].len() <= fw && words_of(
                text,
            )[i].len() <= cw,
    ensures
        lines_words(spec_word_wrap(text, fw, cw)) == words_of(text),
{
    if text.len() == 0 {
        let one = seq![Seq::<char>::empty()];
        assert(one.drop_last() =~= Seq::<Seq<char>>::empty());
        assert(text =~= Seq::<char>::empty());
        assert(words_of(Seq::<char>::empty()) =~= Seq::<Seq<char>>::empty());
        assert(one.last() == Seq::<char>::empty());
        assert(lines_words(one.drop_last()) =~= Seq::<Seq<char>>::empty());
        assert(lines_words(one) == lines_words(one.drop_last()) + words_of(one.last()));
        assert(lines_words(one) =~= Seq::<Seq<char>>::empty());
    } else {
        let ws = words_of(text);
        lemma_words_no_ws(text);
        lemma_words_visible(text);
        lemma_wrap_words(ws, fw, cw);
        let st = wrap_state(ws, fw, cw);
        if st.1.len() > 0 {
            lemma_lines_words_push(st.0, st.1);
        } else {
            assert(words_of(st.1) =~= Seq::<Seq<char>>::empty()) by {
                assert(st.1 =~= Seq::<char>::empty());
            }
            assert(lines_words(st.0) + Seq::<Seq<char>>::empty() =~= lines_words(st.0));
        }
    }
}

} // verus!
