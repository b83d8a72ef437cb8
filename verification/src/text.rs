//! Characters and strings: whitespace, splitting into words, and the few
//! `String` operations the rest of the library builds on.

use vstd::prelude::*;

verus! {

/// The Unicode `White_Space` property, which `char::is_whitespace` documents
/// as its definition.
pub open spec fn is_ws(c: char) -> bool {
    let n = c as int;
    ||| 0x09 <= n <= 0x0d
    ||| n == 0x20
    ||| n == 0x85
    ||| n == 0xa0
    ||| n == 0x1680
    ||| 0x2000 <= n <= 0x200a
    ||| n == 0x2028
    ||| n == 0x2029
    ||| n == 0x202f
    ||| n == 0x205f
    ||| n == 0x3000
}

/// Whether `c` is white space in the sense of `char::is_whitespace`.
pub fn is_whitespace(c: char) -> (b: bool)
    ensures
        b == is_ws(c),
{
    let n = c as u32;
    (0x09 <= n && n <= 0x0d) || n == 0x20 || n == 0x85 || n == 0xa0 || n == 0x1680 || (0x2000
        <= n && n <= 0x200a) || n == 0x2028 || n == 0x2029 || n == 0x202f || n == 0x205f || n
        == 0x3000
}

/// One step of splitting on white space: the finished words and the word being read.
pub open spec fn split_step(st: (Seq<Seq<char>>, Seq<char>), c: char) -> (
    Seq<Seq<char>>,
    Seq<char>,
) {
    if is_ws(c) {
        if st.1.len() > 0 {
            (st.0.push(st.1), Seq::empty())
        } else {
            st
        }
    } else {
        (st.0, st.1.push(c))
    }
}

/// The state after reading all of `text`.
pub open spec fn split_state(text: Seq<char>) -> (Seq<Seq<char>>, Seq<char>)
    decreases text.len(),
{
    if text.len() == 0 {
        (Seq::empty(), Seq::empty())
    } else {
        split_step(split_state(text.drop_last()), text.last())
    }
}

/// The words of `text`, as `str::split_whitespace` yields them: the maximal
/// runs of characters that are not white space, in order.
pub open spec fn words_of(text: Seq<char>) -> Seq<Seq<char>> {
    let st = split_state(text);
    if st.1.len() > 0 {
        st.0.push(st.1)
    } else {
        st.0
    }
}

/// The characters of `s` that are not white space, in order.
pub open spec fn visible(s: Seq<char>) -> Seq<char>
    decreases s.len(),
{
    if s.len() == 0 {
        s
    } else if is_ws(s.last()) {
        visible(s.drop_last())
    } else {
        visible(s.drop_last()).push(s.last())
    }
}

/// The visible characters of a concatenation are those of its parts.
pub proof fn lemma_visible_add(a: Seq<char>, b: Seq<char>)
    ensures
        visible(a + b) == visible(a) + visible(b),
    decreases b.len(),
{
    if b.len() == 0 {
        assert(a + b =~= a);
        assert(visible(a) + visible(b) =~= visible(a));
    } else {
        assert((a + b).drop_last() =~= a + b.drop_last());
        assert((a + b).last() == b.last());
        lemma_visible_add(a, b.drop_last());
        if !is_ws(b.last()) {
            assert(visible(a) + visible(b.drop_last()).push(b.last()) =~= (visible(a) + visible(
                b.drop_last(),
            )).push(b.last()));
        }
    }
}

/// Splitting into words keeps exactly the visible characters: the words,
/// put end to end, are the text without its white space.
pub proof fn lemma_words_visible(text: Seq<char>)
    ensures
        words_of(text).flatten() == visible(text),
        forall|i: int| 0 <= i < words_of(text).len() ==> #[trigger] words_of(text)[i].len() > 0,
{
    lemma_split_state_visible(text);
    let st = split_state(text);
    if st.1.len() > 0 {
        st.0.lemma_flatten_push(st.1);
    } else {
        assert(st.0.flatten() + st.1 =~= st.0.flatten());
    }
}

/// No character of `s` is white space.
pub open spec fn no_ws(s: Seq<char>) -> bool {
    forall|k: int| 0 <= k < s.len() ==> !is_ws(#[trigger] s[k])
}

/// The words of a text hold no white space.
pub proof fn lemma_words_no_ws(text: Seq<char>)
    ensures
        forall|i: int| 0 <= i < words_of(text).len() ==> no_ws(#[trigger] words_of(text)[i]),
{
    lemma_split_state_no_ws(text);
    let st = split_state(text);
    if st.1.len() > 0 {
        assert forall|i: int| 0 <= i < st.0.push(st.1).len() implies no_ws(
            #[trigger] st.0.push(st.1)[i],
        ) by {
            if i < st.0.len() {
                assert(st.0.push(st.1)[i] == st.0[i]);
            }
        }
    }
}

proof fn lemma_split_state_plain(a: Seq<char>, w: Seq<char>)
    requires
        no_ws(w),
    ensures
        split_state(a + w) == (split_state(a).0, split_state(a).1 + w),
    decreases w.len(),
{
    if w.len() == 0 {
        assert(a + w =~= a);
        assert(split_state(a).1 + w =~= split_state(a).1);
    } else {
        let w2 = w.drop_last();
        assert(no_ws(w2)) by {
            assert forall|k: int| 0 <= k < w2.len() implies !is_ws(#[trigger] w2[k]) by {
                assert(w2[k] == w[k]);
            }
        }
        assert(!is_ws(w.last())) by {
            assert(w.last() == w[w.len() - 1]);
        }
        lemma_split_state_plain(a, w2);
        assert((a + w).drop_last() =~= a + w2);
        assert((a + w).last() == w.last());
        assert((split_state(a).1 + w2).push(w.last()) =~= split_state(a).1 + w);
    }
}

/// A word after a space adds exactly that word: the words of `a`, a space
/// and a word `w` are the words of `a` followed by `w`.
pub proof fn lemma_words_join(a: Seq<char>, w: Seq<char>)
    requires
        no_ws(w),
        w.len() > 0,
    ensures
        words_of(a.push(' ') + w) == words_of(a).push(w),
{
    let st = split_state(a);
    assert(a.push(' ').drop_last() =~= a);
    assert(a.push(' ').last() == ' ');
    assert(is_ws(' '));
    assert(split_state(a.push(' ')) == (words_of(a), Seq::<char>::empty()));
    lemma_split_state_plain(a.push(' '), w);
    assert(Seq::<char>::empty() + w =~= w);
}

/// The words of a non-empty text without white space: the text itself.
pub proof fn lemma_words_plain(w: Seq<char>)
    requires
        no_ws(w),
        w.len() > 0,
    ensures
        words_of(w) == seq![w],
{
    lemma_split_state_plain(Seq::empty(), w);
    assert(Seq::<char>::empty() + w =~= w);
    assert(Seq::<char>::empty() + w =~= w);
    assert(Seq::<Seq<char>>::empty().push(w) =~= seq![w]);
}

proof fn lemma_split_state_no_ws(text: Seq<char>)
    ensures
        forall|i: int| 0 <= i < split_state(text).0.len() ==> no_ws(#[trigger] split_state(text).0[i]),
        no_ws(split_state(text).1),
    decreases text.len(),
{
    if text.len() > 0 {
        let prev = split_state(text.drop_last());
        lemma_split_state_no_ws(text.drop_last());
        let c = text.last();
        if is_ws(c) {
            if prev.1.len() > 0 {
                assert forall|i: int| 0 <= i < prev.0.push(prev.1).len() implies no_ws(
                    #[trigger] prev.0.push(prev.1)[i],
                ) by {
                    if i < prev.0.len() {
                        assert(prev.0.push(prev.1)[i] == prev.0[i]);
                    }
                }
            }
        } else {
            assert forall|k: int| 0 <= k < prev.1.push(c).len() implies !is_ws(
                #[trigger] prev.1.push(c)[k],
            ) by {
                if k < prev.1.len() {
                    assert(prev.1.push(c)[k] == prev.1[k]);
                }
            }
        }
    }
}

proof fn lemma_split_state_visible(text: Seq<char>)
    ensures
        split_state(text).0.flatten() + split_state(text).1 == visible(text),
        forall|i: int|
            0 <= i < split_state(text).0.len() ==> #[trigger] split_state(text).0[i].len() > 0,
    decreases text.len(),
{
    if text.len() > 0 {
        let prev = split_state(text.drop_last());
        lemma_split_state_visible(text.drop_last());
        let c = text.last();
        if is_ws(c) {
            if prev.1.len() > 0 {
                prev.0.lemma_flatten_push(prev.1);
                assert(prev.0.push(prev.1).flatten() + Seq::<char>::empty() =~= prev.0.flatten()
                    + prev.1);
            }
        } else {
            assert(prev.0.flatten() + prev.1.push(c) =~= (prev.0.flatten() + prev.1).push(c));
        }
    }
}

/// One step of splitting on a separator character: the finished pieces and
/// the piece being read.
pub open spec fn split_sep_step(st: (Seq<Seq<char>>, Seq<char>), c: char, sep: char) -> (
    Seq<Seq<char>>,
    Seq<char>,
) {
    if c == sep {
        (st.0.push(st.1), Seq::empty())
    } else {
        (st.0, st.1.push(c))
    }
}

/// The state after reading all of `s`.
pub open spec fn split_sep_state(s: Seq<char>, sep: char) -> (Seq<Seq<char>>, Seq<char>)
    decreases s.len(),
{
    if s.len() == 0 {
        (Seq::empty(), Seq::empty())
    } else {
        split_sep_step(split_sep_state(s.drop_last(), sep), s.last(), sep)
    }
}

/// The pieces of `s` between occurrences of `sep`, as `str::split` with a
/// character pattern yields them: empty pieces included, and always at
/// least one piece.
pub open spec fn split_on(s: Seq<char>, sep: char) -> Seq<Seq<char>> {
    let st = split_sep_state(s, sep);
    st.0.push(st.1)
}

/// The pieces of `s` between occurrences of `sep` (see `split_on`).
pub fn split_char(s: &str, sep: char) -> (pieces: Vec<String>)
    ensures
        pieces.len() == split_on(s@, sep).len(),
        forall|i: int| 0 <= i < pieces.len() ==> #[trigger] pieces[i]@ == split_on(s@, sep)[i],
{
    let chars = chars_of(s);
    let mut pieces: Vec<String> = Vec::new();
    let mut cur = String::new();
    for i in 0..chars.len()
        invariant
            chars@ == s@,
            pieces.len() == split_sep_state(s@.take(i as int), sep).0.len(),
            forall|k: int|
                0 <= k < pieces.len() ==> #[trigger] pieces[k]@ == split_sep_state(
                    s@.take(i as int),
                    sep,
                ).0[k],
            cur@ == split_sep_state(s@.take(i as int), sep).1,
    {
        assert(s@.take(i + 1).drop_last() =~= s@.take(i as int));
        assert(s@.take(i + 1).last() == chars@[i as int]);
        let c = chars[i];
        if c == sep {
            let done = cur;
            pieces.push(done);
            cur = String::new();
        } else {
            push_char(&mut cur, c);
        }
    }
    assert(s@.take(chars.len() as int) =~= s@);
    pieces.push(cur);
    pieces
}

/// `parts` joined by `sep`.
pub open spec fn join_with(parts: Seq<Seq<char>>, sep: char) -> Seq<char>
    decreases parts.len(),
{
    if parts.len() == 0 {
        Seq::empty()
    } else if parts.len() == 1 {
        parts[0]
    } else {
        join_with(parts.drop_last(), sep).push(sep) + parts.last()
    }
}

/// Whether `c` occurs in `s`.
pub fn contains_char(s: &str, c: char) -> (b: bool)
    ensures
        b == s@.contains(c),
{
    let chars = chars_of(s);
    for i in 0..chars.len()
        invariant
            chars@ == s@,
            forall|k: int| 0 <= k < i ==> chars@[k] != c,
    {
        if chars[i] == c {
            return true;
        }
    }
    false
}

/// The characters of a string, in order.
pub fn chars_of(s: &str) -> (v: Vec<char>)
    ensures
        v@ == s@,
{
    let mut v: Vec<char> = Vec::new();
    for c in it: s.chars()
        invariant
            it.seq() == s@,
            v@ == it.seq().take(it.index() as int),
    {
        v.push(c);
    }
    v
}

/// `String::push`: appends one character.
#[verifier::external_body]
pub(crate) fn push_char(s: &mut String, c: char)
    ensures
        final(s)@ == old(s)@.push(c),
{
    s.push(c);
}

/// `String::pop`: removes and returns the last character, if any.
#[verifier::external_body]
pub(crate) fn pop_char(s: &mut String) -> (c: Option<char>)
    ensures
        old(s)@.len() == 0 ==> c is None && final(s)@ == old(s)@,
        old(s)@.len() > 0 ==> c == Some(old(s)@.last()) && final(s)@ == old(s)@.drop_last(),
{
    s.pop()
}

/// The string made of the given characters.
pub fn string_of(v: &Vec<char>) -> (s: String)
    ensures
        s@ == v@,
{
    let mut s = String::new();
    for i in 0..v.len()
        invariant
            s@ == v@.take(i as int),
    {
        push_char(&mut s, v[i]);
        assert(v@.take(i + 1) == v@.take(i as int).push(v@[i as int]));
    }
    assert(v@.take(v.len() as int) == v@);
    s
}

/// The words of `text` (see `words_of`).
pub fn split_whitespace(text: &Vec<char>) -> (words: Vec<Vec<char>>)
    ensures
        words.deep_view() == words_of(text@),
{
    let mut words: Vec<Vec<char>> = Vec::new();
    let mut cur: Vec<char> = Vec::new();
    for i in 0..text.len()
        invariant
            (words.deep_view(), cur@) == split_state(text@.take(i as int)),
    {
        let c = text[i];
        assert(text@.take(i + 1).drop_last() == text@.take(i as int));
        if is_whitespace(c) {
            if cur.len() > 0 {
                let ghost before = words.deep_view();
                let w = cur;
                assert(w.deep_view() =~= w@);
                let ghost wv = w.deep_view();
                words.push(w);
                cur = Vec::new();
                assert(words.deep_view() =~= before.push(wv));
            }
        } else {
            cur.push(c);
        }
    }
    assert(text@.take(text.len() as int) == text@);
    if cur.len() > 0 {
        let ghost before = words.deep_view();
        assert(cur.deep_view() =~= cur@);
        let ghost last = cur.deep_view();
        words.push(cur);
        assert(words.deep_view() =~= before.push(last));
    }
    words
}

} // verus!
