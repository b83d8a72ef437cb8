//! Paths of the blob store: the names under which imported files are kept,
//! the places where exported files are written, and the store's own
//! directory name.

use vstd::prelude::*;
use vstd::multiset::Multiset;

use crate::encoding::{hex_lower, spec_hex_lower};
use crate::text::{
    chars_of, contains_char, push_char, split_char, split_on,
    split_sep_state, split_sep_step, join_with,
};

verus! {

/// One component of a path, as `std::path::Component` gives it; a normal
/// component holds its text, or nothing if it is not valid Unicode.
#[derive(Debug)]
pub enum PathComponent {
    Prefix,
    RootDir,
    CurDir,
    ParentDir,
    Normal(Option<String>),
}

/// Why a path or a name was refused.
#[derive(Debug)]
pub enum PathError {
    /// A component is not valid Unicode.
    InvalidCharacter,
    /// A component that a canonical (relative) path cannot hold.
    InvalidComponent(PathComponent),
    /// A path component holds the separator `/`.
    SeparatorInComponent,
}

// ---------------------------------------------------------------------------
// Names of imported files
// ---------------------------------------------------------------------------

/// The texts `.` and `..`.
pub open spec fn is_dot_text(t: Seq<char>) -> bool {
    t == seq!['.'] || t == seq!['.', '.']
}

/// Whether a component is refused: text that is not Unicode, holds `/` or
/// `\\`, or is `.` or `..`; a root when the path must be relative; and any
/// prefix, `.` or `..` component.
pub open spec fn component_refused(c: PathComponent, must_be_relative: bool) -> bool {
    match c {
        PathComponent::Normal(None) => true,
        PathComponent::Normal(Some(s)) => s@.contains('/') || s@.contains('\\') || is_dot_text(s@),
        PathComponent::RootDir => must_be_relative,
        _ => true,
    }
}

/// The error for a refused component.
pub open spec fn component_error(c: PathComponent) -> PathError {
    match c {
        PathComponent::Normal(None) => PathError::InvalidCharacter,
        _ => PathError::InvalidComponent(c),
    }
}

/// The index of the first refused component, if any.
pub open spec fn first_refused(comps: Seq<PathComponent>, must_be_relative: bool) -> Option<int>
    decreases comps.len(),
{
    if comps.len() == 0 {
        None
    } else {
        match first_refused(comps.drop_last(), must_be_relative) {
            Some(i) => Some(i),
            None => if component_refused(comps.last(), must_be_relative) {
                Some(comps.len() - 1)
            } else {
                None
            },
        }
    }
}

proof fn lemma_first_refused_prefix(comps: Seq<PathComponent>, j: int, mbr: bool)
    requires
        0 <= j <= comps.len(),
        first_refused(comps.take(j), mbr) is Some,
    ensures
        first_refused(comps, mbr) == first_refused(comps.take(j), mbr),
    decreases comps.len(),
{
    if j == comps.len() {
        assert(comps.take(j) =~= comps);
    } else {
        assert(comps.drop_last().take(j) =~= comps.take(j));
        lemma_first_refused_prefix(comps.drop_last(), j, mbr);
    }
}

/// The number of root components.
pub open spec fn root_count(comps: Seq<PathComponent>) -> nat
    decreases comps.len(),
{
    if comps.len() == 0 {
        0
    } else {
        root_count(comps.drop_last()) + if comps.last() is RootDir {
            1nat
        } else {
            0nat
        }
    }
}

/// The texts of the normal components, in order.
pub open spec fn normal_texts(comps: Seq<PathComponent>) -> Seq<Seq<char>>
    decreases comps.len(),
{
    if comps.len() == 0 {
        Seq::empty()
    } else {
        let prev = normal_texts(comps.drop_last());
        match comps.last() {
            PathComponent::Normal(Some(s)) => prev.push(s@),
            _ => prev,
        }
    }
}

/// `n` slashes.
pub open spec fn slashes(n: nat) -> Seq<char> {
    Seq::new(n, |i: int| '/')
}

/// The name of a path made of accepted components: a `/` for each root,
/// then the normal components joined by `/`.
pub open spec fn canonical_name(comps: Seq<PathComponent>) -> Seq<char> {
    slashes(root_count(comps)) + join_with(normal_texts(comps), '/')
}

/// Whether a text is `.` or `..`.
pub fn is_dot(t: &str) -> (b: bool)
    ensures
        b == is_dot_text(t@),
{
    let n = t.unicode_len();
    if n == 1 {
        let r = t.get_char(0) == '.';
        if r {
            assert(t@ =~= seq!['.']);
        } else {
            assert(t@[0] != seq!['.'][0]);
        }
        r
    } else if n == 2 {
        let r = t.get_char(0) == '.' && t.get_char(1) == '.';
        if r {
            assert(t@ =~= seq!['.', '.']);
        } else {
            assert(t@[0] != seq!['.', '.'][0] || t@[1] != seq!['.', '.'][1]);
        }
        r
    } else {
        false
    }
}

/// The mathematical form of a path component.
pub enum ComponentView {
    Prefix,
    RootDir,
    CurDir,
    ParentDir,
    Normal(Option<Seq<char>>),
}

impl View for PathComponent {
    type V = ComponentView;

    open spec fn view(&self) -> ComponentView {
        match self {
            PathComponent::Prefix => ComponentView::Prefix,
            PathComponent::RootDir => ComponentView::RootDir,
            PathComponent::CurDir => ComponentView::CurDir,
            PathComponent::ParentDir => ComponentView::ParentDir,
            PathComponent::Normal(None) => ComponentView::Normal(None),
            PathComponent::Normal(Some(t)) => ComponentView::Normal(Some(t@)),
        }
    }
}

/// The components the pieces of a Unix path's text (between `/`) stand for:
/// an empty piece stands for none, `.` for the current directory, `..` for
/// the parent, and any other piece for a normal component.
pub open spec fn piece_components(pieces: Seq<Seq<char>>) -> Seq<ComponentView>
    decreases pieces.len(),
{
    if pieces.len() == 0 {
        Seq::empty()
    } else {
        let prev = piece_components(pieces.drop_last());
        let p = pieces.last();
        if p.len() == 0 {
            prev
        } else if p == seq!['.'] {
            prev.push(ComponentView::CurDir)
        } else if p == seq!['.', '.'] {
            prev.push(ComponentView::ParentDir)
        } else {
            prev.push(ComponentView::Normal(Some(p)))
        }
    }
}

/// The components of a Unix path's text: a root if it starts with `/`, then
/// the components of its pieces. Unlike `Path::components`, every `.` is
/// kept, so that a path holding one can be refused.
pub open spec fn text_components(t: Seq<char>) -> Seq<ComponentView> {
    (if t.len() > 0 && t[0] == '/' {
        seq![ComponentView::RootDir]
    } else {
        Seq::empty()
    }) + piece_components(split_on(t, '/'))
}

/// The components of a Unix path given as text (see `text_components`).
pub fn path_components(path: &str) -> (comps: Vec<PathComponent>)
    ensures
        comps@.map_values(|c: PathComponent| c@) == text_components(path@),
{
    let pieces = split_char(path, '/');
    let ghost ps = split_on(path@, '/');
    let mut comps: Vec<PathComponent> = Vec::new();
    let ghost head: Seq<ComponentView> = Seq::empty();
    if path.unicode_len() > 0 && path.get_char(0) == '/' {
        comps.push(PathComponent::RootDir);
        proof {
            head = seq![ComponentView::RootDir];
        }
    }
    assert(comps@.map_values(|c: PathComponent| c@) =~= head);
    for i in 0..pieces.len()
        invariant
            pieces.len() == ps.len(),
            ps == split_on(path@, '/'),
            forall|k: int| 0 <= k < pieces.len() ==> #[trigger] pieces[k]@ == ps[k],
            head == (if path@.len() > 0 && path@[0] == '/' {
                seq![ComponentView::RootDir]
            } else {
                Seq::<ComponentView>::empty()
            }),
            comps@.map_values(|c: PathComponent| c@) == head + piece_components(ps.take(i as int)),
    {
        let ghost before = comps@.map_values(|c: PathComponent| c@);
        assert(ps.take(i + 1).drop_last() =~= ps.take(i as int));
        assert(ps.take(i + 1).last() == ps[i as int]);
        let piece = &pieces[i];
        let ghost prev = piece_components(ps.take(i as int));
        let n = piece.as_str().unicode_len();
        if n == 0 {
            assert(ps[i as int].len() == 0);
        } else if is_dot(piece.as_str()) {
            if n == 1 {
                comps.push(PathComponent::CurDir);
                assert(comps@.map_values(|c: PathComponent| c@) =~= before.push(ComponentView::CurDir));
                assert(head + prev.push(ComponentView::CurDir) =~= (head + prev).push(ComponentView::CurDir));
            } else {
                assert(ps[i as int] != seq!['.']);
                comps.push(PathComponent::ParentDir);
                assert(comps@.map_values(|c: PathComponent| c@) =~= before.push(ComponentView::ParentDir));
                assert(head + prev.push(ComponentView::ParentDir) =~= (head + prev).push(ComponentView::ParentDir));
            }
        } else {
            comps.push(PathComponent::Normal(Some(piece.clone())));
            let ghost v = ComponentView::Normal(Some(ps[i as int]));
            assert(comps@.map_values(|c: PathComponent| c@) =~= before.push(v));
            assert(head + prev.push(v) =~= (head + prev).push(v));
        }
        assert(comps@.map_values(|c: PathComponent| c@) =~= head + piece_components(
            ps.take(i + 1),
        ));
    }
    assert(ps.take(pieces.len() as int) =~= ps);
    comps
}

/// Converts an already canonical path, given by its components, to the name
/// under which it is stored. It fails at the first component that is refused
/// (see `component_refused`), with `InvalidCharacter` for text that is not
/// Unicode and `InvalidComponent` otherwise; else the name is a `/` for each
/// root followed by the normal components joined by `/`.
pub fn canonicalized_path_to_string(components: &Vec<PathComponent>, must_be_relative: bool) -> (r:
    Result<String, PathError>)
    ensures
        match first_refused(components@, must_be_relative) {
            Some(i) => r matches Err(e) && e == component_error(components@[i]),
            None => r matches Ok(name) && name@ == canonical_name(components@),
        },
{
    let mut roots: usize = 0;
    let mut parts: Vec<String> = Vec::new();
    for i in 0..components.len()
        invariant
            first_refused(components@.take(i as int), must_be_relative) is None,
            roots == root_count(components@.take(i as int)),
            roots <= i,
            parts.len() == normal_texts(components@.take(i as int)).len(),
            forall|k: int|
                0 <= k < parts.len() ==> #[trigger] parts[k]@ == normal_texts(
                    components@.take(i as int),
                )[k],
    {
        let ghost pre = components@.take(i as int);
        assert(components@.take(i + 1).drop_last() =~= pre);
        assert(components@.take(i + 1).last() == components@[i as int]);
        let refused: Option<PathError> = match &components[i] {
            PathComponent::Normal(Some(s)) => {
                if contains_char(s.as_str(), '/') || contains_char(s.as_str(), '\\') || is_dot(
                    s.as_str(),
                ) {
                    Some(PathError::InvalidComponent(PathComponent::Normal(Some(s.clone()))))
                } else {
                    parts.push(s.clone());
                    None
                }
            },
            PathComponent::Normal(None) => Some(PathError::InvalidCharacter),
            PathComponent::RootDir => {
                if must_be_relative {
                    Some(PathError::InvalidComponent(PathComponent::RootDir))
                } else {
                    roots = roots + 1;
                    None
                }
            },
            PathComponent::Prefix => Some(PathError::InvalidComponent(PathComponent::Prefix)),
            PathComponent::CurDir => Some(PathError::InvalidComponent(PathComponent::CurDir)),
            PathComponent::ParentDir => Some(PathError::InvalidComponent(PathComponent::ParentDir)),
        };
        if let Some(e) = refused {
            proof {
                assert(first_refused(components@.take(i + 1), must_be_relative) == Some(i as int));
                lemma_first_refused_prefix(components@, i + 1, must_be_relative);
            }
            return Err(e);
        }
    }
    assert(components@.take(components.len() as int) =~= components@);
    let mut name = String::new();
    for k in 0..roots
        invariant
            name@ == slashes(k as nat),
    {
        push_char(&mut name, '/');
        assert(slashes((k + 1) as nat) =~= slashes(k as nat).push('/'));
    }
    let ghost texts = normal_texts(components@);
    let ghost head = name@;
    for k in 0..parts.len()
        invariant
            parts.len() == texts.len(),
            forall|j: int| 0 <= j < parts.len() ==> #[trigger] parts[j]@ == texts[j],
            name@ == head + join_with(texts.take(k as int), '/'),
    {
        assert(texts.take(k + 1).drop_last() =~= texts.take(k as int));
        if k > 0 {
            push_char(&mut name, '/');
        } else {
            assert(texts.take(1) =~= seq![texts[0]]);
        }
        name.append(parts[k].as_str());
        assert(name@ =~= head + join_with(texts.take(k + 1), '/'));
    }
    assert(texts.take(parts.len() as int) =~= texts);
    Ok(name)
}

// ---------------------------------------------------------------------------
// Order of imported files
// ---------------------------------------------------------------------------

/// Lexicographic order of character sequences by code point, as `String`
/// compares (UTF-8 keeps the order of code points): `a` comes before or
/// equals `b`.
pub open spec fn name_le(a: Seq<char>, b: Seq<char>) -> bool
    decreases a.len(),
{
    if a.len() == 0 {
        true
    } else if b.len() == 0 {
        false
    } else if a[0] < b[0] {
        true
    } else if a[0] > b[0] {
        false
    } else {
        name_le(a.drop_first(), b.drop_first())
    }
}

proof fn lemma_name_le_total(a: Seq<char>, b: Seq<char>)
    ensures
        name_le(a, b) || name_le(b, a),
    decreases a.len(),
{
    if a.len() > 0 && b.len() > 0 && a[0] == b[0] {
        lemma_name_le_total(a.drop_first(), b.drop_first());
    }
}

proof fn lemma_name_le_trans(a: Seq<char>, b: Seq<char>, c: Seq<char>)
    requires
        name_le(a, b),
        name_le(b, c),
    ensures
        name_le(a, c),
    decreases a.len(),
{
    if a.len() > 0 && b.len() > 0 && c.len() > 0 && a[0] == b[0] && b[0] == c[0] {
        lemma_name_le_trans(a.drop_first(), b.drop_first(), c.drop_first());
    }
}

/// Whether the entries are in order of their names.
pub open spec fn sorted_by_name<T>(s: Seq<(String, T)>) -> bool {
    forall|i: int, j: int| 0 <= i < j < s.len() ==> name_le(#[trigger] s[i].0@, #[trigger] s[j].0@)
}

/// Whether `a` comes before or equals `b` (see `name_le`).
pub fn name_le_exec(a: &str, b: &str) -> (r: bool)
    ensures
        r == name_le(a@, b@),
{
    let x = chars_of(a);
    let y = chars_of(b);
    let mut i: usize = 0;
    assert(a@.skip(0) =~= a@);
    assert(b@.skip(0) =~= b@);
    while i < x.len()
        invariant
            x@ == a@,
            y@ == b@,
            i <= x.len(),
            i <= y.len() || i == 0,
            name_le(a@, b@) == name_le(a@.skip(i as int), b@.skip(i as int)),
        decreases x.len() - i,
    {
        if i >= y.len() {
            assert(b@.skip(i as int).len() == 0);
            return false;
        }
        assert(a@.skip(i as int)[0] == x@[i as int]);
        assert(b@.skip(i as int)[0] == y@[i as int]);
        if x[i] < y[i] {
            return true;
        }
        if x[i] > y[i] {
            return false;
        }
        assert(a@.skip(i as int).drop_first() =~= a@.skip(i + 1));
        assert(b@.skip(i as int).drop_first() =~= b@.skip(i + 1));
        i = i + 1;
    }
    assert(a@.skip(i as int).len() == 0);
    true
}

proof fn lemma_insert_multiset<A>(s: Seq<A>, i: int, a: A)
    requires
        0 <= i <= s.len(),
    ensures
        s.insert(i, a).to_multiset() == s.to_multiset().insert(a),
{
    broadcast use vstd::seq_lib::group_to_multiset_ensures;

    let t = s.insert(i, a);
    assert(t.remove(i) =~= s);
    assert(t[i] == a);
    assert(t.to_multiset().count(a) > 0);
    assert(t.to_multiset() =~= t.to_multiset().remove(a).insert(a));
}

/// The entries named `n`, in their order in `s`.
pub open spec fn with_name<T>(s: Seq<(String, T)>, n: Seq<char>) -> Seq<(String, T)>
    decreases s.len(),
{
    if s.len() == 0 {
        Seq::empty()
    } else if s.last().0@ == n {
        with_name(s.drop_last(), n).push(s.last())
    } else {
        with_name(s.drop_last(), n)
    }
}

proof fn lemma_with_name_add<T>(a: Seq<(String, T)>, b: Seq<(String, T)>, n: Seq<char>)
    ensures
        with_name(a + b, n) == with_name(a, n) + with_name(b, n),
    decreases b.len(),
{
    if b.len() == 0 {
        assert(a + b =~= a);
        assert(with_name(a, n) + Seq::empty() =~= with_name(a, n));
    } else {
        lemma_with_name_add(a, b.drop_last(), n);
        assert((a + b).drop_last() =~= a + b.drop_last());
        assert((a + b).last() == b.last());
        if b.last().0@ == n {
            assert(with_name(a, n) + with_name(b.drop_last(), n).push(b.last()) =~= (with_name(
                a,
                n,
            ) + with_name(b.drop_last(), n)).push(b.last()));
        }
    }
}

proof fn lemma_with_name_one<T>(x: (String, T), n: Seq<char>)
    ensures
        with_name(seq![x], n) == (if x.0@ == n {
            seq![x]
        } else {
            Seq::<(String, T)>::empty()
        }),
{
    let s = seq![x];
    assert(s.drop_last() =~= Seq::<(String, T)>::empty());
    assert(with_name(s.drop_last(), n) =~= Seq::<(String, T)>::empty());
    assert(s.last() == x);
    assert(Seq::<(String, T)>::empty().push(x) =~= seq![x]);
}

proof fn lemma_with_name_none<T>(s: Seq<(String, T)>, n: Seq<char>)
    requires
        forall|i: int| 0 <= i < s.len() ==> #[trigger] s[i].0@ != n,
    ensures
        with_name(s, n) == Seq::<(String, T)>::empty(),
    decreases s.len(),
{
    if s.len() > 0 {
        assert forall|i: int| 0 <= i < s.drop_last().len() implies #[trigger] s.drop_last()[i].0@
            != n by {
            assert(s.drop_last()[i] == s[i]);
        }
        lemma_with_name_none(s.drop_last(), n);
        assert(s.last() == s[s.len() - 1]);
    }
}

proof fn lemma_name_le_refl(a: Seq<char>)
    ensures
        name_le(a, a),
    decreases a.len(),
{
    if a.len() > 0 {
        lemma_name_le_refl(a.drop_first());
    }
}

/// Puts the entries in order of their names (see `name_le`); entries with
/// equal names keep their order. The result holds the same entries.
pub fn sort_by_name<T>(entries: Vec<(String, T)>) -> (out: Vec<(String, T)>)
    ensures
        sorted_by_name(out@),
        forall|n: Seq<char>| #[trigger] with_name(out@, n) == with_name(entries@, n),
        out@.to_multiset() == entries@.to_multiset(),
{
    broadcast use vstd::seq_lib::group_to_multiset_ensures;

    let ghost input = entries@;
    let mut rest = entries;
    let mut out: Vec<(String, T)> = Vec::new();
    assert(rest@ =~= input);
    while rest.len() > 0
        invariant
            sorted_by_name(out@),
            out@.to_multiset().add(rest@.to_multiset()) == input.to_multiset(),
            forall|n: Seq<char>| #[trigger] with_name(input, n) == with_name(out@, n) + with_name(rest@, n),
        decreases rest.len(),
    {
        let ghost before_rest = rest@;
        let e = rest.remove(0);
        proof {
            before_rest.to_multiset_ensures();
            assert(before_rest.remove(0).to_multiset() == before_rest.to_multiset().remove(
                before_rest[0],
            ));
        }
        let mut pos: usize = 0;
        while pos < out.len()
            invariant
                pos <= out.len(),
                sorted_by_name(out@),
                forall|k: int| 0 <= k < pos ==> name_le(#[trigger] out@[k].0@, e.0@),
            ensures
                pos <= out.len(),
                forall|k: int| 0 <= k < pos ==> name_le(#[trigger] out@[k].0@, e.0@),
                pos < out.len() ==> !name_le(out@[pos as int].0@, e.0@),
            decreases out.len() - pos,
        {
            if !name_le_exec(out[pos].0.as_str(), e.0.as_str()) {
                break;
            }
            pos = pos + 1;
        }
        proof {
            if pos < out.len() {
                lemma_name_le_total(out@[pos as int].0@, e.0@);
            }
        }
        let ghost old_out = out@;
        let ghost ev = e;
        out.insert(pos, e);
        proof {
            lemma_insert_multiset(old_out, pos as int, ev);
            assert forall|i: int, j: int| 0 <= i < j < out@.len() implies name_le(
                #[trigger] out@[i].0@,
                #[trigger] out@[j].0@,
            ) by {
                if j < pos {
                } else if j == pos {
                    assert(out@[i] == old_out[i]);
                } else if i == pos {
                    assert(out@[j] == old_out[j - 1]);
                    if j - 1 > pos {
                        lemma_name_le_trans(ev.0@, old_out[pos as int].0@, old_out[j - 1].0@);
                    }
                } else if i < pos {
                    assert(out@[i] == old_out[i]);
                    assert(out@[j] == old_out[j - 1]);
                } else {
                    assert(out@[i] == old_out[i - 1]);
                    assert(out@[j] == old_out[j - 1]);
                }
            }
            assert(before_rest.to_multiset() == before_rest.to_multiset().remove(ev).insert(ev)) by {
                assert(before_rest[0] == ev);
                assert(before_rest.to_multiset().count(ev) > 0);
                assert(before_rest.to_multiset() =~= before_rest.to_multiset().remove(ev).insert(ev));
            }
            assert(out@.to_multiset().add(rest@.to_multiset()) =~= input.to_multiset());
            assert(before_rest =~= seq![ev] + rest@);
            assert(old_out =~= old_out.take(pos as int) + old_out.skip(pos as int));
            assert(out@ =~= old_out.take(pos as int) + seq![ev] + old_out.skip(pos as int));
            lemma_name_le_refl(ev.0@);
            assert forall|i: int| 0 <= i < old_out.skip(pos as int).len() implies #[trigger] old_out.skip(
                pos as int,
            )[i].0@ != ev.0@ by {
                let j = pos + i;
                assert(old_out.skip(pos as int)[i] == old_out[j]);
                if j > pos {
                    assert(name_le(old_out[pos as int].0@, old_out[j].0@));
                }
            }
            lemma_with_name_none(old_out.skip(pos as int), ev.0@);
            assert forall|n: Seq<char>| #[trigger] with_name(input, n) == with_name(out@, n) + with_name(
                rest@,
                n,
            ) by {
                let a = old_out.take(pos as int);
                let b = old_out.skip(pos as int);
                lemma_with_name_add(a, b, n);
                lemma_with_name_add(a + seq![ev], b, n);
                lemma_with_name_add(a, seq![ev], n);
                lemma_with_name_add(seq![ev], rest@, n);
                lemma_with_name_one(ev, n);
                if ev.0@ == n {
                    assert(with_name(b, n) =~= Seq::<(String, T)>::empty());
                    assert(with_name(out@, n) + with_name(rest@, n) =~= with_name(old_out, n)
                        + with_name(before_rest, n));
                } else {
                    assert(with_name(out@, n) + with_name(rest@, n) =~= with_name(old_out, n)
                        + with_name(before_rest, n));
                }
            }
        }
    }
    assert forall|n: Seq<char>| #[trigger] with_name(out@, n) == with_name(input, n) by {
        assert(rest@ =~= Seq::<(String, T)>::empty());
        assert(with_name(out@, n) + with_name(rest@, n) =~= with_name(out@, n));
    }
    assert(rest@.to_multiset() =~= Multiset::empty());
    assert(out@.to_multiset().add(Multiset::empty()) =~= out@.to_multiset());
    out
}

proof fn lemma_name_le_antisym(a: Seq<char>, b: Seq<char>)
    requires
        name_le(a, b),
        name_le(b, a),
    ensures
        a == b,
    decreases a.len(),
{
    if a.len() > 0 && b.len() > 0 {
        lemma_name_le_antisym(a.drop_first(), b.drop_first());
        assert(a =~= seq![a[0]] + a.drop_first());
        assert(b =~= seq![b[0]] + b.drop_first());
    } else {
        assert(a.len() == 0 && b.len() == 0);
        assert(a =~= b);
    }
}

/// No two entries have the same name.
pub open spec fn distinct_names<T>(s: Seq<(String, T)>) -> bool {
    forall|i: int, j: int| 0 <= i < j < s.len() ==> #[trigger] s[i].0@ != #[trigger] s[j].0@
}

/// Law: entries in order of their names, whose names are distinct, are in
/// strictly increasing order.
pub proof fn sorted_distinct_is_strict<T>(s: Seq<(String, T)>)
    requires
        sorted_by_name(s),
        distinct_names(s),
    ensures
        forall|i: int, j: int|
            0 <= i < j < s.len() ==> name_le(#[trigger] s[i].0@, #[trigger] s[j].0@) && !name_le(
                s[j].0@,
                s[i].0@,
            ),
{
    assert forall|i: int, j: int| 0 <= i < j < s.len() implies name_le(
        #[trigger] s[i].0@,
        #[trigger] s[j].0@,
    ) && !name_le(s[j].0@, s[i].0@) by {
        if name_le(s[j].0@, s[i].0@) {
            lemma_name_le_antisym(s[i].0@, s[j].0@);
        }
    }
}

/// Law: the order of the entries handed to the sort does not matter when
/// their names are distinct: two sequences in order of their names that
/// hold the same entries are equal.
pub proof fn sorted_same_entries_equal<T>(a: Seq<(String, T)>, b: Seq<(String, T)>)
    requires
        sorted_by_name(a),
        sorted_by_name(b),
        distinct_names(a),
        a.to_multiset() == b.to_multiset(),
    ensures
        a == b,
    decreases a.len(),
{
    broadcast use vstd::seq_lib::group_to_multiset_ensures;

    a.to_multiset_ensures();
    b.to_multiset_ensures();
    assert(a.len() == b.len());
    if a.len() > 0 {
        let n = a.len() - 1;
        let x = a[n];
        let y = b[n];
        assert(a.contains(x));
        assert(a.to_multiset().count(x) > 0);
        assert(b.to_multiset().count(x) > 0);
        assert(b.contains(x));
        assert(b.contains(y));
        assert(b.to_multiset().count(y) > 0);
        assert(a.to_multiset().count(y) > 0);
        assert(a.contains(y));
        let j = choose|j: int| 0 <= j < b.len() && b[j] == x;
        let i = choose|i: int| 0 <= i < a.len() && a[i] == y;
        if x != y {
            if i < n {
                assert(name_le(a[i].0@, a[n].0@));
            }
            if j < n {
                assert(name_le(b[j].0@, b[n].0@));
            }
            assert(i != n);
            assert(j != n);
            lemma_name_le_antisym(x.0@, y.0@);
            assert(a[i].0@ != a[n].0@);
        }
        assert(a.remove(n) =~= a.drop_last());
        assert(b.remove(n) =~= b.drop_last());
        assert(a.drop_last().to_multiset() == b.drop_last().to_multiset());
        sorted_same_entries_equal(a.drop_last(), b.drop_last());
        assert(a =~= a.drop_last().push(x));
        assert(b =~= b.drop_last().push(y));
    }
}

// ---------------------------------------------------------------------------
// Places of exported files
// ---------------------------------------------------------------------------

/// `PathBuf::push` of a relative component without separators on Unix: the
/// component is added after a `/`, unless the path is empty or already ends
/// in one.
pub open spec fn path_push(base: Seq<char>, part: Seq<char>) -> Seq<char> {
    if base.len() == 0 {
        part
    } else if base.last() == '/' {
        base + part
    } else {
        base.push('/') + part
    }
}

/// `base` with each of `parts` pushed in turn.
pub open spec fn push_all(base: Seq<char>, parts: Seq<Seq<char>>) -> Seq<char>
    decreases parts.len(),
{
    if parts.len() == 0 {
        base
    } else {
        path_push(push_all(base, parts.drop_last()), parts.last())
    }
}

/// Where an entry named `name` (`/`-separated) is exported under `root`.
pub open spec fn export_path(root: Seq<char>, name: Seq<char>) -> Seq<char> {
    push_all(root, split_on(name, '/'))
}

/// Whether a part of an exported name is refused: it holds a separator (`/`
/// or `\\`), or it is `..`, which would lead out of the root.
pub open spec fn export_part_refused(p: Seq<char>) -> bool {
    p.contains('/') || p.contains('\\') || p == seq!['.', '.']
}

/// The error for a refused part.
pub open spec fn export_part_error(p: Seq<char>) -> PathError {
    if p.contains('/') || p.contains('\\') {
        PathError::SeparatorInComponent
    } else {
        PathError::InvalidComponent(PathComponent::ParentDir)
    }
}

/// The index of the first refused part, if any.
pub open spec fn first_refused_part(parts: Seq<Seq<char>>) -> Option<int>
    decreases parts.len(),
{
    if parts.len() == 0 {
        None
    } else {
        match first_refused_part(parts.drop_last()) {
            Some(i) => Some(i),
            None => if export_part_refused(parts.last()) {
                Some(parts.len() - 1)
            } else {
                None
            },
        }
    }
}

proof fn lemma_first_refused_part_prefix(parts: Seq<Seq<char>>, j: int)
    requires
        0 <= j <= parts.len(),
        first_refused_part(parts.take(j)) is Some,
    ensures
        first_refused_part(parts) == first_refused_part(parts.take(j)),
    decreases parts.len(),
{
    if j == parts.len() {
        assert(parts.take(j) =~= parts);
    } else {
        assert(parts.drop_last().take(j) =~= parts.take(j));
        lemma_first_refused_part_prefix(parts.drop_last(), j);
    }
}

/// Checks that a path component does not hold the separator `/`.
pub fn validate_path_component(component: &str) -> (r: Result<(), PathError>)
    ensures
        r is Ok <==> !component@.contains('/'),
        r matches Err(e) ==> e is SeparatorInComponent,
{
    if contains_char(component, '/') {
        Err(PathError::SeparatorInComponent)
    } else {
        Ok(())
    }
}

/// The path under `root` to which an entry `name` (whose parts are separated
/// by `/`) is exported: each part is validated and pushed in turn. It fails
/// at the first part that holds a separator (`/` or `\\`) or is `..` (see
/// `export_part_error`), so that no exported path leaves `root`.
pub fn get_export_path(root: &str, name: &str) -> (r: Result<String, PathError>)
    ensures
        match first_refused_part(split_on(name@, '/')) {
            Some(i) => r matches Err(e) && e == export_part_error(split_on(name@, '/')[i]),
            None => r matches Ok(p) && p@ == export_path(root@, name@),
        },
{
    let parts = split_char(name, '/');
    let ghost pieces = split_on(name@, '/');
    let mut path = String::new();
    path.append(root);
    for k in 0..parts.len()
        invariant
            parts.len() == pieces.len(),
            pieces == split_on(name@, '/'),
            forall|i: int| 0 <= i < parts.len() ==> #[trigger] parts[i]@ == pieces[i],
            first_refused_part(pieces.take(k as int)) is None,
            path@ == push_all(root@, pieces.take(k as int)),
    {
        assert(pieces.take(k + 1).drop_last() =~= pieces.take(k as int));
        assert(pieces.take(k + 1).last() == pieces[k as int]);
        let part = &parts[k];
        let refused: Option<PathError> = match validate_path_component(part.as_str()) {
            Err(e) => Some(e),
            Ok(()) => {
                if contains_char(part.as_str(), '\\') {
                    Some(PathError::SeparatorInComponent)
                } else if is_dot(part.as_str()) && part.as_str().unicode_len() == 2 {
                    assert(part@ == seq!['.', '.']);
                    Some(PathError::InvalidComponent(PathComponent::ParentDir))
                } else {
                    proof {
                        if part@ == seq!['.', '.'] {
                            assert(is_dot_text(part@));
                        }
                    }
                    None
                }
            },
        };
        if let Some(e) = refused {
            proof {
                assert(first_refused_part(pieces.take(k + 1)) == Some(k as int));
                lemma_first_refused_part_prefix(pieces, k + 1);
            }
            return Err(e);
        }
        let n = path.as_str().unicode_len();
        if n > 0 && path.as_str().get_char(n - 1) == '/' {
        } else if n > 0 {
            push_char(&mut path, '/');
        }
        if n == 0 {
            path = part.clone();
        } else {
            path.append(part.as_str());
        }
        assert(path@ =~= push_all(root@, pieces.take(k + 1)));
    }
    assert(pieces.take(parts.len() as int) =~= pieces);
    Ok(path)
}

// ---------------------------------------------------------------------------
// Laws of names and places
// ---------------------------------------------------------------------------

proof fn lemma_split_append_plain(a: Seq<char>, b: Seq<char>, sep: char)
    requires
        !b.contains(sep),
    ensures
        split_sep_state(a + b, sep) == (split_sep_state(a, sep).0, split_sep_state(a, sep).1 + b),
    decreases b.len(),
{
    if b.len() == 0 {
        assert(a + b =~= a);
        assert(split_sep_state(a, sep).1 + b =~= split_sep_state(a, sep).1);
    } else {
        assert((a + b).drop_last() =~= a + b.drop_last());
        assert((a + b).last() == b.last());
        assert(!b.drop_last().contains(sep)) by {
            assert forall|i: int| 0 <= i < b.drop_last().len() implies b.drop_last()[i] != sep by {
                assert(b.drop_last()[i] == b[i]);
            }
        }
        assert(b.last() != sep) by {
            assert(b[b.len() - 1] == b.last());
        }
        lemma_split_append_plain(a, b.drop_last(), sep);
        assert((split_sep_state(a, sep).1 + b.drop_last()).push(b.last()) =~= split_sep_state(
            a,
            sep,
        ).1 + b);
    }
}

/// Splitting a join gives back the parts, when there is at least one part
/// and none holds the separator.
pub proof fn lemma_split_join(ps: Seq<Seq<char>>, sep: char)
    requires
        ps.len() > 0,
        forall|i: int| 0 <= i < ps.len() ==> !#[trigger] ps[i].contains(sep),
    ensures
        split_on(join_with(ps, sep), sep) == ps,
    decreases ps.len(),
{
    if ps.len() == 1 {
        lemma_split_append_plain(Seq::empty(), ps[0], sep);
        assert(Seq::<char>::empty() + ps[0] =~= ps[0]);
        assert(split_on(ps[0], sep) =~= ps);
    } else {
        let prev = ps.drop_last();
        assert forall|i: int| 0 <= i < prev.len() implies !#[trigger] prev[i].contains(sep) by {
            assert(prev[i] == ps[i]);
        }
        lemma_split_join(prev, sep);
        let j = join_with(prev, sep);
        assert(!ps.last().contains(sep)) by {
            assert(ps[ps.len() - 1] == ps.last());
        }
        lemma_split_append_plain(j.push(sep), ps.last(), sep);
        assert(j.push(sep).drop_last() =~= j);
        assert(Seq::<char>::empty() + ps.last() =~= ps.last());
        assert(split_on(join_with(ps, sep), sep) =~= ps);
    }
}

proof fn lemma_accepted_relative(comps: Seq<PathComponent>)
    requires
        first_refused(comps, true) is None,
    ensures
        root_count(comps) == 0,
        forall|i: int|
            0 <= i < normal_texts(comps).len() ==> !#[trigger] export_part_refused(normal_texts(comps)[i]),
    decreases comps.len(),
{
    if comps.len() > 0 {
        lemma_accepted_relative(comps.drop_last());
        let prev = normal_texts(comps.drop_last());
        match comps.last() {
            PathComponent::Normal(Some(s)) => {
                let t = prev.push(s@);
                assert forall|i: int| 0 <= i < t.len() implies !#[trigger] export_part_refused(t[i]) by {
                    if i < prev.len() {
                        assert(t[i] == prev[i]);
                    }
                }
            },
            _ => {},
        }
    }
}

proof fn lemma_no_refused_part(parts: Seq<Seq<char>>)
    requires
        forall|i: int| 0 <= i < parts.len() ==> !#[trigger] export_part_refused(parts[i]),
    ensures
        first_refused_part(parts) is None,
    decreases parts.len(),
{
    if parts.len() > 0 {
        assert forall|i: int| 0 <= i < parts.drop_last().len() implies !#[trigger] export_part_refused(
            parts.drop_last()[i],
        ) by {
            assert(parts.drop_last()[i] == parts[i]);
        }
        lemma_no_refused_part(parts.drop_last());
        assert(parts.last() == parts[parts.len() - 1]);
    }
}

/// Law: what is imported is exported to the same place: the name under
/// which an accepted relative path is stored is accepted for export, and
/// exported under `root` it leads to `root` with the path's components
/// pushed in order.
pub proof fn export_path_of_import_name(root: Seq<char>, comps: Seq<PathComponent>)
    requires
        first_refused(comps, true) is None,
        normal_texts(comps).len() > 0,
    ensures
        first_refused_part(split_on(canonical_name(comps), '/')) is None,
        export_path(root, canonical_name(comps)) == push_all(root, normal_texts(comps)),
{
    lemma_accepted_relative(comps);
    assert forall|i: int| 0 <= i < normal_texts(comps).len() implies !#[trigger] normal_texts(
        comps,
    )[i].contains('/') by {
        assert(!export_part_refused(normal_texts(comps)[i]));
    }
    lemma_split_join(normal_texts(comps), '/');
    lemma_no_refused_part(normal_texts(comps));
    assert(slashes(0) =~= Seq::<char>::empty());
    assert(canonical_name(comps) =~= join_with(normal_texts(comps), '/'));
}

/// `root` is a whole-component prefix of `p`: `p` begins with `root`, and
/// there a component ends (`root` is empty or ends in `/`, nothing follows,
/// or a `/` follows).
pub open spec fn component_prefix(root: Seq<char>, p: Seq<char>) -> bool {
    &&& p.len() >= root.len()
    &&& p.take(root.len() as int) == root
    &&& (root.len() == 0 || root.last() == '/' || p.len() == root.len() || p[root.len() as int] == '/')
}

proof fn lemma_push_keeps_prefix(root: Seq<char>, b: Seq<char>, part: Seq<char>)
    requires
        component_prefix(root, b),
    ensures
        component_prefix(root, path_push(b, part)),
{
    let r = path_push(b, part);
    if b.len() == 0 {
        assert(root.len() == 0);
        assert(r.take(0) =~= root);
    } else {
        assert(r.take(b.len() as int) =~= b);
        assert(r.take(root.len() as int) =~= b.take(root.len() as int));
        if b.len() == root.len() && root.len() > 0 && b.last() != '/' {
            assert(r[root.len() as int] == '/');
        } else if b.len() > root.len() {
            assert(r[root.len() as int] == b[root.len() as int]);
        }
    }
}

proof fn lemma_push_all_prefix(root: Seq<char>, parts: Seq<Seq<char>>)
    ensures
        component_prefix(root, push_all(root, parts)),
    decreases parts.len(),
{
    if parts.len() == 0 {
        assert(root.take(root.len() as int) =~= root);
    } else {
        lemma_push_all_prefix(root, parts.drop_last());
        lemma_push_keeps_prefix(root, push_all(root, parts.drop_last()), parts.last());
    }
}

/// Law: every export path lies below the root: it begins with the root, and
/// the root ends there at a component boundary.
pub proof fn export_path_under_root(root: Seq<char>, name: Seq<char>)
    ensures
        component_prefix(root, export_path(root, name)),
{
    lemma_push_all_prefix(root, split_on(name, '/'));
}

/// The components of an accepted relative path are all normal, with the
/// texts of `normal_texts`, and they stand for the pieces of those texts.
proof fn lemma_accepted_views(comps: Seq<PathComponent>)
    requires
        first_refused(comps, true) is None,
        forall|i: int| 0 <= i < normal_texts(comps).len() ==> #[trigger] normal_texts(comps)[i].len() > 0,
    ensures
        comps.map_values(|c: PathComponent| c@) == piece_components(normal_texts(comps)),
    decreases comps.len(),
{
    if comps.len() > 0 {
        let prev = comps.drop_last();
        assert(first_refused(prev, true) is None);
        let c = comps.last();
        assert(!component_refused(c, true));
        let t = normal_texts(prev);
        match c {
            PathComponent::Normal(Some(x)) => {
                assert(normal_texts(comps) == t.push(x@));
                assert forall|i: int| 0 <= i < t.len() implies #[trigger] t[i].len() > 0 by {
                    assert(t.push(x@)[i] == t[i]);
                }
                lemma_accepted_views(prev);
                assert(t.push(x@)[t.len() as int] == x@);
                assert(t.push(x@).drop_last() =~= t);
                assert(x@ != seq!['.']);
                assert(x@ != seq!['.', '.']);
                assert(comps.map_values(|c: PathComponent| c@) =~= prev.map_values(
                    |c: PathComponent| c@,
                ).push(c@));
            },
            _ => {},
        }
    }
}

proof fn lemma_join_starts(texts: Seq<Seq<char>>, sep: char)
    requires
        texts.len() > 0,
        texts[0].len() > 0,
    ensures
        join_with(texts, sep).len() > 0,
        join_with(texts, sep)[0] == texts[0][0],
    decreases texts.len(),
{
    if texts.len() > 1 {
        assert(texts.drop_last()[0] == texts[0]);
        lemma_join_starts(texts.drop_last(), sep);
    }
}

/// Law: a stored name read back as a path gives the same components: the
/// name of an accepted relative path whose normal components are not empty
/// has exactly that path's components as its text components.
pub proof fn canonical_name_round_trip(comps: Seq<PathComponent>)
    requires
        first_refused(comps, true) is None,
        forall|i: int| 0 <= i < normal_texts(comps).len() ==> #[trigger] normal_texts(comps)[i].len() > 0,
    ensures
        text_components(canonical_name(comps)) == comps.map_values(|c: PathComponent| c@),
{
    lemma_accepted_relative(comps);
    lemma_accepted_views(comps);
    let texts = normal_texts(comps);
    assert(slashes(0) =~= Seq::<char>::empty());
    assert(canonical_name(comps) =~= join_with(texts, '/'));
    if texts.len() == 0 {
        assert(join_with(texts, '/') =~= Seq::<char>::empty());
        assert(split_sep_state(Seq::<char>::empty(), '/') == (Seq::<Seq<char>>::empty(), Seq::<char>::empty()));
        let ps = split_on(Seq::<char>::empty(), '/');
        assert(ps =~= seq![Seq::<char>::empty()]);
        assert(ps.drop_last() =~= Seq::<Seq<char>>::empty());
        assert(piece_components(ps) =~= Seq::<ComponentView>::empty());
        assert(text_components(canonical_name(comps)) =~= Seq::<ComponentView>::empty());
    } else {
        assert forall|i: int| 0 <= i < texts.len() implies !#[trigger] texts[i].contains('/') by {
            assert(!export_part_refused(texts[i]));
        }
        lemma_split_join(texts, '/');
        let name = join_with(texts, '/');
        lemma_join_starts(texts, '/');
        assert(!texts[0].contains('/'));
        assert(texts[0][0] != '/');
        assert(!(name.len() > 0 && name[0] == '/'));
        assert(text_components(name) =~= piece_components(texts));
    }
}

proof fn lemma_rooted(rest: Seq<PathComponent>)
    requires
        first_refused(rest, true) is None,
    ensures
        ({
            let comps = seq![PathComponent::RootDir] + rest;
            &&& first_refused(comps, false) is None
            &&& root_count(comps) == 1
            &&& normal_texts(comps) == normal_texts(rest)
        }),
    decreases rest.len(),
{
    let comps = seq![PathComponent::RootDir] + rest;
    if rest.len() == 0 {
        assert(comps =~= seq![PathComponent::RootDir]);
        assert(comps.drop_last() =~= Seq::<PathComponent>::empty());
        assert(comps.last() == PathComponent::RootDir);
        assert(rest =~= Seq::<PathComponent>::empty());
        assert(first_refused(comps.drop_last(), false) is None);
        assert(!component_refused(comps.last(), false));
        assert(root_count(comps.drop_last()) == 0);
        assert(normal_texts(comps.drop_last()) =~= Seq::<Seq<char>>::empty());
        assert(normal_texts(rest) =~= Seq::<Seq<char>>::empty());
    } else {
        assert(first_refused(rest.drop_last(), true) is None);
        lemma_rooted(rest.drop_last());
        let prev = seq![PathComponent::RootDir] + rest.drop_last();
        assert(comps.drop_last() =~= prev);
        assert(comps.last() == rest.last());
        assert(!component_refused(rest.last(), true));
        assert(!(rest.last() is RootDir));
        assert(!component_refused(rest.last(), false));
        assert(first_refused(comps, false) == (match first_refused(prev, false) {
            Some(i) => Some(i),
            None => if component_refused(rest.last(), false) {
                Some(comps.len() - 1)
            } else {
                None
            },
        }));
        assert(root_count(comps) == root_count(prev) + if rest.last() is RootDir {
            1nat
        } else {
            0nat
        });
        assert(normal_texts(comps) == (match rest.last() {
            PathComponent::Normal(Some(x)) => normal_texts(prev).push(x@),
            _ => normal_texts(prev),
        }));
        assert(normal_texts(rest) == (match rest.last() {
            PathComponent::Normal(Some(x)) => normal_texts(rest.drop_last()).push(x@),
            _ => normal_texts(rest.drop_last()),
        }));
    }
}

proof fn lemma_state_after_slash(j: Seq<char>)
    ensures
        split_sep_state(seq!['/'] + j, '/') == (seq![Seq::<char>::empty()] + split_sep_state(j, '/').0,
        split_sep_state(j, '/').1),
    decreases j.len(),
{
    let e = Seq::<char>::empty();
    let x = seq!['/'] + j;
    if j.len() == 0 {
        assert(x =~= seq!['/']);
        assert(x.drop_last() =~= e);
        assert(x.last() == '/');
        assert(split_sep_state(e, '/') == (Seq::<Seq<char>>::empty(), e));
        assert(split_sep_state(x, '/') == split_sep_step(split_sep_state(x.drop_last(), '/'), '/', '/'));
        assert(Seq::<Seq<char>>::empty().push(e) =~= seq![e] + Seq::<Seq<char>>::empty());
    } else {
        let j2 = j.drop_last();
        lemma_state_after_slash(j2);
        assert(x.drop_last() =~= seq!['/'] + j2);
        assert(x.last() == j.last());
        let b = split_sep_state(j2, '/');
        assert(split_sep_state(x, '/') == split_sep_step(split_sep_state(x.drop_last(), '/'), j.last(), '/'));
        assert(split_sep_state(j, '/') == split_sep_step(b, j.last(), '/'));
        if j.last() == '/' {
            assert((seq![e] + b.0).push(b.1) =~= seq![e] + b.0.push(b.1));
        }
    }
}

proof fn lemma_split_after_slash(j: Seq<char>)
    ensures
        split_on(seq!['/'] + j, '/') == seq![Seq::<char>::empty()] + split_on(j, '/'),
{
    lemma_state_after_slash(j);
    let b = split_sep_state(j, '/');
    assert((seq![Seq::<char>::empty()] + b.0).push(b.1) =~= seq![Seq::<char>::empty()] + b.0.push(b.1));
}

proof fn lemma_pieces_after_empty(ps: Seq<Seq<char>>)
    ensures
        piece_components(seq![Seq::<char>::empty()] + ps) == piece_components(ps),
    decreases ps.len(),
{
    let e = Seq::<char>::empty();
    let x = seq![e] + ps;
    if ps.len() == 0 {
        assert(x =~= seq![e]);
        assert(x.drop_last() =~= Seq::<Seq<char>>::empty());
        assert(x.last() == e);
        assert(piece_components(x) == piece_components(x.drop_last()));
    } else {
        lemma_pieces_after_empty(ps.drop_last());
        assert(x.drop_last() =~= seq![e] + ps.drop_last());
        assert(x.last() == ps.last());
        assert(piece_components(x.drop_last()) == piece_components(ps.drop_last()));
    }
}

/// Law: the round trip holds for absolute paths too: the name of a root
/// followed by an accepted relative path whose normal components are not
/// empty is accepted where a root is allowed, and read back as a path it has
/// exactly that path's components.
pub proof fn canonical_name_round_trip_absolute(rest: Seq<PathComponent>)
    requires
        first_refused(rest, true) is None,
        forall|i: int| 0 <= i < normal_texts(rest).len() ==> #[trigger] normal_texts(rest)[i].len() > 0,
    ensures
        ({
            let comps = seq![PathComponent::RootDir] + rest;
            &&& first_refused(comps, false) is None
            &&& text_components(canonical_name(comps)) == comps.map_values(|c: PathComponent| c@)
        }),
{
    let comps = seq![PathComponent::RootDir] + rest;
    lemma_rooted(rest);
    lemma_accepted_relative(rest);
    lemma_accepted_views(rest);
    let texts = normal_texts(rest);
    let j = join_with(texts, '/');
    assert(slashes(1) =~= seq!['/']);
    assert(canonical_name(comps) =~= seq!['/'] + j);
    lemma_split_after_slash(j);
    lemma_pieces_after_empty(split_on(j, '/'));
    if texts.len() == 0 {
        assert(j =~= Seq::<char>::empty());
        let ps = split_on(Seq::<char>::empty(), '/');
        assert(ps =~= seq![Seq::<char>::empty()]);
        assert(ps.drop_last() =~= Seq::<Seq<char>>::empty());
        assert(piece_components(ps) =~= Seq::<ComponentView>::empty());
    } else {
        assert forall|i: int| 0 <= i < texts.len() implies !#[trigger] texts[i].contains('/') by {
            assert(!export_part_refused(texts[i]));
        }
        lemma_split_join(texts, '/');
    }
    assert((seq!['/'] + j)[0] == '/');
    assert(text_components(seq!['/'] + j) =~= seq![ComponentView::RootDir] + piece_components(texts));
    assert(comps.map_values(|c: PathComponent| c@) =~= seq![ComponentView::RootDir] + rest.map_values(
        |c: PathComponent| c@,
    ));
}

/// Law: distinct accepted relative paths are stored under distinct names,
/// so the entries of one import, walked from distinct paths, never share a
/// name.
pub proof fn canonical_names_distinct(a: Seq<PathComponent>, b: Seq<PathComponent>)
    requires
        first_refused(a, true) is None,
        first_refused(b, true) is None,
        forall|i: int| 0 <= i < normal_texts(a).len() ==> #[trigger] normal_texts(a)[i].len() > 0,
        forall|i: int| 0 <= i < normal_texts(b).len() ==> #[trigger] normal_texts(b)[i].len() > 0,
        a.map_values(|c: PathComponent| c@) != b.map_values(|c: PathComponent| c@),
    ensures
        canonical_name(a) != canonical_name(b),
{
    canonical_name_round_trip(a);
    canonical_name_round_trip(b);
}

/// A plain file or directory name: not empty, without `/` or `\\`, and
/// neither `.` nor `..`. Names that merely start with a dot (hidden files)
/// are plain.
pub open spec fn plain_name(t: Seq<char>) -> bool {
    &&& t.len() > 0
    &&& !t.contains('/')
    &&& !t.contains('\\')
    &&& t != seq!['.']
    &&& t != seq!['.', '.']
}

proof fn lemma_plain_components(comps: Seq<PathComponent>, texts: Seq<Seq<char>>)
    requires
        comps.len() == texts.len(),
        forall|i: int|
            0 <= i < comps.len() ==> #[trigger] comps[i]@ == ComponentView::Normal(Some(texts[i])),
        forall|i: int| 0 <= i < texts.len() ==> plain_name(#[trigger] texts[i]),
    ensures
        first_refused(comps, true) is None,
        root_count(comps) == 0,
        normal_texts(comps) == texts,
    decreases comps.len(),
{
    if comps.len() > 0 {
        let pc = comps.drop_last();
        let pt = texts.drop_last();
        assert forall|i: int| 0 <= i < pc.len() implies #[trigger] pc[i]@ == ComponentView::Normal(
            Some(pt[i]),
        ) by {
            assert(pc[i] == comps[i]);
            assert(pt[i] == texts[i]);
        }
        assert forall|i: int| 0 <= i < pt.len() implies plain_name(#[trigger] pt[i]) by {
            assert(pt[i] == texts[i]);
        }
        lemma_plain_components(pc, pt);
        let last = comps.last();
        let t = texts.last();
        assert(last == comps[comps.len() - 1]);
        assert(t == texts[texts.len() - 1]);
        assert(last@ == ComponentView::Normal(Some(t)));
        assert(plain_name(t));
        match last {
            PathComponent::Normal(Some(x)) => {
                assert(x@ == t);
                assert(!is_dot_text(x@));
                assert(!component_refused(last, true));
                assert(normal_texts(comps) == pt.push(t));
                assert(texts =~= pt.push(t));
            },
            _ => {
                assert(false);
            },
        }
    }
}

/// Law: every path made only of plain names (hidden files included) is
/// accepted where it must be relative, and its stored name is the names
/// joined by `/`.
pub proof fn plain_names_accepted(comps: Seq<PathComponent>, texts: Seq<Seq<char>>)
    requires
        comps.len() == texts.len(),
        forall|i: int|
            0 <= i < comps.len() ==> #[trigger] comps[i]@ == ComponentView::Normal(Some(texts[i])),
        forall|i: int| 0 <= i < texts.len() ==> plain_name(#[trigger] texts[i]),
    ensures
        first_refused(comps, true) is None,
        canonical_name(comps) == join_with(texts, '/'),
{
    lemma_plain_components(comps, texts);
    assert(slashes(0) =~= Seq::<char>::empty());
    assert(canonical_name(comps) =~= join_with(texts, '/'));
}

proof fn lemma_dot_piece_component(ps: Seq<Seq<char>>, i: int)
    requires
        0 <= i < ps.len(),
        is_dot_text(ps[i]),
    ensures
        exists|k: int|
            0 <= k < piece_components(ps).len() && (piece_components(ps)[k] is CurDir
                || piece_components(ps)[k] is ParentDir),
    decreases ps.len(),
{
    let prev = piece_components(ps.drop_last());
    if i == ps.len() - 1 {
        assert(ps.last() == ps[i]);
        assert(ps.last().len() > 0);
        let k = prev.len() as int;
        assert(piece_components(ps)[k] is CurDir || piece_components(ps)[k] is ParentDir);
    } else {
        assert(ps.drop_last()[i] == ps[i]);
        lemma_dot_piece_component(ps.drop_last(), i);
        let k = choose|k: int|
            0 <= k < prev.len() && (prev[k] is CurDir || prev[k] is ParentDir);
        assert(piece_components(ps)[k] == prev[k]);
    }
}

proof fn lemma_some_refused(comps: Seq<PathComponent>, k: int, mbr: bool)
    requires
        0 <= k < comps.len(),
        component_refused(comps[k], mbr),
    ensures
        first_refused(comps, mbr) is Some,
    decreases comps.len(),
{
    if k < comps.len() - 1 {
        assert(comps.drop_last()[k] == comps[k]);
        lemma_some_refused(comps.drop_last(), k, mbr);
    } else {
        assert(comps.last() == comps[k]);
    }
}

/// Law: a path whose text has a `.` or `..` piece is refused, whether or not
/// it must be relative.
pub proof fn dot_piece_refused(t: Seq<char>, comps: Seq<PathComponent>, mbr: bool, i: int)
    requires
        comps.map_values(|c: PathComponent| c@) == text_components(t),
        0 <= i < split_on(t, '/').len(),
        is_dot_text(split_on(t, '/')[i]),
    ensures
        first_refused(comps, mbr) is Some,
{
    let ps = split_on(t, '/');
    lemma_dot_piece_component(ps, i);
    let pc = piece_components(ps);
    let k = choose|k: int| 0 <= k < pc.len() && (pc[k] is CurDir || pc[k] is ParentDir);
    let head: Seq<ComponentView> = if t.len() > 0 && t[0] == '/' {
        seq![ComponentView::RootDir]
    } else {
        Seq::empty()
    };
    let j = head.len() + k;
    assert(text_components(t) == head + pc);
    assert(comps.map_values(|c: PathComponent| c@).len() == comps.len());
    assert(j < comps.len());
    assert(text_components(t)[j] == pc[k]);
    assert(comps.map_values(|c: PathComponent| c@)[j] == comps[j]@);
    lemma_some_refused(comps, j, mbr);
}

// ---------------------------------------------------------------------------
// The store's directory
// ---------------------------------------------------------------------------

/// The prefix of the store directory's name.
pub const STORE_DIR_PREFIX: &'static str = ".keith-shareit-";

/// The name of the store's temporary directory for a random 16-byte
/// `suffix`: `.keith-shareit-` and the suffix in lower-case hexadecimal.
pub fn tmp_store_dir_name(suffix: &[u8; 16]) -> (name: String)
    ensures
        name@ == ".keith-shareit-"@ + spec_hex_lower(suffix@),
{
    let mut name = String::new();
    name.append(STORE_DIR_PREFIX);
    let hex = hex_lower(suffix.as_slice());
    name.append(hex.as_str());
    name
}

} // verus!
