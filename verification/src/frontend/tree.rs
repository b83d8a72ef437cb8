//! The library tree: the files below the shared directory as a tree of
//! nodes, each identified by its path relative to the root, built one walked
//! entry at a time.

use vstd::prelude::*;

use crate::text::{join_with, push_char, split_char, split_on};

verus! {

/// One node: its identifier (the `/`-joined path from the root), the text
/// shown for it, whether it was created as a leaf, and the indices of its
/// children in the tree's node list.
pub struct TreeNode {
    pub id: String,
    pub label: String,
    pub is_leaf: bool,
    pub children: Vec<usize>,
}

/// The mathematical form of a node.
pub struct NodeView {
    pub id: Seq<char>,
    pub label: Seq<char>,
    pub is_leaf: bool,
    pub children: Seq<usize>,
}

impl View for TreeNode {
    type V = NodeView;

    open spec fn view(&self) -> NodeView {
        NodeView {
            id: self.id@,
            label: self.label@,
            is_leaf: self.is_leaf,
            children: self.children@,
        }
    }
}

/// The tree: node 0 is the root.
pub struct LibraryTree {
    pub nodes: Vec<TreeNode>,
}

impl View for LibraryTree {
    type V = Seq<NodeView>;

    open spec fn view(&self) -> Seq<NodeView> {
        self.nodes@.map_values(|n: TreeNode| n@)
    }
}

/// A root exists and every child index names a node.
pub open spec fn tree_wf(nodes: Seq<NodeView>) -> bool {
    &&& nodes.len() > 0
    &&& forall|i: int, k: int|
        0 <= i < nodes.len() && 0 <= k < nodes[i].children.len() ==> #[trigger] nodes[i].children[k]
            < nodes.len()
}

/// The path of a child: the parent's path, a `/` unless it is empty, and the part.
pub open spec fn join_step(path: Seq<char>, part: Seq<char>) -> Seq<char> {
    if path.len() == 0 {
        part
    } else {
        path.push('/') + part
    }
}

/// The first of `kids` from position `j` on whose node has identifier `id`.
pub open spec fn find_from(nodes: Seq<NodeView>, kids: Seq<usize>, id: Seq<char>, j: int) -> Option<
    usize,
>
    decreases kids.len() - j,
{
    if j < 0 || j >= kids.len() {
        None
    } else if nodes[kids[j] as int].id == id {
        Some(kids[j])
    } else {
        find_from(nodes, kids, id, j + 1)
    }
}

/// One part of a path: go to the child of the current node whose identifier
/// is the path so far, or, if there is none, add such a child (labelled with
/// the part, a leaf if it is the last part) and go to it.
pub open spec fn insert_step(st: (Seq<NodeView>, int, Seq<char>), part: Seq<char>, last: bool) -> (
    Seq<NodeView>,
    int,
    Seq<char>,
) {
    let nodes = st.0;
    let cur = st.1;
    let id = join_step(st.2, part);
    match find_from(nodes, nodes[cur].children, id, 0) {
        Some(c) => (nodes, c as int, id),
        None => {
            let n = nodes.len();
            let parent = NodeView { children: nodes[cur].children.push(n as usize), ..nodes[cur] };
            (
                nodes.update(cur, parent).push(
                    NodeView { id, label: part, is_leaf: last, children: Seq::empty() },
                ),
                n as int,
                id,
            )
        },
    }
}

/// The tree, current node and path after the first `k` parts.
pub open spec fn insert_state(nodes: Seq<NodeView>, parts: Seq<Seq<char>>, k: int) -> (
    Seq<NodeView>,
    int,
    Seq<char>,
)
    decreases k,
{
    if k <= 0 {
        (nodes, 0, Seq::empty())
    } else {
        insert_step(insert_state(nodes, parts, k - 1), parts[k - 1], k == parts.len())
    }
}

/// The tree after inserting the path made of `parts`.
pub open spec fn inserted(nodes: Seq<NodeView>, parts: Seq<Seq<char>>) -> Seq<NodeView> {
    insert_state(nodes, parts, parts.len() as int).0
}

/// The non-empty pieces of `s` split on `/`.
pub open spec fn path_parts(s: Seq<char>) -> Seq<Seq<char>> {
    nonempty(split_on(s, '/'))
}

/// The non-empty sequences of `ps`, in order.
pub open spec fn nonempty(ps: Seq<Seq<char>>) -> Seq<Seq<char>>
    decreases ps.len(),
{
    if ps.len() == 0 {
        ps
    } else if ps.last().len() == 0 {
        nonempty(ps.drop_last())
    } else {
        nonempty(ps.drop_last()).push(ps.last())
    }
}

/// The parts of a relative path: its pieces between `/`, empty ones left out.
pub fn tree_parts(rel: &str) -> (parts: Vec<String>)
    ensures
        parts.len() == path_parts(rel@).len(),
        forall|i: int| 0 <= i < parts.len() ==> #[trigger] parts[i]@ == path_parts(rel@)[i],
{
    let pieces = split_char(rel, '/');
    let ghost ps = split_on(rel@, '/');
    let mut parts: Vec<String> = Vec::new();
    for i in 0..pieces.len()
        invariant
            pieces.len() == ps.len(),
            ps == split_on(rel@, '/'),
            forall|k: int| 0 <= k < pieces.len() ==> #[trigger] pieces[k]@ == ps[k],
            parts.len() == nonempty(ps.take(i as int)).len(),
            forall|k: int| 0 <= k < parts.len() ==> #[trigger] parts[k]@ == nonempty(ps.take(i as int))[k],
    {
        assert(ps.take(i + 1).drop_last() =~= ps.take(i as int));
        if pieces[i].as_str().unicode_len() > 0 {
            parts.push(pieces[i].clone());
        }
    }
    assert(ps.take(pieces.len() as int) =~= ps);
    parts
}

// ---------------------------------------------------------------------------
// Laws of the tree
// ---------------------------------------------------------------------------

/// No node has two children with the same identifier.
pub open spec fn siblings_distinct(nodes: Seq<NodeView>) -> bool {
    forall|x: int, i: int, j: int|
        0 <= x < nodes.len() && 0 <= i < j < nodes[x].children.len() ==> nodes[#[trigger] nodes[x].children[i] as int].id
            != nodes[#[trigger] nodes[x].children[j] as int].id
}

proof fn lemma_find_from(nodes: Seq<NodeView>, kids: Seq<usize>, id: Seq<char>, j: int)
    requires
        0 <= j <= kids.len(),
    ensures
        find_from(nodes, kids, id, j) matches Some(c) ==> nodes[c as int].id == id && kids.subrange(
            j,
            kids.len() as int,
        ).contains(c),
        find_from(nodes, kids, id, j) is None ==> forall|k: int|
            j <= k < kids.len() ==> nodes[#[trigger] kids[k] as int].id != id,
    decreases kids.len() - j,
{
    if j < kids.len() {
        lemma_find_from(nodes, kids, id, j + 1);
        if nodes[kids[j] as int].id != id {
            if let Some(c) = find_from(nodes, kids, id, j + 1) {
                let sub = kids.subrange(j + 1, kids.len() as int);
                let k = choose|k: int| 0 <= k < sub.len() && sub[k] == c;
                assert(kids.subrange(j, kids.len() as int)[k + 1] == c);
            }
        } else {
            assert(kids.subrange(j, kids.len() as int)[0] == kids[j]);
        }
    }
}

/// The facts one step keeps: a well-formed tree, distinct siblings, and a
/// current node whose identifier is the path so far.
pub open spec fn step_ok(st: (Seq<NodeView>, int, Seq<char>)) -> bool {
    &&& tree_wf(st.0)
    &&& siblings_distinct(st.0)
    &&& 0 <= st.1 < st.0.len()
}

proof fn lemma_insert_step(st: (Seq<NodeView>, int, Seq<char>), part: Seq<char>, last: bool)
    requires
        step_ok(st),
        st.0.len() < usize::MAX,
    ensures
        step_ok(insert_step(st, part, last)),
        insert_step(st, part, last).0.len() <= st.0.len() + 1,
        insert_step(st, part, last).2 == join_step(st.2, part),
        insert_step(st, part, last).0[insert_step(st, part, last).1].id == join_step(st.2, part),
        insert_step(st, part, last).0.len() >= st.0.len(),
        forall|x: int|
            0 <= x < st.0.len() ==> #[trigger] insert_step(st, part, last).0[x].id == st.0[x].id,
{
    let nodes = st.0;
    let cur = st.1;
    let id = join_step(st.2, part);
    let kids = nodes[cur].children;
    lemma_find_from(nodes, kids, id, 0);
    assert(kids.subrange(0, kids.len() as int) =~= kids);
    match find_from(nodes, kids, id, 0) {
        Some(c) => {
            let k = choose|k: int| 0 <= k < kids.len() && kids[k] == c;
            assert(nodes[cur].children[k] < nodes.len());
        },
        None => {
            let n = nodes.len();
            let parent = NodeView { children: kids.push(n as usize), ..nodes[cur] };
            let newnode = NodeView { id, label: part, is_leaf: last, children: Seq::empty() };
            let nodes2 = nodes.update(cur, parent).push(newnode);
            assert forall|x: int| 0 <= x < nodes.len() implies #[trigger] nodes2[x].id == nodes[x].id by {
                if x == cur {
                } else {
                }
            }
            assert forall|x: int, k: int|
                0 <= x < nodes2.len() && 0 <= k < nodes2[x].children.len() implies #[trigger] nodes2[x].children[k]
                < nodes2.len() by {
                if x == n {
                } else if x == cur {
                    if k < kids.len() {
                        assert(nodes2[x].children[k] == kids[k]);
                        assert(nodes[cur].children[k] < nodes.len());
                    }
                } else {
                    assert(nodes2[x] == nodes[x]);
                    assert(nodes[x].children[k] < nodes.len());
                }
            }
            assert forall|x: int, i: int, j: int|
                0 <= x < nodes2.len() && 0 <= i < j < nodes2[x].children.len() implies nodes2[#[trigger] nodes2[x].children[i] as int].id
                != nodes2[#[trigger] nodes2[x].children[j] as int].id by {
                if x == n {
                } else if x == cur {
                    let ci = nodes2[x].children[i];
                    let cj = nodes2[x].children[j];
                    assert(nodes[cur].children[i] == ci);
                    assert(ci < nodes.len());
                    assert(nodes2[ci as int].id == nodes[ci as int].id);
                    if j < kids.len() {
                        assert(nodes[cur].children[j] == cj);
                        assert(cj < nodes.len());
                        assert(nodes2[cj as int].id == nodes[cj as int].id);
                    } else {
                        assert(cj == n);
                        assert(nodes[kids[i] as int].id != id);
                    }
                } else {
                    assert(nodes2[x] == nodes[x]);
                    let ci = nodes[x].children[i];
                    let cj = nodes[x].children[j];
                    assert(ci < nodes.len() && cj < nodes.len());
                    assert(nodes2[ci as int].id == nodes[ci as int].id);
                    assert(nodes2[cj as int].id == nodes[cj as int].id);
                }
            }
        },
    }
}

proof fn lemma_insert_state(nodes: Seq<NodeView>, parts: Seq<Seq<char>>, k: int)
    requires
        tree_wf(nodes),
        siblings_distinct(nodes),
        0 <= k <= parts.len(),
        nodes.len() + parts.len() < usize::MAX,
        forall|i: int| 0 <= i < parts.len() ==> #[trigger] parts[i].len() > 0,
    ensures
        step_ok(insert_state(nodes, parts, k)),
        insert_state(nodes, parts, k).0.len() <= nodes.len() + k,
        insert_state(nodes, parts, k).2 == join_with(parts.take(k), '/'),
        k > 0 ==> insert_state(nodes, parts, k).0[insert_state(nodes, parts, k).1].id == join_with(
            parts.take(k),
            '/',
        ),
    decreases k,
{
    if k > 0 {
        lemma_insert_state(nodes, parts, k - 1);
        let prev = insert_state(nodes, parts, k - 1);
        lemma_insert_step(prev, parts[k - 1], k == parts.len());
        assert(parts.take(k).drop_last() =~= parts.take(k - 1));
        assert(parts.take(k).last() == parts[k - 1]);
        if k == 1 {
            assert(parts.take(1) =~= seq![parts[0]]);
            assert(parts.take(0) =~= Seq::<Seq<char>>::empty());
        } else {
            assert(join_with(parts.take(k - 1), '/').len() > 0) by {
                lemma_join_nonempty(parts.take(k - 1));
            }
        }
    } else {
        assert(parts.take(0) =~= Seq::<Seq<char>>::empty());
    }
}

proof fn lemma_join_nonempty(ps: Seq<Seq<char>>)
    requires
        ps.len() > 0,
        forall|i: int| 0 <= i < ps.len() ==> #[trigger] ps[i].len() > 0,
    ensures
        join_with(ps, '/').len() > 0,
    decreases ps.len(),
{
    if ps.len() == 1 {
        assert(ps[0].len() > 0);
    } else {
        assert(ps.last() == ps[ps.len() - 1]);
    }
}

/// Law: inserting a path of non-empty parts into a tree whose siblings have
/// distinct identifiers keeps them distinct and leads to a node whose
/// identifier is the parts joined by `/` (the node count must stay within
/// `usize`).
pub proof fn insert_reaches_path(nodes: Seq<NodeView>, parts: Seq<Seq<char>>)
    requires
        tree_wf(nodes),
        siblings_distinct(nodes),
        parts.len() > 0,
        nodes.len() + parts.len() < usize::MAX,
        forall|i: int| 0 <= i < parts.len() ==> #[trigger] parts[i].len() > 0,
    ensures
        tree_wf(inserted(nodes, parts)),
        siblings_distinct(inserted(nodes, parts)),
        ({
            let st = insert_state(nodes, parts, parts.len() as int);
            st.0[st.1].id == join_with(parts, '/')
        }),
{
    lemma_insert_state(nodes, parts, parts.len() as int);
    assert(parts.take(parts.len() as int) =~= parts);
}

/// Law: the parts of a path are never empty.
pub proof fn path_parts_nonempty(s: Seq<char>)
    ensures
        forall|i: int| 0 <= i < path_parts(s).len() ==> #[trigger] path_parts(s)[i].len() > 0,
{
    lemma_nonempty(split_on(s, '/'));
}

proof fn lemma_nonempty(ps: Seq<Seq<char>>)
    ensures
        forall|i: int| 0 <= i < nonempty(ps).len() ==> #[trigger] nonempty(ps)[i].len() > 0,
    decreases ps.len(),
{
    if ps.len() > 0 {
        lemma_nonempty(ps.drop_last());
        let prev = nonempty(ps.drop_last());
        if ps.last().len() > 0 {
            assert forall|i: int| 0 <= i < prev.push(ps.last()).len() implies #[trigger] prev.push(
                ps.last(),
            )[i].len() > 0 by {
                if i < prev.len() {
                    assert(prev.push(ps.last())[i] == prev[i]);
                }
            }
        }
    }
}

/// `c` is among the children of node `x`.
pub open spec fn has_child(nodes: Seq<NodeView>, x: int, c: int) -> bool {
    exists|k: int| 0 <= k < nodes[x].children.len() && nodes[x].children[k] as int == c
}

/// `b` grows `a`: no node is removed, every node keeps its identifier, and
/// every node keeps its children in place.
pub open spec fn extends(a: Seq<NodeView>, b: Seq<NodeView>) -> bool {
    &&& b.len() >= a.len()
    &&& forall|x: int| 0 <= x < a.len() ==> #[trigger] b[x].id == a[x].id
    &&& forall|x: int| 0 <= x < a.len() ==> #[trigger] b[x].children.len() >= a[x].children.len()
    &&& forall|x: int, k: int|
        0 <= x < a.len() && 0 <= k < a[x].children.len() ==> b[x].children[k] == #[trigger] a[x].children[k]
}

proof fn lemma_extends_has_child(a: Seq<NodeView>, b: Seq<NodeView>, x: int, c: int)
    requires
        extends(a, b),
        0 <= x < a.len(),
        has_child(a, x, c),
    ensures
        has_child(b, x, c),
{
    let k = choose|k: int| 0 <= k < a[x].children.len() && a[x].children[k] as int == c;
    assert(b[x].children[k] == a[x].children[k]);
    assert(b[x].children.len() >= a[x].children.len());
}

proof fn lemma_extends_trans(a: Seq<NodeView>, b: Seq<NodeView>, c: Seq<NodeView>)
    requires
        extends(a, b),
        extends(b, c),
    ensures
        extends(a, c),
{
    assert forall|x: int, k: int|
        0 <= x < a.len() && 0 <= k < a[x].children.len() implies c[x].children[k]
        == #[trigger] a[x].children[k] by {
        assert(b[x].children[k] == a[x].children[k]);
        assert(b[x].children.len() >= a[x].children.len());
        assert(c[x].children[k] == b[x].children[k]);
    }
    assert forall|x: int| 0 <= x < a.len() implies #[trigger] c[x].id == a[x].id by {
        assert(b[x].id == a[x].id);
        assert(c[x].id == b[x].id);
    }
    assert forall|x: int| 0 <= x < a.len() implies #[trigger] c[x].children.len()
        >= a[x].children.len() by {
        assert(b[x].children.len() >= a[x].children.len());
        assert(c[x].children.len() >= b[x].children.len());
    }
}

proof fn lemma_step_extends(st: (Seq<NodeView>, int, Seq<char>), part: Seq<char>, last: bool)
    requires
        step_ok(st),
        st.0.len() < usize::MAX,
    ensures
        extends(st.0, insert_step(st, part, last).0),
        has_child(insert_step(st, part, last).0, st.1, insert_step(st, part, last).1),
        0 <= insert_step(st, part, last).1 < insert_step(st, part, last).0.len(),
        insert_step(st, part, last).0[insert_step(st, part, last).1].id == join_step(st.2, part),
        insert_step(st, part, last).2 == join_step(st.2, part),
{
    let nodes = st.0;
    let cur = st.1;
    let id = join_step(st.2, part);
    let kids = nodes[cur].children;
    lemma_find_from(nodes, kids, id, 0);
    assert(kids.subrange(0, kids.len() as int) =~= kids);
    match find_from(nodes, kids, id, 0) {
        Some(c) => {
            let k = choose|k: int| 0 <= k < kids.len() && kids[k] == c;
            assert(nodes[cur].children[k] as int == c as int);
            assert(nodes[cur].children[k] < nodes.len());
        },
        None => {
            let n = nodes.len();
            let parent = NodeView { children: kids.push(n as usize), ..nodes[cur] };
            let nodes2 = nodes.update(cur, parent).push(
                NodeView { id, label: part, is_leaf: last, children: Seq::empty() },
            );
            assert(nodes2[cur].children[kids.len() as int] as int == n as int);
            assert forall|x: int, k: int|
                0 <= x < nodes.len() && 0 <= k < nodes[x].children.len() implies nodes2[x].children[k]
                == #[trigger] nodes[x].children[k] by {
                if x == cur {
                    assert(nodes2[x].children == kids.push(n as usize));
                } else {
                    assert(nodes2[x] == nodes[x]);
                }
            }
            assert forall|x: int| 0 <= x < nodes.len() implies #[trigger] nodes2[x].id == nodes[x].id by {
                if x == cur {
                } else {
                }
            }
            assert forall|x: int| 0 <= x < nodes.len() implies #[trigger] nodes2[x].children.len()
                >= nodes[x].children.len() by {
                if x == cur {
                } else {
                    assert(nodes2[x] == nodes[x]);
                }
            }
        },
    }
}

proof fn lemma_states_grow(nodes: Seq<NodeView>, parts: Seq<Seq<char>>, n: int)
    requires
        tree_wf(nodes),
        siblings_distinct(nodes),
        0 <= n <= parts.len(),
        nodes.len() + parts.len() < usize::MAX,
    ensures
        step_ok(insert_state(nodes, parts, n)),
        insert_state(nodes, parts, n).0.len() <= nodes.len() + n,
        forall|k: int|
            0 <= k <= n ==> extends(#[trigger] insert_state(nodes, parts, k).0, insert_state(nodes, parts, n).0),
    decreases n,
{
    if n > 0 {
        lemma_states_grow(nodes, parts, n - 1);
        let prev = insert_state(nodes, parts, n - 1);
        lemma_insert_step(prev, parts[n - 1], n == parts.len());
        lemma_step_extends(prev, parts[n - 1], n == parts.len());
        let last = insert_state(nodes, parts, n).0;
        assert forall|k: int| 0 <= k <= n implies extends(
            #[trigger] insert_state(nodes, parts, k).0,
            last,
        ) by {
            if k < n {
                lemma_extends_trans(insert_state(nodes, parts, k).0, prev.0, last);
            }
        }
    }
}

proof fn lemma_second_pass(nodes: Seq<NodeView>, parts: Seq<Seq<char>>, k: int)
    requires
        tree_wf(nodes),
        siblings_distinct(nodes),
        0 <= k <= parts.len(),
        nodes.len() + parts.len() < usize::MAX,
    ensures
        ({
            let f = inserted(nodes, parts);
            let st = insert_state(nodes, parts, k);
            insert_state(f, parts, k) == (f, st.1, st.2)
        }),
    decreases k,
{
    let n = parts.len() as int;
    let f = inserted(nodes, parts);
    lemma_states_grow(nodes, parts, n);
    if k > 0 {
        lemma_second_pass(nodes, parts, k - 1);
        lemma_states_grow(nodes, parts, k - 1);
        lemma_states_grow(nodes, parts, k);
        let prev = insert_state(nodes, parts, k - 1);
        let st = insert_state(nodes, parts, k);
        lemma_step_extends(prev, parts[k - 1], k == parts.len());
        assert(extends(st.0, f));
        lemma_extends_has_child(st.0, f, prev.1, st.1);
        assert(f[st.1].id == st.0[st.1].id);
        let kids = f[prev.1].children;
        let id = st.2;
        lemma_find_from(f, kids, id, 0);
        assert(kids.subrange(0, kids.len() as int) =~= kids);
        let j = choose|j: int| 0 <= j < kids.len() && kids[j] as int == st.1;
        match find_from(f, kids, id, 0) {
            Some(c) => {
                let i = choose|i: int| 0 <= i < kids.len() && kids[i] == c;
                if i < j {
                    assert(f[f[prev.1].children[i] as int].id != f[f[prev.1].children[j] as int].id);
                } else if j < i {
                    assert(f[f[prev.1].children[j] as int].id != f[f[prev.1].children[i] as int].id);
                }
            },
            None => {
                assert(f[kids[j] as int].id != id);
            },
        }
    }
}

/// Law: inserting the same path twice gives the same tree as inserting it
/// once: the second insertion finds every node it needs (the node count must
/// stay within `usize`).
pub proof fn insert_twice_same(nodes: Seq<NodeView>, parts: Seq<Seq<char>>)
    requires
        tree_wf(nodes),
        siblings_distinct(nodes),
        nodes.len() + parts.len() < usize::MAX,
    ensures
        inserted(inserted(nodes, parts), parts) == inserted(nodes, parts),
{
    lemma_second_pass(nodes, parts, parts.len() as int);
}

impl LibraryTree {
    /// A tree holding only the root, labelled `root_label`, whose identifier
    /// is empty.
    pub fn new(root_label: String) -> (t: LibraryTree)
        ensures
            t@ == seq![
                NodeView {
                    id: Seq::empty(),
                    label: root_label@,
                    is_leaf: false,
                    children: Seq::empty(),
                },
            ],
    {
        let mut nodes: Vec<TreeNode> = Vec::new();
        nodes.push(TreeNode { id: String::new(), label: root_label, is_leaf: false, children: Vec::new() });
        let t = LibraryTree { nodes };
        assert(t@ =~= seq![
            NodeView {
                id: Seq::empty(),
                label: root_label@,
                is_leaf: false,
                children: Seq::empty(),
            },
        ]);
        t
    }

    fn find_child(&self, cur: usize, id: &String) -> (r: Option<usize>)
        requires
            tree_wf(self@),
            cur < self@.len(),
        ensures
            r == find_from(self@, self@[cur as int].children, id@, 0),
            r matches Some(c) ==> c < self@.len(),
    {
        let n = self.nodes[cur].children.len();
        for j in 0..n
            invariant
                tree_wf(self@),
                cur < self@.len(),
                n == self@[cur as int].children.len(),
                find_from(self@, self@[cur as int].children, id@, 0) == find_from(
                    self@,
                    self@[cur as int].children,
                    id@,
                    j as int,
                ),
        {
            let c = self.nodes[cur].children[j];
            assert(c == self@[cur as int].children[j as int]);
            assert(c < self@.len());
            if self.nodes[c].id == *id {
                return Some(c);
            }
        }
        None
    }

    /// Inserts the path made of `parts` (see `inserted`).
    pub fn insert_path(&mut self, parts: &Vec<String>)
        requires
            tree_wf(old(self)@),
        ensures
            tree_wf(final(self)@),
            final(self)@ == inserted(old(self)@, parts@.map_values(|p: String| p@)),
    {
        let ghost ps = parts@.map_values(|p: String| p@);
        let ghost start = self@;
        let mut cur: usize = 0;
        let mut path = String::new();
        for k in 0..parts.len()
            invariant
                ps == parts@.map_values(|p: String| p@),
                tree_wf(self@),
                cur < self@.len(),
                (self@, cur as int, path@) == insert_state(start, ps, k as int),
        {
            if path.as_str().unicode_len() > 0 {
                push_char(&mut path, '/');
            }
            path.append(parts[k].as_str());
            assert(path@ == join_step(insert_state(start, ps, k as int).2, ps[k as int]));
            match self.find_child(cur, &path) {
                Some(c) => {
                    cur = c;
                },
                None => {
                    let n = self.nodes.len();
                    let node = TreeNode {
                        id: path.clone(),
                        label: parts[k].clone(),
                        is_leaf: k + 1 == parts.len(),
                        children: Vec::new(),
                    };
                    let ghost before = self@;
                    self.nodes[cur].children.push(n);
                    self.nodes.push(node);
                    proof {
                        let parent = NodeView {
                            children: before[cur as int].children.push(n as usize),
                            ..before[cur as int]
                        };
                        assert(self@ =~= before.update(cur as int, parent).push(
                            NodeView {
                                id: path@,
                                label: ps[k as int],
                                is_leaf: k + 1 == parts.len(),
                                children: Seq::empty(),
                            },
                        ));
                    }
                    cur = n;
                },
            }
        }
    }

    /// Inserts the entry at relative path `rel` (see `tree_parts`).
    pub fn insert_relative(&mut self, rel: &str)
        requires
            tree_wf(old(self)@),
        ensures
            tree_wf(final(self)@),
            final(self)@ == inserted(old(self)@, path_parts(rel@)),
    {
        let parts = tree_parts(rel);
        assert(parts@.map_values(|p: String| p@) =~= path_parts(rel@));
        self.insert_path(&parts);
    }
}

} // verus!
