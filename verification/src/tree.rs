//! The versions-repository tree model: named entries that are either blobs
//! (a content-addressed id with optionally cached structured content) or
//! subtrees.  Two trees are "the same" when their shapes, names and blob ids
//! agree; cached content does not take part, mirroring content addressing.

use vstd::prelude::*;

use crate::content::{spec_content_view, ContentValue, ContentView};
use crate::id::Id;

verus! {

broadcast use vstd::seq::axiom_seq_index_decreases, vstd::seq::axiom_seq_subrange_decreases, vstd::std_specs::vec::axiom_vec_decreases_to_view;

/// Spec-level shape of a tree node.
#[verifier::ext_equal]
pub enum NodeView {
    Blob { id: Seq<u8>, content: Option<ContentView> },
    Dir { entries: Seq<(Seq<char>, NodeView)> },
}

/// Spec-level shape of a tree: its named entries, in order.
pub type TreeView = Seq<(Seq<char>, NodeView)>;

/// What went wrong while navigating a tree.
#[derive(Debug, Clone, Copy, PartialEq, Eq, Structural)]
pub enum TreeError {
    /// A blob stood where a subtree was required.
    ExpectedDir,
    /// A subtree stood where a blob was required.
    ExpectedBlob,
}

/// One named entry of a tree.
pub struct TreeEntry {
    pub name: String,
    pub node: TreeNode,
}

/// A blob leaf or a subtree.
pub enum TreeNode {
    Blob { id: Id, content: Option<ContentValue> },
    Dir { tree: Tree },
}

/// An ordered collection of named entries.
pub struct Tree {
    pub entries: Vec<TreeEntry>,
}

/// The view of a node.
pub open spec fn spec_node_view(n: TreeNode) -> NodeView
    decreases n,
{
    match n {
        TreeNode::Blob { id, content } => NodeView::Blob {
            id: id@,
            content: match content {
                Some(c) => Some(spec_content_view(c)),
                None => None,
            },
        },
        TreeNode::Dir { tree } => NodeView::Dir { entries: spec_tree_view(tree) },
    }
}

/// The view of a tree.
pub open spec fn spec_tree_view(t: Tree) -> TreeView
    decreases t,
{
    Seq::new(
        t.entries@.len(),
        |i: int|
            if 0 <= i < t.entries@.len() {
                (t.entries@[i].name@, spec_node_view(t.entries@[i].node))
            } else {
                (Seq::empty(), NodeView::Dir { entries: Seq::empty() })
            },
    )
}

impl View for Tree {
    type V = TreeView;

    open spec fn view(&self) -> TreeView {
        spec_tree_view(*self)
    }
}

impl View for TreeNode {
    type V = NodeView;

    open spec fn view(&self) -> NodeView {
        spec_node_view(*self)
    }
}

/// First entry bound to `name`, if any.
pub open spec fn spec_lookup(t: TreeView, name: Seq<char>) -> Option<NodeView>
    decreases t.len(),
{
    if t.len() == 0 {
        None
    } else if t[0].0 == name {
        Some(t[0].1)
    } else {
        spec_lookup(t.drop_first(), name)
    }
}

/// Replaces the first entry bound to `name`, or appends a new entry.
pub open spec fn spec_insert(t: TreeView, name: Seq<char>, n: NodeView) -> TreeView
    decreases t.len(),
{
    if t.len() == 0 {
        seq![(name, n)]
    } else if t[0].0 == name {
        seq![(name, n)] + t.drop_first()
    } else {
        seq![t[0]] + spec_insert(t.drop_first(), name, n)
    }
}

/// Removes the first entry bound to `name`, if any.
pub open spec fn spec_remove(t: TreeView, name: Seq<char>) -> TreeView
    decreases t.len(),
{
    if t.len() == 0 {
        t
    } else if t[0].0 == name {
        t.drop_first()
    } else {
        seq![t[0]] + spec_remove(t.drop_first(), name)
    }
}

/// Looking up what was just inserted finds it.
pub proof fn lemma_lookup_insert(t: TreeView, name: Seq<char>, n: NodeView)
    ensures
        spec_lookup(spec_insert(t, name, n), name) == Some(n),
    decreases t.len(),
{
    if t.len() == 0 {
    } else if t[0].0 == name {
        assert((seq![(name, n)] + t.drop_first())[0] == (name, n));
    } else {
        lemma_lookup_insert(t.drop_first(), name, n);
        assert((seq![t[0]] + spec_insert(t.drop_first(), name, n)).drop_first()
            =~= spec_insert(t.drop_first(), name, n));
    }
}

/// Re-inserting the entry a lookup found leaves the tree unchanged.
pub proof fn lemma_insert_lookup_identity(t: TreeView, name: Seq<char>, n: NodeView)
    requires
        spec_lookup(t, name) == Some(n),
    ensures
        spec_insert(t, name, n) == t,
    decreases t.len(),
{
    if t.len() == 0 {
    } else if t[0].0 == name {
        assert(spec_insert(t, name, n) =~= t);
    } else {
        lemma_insert_lookup_identity(t.drop_first(), name, n);
        assert(spec_insert(t, name, n) =~= t);
    }
}

/// With no duplicate names, removing a name removes its every trace.
pub proof fn lemma_lookup_remove(t: TreeView, name: Seq<char>)
    requires
        crate::ordmap::spec_unique_keys(t),
    ensures
        spec_lookup(spec_remove(t, name), name) is None,
    decreases t.len(),
{
    reveal_with_fuel(spec_lookup, 2);
    if t.len() == 0 {
    } else if t[0].0 == name {
        assert forall|i: int| 0 <= i < t.drop_first().len() implies (
        #[trigger] t.drop_first()[i]).0 != name by {
            assert(t.drop_first()[i] == t[i + 1]);
        }
        lemma_lookup_all_other(t.drop_first(), name);
    } else {
        assert forall|i: int, j: int| 0 <= i < j < t.drop_first().len() implies (
        #[trigger] t.drop_first()[i]).0 != (#[trigger] t.drop_first()[j]).0 by {
            assert(t.drop_first()[i] == t[i + 1]);
            assert(t.drop_first()[j] == t[j + 1]);
        }
        lemma_lookup_remove(t.drop_first(), name);
        assert((seq![t[0]] + spec_remove(t.drop_first(), name))[0] == t[0]);
        assert((seq![t[0]] + spec_remove(t.drop_first(), name)).drop_first() =~= spec_remove(
            t.drop_first(),
            name,
        ));
    }
}

/// A name carried by no entry is found by no lookup.
pub proof fn lemma_lookup_all_other(t: TreeView, name: Seq<char>)
    requires
        forall|i: int| 0 <= i < t.len() ==> (#[trigger] t[i]).0 != name,
    ensures
        spec_lookup(t, name) is None,
    decreases t.len(),
{
    if t.len() > 0 {
        assert forall|i: int| 0 <= i < t.drop_first().len() implies (
        #[trigger] t.drop_first()[i]).0 != name by {
            assert(t.drop_first()[i] == t[i + 1]);
        }
        lemma_lookup_all_other(t.drop_first(), name);
    }
}

/// Removing a name that no lookup finds leaves the tree unchanged.
pub proof fn lemma_remove_absent_identity(t: TreeView, name: Seq<char>)
    requires
        spec_lookup(t, name) is None,
    ensures
        spec_remove(t, name) == t,
    decreases t.len(),
{
    if t.len() == 0 {
    } else {
        lemma_remove_absent_identity(t.drop_first(), name);
        assert(spec_remove(t, name) =~= t);
    }
}

impl Tree {
    /// The empty tree.
    pub fn empty() -> (r: Tree)
        ensures
            r@ == Seq::<(Seq<char>, NodeView)>::empty(),
    {
        let r = Tree { entries: Vec::new() };
        proof {
            assert(r@ =~= Seq::<(Seq<char>, NodeView)>::empty());
        }
        r
    }

    /// Finds the first entry bound to `name`.
    pub fn lookup<'a>(&'a self, name: &str) -> (r: Option<&'a TreeNode>)
        ensures
            match r {
                Some(n) => spec_lookup(self@, name@) == Some(n@),
                None => spec_lookup(self@, name@) is None,
            },
    {
        let name_string = name.to_owned();
        let ghost tv = self@;
        proof {
            assert(tv.skip(0) =~= tv);
        }
        let mut i: usize = 0;
        while i < self.entries.len()
            invariant
                i <= self.entries@.len(),
                name_string@ == name@,
                tv == self@,
                tv.len() == self.entries@.len(),
                forall|j: int|
                    0 <= j < tv.len() ==> #[trigger] tv[j] == (
                        self.entries@[j].name@,
                        self.entries@[j].node@,
                    ),
                spec_lookup(tv, name@) == spec_lookup(tv.skip(i as int), name@),
            decreases self.entries@.len() - i,
        {
            proof {
                assert(tv.skip(i as int)[0] == tv[i as int]);
                assert(tv.skip(i as int).drop_first() =~= tv.skip(i + 1));
            }
            if self.entries[i].name.eq(&name_string) {
                return Some(&self.entries[i].node);
            }
            i = i + 1;
        }
        proof {
            assert(tv.skip(tv.len() as int) =~= Seq::<(Seq<char>, NodeView)>::empty());
        }
        None
    }

    /// Binds `name` to `node`, replacing the first existing binding or
    /// appending a new one.
    pub fn insert(&mut self, name: String, node: TreeNode)
        ensures
            final(self)@ == spec_insert(old(self)@, name@, node@),
    {
        let ghost tv = old(self)@;
        proof {
            assert(tv.skip(0) =~= tv);
        }
        let mut i: usize = 0;
        while i < self.entries.len()
            invariant
                *self == *old(self),
                i <= self.entries@.len(),
                tv == self@,
                tv.len() == self.entries@.len(),
                forall|j: int|
                    0 <= j < tv.len() ==> #[trigger] tv[j] == (
                        self.entries@[j].name@,
                        self.entries@[j].node@,
                    ),
                forall|j: int| 0 <= j < i ==> tv[j].0 != name@,
                spec_insert(tv, name@, node@) == tv.subrange(0, i as int) + spec_insert(
                    tv.skip(i as int),
                    name@,
                    node@,
                ),
            decreases self.entries@.len() - i,
        {
            proof {
                assert(tv.skip(i as int)[0] == tv[i as int]);
                assert(tv.skip(i as int).drop_first() =~= tv.skip(i + 1));
            }
            if self.entries[i].name.eq(&name) {
                self.entries.remove(i);
                self.entries.insert(i, TreeEntry { name, node });
                proof {
                    assert(spec_insert(tv.skip(i as int), name@, node@) =~= seq![
                        (name@, node@),
                    ] + tv.skip(i + 1));
                    assert(self@ =~= tv.subrange(0, i as int) + seq![(name@, node@)] + tv.skip(
                        i + 1,
                    ));
                    assert(self@ =~= spec_insert(tv, name@, node@));
                }
                return ;
            }
            proof {
                assert(spec_insert(tv.skip(i as int), name@, node@) =~= seq![tv[i as int]]
                    + spec_insert(tv.skip(i + 1), name@, node@));
                assert(tv.subrange(0, i as int) + seq![tv[i as int]] =~= tv.subrange(0, i + 1));
                assert(tv.subrange(0, i as int) + spec_insert(tv.skip(i as int), name@, node@)
                    =~= tv.subrange(0, i + 1) + spec_insert(tv.skip(i + 1), name@, node@));
            }
            i = i + 1;
        }
        self.entries.push(TreeEntry { name, node });
        proof {
            assert(tv.skip(tv.len() as int) =~= Seq::<(Seq<char>, NodeView)>::empty());
            assert(spec_insert(tv.skip(tv.len() as int), name@, node@) =~= seq![(name@, node@)]);
            assert(tv.subrange(0, tv.len() as int) =~= tv);
            assert(self@ =~= tv + seq![(name@, node@)]);
            assert(self@ =~= spec_insert(tv, name@, node@));
        }
    }

    /// Removes the first binding of `name`, if any.
    pub fn remove(&mut self, name: &str)
        ensures
            final(self)@ == spec_remove(old(self)@, name@),
    {
        let name_string = name.to_owned();
        let ghost tv = old(self)@;
        proof {
            assert(tv.skip(0) =~= tv);
        }
        let mut i: usize = 0;
        while i < self.entries.len()
            invariant
                *self == *old(self),
                i <= self.entries@.len(),
                name_string@ == name@,
                tv == self@,
                tv.len() == self.entries@.len(),
                forall|j: int|
                    0 <= j < tv.len() ==> #[trigger] tv[j] == (
                        self.entries@[j].name@,
                        self.entries@[j].node@,
                    ),
                forall|j: int| 0 <= j < i ==> tv[j].0 != name@,
                spec_remove(tv, name@) == tv.subrange(0, i as int) + spec_remove(
                    tv.skip(i as int),
                    name@,
                ),
            decreases self.entries@.len() - i,
        {
            proof {
                assert(tv.skip(i as int)[0] == tv[i as int]);
                assert(tv.skip(i as int).drop_first() =~= tv.skip(i + 1));
            }
            if self.entries[i].name.eq(&name_string) {
                self.entries.remove(i);
                proof {
                    assert(spec_remove(tv.skip(i as int), name@) =~= tv.skip(i + 1));
                    assert(self@ =~= tv.subrange(0, i as int) + tv.skip(i + 1));
                    assert(self@ =~= spec_remove(tv, name@));
                }
                return ;
            }
            proof {
                assert(spec_remove(tv.skip(i as int), name@) =~= seq![tv[i as int]] + spec_remove(
                    tv.skip(i + 1),
                    name@,
                ));
                assert(tv.subrange(0, i as int) + seq![tv[i as int]] =~= tv.subrange(0, i + 1));
                assert(tv.subrange(0, i as int) + spec_remove(tv.skip(i as int), name@)
                    =~= tv.subrange(0, i + 1) + spec_remove(tv.skip(i + 1), name@));
            }
            i = i + 1;
        }
        proof {
            assert(tv.skip(tv.len() as int) =~= Seq::<(Seq<char>, NodeView)>::empty());
            assert(tv.subrange(0, tv.len() as int) =~= tv);
            assert(self@ =~= spec_remove(tv, name@));
        }
    }
}

/// Whether two nodes denote the same stored object: equal blob ids, equal
/// names and shapes.  Cached content takes no part, as with content
/// addressing, where the id determines the stored bytes.
pub open spec fn spec_node_same(a: NodeView, b: NodeView) -> bool
    decreases a,
{
    match (a, b) {
        (NodeView::Blob { id: ia, content: _ }, NodeView::Blob { id: ib, content: _ }) => ia == ib,
        (NodeView::Dir { entries: ea }, NodeView::Dir { entries: eb }) => spec_entries_same(
            ea,
            eb,
        ),
        _ => false,
    }
}

/// Entrywise sameness of two trees.
pub open spec fn spec_entries_same(ea: TreeView, eb: TreeView) -> bool
    decreases ea,
{
    &&& ea.len() == eb.len()
    &&& forall|i: int|
        0 <= i < ea.len() ==> (#[trigger] ea[i]).0 == eb[i].0 && spec_node_same(
            ea[i].1,
            eb[i].1,
        )
}

/// Decides whether two nodes denote the same stored object.
pub fn node_same(a: &TreeNode, b: &TreeNode) -> (r: bool)
    ensures
        r == spec_node_same(a@, b@),
    decreases a,
{
    match (a, b) {
        (TreeNode::Blob { id: ia, content: _ }, TreeNode::Blob { id: ib, content: _ }) => ia.eq(
            ib,
        ),
        (TreeNode::Dir { tree: ta }, TreeNode::Dir { tree: tb }) => tree_same(ta, tb),
        _ => false,
    }
}

/// Decides entrywise sameness of two trees.
pub fn tree_same(ta: &Tree, tb: &Tree) -> (r: bool)
    ensures
        r == spec_entries_same(ta@, tb@),
    decreases ta,
{
    if ta.entries.len() != tb.entries.len() {
        return false;
    }
    let mut i: usize = 0;
    while i < ta.entries.len()
        invariant
            ta.entries@.len() == tb.entries@.len(),
            i <= ta.entries@.len(),
            ta@.len() == ta.entries@.len(),
            tb@.len() == tb.entries@.len(),
            forall|j: int|
                0 <= j < ta@.len() ==> #[trigger] ta@[j] == (
                    ta.entries@[j].name@,
                    ta.entries@[j].node@,
                ),
            forall|j: int|
                0 <= j < tb@.len() ==> #[trigger] tb@[j] == (
                    tb.entries@[j].name@,
                    tb.entries@[j].node@,
                ),
            forall|j: int|
                0 <= j < i ==> (#[trigger] ta@[j]).0 == tb@[j].0 && spec_node_same(
                    ta@[j].1,
                    tb@[j].1,
                ),
        decreases ta.entries@.len() - i,
    {
        proof {
            let tt = *ta;
            assert(decreases_to!(tt => tt.entries));
            let es = tt.entries;
            assert(decreases_to!(es => es@[i as int]));
            assert(decreases_to!(es@[i as int] => es@[i as int].node));
            assert(decreases_to!(*ta => ta.entries@[i as int].node));
        }
        if !ta.entries[i].name.eq(&tb.entries[i].name) {
            proof {
                assert((ta@[i as int]).0 != (tb@[i as int]).0);
                assert(!spec_entries_same(ta@, tb@));
            }
            return false;
        }
        if !node_same(&ta.entries[i].node, &tb.entries[i].node) {
            proof {
                assert(!spec_node_same((ta@[i as int]).1, (tb@[i as int]).1));
                assert(!spec_entries_same(ta@, tb@));
            }
            return false;
        }
        i = i + 1;
    }
    true
}

/// Copies a node.
pub fn clone_node(n: &TreeNode) -> (r: TreeNode)
    ensures
        r@ == n@,
    decreases n,
{
    match n {
        TreeNode::Blob { id, content } => TreeNode::Blob {
            id: *id,
            content: match content {
                Some(c) => Some(c.deep_clone()),
                None => None,
            },
        },
        TreeNode::Dir { tree } => TreeNode::Dir { tree: clone_tree(tree) },
    }
}

/// Copies a tree.
pub fn clone_tree(t: &Tree) -> (r: Tree)
    ensures
        r@ == t@,
    decreases t,
{
    let mut out: Vec<TreeEntry> = Vec::new();
    let mut i: usize = 0;
    while i < t.entries.len()
        invariant
            i <= t.entries@.len(),
            out@.len() == i,
            forall|j: int|
                0 <= j < i ==> (#[trigger] out@[j]).name@ == t.entries@[j].name@
                    && out@[j].node@ == t.entries@[j].node@,
        decreases t.entries@.len() - i,
    {
        proof {
            let tt = *t;
            assert(decreases_to!(tt => tt.entries));
            let es = tt.entries;
            assert(decreases_to!(es => es@[i as int]));
            assert(decreases_to!(es@[i as int] => es@[i as int].node));
            assert(decreases_to!(*t => t.entries@[i as int].node));
        }
        let name = t.entries[i].name.clone();
        let node = clone_node(&t.entries[i].node);
        out.push(TreeEntry { name, node });
        i = i + 1;
    }
    let r = Tree { entries: out };
    proof {
        assert(r@ =~= t@);
    }
    r
}

/// The entries of a node when it is a subtree; otherwise none.
pub open spec fn spec_dir_entries_of(n: NodeView) -> TreeView {
    match n {
        NodeView::Dir { entries } => entries,
        _ => Seq::empty(),
    }
}

/// The node under `name`, or an empty subtree where there is none.
pub open spec fn spec_lookup_or_empty(t: TreeView, name: Seq<char>) -> NodeView {
    match spec_lookup(t, name) {
        Some(n) => n,
        None => NodeView::Dir { entries: Seq::empty() },
    }
}

/// Mirrors one source node over a target node: a blob replaces the target
/// outright; a subtree is replayed entry by entry into the target subtree,
/// creating it where missing and keeping unrelated target entries.
pub open spec fn spec_mirror_node(s: NodeView, t: NodeView) -> NodeView
    decreases s,
{
    match s {
        NodeView::Blob { id: _, content: _ } => s,
        NodeView::Dir { entries } => NodeView::Dir {
            entries: spec_mirror_into(entries, spec_dir_entries_of(t)),
        },
    }
}

/// Replays every source entry, in order, into the accumulated target tree.
pub open spec fn spec_mirror_into(src: TreeView, acc: TreeView) -> TreeView
    decreases src,
{
    if src.len() == 0 {
        acc
    } else {
        spec_mirror_into(
            src.drop_first(),
            spec_insert(
                acc,
                src[0].0,
                spec_mirror_node(src[0].1, spec_lookup_or_empty(acc, src[0].0)),
            ),
        )
    }
}

/// Mirrors one source node over a target node.
pub fn mirror_node(s: &TreeNode, t: TreeNode) -> (r: TreeNode)
    ensures
        r@ == spec_mirror_node(s@, t@),
    decreases s,
{
    match s {
        TreeNode::Blob { id: _, content: _ } => clone_node(s),
        TreeNode::Dir { tree } => {
            let tsub = match t {
                TreeNode::Dir { tree: tt } => tt,
                _ => Tree::empty(),
            };
            TreeNode::Dir { tree: mirror_into(tree, tsub) }
        },
    }
}

/// Replays every source entry, in order, into the target tree.
pub fn mirror_into(src: &Tree, acc: Tree) -> (r: Tree)
    ensures
        r@ == spec_mirror_into(src@, acc@),
    decreases src,
{
    let mut acc = acc;
    let ghost acc0 = acc@;
    proof {
        assert(src@.skip(0) =~= src@);
    }
    let mut i: usize = 0;
    while i < src.entries.len()
        invariant
            i <= src.entries@.len(),
            src@.len() == src.entries@.len(),
            forall|j: int|
                0 <= j < src@.len() ==> #[trigger] src@[j] == (
                    src.entries@[j].name@,
                    src.entries@[j].node@,
                ),
            spec_mirror_into(src@, acc0) == spec_mirror_into(src@.skip(i as int), acc@),
        decreases src.entries@.len() - i,
    {
        proof {
            let tt = *src;
            assert(decreases_to!(tt => tt.entries));
            let es = tt.entries;
            assert(decreases_to!(es => es@[i as int]));
            assert(decreases_to!(es@[i as int] => es@[i as int].node));
            assert(decreases_to!(*src => src.entries@[i as int].node));
            assert(src@.skip(i as int)[0] == src@[i as int]);
            assert(src@.skip(i as int).drop_first() =~= src@.skip(i + 1));
        }
        let name = src.entries[i].name.clone();
        let tgt_node = match acc.lookup(&name) {
            Some(n) => clone_node(n),
            None => TreeNode::Dir { tree: Tree::empty() },
        };
        proof {
            assert(tgt_node@ == spec_lookup_or_empty(acc@, name@));
        }
        let new_node = mirror_node(&src.entries[i].node, tgt_node);
        acc.insert(name, new_node);
        i = i + 1;
    }
    proof {
        assert(src@.skip(src@.len() as int) =~= Seq::<(Seq<char>, NodeView)>::empty());
    }
    acc
}

/// The node at `path` below `n`, following subtree entries.
pub open spec fn spec_node_at(n: NodeView, path: Seq<Seq<char>>) -> Option<NodeView>
    decreases path.len(),
{
    if path.len() == 0 {
        Some(n)
    } else {
        match n {
            NodeView::Dir { entries } => match spec_lookup(entries, path[0]) {
                Some(child) => spec_node_at(child, path.drop_first()),
                None => None,
            },
            _ => None,
        }
    }
}

/// Binds `path` to `node` below a tree, creating intermediate subtrees
/// where missing and replacing a blob standing in the way.
pub open spec fn spec_set_at(t: TreeView, path: Seq<Seq<char>>, node: NodeView) -> TreeView
    decreases path.len(),
{
    if path.len() == 0 {
        t
    } else if path.len() == 1 {
        spec_insert(t, path[0], node)
    } else {
        spec_insert(
            t,
            path[0],
            NodeView::Dir {
                entries: spec_set_at(
                    spec_dir_entries_of(spec_lookup_or_empty(t, path[0])),
                    path.drop_first(),
                    node,
                ),
            },
        )
    }
}

} // verus!
