//! The versions-repository model: a linear history of commits, each with an
//! id, author, time, message and tree.  Walking a subtree yields each blob
//! leaf with the most recent ancestor commit under which its content
//! changed.

use vstd::prelude::*;

use crate::content::{ContentValue, ContentView};
use crate::id::Id;
use crate::tree::{
    clone_node, spec_lookup, NodeView, Tree, TreeError, TreeNode, TreeView,
};

verus! {

broadcast use vstd::seq::axiom_seq_index_decreases, vstd::std_specs::vec::axiom_vec_decreases_to_view;

/// One commit of the history.
pub struct CommitInfo {
    pub id: Id,
    pub author_name: String,
    pub author_email: String,
    pub time: i64,
    pub message: String,
    pub tree: Tree,
}

/// Spec-level shape of a commit.
#[verifier::ext_equal]
pub struct CommitView {
    pub id: Seq<u8>,
    pub author_name: Seq<char>,
    pub author_email: Seq<char>,
    pub time: int,
    pub message: Seq<char>,
    pub tree: TreeView,
}

impl View for CommitInfo {
    type V = CommitView;

    open spec fn view(&self) -> CommitView {
        CommitView {
            id: self.id@,
            author_name: self.author_name@,
            author_email: self.author_email@,
            time: self.time as int,
            message: self.message@,
            tree: self.tree@,
        }
    }
}

/// A linear history of commits, oldest first; the last commit is the head.
pub struct RepoHistory {
    pub commits: Vec<CommitInfo>,
}

impl View for RepoHistory {
    type V = Seq<CommitView>;

    open spec fn view(&self) -> Seq<CommitView> {
        Seq::new(self.commits@.len(), |i: int| self.commits@[i]@)
    }
}

/// One blob found by a walk: its path relative to the walked subtree, its
/// content and id, and the most recent ancestor commit under which its
/// content changed.
pub struct ResourceRepoEntry {
    pub path: Vec<String>,
    pub content: Option<ContentValue>,
    pub content_id: Id,
    pub last_change: Id,
    pub change_message: String,
}

/// Spec-level shape of a walk entry.
#[verifier::ext_equal]
pub struct EntryView {
    pub path: Seq<Seq<char>>,
    pub content: Option<ContentView>,
    pub content_id: Seq<u8>,
    pub last_change: Seq<u8>,
    pub change_message: Seq<char>,
}

impl View for ResourceRepoEntry {
    type V = EntryView;

    open spec fn view(&self) -> EntryView {
        EntryView {
            path: Seq::new(self.path@.len(), |i: int| self.path@[i]@),
            content: match self.content {
                Some(c) => Some(c.deep_view()),
                None => None,
            },
            content_id: self.content_id@,
            last_change: self.last_change@,
            change_message: self.change_message@,
        }
    }
}

impl DeepView for ResourceRepoEntry {
    type V = EntryView;

    open spec fn deep_view(&self) -> EntryView {
        self.view()
    }
}

/// The node reached from a tree by following the path, or `None` where an
/// entry is missing or a blob stands mid-path.
pub open spec fn spec_path_node(t: TreeView, path: Seq<Seq<char>>) -> Option<NodeView>
    decreases path.len(),
{
    if path.len() == 0 {
        Some(NodeView::Dir { entries: t })
    } else {
        match spec_lookup(t, path[0]) {
            Some(NodeView::Dir { entries }) => spec_path_node(entries, path.drop_first()),
            Some(n) => if path.len() == 1 {
                Some(n)
            } else {
                None
            },
            None => None,
        }
    }
}

/// The id of the blob at the path, if a blob is there.
pub open spec fn spec_blob_id_at(t: TreeView, path: Seq<Seq<char>>) -> Option<Seq<u8>> {
    match spec_path_node(t, path) {
        Some(NodeView::Blob { id, content: _ }) => Some(id),
        _ => None,
    }
}

/// Whether walking down the path runs into a blob before its end.
pub open spec fn spec_descent_blocked(t: TreeView, path: Seq<Seq<char>>) -> bool
    decreases path.len(),
{
    if path.len() == 0 {
        false
    } else {
        match spec_lookup(t, path[0]) {
            Some(NodeView::Dir { entries }) => spec_descent_blocked(entries, path.drop_first()),
            Some(NodeView::Blob { .. }) => true,
            None => false,
        }
    }
}

/// The blob leaves of a subtree in entry order, depth first, with their
/// relative paths.
pub open spec fn spec_blob_leaves(es: TreeView) -> Seq<(Seq<Seq<char>>, NodeView)>
    decreases es,
{
    if es.len() == 0 {
        Seq::empty()
    } else {
        spec_entry_leaves(es[0]) + spec_blob_leaves(es.drop_first())
    }
}

/// The blob leaves contributed by one entry.
pub open spec fn spec_entry_leaves(e: (Seq<char>, NodeView)) -> Seq<(Seq<Seq<char>>, NodeView)>
    decreases e,
{
    match e.1 {
        NodeView::Blob { .. } => seq![(seq![e.0], e.1)],
        NodeView::Dir { entries } => spec_blob_leaves(entries).map_values(
            |le: (Seq<Seq<char>>, NodeView)| (seq![e.0] + le.0, le.1),
        ),
    }
}

/// The id a blob node carries (an empty sequence for a subtree).
pub open spec fn spec_blob_id_of(n: NodeView) -> Seq<u8> {
    match n {
        NodeView::Blob { id, content: _ } => id,
        NodeView::Dir { .. } => Seq::empty(),
    }
}

/// The content a blob node carries.
pub open spec fn spec_blob_content_of(n: NodeView) -> Option<ContentView> {
    match n {
        NodeView::Blob { id: _, content } => content,
        NodeView::Dir { .. } => None,
    }
}

/// Every collected leaf is a blob.
pub proof fn lemma_blob_leaves_are_blobs(es: TreeView)
    ensures
        forall|i: int|
            0 <= i < spec_blob_leaves(es).len() ==> (#[trigger] spec_blob_leaves(es)[i]).1
                matches NodeView::Blob { .. },
    decreases es,
{
    if es.len() > 0 {
        lemma_entry_leaves_are_blobs(es[0]);
        lemma_blob_leaves_are_blobs(es.drop_first());
        assert forall|i: int| 0 <= i < spec_blob_leaves(es).len() implies (
        #[trigger] spec_blob_leaves(es)[i]).1 matches NodeView::Blob { .. } by {
            if i < spec_entry_leaves(es[0]).len() {
                assert(spec_blob_leaves(es)[i] == spec_entry_leaves(es[0])[i]);
            } else {
                assert(spec_blob_leaves(es)[i] == spec_blob_leaves(es.drop_first())[i
                    - spec_entry_leaves(es[0]).len()]);
            }
        }
    }
}

/// Every leaf contributed by one entry is a blob.
pub proof fn lemma_entry_leaves_are_blobs(e: (Seq<char>, NodeView))
    ensures
        forall|i: int|
            0 <= i < spec_entry_leaves(e).len() ==> (#[trigger] spec_entry_leaves(e)[i]).1
                matches NodeView::Blob { .. },
    decreases e,
{
    match e.1 {
        NodeView::Blob { .. } => {},
        NodeView::Dir { entries } => {
            lemma_blob_leaves_are_blobs(entries);
        },
    }
}

/// The index of the most recent ancestor (at or before `k`) under which the
/// blob at `path` last changed: walking ancestors stops at the first one
/// whose id at the path differs or is missing.
pub open spec fn spec_last_change(h: Seq<CommitView>, k: int, path: Seq<Seq<char>>) -> int
    decreases k,
{
    if k <= 0 {
        0
    } else if spec_blob_id_at(h[k - 1].tree, path) == spec_blob_id_at(h[k].tree, path) {
        spec_last_change(h, k - 1, path)
    } else {
        k
    }
}

impl RepoHistory {
    /// The id of the head commit.
    pub fn version(&self) -> (r: Id)
        requires
            self@.len() > 0,
        ensures
            r@ == self@.last().id,
    {
        self.commits[self.commits.len() - 1].id
    }

    /// The blob at `path` below the head tree: its node where a blob is
    /// there, `None` where the path leads nowhere, and an error where a
    /// subtree stands at the path or a blob stands mid-path.
    pub fn get<'a>(&'a self, path: &Vec<String>) -> (r: Result<Option<&'a TreeNode>, TreeError>)
        requires
            self@.len() > 0,
        ensures
            ({
                let t = self@.last().tree;
                let pv = path.deep_view();
                match r {
                    Ok(Some(n)) => spec_path_node(t, pv) == Some(n@) && n@ matches NodeView::Blob {
                        ..
                    },
                    Ok(None) => pv.len() > 0 && spec_path_node(t, pv) is None
                        && !spec_descent_blocked(t, pv),
                    Err(TreeError::ExpectedBlob) => pv.len() == 0 || spec_path_node(t, pv) matches
                        Some(NodeView::Dir { .. }),
                    Err(TreeError::ExpectedDir) => spec_path_node(t, pv) is None
                        && spec_descent_blocked(t, pv),
                }
            }),
    {
        let head = &self.commits[self.commits.len() - 1];
        proof {
            assert(head@ == self@.last());
        }
        let tree = &head.tree;
        let ghost pv = path.deep_view();
        if path.len() == 0 {
            return Err(TreeError::ExpectedBlob);
        }
        let n = path.len();
        let mut cur: &Tree = tree;
        let mut i: usize = 0;
        proof {
            assert(pv.skip(0) =~= pv);
        }
        while i + 1 < n
            invariant
                pv == path.deep_view(),
                pv.len() == path@.len(),
                n == path@.len(),
                forall|j: int| 0 <= j < pv.len() ==> #[trigger] pv[j] == path@[j]@,
                i + 1 <= pv.len(),
                tree@ == self@.last().tree,
                spec_path_node(tree@, pv) == spec_path_node(cur@, pv.skip(i as int)),
                spec_descent_blocked(tree@, pv) == spec_descent_blocked(cur@, pv.skip(i as int)),
            decreases n - i,
        {
            proof {
                assert(pv.skip(i as int)[0] == pv[i as int]);
                assert(pv.skip(i as int).drop_first() =~= pv.skip(i + 1));
                assert(pv.skip(i as int).len() > 1);
            }
            match cur.lookup(path[i].as_str()) {
                Some(TreeNode::Dir { tree: sub }) => {
                    cur = sub;
                },
                Some(TreeNode::Blob { .. }) => {
                    return Err(TreeError::ExpectedDir);
                },
                None => {
                    return Ok(None);
                },
            }
            i = i + 1;
        }
        proof {
            assert(pv.skip(i as int)[0] == pv[i as int]);
            assert(pv.skip(i as int).len() == 1);
            assert(pv.skip(i as int).drop_first() =~= pv.skip(i + 1));
            assert(pv.skip(i + 1) =~= Seq::<Seq<char>>::empty());
        }
        match cur.lookup(path[i].as_str()) {
            Some(node) => match node {
                TreeNode::Blob { .. } => {
                    proof {
                        reveal_with_fuel(spec_path_node, 2);
                    }
                    Ok(Some(node))
                },
                TreeNode::Dir { .. } => {
                    proof {
                        reveal_with_fuel(spec_path_node, 2);
                        match node@ {
                            NodeView::Dir { entries } => {
                                assert(spec_path_node(cur@, pv.skip(i as int)) == Some(node@));
                            },
                            _ => {},
                        }
                    }
                    Err(TreeError::ExpectedBlob)
                },
            },
            None => Ok(None),
        }
    }
}

/// The node at `path` below a tree; `None` where the path leads nowhere.
/// An empty path is refused with `None` (the tree itself is not a node).
pub fn node_at<'a>(t: &'a Tree, path: &Vec<String>) -> (r: Result<Option<&'a TreeNode>, TreeError>)
    ensures
        match r {
            Ok(Some(n)) => spec_path_node(t@, path.deep_view()) == Some(n@)
                && path.deep_view().len() > 0,
            Ok(None) => spec_path_node(t@, path.deep_view()) is None || path.deep_view().len()
                == 0,
            Err(_) => false,
        },
{
    let ghost pv = path.deep_view();
    if path.len() == 0 {
        return Ok(None);
    }
    let n = path.len();
    let mut cur: &Tree = t;
    let mut i: usize = 0;
    proof {
        assert(pv.skip(0) =~= pv);
    }
    while i + 1 < n
        invariant
            pv == path.deep_view(),
            pv.len() == path@.len(),
            n == path@.len(),
            forall|j: int| 0 <= j < pv.len() ==> #[trigger] pv[j] == path@[j]@,
            i + 1 <= pv.len(),
            spec_path_node(t@, pv) == spec_path_node(cur@, pv.skip(i as int)),
        decreases path@.len() - i,
    {
        proof {
            assert(pv.skip(i as int)[0] == pv[i as int]);
            assert(pv.skip(i as int).drop_first() =~= pv.skip(i + 1));
            assert(pv.skip(i as int).len() > 1);
        }
        match cur.lookup(path[i].as_str()) {
            Some(TreeNode::Dir { tree }) => {
                cur = tree;
            },
            Some(TreeNode::Blob { .. }) => {
                return Ok(None);
            },
            None => {
                return Ok(None);
            },
        }
        i = i + 1;
    }
    proof {
        assert(pv.skip(i as int)[0] == pv[i as int]);
        assert(pv.skip(i as int).len() == 1);
        assert(pv.skip(i as int).drop_first() =~= pv.skip(i + 1));
    }
    match cur.lookup(path[i].as_str()) {
        Some(n) => {
            proof {
                reveal_with_fuel(spec_path_node, 2);
                match n@ {
                    NodeView::Dir { entries } => {
                        assert(pv.skip(i as int).drop_first() =~= Seq::<Seq<char>>::empty());
                        assert(spec_path_node(cur@, pv.skip(i as int)) == Some(n@));
                    },
                    _ => {},
                }
            }
            Ok(Some(n))
        },
        None => Ok(None),
    }
}

/// The view of collected leaves.
pub open spec fn spec_leaves_view(s: Seq<(Vec<String>, TreeNode)>) -> Seq<
    (Seq<Seq<char>>, NodeView),
> {
    Seq::new(s.len(), |i: int| (s[i].0.deep_view(), s[i].1@))
}

/// Collects the blob leaves of a tree, depth first, appending them to `out`
/// with their relative paths.
fn collect_leaves(t: &Tree, out: &mut Vec<(Vec<String>, TreeNode)>)
    ensures
        spec_leaves_view(final(out)@) == spec_leaves_view(old(out)@) + spec_blob_leaves(t@),
    decreases t,
{
    let ghost out0 = old(out)@;
    proof {
        assert(t@.skip(0) =~= t@);
        assert(spec_leaves_view(out@) + spec_blob_leaves(t@.skip(0)) =~= spec_leaves_view(out@)
            + spec_blob_leaves(t@));
    }
    let mut i: usize = 0;
    while i < t.entries.len()
        invariant
            i <= t.entries@.len(),
            t@.len() == t.entries@.len(),
            forall|j: int|
                0 <= j < t@.len() ==> #[trigger] t@[j] == (
                    t.entries@[j].name@,
                    t.entries@[j].node@,
                ),
            spec_leaves_view(out0) + spec_blob_leaves(t@) == spec_leaves_view(out@)
                + spec_blob_leaves(t@.skip(i as int)),
        decreases t.entries@.len() - i,
    {
        proof {
            let tt = *t;
            assert(decreases_to!(tt => tt.entries));
            let es = tt.entries;
            assert(decreases_to!(es => es@[i as int]));
            assert(decreases_to!(es@[i as int] => es@[i as int].node));
            assert(decreases_to!(*t => t.entries@[i as int].node));
            assert(t@.skip(i as int)[0] == t@[i as int]);
            assert(t@.skip(i as int).drop_first() =~= t@.skip(i + 1));
        }
        let ghost out_before = out@;
        match &t.entries[i].node {
            TreeNode::Blob { .. } => {
                let mut p: Vec<String> = Vec::new();
                p.push(t.entries[i].name.clone());
                let n = clone_node(&t.entries[i].node);
                out.push((p, n));
                proof {
                    assert(p.deep_view() =~= seq![t@[i as int].0]);
                    assert(spec_leaves_view(out@) =~= spec_leaves_view(out_before).push(
                        (seq![t@[i as int].0], t@[i as int].1),
                    ));
                    assert(spec_entry_leaves(t@[i as int]) =~= seq![
                        (seq![t@[i as int].0], t@[i as int].1),
                    ]);
                    assert(spec_leaves_view(out_before) + (spec_entry_leaves(t@[i as int])
                        + spec_blob_leaves(t@.skip(i + 1))) =~= spec_leaves_view(out@)
                        + spec_blob_leaves(t@.skip(i + 1)));
                }
            },
            TreeNode::Dir { tree } => {
                let mut subout: Vec<(Vec<String>, TreeNode)> = Vec::new();
                collect_leaves(tree, &mut subout);
                proof {
                    assert(spec_leaves_view(subout@) =~= spec_blob_leaves(tree@));
                }
                let ghost subleaves = spec_blob_leaves(tree@);
                let ghost prepended = spec_entry_leaves(t@[i as int]);
                proof {
                    assert(prepended =~= subleaves.map_values(
                        |le: (Seq<Seq<char>>, NodeView)| (seq![t@[i as int].0] + le.0, le.1),
                    ));
                }
                let mut j: usize = 0;
                let sublen = subout.len();
                while j < sublen
                    invariant
                        j <= sublen,
                        sublen == subout@.len(),
                        spec_leaves_view(subout@) == subleaves,
                        prepended.len() == subleaves.len(),
                        forall|x: int|
                            0 <= x < subleaves.len() ==> #[trigger] prepended[x] == (
                                seq![t@[i as int].0] + subleaves[x].0,
                                subleaves[x].1,
                            ),
                        t@.len() == t.entries@.len(),
                        i < t@.len(),
                        t@[i as int] == (t.entries@[i as int].name@, t.entries@[i as int].node@),
                        spec_leaves_view(out@) == spec_leaves_view(out_before)
                            + prepended.subrange(0, j as int),
                    decreases sublen - j,
                {
                    proof {
                        assert(subleaves[j as int] == (
                            subout@[j as int].0.deep_view(),
                            subout@[j as int].1@,
                        ));
                    }
                    let mut full: Vec<String> = Vec::new();
                    full.push(t.entries[i].name.clone());
                    let mut rest = clone_path(&subout[j].0);
                    full.append(&mut rest);
                    let n = clone_node(&subout[j].1);
                    let ghost lv_before = spec_leaves_view(out@);
                    out.push((full, n));
                    proof {
                        assert(full.deep_view() =~= seq![t@[i as int].0] + subleaves[j as int].0);
                        assert(spec_leaves_view(out@) =~= lv_before.push(
                            (full.deep_view(), n@),
                        ));
                        assert((full.deep_view(), n@) == prepended[j as int]);
                        assert(spec_leaves_view(out_before) + prepended.subrange(0, j as int)
                            + seq![prepended[j as int]] =~= spec_leaves_view(out_before)
                            + prepended.subrange(0, j + 1));
                        assert(spec_leaves_view(out@) =~= spec_leaves_view(out_before)
                            + prepended.subrange(0, j + 1));
                    }
                    j = j + 1;
                }
                proof {
                    assert(prepended.subrange(0, prepended.len() as int) =~= prepended);
                    assert(spec_leaves_view(out_before) + (prepended + spec_blob_leaves(
                        t@.skip(i + 1),
                    )) =~= spec_leaves_view(out@) + spec_blob_leaves(t@.skip(i + 1)));
                }
            },
        }
        i = i + 1;
    }
    proof {
        assert(t@.skip(t@.len() as int) =~= Seq::<(Seq<char>, NodeView)>::empty());
        assert(spec_leaves_view(out@) + spec_blob_leaves(t@.skip(t@.len() as int))
            =~= spec_leaves_view(out@));
    }
}

/// The id of the blob at `path`, if a blob is there.
pub fn blob_id_at(t: &Tree, path: &Vec<String>) -> (r: Option<Id>)
    ensures
        match r {
            Some(id) => spec_blob_id_at(t@, path.deep_view()) == Some(id@),
            None => spec_blob_id_at(t@, path.deep_view()) is None,
        },
{
    match node_at(t, path) {
        Ok(Some(TreeNode::Blob { id, content: _ })) => Some(*id),
        _ => None,
    }
}

/// Entries yielded by walking the subtree at `base` of commit `k`: each
/// blob leaf with its relative path, content, content id, and the id and
/// message of the commit of its last change.
pub open spec fn spec_repo_walk(
    h: Seq<CommitView>,
    k: int,
    base: Seq<Seq<char>>,
) -> Seq<EntryView> {
    match spec_path_node(h[k].tree, base) {
        Some(NodeView::Dir { entries }) => spec_blob_leaves(entries).map_values(
            |le: (Seq<Seq<char>>, NodeView)|
                EntryView {
                    path: le.0,
                    content: spec_blob_content_of(le.1),
                    content_id: spec_blob_id_of(le.1),
                    last_change: h[spec_last_change(h, k, base + le.0)].id,
                    change_message: h[spec_last_change(h, k, base + le.0)].message,
                },
        ),
        _ => Seq::empty(),
    }
}

impl RepoHistory {
    /// Walks the subtree at `base` of commit `k`: every blob leaf under it,
    /// with the commit of its last change.  A blob standing on the base
    /// path fails; a missing base yields no entries.
    pub fn walk_at(&self, base: &Vec<String>, k: usize) -> (r: Result<
        Vec<ResourceRepoEntry>,
        TreeError,
    >)
        requires
            k < self@.len(),
        ensures
            match r {
                Ok(entries) => {
                    &&& !spec_descent_blocked(self@[k as int].tree, base.deep_view())
                    &&& entries.deep_view() == spec_repo_walk(self@, k as int, base.deep_view())
                },
                Err(e) => {
                    &&& e == TreeError::ExpectedDir
                    &&& spec_descent_blocked(self@[k as int].tree, base.deep_view())
                },
            },
    {
        let ghost h = self@;
        let ghost bv = base.deep_view();
        let tree = &self.commits[k].tree;
        let mut cur: &Tree = tree;
        let mut i: usize = 0;
        proof {
            assert(bv.skip(0) =~= bv);
        }
        let nseg = base.len();
        while i < nseg
            invariant
                k < h.len(),
                h == self@,
                bv == base.deep_view(),
                bv.len() == base@.len(),
                nseg == base@.len(),
                forall|j: int| 0 <= j < bv.len() ==> #[trigger] bv[j] == base@[j]@,
                i <= nseg,
                tree@ == h[k as int].tree,
                spec_path_node(tree@, bv) == spec_path_node(cur@, bv.skip(i as int)),
                spec_descent_blocked(tree@, bv) == spec_descent_blocked(cur@, bv.skip(i as int)),
            decreases nseg - i,
        {
            proof {
                assert(bv.skip(i as int)[0] == bv[i as int]);
                assert(bv.skip(i as int).drop_first() =~= bv.skip(i + 1));
            }
            match cur.lookup(base[i].as_str()) {
                Some(TreeNode::Dir { tree: sub }) => {
                    cur = sub;
                },
                Some(TreeNode::Blob { .. }) => {
                    return Err(TreeError::ExpectedDir);
                },
                None => {
                    let r: Vec<ResourceRepoEntry> = Vec::new();
                    proof {
                        assert(r.deep_view() =~= Seq::<EntryView>::empty());
                    }
                    return Ok(r);
                },
            }
            i = i + 1;
        }
        proof {
            assert(bv.skip(bv.len() as int) =~= Seq::<Seq<char>>::empty());
        }
        let mut leaves: Vec<(Vec<String>, TreeNode)> = Vec::new();
        collect_leaves(cur, &mut leaves);
        let ghost subleaves = spec_blob_leaves(cur@);
        proof {
            assert(spec_leaves_view(leaves@) =~= subleaves);
            lemma_blob_leaves_are_blobs(cur@);
        }
        let mut out: Vec<ResourceRepoEntry> = Vec::new();
        let mut x: usize = 0;
        let nleaves = leaves.len();
        while x < nleaves
            invariant
                k < h.len(),
                h == self@,
                nleaves == leaves@.len(),
                spec_leaves_view(leaves@) == subleaves,
                forall|y: int|
                    0 <= y < subleaves.len() ==> (#[trigger] subleaves[y]).1 matches NodeView::Blob {
                        ..
                    },
                x <= nleaves,
                bv == base.deep_view(),
                out@.len() == x,
                forall|y: int|
                    0 <= y < x ==> (#[trigger] out@[y])@ == (EntryView {
                        path: subleaves[y].0,
                        content: spec_blob_content_of(subleaves[y].1),
                        content_id: spec_blob_id_of(subleaves[y].1),
                        last_change: h[spec_last_change(h, k as int, bv + subleaves[y].0)].id,
                        change_message: h[spec_last_change(h, k as int, bv + subleaves[y].0)].message,
                    }),
            decreases nleaves - x,
        {
            proof {
                assert(subleaves[x as int] == (
                    leaves@[x as int].0.deep_view(),
                    leaves@[x as int].1@,
                ));
            }
            let rel = clone_path(&leaves[x].0);
            let mut full = clone_path(base);
            let mut rel2 = clone_path(&leaves[x].0);
            full.append(&mut rel2);
            proof {
                assert(full.deep_view() =~= bv + subleaves[x as int].0);
            }
            let (content_id, content) = match clone_node(&leaves[x].1) {
                TreeNode::Blob { id, content } => (id, content),
                TreeNode::Dir { .. } => {
                    proof {
                        assert(false);
                    }
                    unreached()
                },
            };
            let mut j: usize = k;
            let ghost fp = bv + subleaves[x as int].0;
            while j > 0
                invariant
                    k < h.len(),
                    h == self@,
                    j <= k,
                    full.deep_view() == fp,
                    spec_last_change(h, k as int, fp) == spec_last_change(h, j as int, fp),
                ensures
                    j <= k,
                    spec_last_change(h, k as int, fp) == j as int,
                decreases j,
            {
                let a = blob_id_at(&self.commits[j - 1].tree, &full);
                let b = blob_id_at(&self.commits[j].tree, &full);
                if !opt_id_eq(&a, &b) {
                    proof {
                        assert(spec_blob_id_at(h[j - 1].tree, fp) != spec_blob_id_at(
                            h[j as int].tree,
                            fp,
                        ));
                        assert(spec_last_change(h, j as int, fp) == j as int);
                    }
                    break ;
                }
                j = j - 1;
            }
            let entry = ResourceRepoEntry {
                path: rel,
                content,
                content_id,
                last_change: self.commits[j].id,
                change_message: self.commits[j].message.clone(),
            };
            proof {
                assert(entry@ == EntryView {
                    path: subleaves[x as int].0,
                    content: spec_blob_content_of(subleaves[x as int].1),
                    content_id: spec_blob_id_of(subleaves[x as int].1),
                    last_change: h[spec_last_change(h, k as int, fp)].id,
                    change_message: h[spec_last_change(h, k as int, fp)].message,
                });
            }
            out.push(entry);
            x = x + 1;
        }
        proof {
            assert(out.deep_view() =~= spec_repo_walk(h, k as int, bv));
        }
        Ok(out)
    }

    /// Walks the subtree at `base` of the head commit.
    pub fn walk(&self, base: &Vec<String>) -> (r: Result<Vec<ResourceRepoEntry>, TreeError>)
        requires
            self@.len() > 0,
        ensures
            match r {
                Ok(entries) => {
                    &&& !spec_descent_blocked(self@.last().tree, base.deep_view())
                    &&& entries.deep_view() == spec_repo_walk(
                        self@,
                        self@.len() - 1,
                        base.deep_view(),
                    )
                },
                Err(e) => {
                    &&& e == TreeError::ExpectedDir
                    &&& spec_descent_blocked(self@.last().tree, base.deep_view())
                },
            },
    {
        self.walk_at(base, self.commits.len() - 1)
    }
}

/// Whether two optional ids denote the same id.
pub fn opt_id_eq(a: &Option<Id>, b: &Option<Id>) -> (r: bool)
    ensures
        r == (match (a, b) {
            (Some(x), Some(y)) => x@ == y@,
            (None, None) => true,
            _ => false,
        }),
{
    match (a, b) {
        (Some(x), Some(y)) => x.eq(y),
        (None, None) => true,
        _ => false,
    }
}

/// Copies a path.
pub fn clone_path(p: &Vec<String>) -> (r: Vec<String>)
    ensures
        r.deep_view() == p.deep_view(),
{
    let mut out: Vec<String> = Vec::new();
    let mut i: usize = 0;
    while i < p.len()
        invariant
            i <= p@.len(),
            out@.len() == i,
            forall|j: int| 0 <= j < i ==> (#[trigger] out@[j])@ == p@[j]@,
        decreases p@.len() - i,
    {
        out.push(p[i].clone());
        i = i + 1;
    }
    proof {
        assert(out.deep_view() =~= p.deep_view());
    }
    out
}

} // verus!
