//! A functional cursor over a tree: descend into named subtrees, edit the
//! focused subtree, and ascend, rebuilding each parent on the way back up.

use vstd::prelude::*;

use crate::tree::{
    clone_tree, spec_insert, spec_lookup, spec_remove, NodeView, Tree, TreeError, TreeNode,
    TreeView,
};

verus! {

/// A cursor over a tree.  `current` is the focused subtree (`None` after
/// descending into a name that does not exist); the stack holds each parent
/// together with the name that was descended into.
pub struct TreeZipper {
    current: Option<Tree>,
    stack: Vec<(Option<Tree>, String)>,
}

/// The focused subtree, if any, as a view.
pub open spec fn spec_opt_tree_view(t: Option<Tree>) -> Option<TreeView> {
    match t {
        Some(tree) => Some(tree@),
        None => None,
    }
}

/// The subtree focused after descending from `c` into `name`: the named
/// subtree's entries, or `None` where nothing (or no focus) is there.
/// Descending into a blob is not described here; it fails instead.
pub open spec fn spec_descend_cur(c: Option<TreeView>, name: Seq<char>) -> Option<TreeView> {
    match c {
        Some(t) => match spec_lookup(t, name) {
            Some(NodeView::Dir { entries }) => Some(entries),
            _ => None,
        },
        None => None,
    }
}

/// Whether descending from `c` into `name` fails: only a blob in the way
/// does that.
pub open spec fn spec_descend_fails(c: Option<TreeView>, name: Seq<char>) -> bool {
    match c {
        Some(t) => spec_lookup(t, name) matches Some(NodeView::Blob { .. }),
        None => false,
    }
}

/// One step of ascending: the child (possibly created, possibly pruned) is
/// put back under `name` in the parent.
pub open spec fn spec_ascend_step(
    parent: Option<TreeView>,
    name: Seq<char>,
    child: Option<TreeView>,
) -> Option<TreeView> {
    match (parent, child) {
        (Some(p), Some(c)) => Some(spec_insert(p, name, NodeView::Dir { entries: c })),
        (Some(p), None) => Some(spec_remove(p, name)),
        (None, Some(c)) => Some(
            spec_insert(Seq::empty(), name, NodeView::Dir { entries: c }),
        ),
        (None, None) => None,
    }
}

/// Descending into a name and ascending straight back, with no edit in
/// between, leaves the tree as it was.
pub proof fn lemma_descend_ascend_roundtrip(t: TreeView, name: Seq<char>)
    requires
        !spec_descend_fails(Some(t), name),
    ensures
        spec_ascend_step(Some(t), name, spec_descend_cur(Some(t), name)) == Some(t),
{
    match spec_lookup(t, name) {
        Some(n) => {
            crate::tree::lemma_insert_lookup_identity(t, name, n);
        },
        None => {
            crate::tree::lemma_remove_absent_identity(t, name);
        },
    }
}

impl TreeZipper {
    /// The focused subtree's view.
    pub closed spec fn cur(self) -> Option<TreeView> {
        spec_opt_tree_view(self.current)
    }

    /// The stack of parents and descended names, bottom first.
    pub closed spec fn frames(self) -> Seq<(Option<TreeView>, Seq<char>)> {
        Seq::new(
            self.stack@.len(),
            |i: int| (spec_opt_tree_view(self.stack@[i].0), self.stack@[i].1@),
        )
    }

    /// A cursor focused on `tree`, at the root.
    pub fn from(tree: Tree) -> (r: TreeZipper)
        ensures
            r.cur() == Some(tree@),
            r.frames().len() == 0,
    {
        let r = TreeZipper { current: Some(tree), stack: Vec::new() };
        proof {
            assert(r.frames() =~= Seq::<(Option<TreeView>, Seq<char>)>::empty());
        }
        r
    }

    /// A cursor with nothing in focus, at the root.
    pub fn new() -> (r: TreeZipper)
        ensures
            r.cur() is None,
            r.frames().len() == 0,
    {
        let r = TreeZipper { current: None, stack: Vec::new() };
        proof {
            assert(r.frames() =~= Seq::<(Option<TreeView>, Seq<char>)>::empty());
        }
        r
    }

    /// Whether something is in focus.
    pub fn is_present(&self) -> (r: bool)
        ensures
            r == (self.cur() is Some),
    {
        self.current.is_some()
    }

    /// Whether the cursor is at the root.
    pub fn is_root(&self) -> (r: bool)
        ensures
            r == (self.frames().len() == 0),
    {
        proof {
            assert(self.frames().len() == self.stack@.len());
        }
        self.stack.is_empty()
    }

    /// Gives the focused subtree up.
    pub fn into_inner(self) -> (r: Option<Tree>)
        ensures
            self.cur() == spec_opt_tree_view(r),
    {
        self.current
    }

    /// Moves the focus into the entry `name` of the focused subtree.  The
    /// focus becomes empty when the entry does not exist; a blob in the way
    /// fails and leaves the cursor unchanged.
    pub fn descend(&mut self, name: &str) -> (r: Result<(), TreeError>)
        ensures
            match r {
                Ok(_) => {
                    &&& !spec_descend_fails(old(self).cur(), name@)
                    &&& final(self).cur() == spec_descend_cur(old(self).cur(), name@)
                    &&& final(self).frames() == old(self).frames().push(
                        (old(self).cur(), name@),
                    )
                },
                Err(e) => {
                    &&& e == TreeError::ExpectedDir
                    &&& spec_descend_fails(old(self).cur(), name@)
                    &&& *final(self) == *old(self)
                },
            },
    {
        let next: Option<Tree> = match &self.current {
            Some(t) => match t.lookup(name) {
                Some(TreeNode::Dir { tree }) => Some(clone_tree(tree)),
                Some(TreeNode::Blob { .. }) => {
                    return Err(TreeError::ExpectedDir);
                },
                None => None,
            },
            None => None,
        };
        let old_cur = self.current.take();
        self.stack.push((old_cur, name.to_owned()));
        self.current = next;
        proof {
            assert(final(self).frames() =~= old(self).frames().push((old(self).cur(), name@)));
        }
        Ok(())
    }

    /// Moves the focus back to the parent, rebuilding it: the edited child
    /// is bound under the descended name, or removed when the focus was
    /// empty.  The cursor must not be at the root.
    pub fn ascend(&mut self)
        requires
            old(self).frames().len() > 0,
        ensures
            final(self).cur() == spec_ascend_step(
                old(self).frames().last().0,
                old(self).frames().last().1,
                old(self).cur(),
            ),
            final(self).frames() == old(self).frames().drop_last(),
    {
        let child = self.current.take();
        let frame = match self.stack.pop() {
            Some(f) => f,
            None => {
                proof {
                    assert(false);
                }
                unreached()
            },
        };
        let (parent, name) = frame;
        match (parent, child) {
            (Some(mut p), Some(c)) => {
                p.insert(name, TreeNode::Dir { tree: c });
                self.current = Some(p);
            },
            (Some(mut p), None) => {
                p.remove(name.as_str());
                self.current = Some(p);
            },
            (None, Some(c)) => {
                let mut p = Tree::empty();
                p.insert(name, TreeNode::Dir { tree: c });
                self.current = Some(p);
            },
            (None, None) => {
                self.current = None;
            },
        }
        proof {
            assert(final(self).frames() =~= old(self).frames().drop_last());
        }
    }

    /// The blob entry `name` of the focused subtree: `None` where the focus
    /// is empty or the entry missing; a subtree in the way fails.
    pub fn get_blob<'a>(&'a self, name: &str) -> (r: Result<Option<&'a TreeNode>, TreeError>)
        ensures
            match r {
                Ok(Some(n)) => {
                    &&& n@ matches NodeView::Blob { .. }
                    &&& self.cur() matches Some(t) && spec_lookup(t, name@) == Some(n@)
                },
                Ok(None) => match self.cur() {
                    Some(t) => spec_lookup(t, name@) is None,
                    None => true,
                },
                Err(e) => {
                    &&& e == TreeError::ExpectedBlob
                    &&& self.cur() matches Some(t) && spec_lookup(t, name@) matches Some(
                        NodeView::Dir { .. },
                    )
                },
            },
    {
        let t = match &self.current {
            Some(t) => t,
            None => {
                return Ok(None);
            },
        };
        match t.lookup(name) {
            Some(n) => match n {
                TreeNode::Blob { .. } => Ok(Some(n)),
                TreeNode::Dir { .. } => Err(TreeError::ExpectedBlob),
            },
            None => Ok(None),
        }
    }

    /// Rebuilds the focused subtree, binding `name` to `node`; an empty
    /// focus is treated as an empty subtree being created.
    pub fn rebuild_insert(&mut self, name: String, node: TreeNode)
        ensures
            final(self).cur() == Some(
                spec_insert(
                    match old(self).cur() {
                        Some(t) => t,
                        None => Seq::empty(),
                    },
                    name@,
                    node@,
                ),
            ),
            final(self).frames() == old(self).frames(),
    {
        let mut t = match self.current.take() {
            Some(t) => t,
            None => Tree::empty(),
        };
        t.insert(name, node);
        self.current = Some(t);
    }

    /// Rebuilds the focused subtree, removing the binding of `name`.
    pub fn rebuild_remove(&mut self, name: &str)
        ensures
            final(self).cur() == Some(
                spec_remove(
                    match old(self).cur() {
                        Some(t) => t,
                        None => Seq::empty(),
                    },
                    name@,
                ),
            ),
            final(self).frames() == old(self).frames(),
    {
        let mut t = match self.current.take() {
            Some(t) => t,
            None => Tree::empty(),
        };
        t.remove(name);
        self.current = Some(t);
    }

    /// Replaces the focused subtree outright.
    pub fn replace(&mut self, tree: Tree)
        ensures
            final(self).cur() == Some(tree@),
            final(self).frames() == old(self).frames(),
    {
        self.current = Some(tree);
    }
}

} // verus!
