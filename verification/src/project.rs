//! Folding a full directory walk into an [`Entry`] tree, one tree per
//! tracked path.
//!
//! A walk visits entries in depth-first order, parents before their
//! contents, and reports each visited entry's depth below the walk's
//! starting point. The builder keeps a stack of the directories whose
//! contents are still arriving; a record at a shallower depth closes
//! the deeper directories, attaching each to its parent.

use vstd::prelude::*;

pub use crate::entry::Entry;
pub use crate::entry::EntryView;
use crate::entry::entry_view;
use crate::entry::seq_view;

verus! {

/// One record of a directory walk: the depth of the visited entry
/// below the walk's starting point, its name, and whether it is a
/// directory.
pub struct WalkItem {
    pub depth: usize,
    pub name: String,
    pub is_dir: bool,
}

/// Mathematical model of a walk record.
pub struct WalkItemView {
    pub depth: nat,
    pub name: Seq<char>,
    pub is_dir: bool,
}

impl View for WalkItem {
    type V = WalkItemView;

    open spec fn view(&self) -> WalkItemView {
        WalkItemView { depth: self.depth as nat, name: self.name@, is_dir: self.is_dir }
    }
}

impl DeepView for WalkItem {
    type V = WalkItemView;

    open spec fn deep_view(&self) -> WalkItemView {
        self.view()
    }
}

/// Error raised when a walk's record sequence cannot denote a tree.
#[derive(Clone, Copy, Debug, PartialEq, Eq, Structural)]
pub enum ScanError {
    /// A walk starts with a non-directory, revisits depth zero, or is
    /// empty.
    MalformedWalk,
    /// The number of walks handed over differs from the number of
    /// tracked paths.
    PathCountMismatch,
}

/// Appends a child to a directory model; a file, which cannot hold
/// children, is left unchanged.
pub open spec fn with_child(e: EntryView, c: EntryView) -> EntryView {
    match e {
        EntryView::Dir { name, children } => EntryView::Dir { name, children: children.push(c) },
        EntryView::File { .. } => e,
    }
}

/// Folds the stack's top entry into the entry below it.
pub open spec fn attach_top(stack: Seq<EntryView>) -> Seq<EntryView>
    recommends
        stack.len() >= 2,
{
    stack.subrange(0, stack.len() - 2).push(
        with_child(stack[stack.len() - 2], stack.last()),
    )
}

/// Closes directories until the stack is no deeper than `d`, folding
/// each closed directory into its parent. Closing the last open
/// directory would leave it without a parent to attach to: such a walk
/// is malformed.
pub open spec fn collapse(stack: Seq<EntryView>, d: nat) -> Option<Seq<EntryView>>
    decreases stack.len(),
{
    if stack.len() <= d {
        Some(stack)
    } else if stack.len() <= 1 {
        None
    } else {
        collapse(attach_top(stack), d)
    }
}

/// One walk record folded onto the stack of open directories: deeper
/// directories are closed down to the record's depth, then a directory
/// record opens a new level while a file record joins the deepest open
/// directory.
pub open spec fn walk_step(stack: Seq<EntryView>, item: WalkItemView) -> Option<Seq<EntryView>> {
    match collapse(stack, item.depth) {
        Some(st) => if item.is_dir {
            Some(st.push(EntryView::Dir { name: item.name, children: Seq::empty() }))
        } else if st.len() == 0 {
            None
        } else {
            Some(st.update(st.len() - 1, with_child(st.last(), EntryView::File { name: item.name })))
        },
        None => None,
    }
}

/// The stack of open directories after all records, folded in order.
pub open spec fn walk_fold(items: Seq<WalkItemView>) -> Option<Seq<EntryView>>
    decreases items.len(),
{
    if items.len() == 0 {
        Some(Seq::empty())
    } else {
        match walk_fold(items.drop_last()) {
            Some(st) => walk_step(st, items.last()),
            None => None,
        }
    }
}

/// The tree a full directory walk denotes: the records folded in
/// order, then the directories still open closed from the deepest up.
/// `None` when the walk is malformed: no record at all, a first record
/// that is not a directory, or a return to depth zero.
pub open spec fn spec_build(items: Seq<WalkItemView>) -> Option<EntryView> {
    match walk_fold(items) {
        Some(stack) => if stack.len() == 0 {
            None
        } else {
            match collapse(stack, 1) {
                Some(s) => Some(s[0]),
                None => None,
            }
        },
        None => None,
    }
}

/// A fold that has already failed on a prefix of the records fails on
/// the whole record sequence.
proof fn lemma_walk_fold_prefix_none(items: Seq<WalkItemView>, k: int)
    requires
        0 <= k <= items.len(),
        walk_fold(items.take(k)) is None,
    ensures
        walk_fold(items) is None,
    decreases items.len() - k,
{
    if k < items.len() {
        assert(items.take(k + 1).drop_last() =~= items.take(k));
        lemma_walk_fold_prefix_none(items, k + 1);
    } else {
        assert(items.take(k) =~= items);
    }
}

/// Folds the top of the exec stack into the entry below it, mirroring
/// `attach_top`. Callers guarantee at least two elements.
fn attach_top_exec(stack: &mut Vec<Entry>)
    requires
        old(stack)@.len() >= 2,
    ensures
        seq_view(final(stack)@) == attach_top(seq_view(old(stack)@)),
{
    let ghost st0 = seq_view(stack@);
    let top = stack.pop().unwrap();
    let mut parent = stack.pop().unwrap();
    let _ = parent.push_child(top);
    stack.push(parent);
    proof {
        assert(seq_view(stack@) =~= attach_top(st0));
    }
}

/// Folds one walk's records into a tree, mirroring `spec_build`; a
/// malformed walk yields `None`.
#[verifier::loop_isolation(false)]
pub fn build_tree(items: &Vec<WalkItem>) -> (r: Option<Entry>)
    ensures
        match r {
            Some(t) => spec_build(items.deep_view()) == Some(entry_view(t)),
            None => spec_build(items.deep_view()) is None,
        },
{
    let ghost iv = items.deep_view();
    let mut stack: Vec<Entry> = Vec::new();
    let n = items.len();
    let mut idx: usize = 0;
    proof {
        assert(iv.take(0) =~= Seq::<WalkItemView>::empty());
        assert(seq_view(stack@) =~= Seq::<EntryView>::empty());
    }
    while idx < n
        invariant
            idx <= n,
            walk_fold(iv.take(idx as int)) == Some(seq_view(stack@)),
        decreases n - idx,
    {
        let depth = items[idx].depth;
        let is_dir = items[idx].is_dir;
        let ghost st_in = seq_view(stack@);
        proof {
            assert(iv.take(idx + 1).drop_last() =~= iv.take(idx as int));
            assert(iv.take(idx + 1).last() == iv[idx as int]);
        }
        while stack.len() > depth
            invariant
                collapse(seq_view(stack@), depth as nat) == collapse(st_in, depth as nat),
            decreases stack@.len(),
        {
            if stack.len() == 1 {
                proof {
                    assert(collapse(seq_view(stack@), depth as nat) is None);
                    assert(walk_step(st_in, iv[idx as int]) is None);
                    assert(walk_fold(iv.take(idx + 1)) is None);
                    lemma_walk_fold_prefix_none(iv, idx + 1);
                }
                return None;
            }
            attach_top_exec(&mut stack);
        }
        if is_dir {
            let name = items[idx].name.clone();
            let ghost st_c = seq_view(stack@);
            stack.push(Entry::new_dir(name));
            proof {
                assert(seq_view(stack@) =~= st_c.push(
                    EntryView::Dir { name: iv[idx as int].name, children: Seq::empty() },
                ));
            }
        } else {
            if stack.is_empty() {
                proof {
                    assert(collapse(st_in, depth as nat) == Some(seq_view(stack@)));
                    assert(walk_step(st_in, iv[idx as int]) is None);
                    assert(walk_fold(iv.take(idx + 1)) is None);
                    lemma_walk_fold_prefix_none(iv, idx + 1);
                }
                return None;
            }
            let name = items[idx].name.clone();
            let ghost st_c = seq_view(stack@);
            let mut parent = stack.pop().unwrap();
            let _ = parent.push_child(Entry::new_file(name));
            stack.push(parent);
            proof {
                assert(seq_view(stack@) =~= st_c.update(
                    st_c.len() - 1,
                    with_child(st_c.last(), EntryView::File { name: iv[idx as int].name }),
                ));
            }
        }
        idx += 1;
    }
    proof {
        assert(iv.take(n as int) =~= iv);
    }
    if stack.is_empty() {
        return None;
    }
    let ghost st_fin = seq_view(stack@);
    while stack.len() > 1
        invariant
            stack@.len() >= 1,
            collapse(seq_view(stack@), 1) == collapse(st_fin, 1),
        decreases stack@.len(),
    {
        attach_top_exec(&mut stack);
    }
    let root = stack.pop().unwrap();
    proof {
        assert(collapse(seq_view(stack@.push(root)), 1) == Some(seq_view(stack@.push(root))));
        assert(seq_view(stack@.push(root))[0] == entry_view(root));
    }
    Some(root)
}

/// The trees of the tracked paths, rebuilt from full walks.
pub struct Project {
    pub paths: Vec<Vec<String>>,
    pub entries: Vec<Entry>,
}

impl Project {
    /// A project tracking `paths`, with no scan results yet.
    pub fn new(paths: Vec<Vec<String>>) -> (p: Project)
        ensures
            p.paths == paths,
            p.entries@.len() == 0,
    {
        Project { entries: Vec::new(), paths }
    }

    /// Replaces the scan results with the trees denoted by the walks,
    /// one walk per tracked path, in order. On failure the project is
    /// left unchanged.
    pub fn rescan(&mut self, walks: &Vec<Vec<WalkItem>>) -> (r: Result<(), ScanError>)
        ensures
            final(self).paths == old(self).paths,
            match r {
                Ok(()) => walks@.len() == old(self).paths@.len() && final(self).entries@.len()
                    == walks@.len() && (forall|i: int|
                    0 <= i < walks@.len() ==> spec_build(walks.deep_view()[i]) == Some(
                        entry_view(#[trigger] final(self).entries@[i]),
                    )),
                Err(ScanError::PathCountMismatch) => walks@.len() != old(self).paths@.len()
                    && *final(self) == *old(self),
                Err(ScanError::MalformedWalk) => (exists|i: int|
                    0 <= i < walks@.len() && spec_build(#[trigger] walks.deep_view()[i]) is None)
                    && *final(self) == *old(self),
            },
    {
        if walks.len() != self.paths.len() {
            return Err(ScanError::PathCountMismatch);
        }
        let mut built: Vec<Entry> = Vec::new();
        let n = walks.len();
        let mut i: usize = 0;
        while i < n
            invariant
                i <= n,
                n == walks@.len(),
                built@.len() == i,
                forall|k: int|
                    0 <= k < i ==> spec_build(walks.deep_view()[k]) == Some(
                        entry_view(#[trigger] built@[k]),
                    ),
            decreases n - i,
        {
            proof {
                assert(walks.deep_view()[i as int] == walks@[i as int].deep_view());
            }
            match build_tree(&walks[i]) {
                Some(t) => built.push(t),
                None => {
                    return Err(ScanError::MalformedWalk);
                },
            }
            i += 1;
        }
        self.entries = built;
        Ok(())
    }
}

} // verus!
