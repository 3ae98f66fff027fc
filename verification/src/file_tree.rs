//! The path-addressed mutation engine: a tree that mirrors a directory
//! subtree and is updated in place by insert-or-replace and delete
//! events addressed by component paths.

use vstd::prelude::*;

pub use crate::entry::Entry;
pub use crate::entry::EntryView;
use crate::entry::entry_view;
use crate::entry::first_match;
use crate::entry::lemma_entry_view_children;
use crate::entry::lemma_first_match;
use crate::entry::seq_view;

verus! {

/// Error raised when a tree is constructed from a root path with no
/// usable final component.
#[derive(Clone, Copy, Debug, PartialEq, Eq, Structural)]
pub enum Error {
    NoDirectoryName,
}

impl Error {
    /// The diagnostic text of the construction failure.
    pub fn description(&self) -> (s: String)
        ensures
            s@ == "Root directories cannot end in '..'"@,
    {
        "Root directories cannot end in '..'".to_owned()
    }
}

/// Error raised when a mutation's path does not resolve in the current
/// tree. The event carrying the path is dropped; the tree is left
/// unchanged.
#[derive(Clone, Copy, Debug, PartialEq, Eq, Structural)]
pub enum MutationError {
    /// A path component is missing where an entry was required.
    PathNotFound,
    /// A non-final path component resolved to a file, which cannot be
    /// descended into.
    InvalidIntermediate,
}

/// What insert-or-replace at a component path does to a tree.
///
/// An empty path replaces the whole node. Otherwise the first
/// component is looked up among the children of the current directory:
/// a found final component is replaced, an absent final component is
/// inserted, and a found intermediate component is descended into.
/// A missing intermediate component is `PathNotFound`; descending into
/// a file is `InvalidIntermediate`.
pub open spec fn spec_upsert(e: EntryView, path: Seq<Seq<char>>, new: EntryView) -> Result<
    EntryView,
    MutationError,
>
    decreases path.len(),
{
    if path.len() == 0 {
        Ok(new)
    } else {
        match e {
            EntryView::File { .. } => Err(MutationError::InvalidIntermediate),
            EntryView::Dir { name, children } => match first_match(children, path[0]) {
                Some(j) => if path.len() == 1 {
                    Ok(EntryView::Dir { name, children: children.update(j, new) })
                } else {
                    match spec_upsert(children[j], path.drop_first(), new) {
                        Ok(c) => Ok(EntryView::Dir { name, children: children.update(j, c) }),
                        Err(er) => Err(er),
                    }
                },
                None => if path.len() == 1 {
                    Ok(EntryView::Dir { name, children: children.push(new) })
                } else {
                    Err(MutationError::PathNotFound)
                },
            },
        }
    }
}

/// What delete at a component path does to a tree.
///
/// The path's parent chain is resolved exactly as for an upsert; the
/// final component is then removed from its parent directory. A final
/// component that is not present is `PathNotFound`, as is an empty
/// path, which names no entry at all.
pub open spec fn spec_delete(e: EntryView, path: Seq<Seq<char>>) -> Result<
    EntryView,
    MutationError,
>
    decreases path.len(),
{
    if path.len() == 0 {
        Err(MutationError::PathNotFound)
    } else {
        match e {
            EntryView::File { .. } => Err(MutationError::InvalidIntermediate),
            EntryView::Dir { name, children } => match first_match(children, path[0]) {
                Some(j) => if path.len() == 1 {
                    Ok(EntryView::Dir { name, children: children.remove(j) })
                } else {
                    match spec_delete(children[j], path.drop_first()) {
                        Ok(c) => Ok(EntryView::Dir { name, children: children.update(j, c) }),
                        Err(er) => Err(er),
                    }
                },
                None => Err(MutationError::PathNotFound),
            },
        }
    }
}

/// What one change event does to a tree: an event carrying an entry is
/// an insert-or-replace, an event carrying none is a delete.
pub open spec fn spec_apply_event(
    e: EntryView,
    path: Seq<Seq<char>>,
    event: Option<EntryView>,
) -> Result<EntryView, MutationError> {
    match event {
        Some(new) => spec_upsert(e, path, new),
        None => spec_delete(e, path),
    }
}

/// Index of the first child of `children` named `name`, as
/// `first_match` over the children's views.
fn find_child(children: &Vec<Entry>, name: &String) -> (r: Option<usize>)
    ensures
        match r {
            Some(j) => (j as int) < children@.len() && first_match(seq_view(children@), name@)
                == Some(j as int),
            None => first_match(seq_view(children@), name@) is None,
        },
{
    let ghost cv = seq_view(children@);
    let n = children.len();
    let mut k: usize = 0;
    while k < n
        invariant
            k <= n,
            n == children@.len(),
            cv == seq_view(children@),
            forall|l: int| 0 <= l < k ==> cv[l].name() != name@,
        decreases n - k,
    {
        if children[k].name().eq(name) {
            proof {
                assert(cv[k as int].name() == name@);
                lemma_first_match(cv, name@);
            }
            return Some(k);
        }
        k += 1;
    }
    proof {
        lemma_first_match(cv, name@);
    }
    None
}

/// Applies `spec_upsert` of the path's components from position `i` on
/// to the node `e`, handing back the rewritten node; on failure the
/// node comes back unchanged.
fn upsert_rec(e: Entry, path: &Vec<String>, i: usize, new_entry: Entry) -> (res: (
    Entry,
    Result<(), MutationError>,
))
    requires
        i <= path@.len(),
    ensures
        ({
            let (e2, r) = res;
            match spec_upsert(
                entry_view(e),
                path.deep_view().skip(i as int),
                entry_view(new_entry),
            ) {
                Ok(v) => r == Ok::<(), MutationError>(()) && entry_view(e2) == v,
                Err(er) => r == Err::<(), MutationError>(er) && entry_view(e2) == entry_view(e),
            }
        }),
    decreases path@.len() - i,
{
    let ghost e0 = entry_view(e);
    let ghost full = path.deep_view();
    let ghost p = full.skip(i as int);
    let ghost new_v = entry_view(new_entry);

    if i == path.len() {
        return (new_entry, Ok(()));
    }
    proof {
        assert(p[0] == full[i as int]);
        assert(full[i as int] == path@[i as int]@);
    }
    match e {
        Entry::File { name } => (Entry::File { name }, Err(MutationError::InvalidIntermediate)),
        Entry::Dir { name, mut children } => {
            proof {
                lemma_entry_view_children(Entry::Dir { name, children });
            }
            let ghost cv0 = seq_view(children@);
            let ghost name0 = name@;
            match find_child(&children, &path[i]) {
                Some(j) => {
                    if i + 1 == path.len() {
                        proof {
                            lemma_first_match(cv0, p[0]);
                        }
                        let _replaced = children.remove(j);
                        children.insert(j, new_entry);
                        proof {
                            assert(seq_view(children@) =~= cv0.update(j as int, new_v));
                        }
                        let out = Entry::Dir { name, children };
                        proof {
                            lemma_entry_view_children(out);
                            assert(entry_view(out) =~= EntryView::Dir {
                                name: name0,
                                children: cv0.update(j as int, new_v),
                            });
                        }
                        (out, Ok(()))
                    } else {
                        proof {
                            lemma_first_match(cv0, p[0]);
                        }
                        let child = children.remove(j);
                        let ghost child_v = entry_view(child);
                        let (child2, r) = upsert_rec(child, path, i + 1, new_entry);
                        children.insert(j, child2);
                        proof {
                            assert(p.drop_first() =~= full.skip(i + 1));
                            assert(child_v == cv0[j as int]);
                            assert(seq_view(children@) =~= cv0.update(
                                j as int,
                                entry_view(child2),
                            ));
                        }
                        let out = Entry::Dir { name, children };
                        proof {
                            lemma_entry_view_children(out);
                            match spec_upsert(child_v, p.drop_first(), new_v) {
                                Ok(c) => {
                                    assert(entry_view(out) =~= EntryView::Dir {
                                        name: name0,
                                        children: cv0.update(j as int, c),
                                    });
                                },
                                Err(er) => {
                                    assert(seq_view(children@) =~= cv0);
                                    assert(entry_view(out) =~= e0);
                                },
                            }
                        }
                        (out, r)
                    }
                },
                None => {
                    if i + 1 == path.len() {
                        children.push(new_entry);
                        proof {
                            assert(seq_view(children@) =~= cv0.push(new_v));
                        }
                        let out = Entry::Dir { name, children };
                        proof {
                            lemma_entry_view_children(out);
                            assert(entry_view(out) =~= EntryView::Dir {
                                name: name0,
                                children: cv0.push(new_v),
                            });
                        }
                        (out, Ok(()))
                    } else {
                        let out = Entry::Dir { name, children };
                        proof {
                            lemma_entry_view_children(out);
                            assert(entry_view(out) =~= e0);
                        }
                        (out, Err(MutationError::PathNotFound))
                    }
                },
            }
        },
    }
}

/// Applies `spec_delete` of the path's components from position `i` on
/// to the node `e`, handing back the rewritten node; on failure the
/// node comes back unchanged.
fn delete_rec(e: Entry, path: &Vec<String>, i: usize) -> (res: (
    Entry,
    Result<(), MutationError>,
))
    requires
        i < path@.len(),
    ensures
        ({
            let (e2, r) = res;
            match spec_delete(entry_view(e), path.deep_view().skip(i as int)) {
                Ok(v) => r == Ok::<(), MutationError>(()) && entry_view(e2) == v,
                Err(er) => r == Err::<(), MutationError>(er) && entry_view(e2) == entry_view(e),
            }
        }),
    decreases path@.len() - i,
{
    let ghost e0 = entry_view(e);
    let ghost full = path.deep_view();
    let ghost p = full.skip(i as int);
    let n = path.len();

    proof {
        assert(p[0] == full[i as int]);
        assert(full[i as int] == path@[i as int]@);
    }
    match e {
        Entry::File { name } => (Entry::File { name }, Err(MutationError::InvalidIntermediate)),
        Entry::Dir { name, mut children } => {
            proof {
                lemma_entry_view_children(Entry::Dir { name, children });
            }
            let ghost cv0 = seq_view(children@);
            let ghost name0 = name@;
            match find_child(&children, &path[i]) {
                Some(j) => {
                    if i + 1 == n {
                        proof {
                            lemma_first_match(cv0, p[0]);
                        }
                        let _removed = children.remove(j);
                        proof {
                            assert(seq_view(children@) =~= cv0.remove(j as int));
                        }
                        let out = Entry::Dir { name, children };
                        proof {
                            lemma_entry_view_children(out);
                            assert(entry_view(out) =~= EntryView::Dir {
                                name: name0,
                                children: cv0.remove(j as int),
                            });
                        }
                        (out, Ok(()))
                    } else {
                        proof {
                            lemma_first_match(cv0, p[0]);
                        }
                        let child = children.remove(j);
                        let ghost child_v = entry_view(child);
                        let (child2, r) = delete_rec(child, path, i + 1);
                        children.insert(j, child2);
                        proof {
                            assert(p.drop_first() =~= full.skip(i + 1));
                            assert(child_v == cv0[j as int]);
                            assert(seq_view(children@) =~= cv0.update(
                                j as int,
                                entry_view(child2),
                            ));
                        }
                        let out = Entry::Dir { name, children };
                        proof {
                            lemma_entry_view_children(out);
                            match spec_delete(child_v, p.drop_first()) {
                                Ok(c) => {
                                    assert(entry_view(out) =~= EntryView::Dir {
                                        name: name0,
                                        children: cv0.update(j as int, c),
                                    });
                                },
                                Err(er) => {
                                    assert(seq_view(children@) =~= cv0);
                                    assert(entry_view(out) =~= e0);
                                },
                            }
                        }
                        (out, r)
                    }
                },
                None => {
                    let out = Entry::Dir { name, children };
                    proof {
                        lemma_entry_view_children(out);
                        assert(entry_view(out) =~= e0);
                    }
                    (out, Err(MutationError::PathNotFound))
                },
            }
        },
    }
}

/// A path component that can name a tree root: non-empty and not one
/// of the relative steps `.` and `..`, from which no entry name can be
/// extracted.
pub open spec fn is_usable_component(s: Seq<char>) -> bool {
    s.len() > 0 && s != "."@ && s != ".."@
}

/// Decides `is_usable_component`.
fn usable_component(s: &String) -> (b: bool)
    ensures
        b == is_usable_component(s@),
{
    let dot: String = ".".to_owned();
    let dotdot: String = "..".to_owned();
    !s.as_str().is_empty() && !s.eq(&dot) && !s.eq(&dotdot)
}

/// The mutable mirror of a directory subtree: the root entry, always
/// created as a directory, and the components of the path it mirrors.
#[derive(Debug)]
pub struct FileTree {
    pub root: Entry,
    pub path: Vec<String>,
}

impl FileTree {
    /// The model of the tree's root entry.
    pub open spec fn root_view(self) -> EntryView {
        entry_view(self.root)
    }

    /// Creates the mirror of the subtree rooted at `path`, given as a
    /// sequence of components: an empty directory named after the
    /// final component. Fails with `NoDirectoryName` when no final
    /// component is usable as a name.
    pub fn new(path: Vec<String>) -> (r: Result<FileTree, Error>)
        ensures
            match r {
                Ok(t) => path@.len() > 0 && is_usable_component(path.deep_view().last())
                    && t.path == path && t.root_view() == (EntryView::Dir {
                    name: path.deep_view().last(),
                    children: Seq::<EntryView>::empty(),
                }),
                Err(e) => e == Error::NoDirectoryName && (path@.len() == 0
                    || !is_usable_component(path.deep_view().last())),
            },
    {
        if path.len() == 0 {
            return Err(Error::NoDirectoryName);
        }
        let last = &path[path.len() - 1];
        if !usable_component(last) {
            return Err(Error::NoDirectoryName);
        }
        let name = last.clone();
        let root = Entry::new_dir(name);
        Ok(FileTree { root, path })
    }

    /// Insert-or-replace of the entry addressed by `path`, relative to
    /// the root. On failure the tree is left unchanged and the error
    /// says which condition stopped the descent.
    pub fn apply_upsert(&mut self, path: &Vec<String>, new_entry: Entry) -> (r: Result<
        (),
        MutationError,
    >)
        ensures
            final(self).path == old(self).path,
            match spec_upsert(
                old(self).root_view(),
                path.deep_view(),
                entry_view(new_entry),
            ) {
                Ok(v) => r == Ok::<(), MutationError>(()) && final(self).root_view() == v,
                Err(er) => r == Err::<(), MutationError>(er) && final(self).root_view() == old(
                    self,
                ).root_view(),
            },
    {
        proof {
            assert(path.deep_view().skip(0) =~= path.deep_view());
        }
        let mut root: Entry = Entry::File { name: String::new() };
        core::mem::swap(&mut root, &mut self.root);
        let (root2, r) = upsert_rec(root, path, 0, new_entry);
        self.root = root2;
        r
    }

    /// Removes the entry addressed by `path` from its parent
    /// directory. On failure the tree is left unchanged and the error
    /// says which condition stopped the descent.
    pub fn apply_delete(&mut self, path: &Vec<String>) -> (r: Result<(), MutationError>)
        ensures
            final(self).path == old(self).path,
            match spec_delete(old(self).root_view(), path.deep_view()) {
                Ok(v) => r == Ok::<(), MutationError>(()) && final(self).root_view() == v,
                Err(er) => r == Err::<(), MutationError>(er) && final(self).root_view() == old(
                    self,
                ).root_view(),
            },
    {
        if path.len() == 0 {
            return Err(MutationError::PathNotFound);
        }
        proof {
            assert(path.deep_view().skip(0) =~= path.deep_view());
        }
        let mut root: Entry = Entry::File { name: String::new() };
        core::mem::swap(&mut root, &mut self.root);
        let (root2, r) = delete_rec(root, path, 0);
        self.root = root2;
        r
    }

    /// One step of the synchronization driver: applies a single change
    /// event, an insert-or-replace when the event carries an entry and
    /// a delete when it carries none. A failure leaves the tree
    /// unchanged, so the driver can report it and go on with the next
    /// event.
    pub fn apply_event(&mut self, path: &Vec<String>, event: Option<Entry>) -> (r: Result<
        (),
        MutationError,
    >)
        ensures
            final(self).path == old(self).path,
            match spec_apply_event(
                old(self).root_view(),
                path.deep_view(),
                event.deep_view(),
            ) {
                Ok(v) => r == Ok::<(), MutationError>(()) && final(self).root_view() == v,
                Err(er) => r == Err::<(), MutationError>(er) && final(self).root_view() == old(
                    self,
                ).root_view(),
            },
    {
        match event {
            Some(new_entry) => self.apply_upsert(path, new_entry),
            None => self.apply_delete(path),
        }
    }
}

/// Replacing at the root: an insert-or-replace with an empty path
/// replaces the entire tree with the given entry, whatever the tree
/// held before.
pub proof fn lemma_upsert_empty_path_replaces_root(e: EntryView, new: EntryView)
    ensures
        spec_upsert(e, Seq::empty(), new) == Ok::<EntryView, MutationError>(new),
{
}

/// On success with a non-empty path, an insert-or-replace rewrites the
/// node in place: the node was a directory and stays one, under the
/// same name.
pub proof fn lemma_upsert_keeps_frame(e: EntryView, path: Seq<Seq<char>>, new: EntryView)
    requires
        path.len() > 0,
        spec_upsert(e, path, new) is Ok,
    ensures
        e is Dir,
        spec_upsert(e, path, new)->Ok_0 is Dir,
        spec_upsert(e, path, new)->Ok_0.name() == e.name(),
{
}

/// On success, a delete rewrites the node in place: the node was a
/// directory and stays one, under the same name.
pub proof fn lemma_delete_keeps_frame(e: EntryView, path: Seq<Seq<char>>)
    requires
        spec_delete(e, path) is Ok,
    ensures
        path.len() > 0,
        e is Dir,
        spec_delete(e, path)->Ok_0 is Dir,
        spec_delete(e, path)->Ok_0.name() == e.name(),
{
}

/// An insert-or-replace preserves well-formedness of the whole tree,
/// provided the inserted entry is itself well-formed and is named
/// after the path's final component, so that it cannot collide with a
/// sibling's name.
pub proof fn lemma_upsert_preserves_wf(e: EntryView, path: Seq<Seq<char>>, new: EntryView)
    requires
        e.wf(),
        new.wf(),
        path.len() > 0 ==> new.name() == path.last(),
        spec_upsert(e, path, new) is Ok,
    ensures
        spec_upsert(e, path, new)->Ok_0.wf(),
    decreases path.len(),
{
    if path.len() > 0 {
        match e {
            EntryView::File { .. } => {},
            EntryView::Dir { name, children } => {
                lemma_first_match(children, path[0]);
                match first_match(children, path[0]) {
                    Some(j) => {
                        if path.len() == 1 {
                            let c2 = children.update(j, new);
                            assert(children[j].name() == path[0]);
                            assert(new.name() == children[j].name());
                            assert forall|p: int, q: int| 0 <= p < q < c2.len() implies c2[p].name() != c2[q].name() by {
                                assert(children[p].name() != children[q].name());
                            }
                            assert forall|k: int| 0 <= k < c2.len() implies c2[k].wf() by {
                                assert(children[k].wf());
                            }
                        } else {
                            let rest = path.drop_first();
                            assert(rest.last() == path.last());
                            assert(children[j].wf());
                            lemma_upsert_keeps_frame(children[j], rest, new);
                            lemma_upsert_preserves_wf(children[j], rest, new);
                            let c = spec_upsert(children[j], rest, new)->Ok_0;
                            let c2 = children.update(j, c);
                            assert forall|p: int, q: int| 0 <= p < q < c2.len() implies c2[p].name() != c2[q].name() by {
                                assert(children[p].name() != children[q].name());
                            }
                            assert forall|k: int| 0 <= k < c2.len() implies c2[k].wf() by {
                                assert(children[k].wf());
                            }
                        }
                    },
                    None => {
                        if path.len() == 1 {
                            let c2 = children.push(new);
                            assert forall|p: int, q: int| 0 <= p < q < c2.len() implies c2[p].name() != c2[q].name() by {
                                if q < children.len() {
                                    assert(children[p].name() != children[q].name());
                                } else {
                                    assert(children[p].name() != path[0]);
                                }
                            }
                            assert forall|k: int| 0 <= k < c2.len() implies c2[k].wf() by {
                                if k < children.len() {
                                    assert(children[k].wf());
                                }
                            }
                        }
                    },
                }
            },
        }
    }
}

/// A delete preserves well-formedness of the whole tree.
pub proof fn lemma_delete_preserves_wf(e: EntryView, path: Seq<Seq<char>>)
    requires
        e.wf(),
        spec_delete(e, path) is Ok,
    ensures
        spec_delete(e, path)->Ok_0.wf(),
    decreases path.len(),
{
    if path.len() > 0 {
        match e {
            EntryView::File { .. } => {},
            EntryView::Dir { name, children } => {
                lemma_first_match(children, path[0]);
                match first_match(children, path[0]) {
                    Some(j) => {
                        if path.len() == 1 {
                            let c2 = children.remove(j);
                            assert forall|p: int, q: int| 0 <= p < q < c2.len() implies c2[p].name() != c2[q].name() by {
                                let p0: int = if p < j { p } else { p + 1 };
                                let q0: int = if q < j { q } else { q + 1 };
                                assert(c2[p] == children[p0]);
                                assert(c2[q] == children[q0]);
                                assert(children[p0].name() != children[q0].name());
                            }
                            assert forall|k: int| 0 <= k < c2.len() implies c2[k].wf() by {
                                let k0: int = if k < j { k } else { k + 1 };
                                assert(c2[k] == children[k0]);
                                assert(children[k0].wf());
                            }
                        } else {
                            let rest = path.drop_first();
                            assert(children[j].wf());
                            lemma_delete_keeps_frame(children[j], rest);
                            lemma_delete_preserves_wf(children[j], rest);
                            let c = spec_delete(children[j], rest)->Ok_0;
                            let c2 = children.update(j, c);
                            assert forall|p: int, q: int| 0 <= p < q < c2.len() implies c2[p].name() != c2[q].name() by {
                                assert(children[p].name() != children[q].name());
                            }
                            assert forall|k: int| 0 <= k < c2.len() implies c2[k].wf() by {
                                assert(children[k].wf());
                            }
                        }
                    },
                    None => {},
                }
            },
        }
    }
}

/// One driver step preserves well-formedness: applied to a well-formed
/// tree, an event that succeeds leaves a well-formed tree, provided an
/// inserted entry is well-formed and named after the path's final
/// component; an event that fails leaves the tree unchanged. By
/// induction, after every event of a stream every directory still has
/// children with pairwise-distinct names.
pub proof fn lemma_event_preserves_wf(
    e: EntryView,
    path: Seq<Seq<char>>,
    event: Option<EntryView>,
)
    requires
        e.wf(),
        event matches Some(n) ==> n.wf() && (path.len() > 0 ==> n.name() == path.last()),
        spec_apply_event(e, path, event) is Ok,
    ensures
        spec_apply_event(e, path, event)->Ok_0.wf(),
{
    match event {
        Some(n) => lemma_upsert_preserves_wf(e, path, n),
        None => lemma_delete_preserves_wf(e, path),
    }
}

/// A whole event stream folded over a tree with the driver's
/// semantics: events applied strictly in order, an event that fails
/// dropped, the tree carried on unchanged to the next event.
pub open spec fn spec_run_events(
    e: EntryView,
    events: Seq<(Seq<Seq<char>>, Option<EntryView>)>,
) -> EntryView
    decreases events.len(),
{
    if events.len() == 0 {
        e
    } else {
        let prev = spec_run_events(e, events.drop_last());
        match spec_apply_event(prev, events.last().0, events.last().1) {
            Ok(v) => v,
            Err(_) => prev,
        }
    }
}

/// After every event of a stream applied in order to a well-formed
/// tree, every directory still has children with pairwise-distinct
/// names, provided each inserted entry is well-formed and named after
/// its path's final component. Failed events are dropped and change
/// nothing, so they preserve the invariant trivially.
pub proof fn lemma_event_stream_preserves_wf(
    e: EntryView,
    events: Seq<(Seq<Seq<char>>, Option<EntryView>)>,
)
    requires
        e.wf(),
        forall|i: int|
            0 <= i < events.len() ==> ((#[trigger] events[i]).1 matches Some(n) ==> n.wf() && (
            events[i].0.len() > 0 ==> n.name() == events[i].0.last())),
    ensures
        spec_run_events(e, events).wf(),
    decreases events.len(),
{
    if events.len() > 0 {
        let rest = events.drop_last();
        assert(forall|i: int| 0 <= i < rest.len() ==> rest[i] == events[i]);
        lemma_event_stream_preserves_wf(e, rest);
        let prev = spec_run_events(e, rest);
        let last = events.last();
        match spec_apply_event(prev, last.0, last.1) {
            Ok(_) => {
                assert(last == events[events.len() - 1]);
                lemma_event_preserves_wf(prev, last.0, last.1);
            },
            Err(_) => {},
        }
    }
}

/// Deleting the same path twice is a no-op the second time: the first
/// delete removed the only entry with that name, so the second attempt
/// fails with `PathNotFound` and, by the mutation contract, leaves the
/// tree unchanged.
pub proof fn lemma_delete_idempotent(e: EntryView, path: Seq<Seq<char>>)
    requires
        e.wf(),
        spec_delete(e, path) is Ok,
    ensures
        spec_delete(spec_delete(e, path)->Ok_0, path) == Err::<EntryView, MutationError>(
            MutationError::PathNotFound,
        ),
    decreases path.len(),
{
    match e {
        EntryView::File { .. } => {},
        EntryView::Dir { name, children } => {
            lemma_first_match(children, path[0]);
            match first_match(children, path[0]) {
                Some(j) => {
                    if path.len() == 1 {
                        let c2 = children.remove(j);
                        lemma_first_match(c2, path[0]);
                        match first_match(c2, path[0]) {
                            Some(j2) => {
                                let j0: int = if j2 < j { j2 } else { j2 + 1 };
                                assert(c2[j2] == children[j0]);
                                assert(false);
                            },
                            None => {},
                        }
                    } else {
                        let rest = path.drop_first();
                        assert(children[j].wf());
                        lemma_delete_keeps_frame(children[j], rest);
                        lemma_delete_idempotent(children[j], rest);
                        let c = spec_delete(children[j], rest)->Ok_0;
                        let c2 = children.update(j, c);
                        assert(c2[j].name() == path[0]);
                        lemma_first_match(c2, path[0]);
                        match first_match(c2, path[0]) {
                            Some(j2) => {
                                if j2 < j {
                                    assert(c2[j2] == children[j2]);
                                    assert(false);
                                } else if j2 > j {
                                    assert(c2[j].name() != path[0]);
                                    assert(false);
                                }
                            },
                            None => {
                                assert(false);
                            },
                        }
                    }
                },
                None => {},
            }
        },
    }
}

} // verus!
