//! The tree node type: a named file leaf, or a named directory with an
//! ordered collection of children, unique by name.

use vstd::prelude::*;

verus! {

/// Mathematical model of a tree node: a file leaf or a directory with
/// an ordered sequence of child nodes.
#[verifier::ext_equal]
pub enum EntryView {
    File { name: Seq<char> },
    Dir { name: Seq<char>, children: Seq<EntryView> },
}

impl EntryView {
    /// The node's own name, regardless of variant.
    pub open spec fn name(self) -> Seq<char> {
        match self {
            EntryView::File { name } => name,
            EntryView::Dir { name, .. } => name,
        }
    }

    pub open spec fn is_dir(self) -> bool {
        self is Dir
    }

    /// The children of a directory; an empty sequence for a file.
    pub open spec fn children(self) -> Seq<EntryView> {
        match self {
            EntryView::Dir { children, .. } => children,
            EntryView::File { .. } => Seq::empty(),
        }
    }

    /// Structural invariant: in every directory of the tree, no two
    /// children share a name.
    pub open spec fn wf(self) -> bool
        decreases self,
    {
        match self {
            EntryView::File { .. } => true,
            EntryView::Dir { children, .. } => {
                distinct_names(children) && (forall|i: int|
                    0 <= i < children.len() ==> children[i].wf())
            }
        }
    }
}

/// No two entries of the sequence share a name.
pub open spec fn distinct_names(s: Seq<EntryView>) -> bool {
    forall|i: int, j: int| 0 <= i < j < s.len() ==> s[i].name() != s[j].name()
}

/// Index of the first child whose name is `name`, if any.
pub open spec fn first_match(children: Seq<EntryView>, name: Seq<char>) -> Option<int>
    decreases children.len(),
{
    if children.len() == 0 {
        None
    } else if children[0].name() == name {
        Some(0int)
    } else {
        match first_match(children.drop_first(), name) {
            Some(i) => Some(i + 1),
            None => None,
        }
    }
}

/// `first_match` finds exactly the first child with the given name:
/// a `Some(j)` result points at a match that no earlier child equals,
/// and a `None` result means no child matches at all.
pub proof fn lemma_first_match(children: Seq<EntryView>, name: Seq<char>)
    ensures
        match first_match(children, name) {
            Some(j) => 0 <= j < children.len() && children[j].name() == name
                && (forall|k: int| 0 <= k < j ==> children[k].name() != name),
            None => forall|k: int| 0 <= k < children.len() ==> children[k].name() != name,
        },
    decreases children.len(),
{
    if children.len() > 0 && children[0].name() != name {
        let rest = children.drop_first();
        lemma_first_match(rest, name);
        match first_match(rest, name) {
            Some(i) => {
                assert(children[i + 1] == rest[i]);
                assert forall|k: int| 0 <= k < i + 1 implies children[k].name() != name by {
                    if k > 0 {
                        assert(children[k] == rest[k - 1]);
                    }
                }
            }
            None => {
                assert forall|k: int| 0 <= k < children.len() implies children[k].name() != name
                    by {
                    if k > 0 {
                        assert(children[k] == rest[k - 1]);
                    }
                }
            }
        }
    }
}

/// A tree node: a file leaf or a directory owning an ordered
/// collection of children.
#[derive(Debug)]
pub enum Entry {
    File { name: String },
    Dir { name: String, children: Vec<Entry> },
}

/// The model of a node: names become character sequences and child
/// vectors become sequences of models.
pub open spec fn entry_view(e: Entry) -> EntryView
    decreases e,
{
    match e {
        Entry::File { name } => EntryView::File { name: name@ },
        Entry::Dir { name, children } => EntryView::Dir {
            name: name@,
            children: Seq::new(
                children@.len(),
                |i: int|
                    if 0 <= i < children@.len() {
                        entry_view(children@[i])
                    } else {
                        EntryView::File { name: Seq::empty() }
                    },
            ),
        },
    }
}

impl View for Entry {
    type V = EntryView;

    open spec fn view(&self) -> EntryView {
        entry_view(*self)
    }
}

impl DeepView for Entry {
    type V = EntryView;

    open spec fn deep_view(&self) -> EntryView {
        entry_view(*self)
    }
}

/// The views of a sequence of nodes, element by element.
pub open spec fn seq_view(children: Seq<Entry>) -> Seq<EntryView> {
    Seq::new(children.len(), |i: int| children[i]@)
}

/// The model of a directory node is a directory whose children are the
/// models of its child vector, element by element.
pub broadcast proof fn lemma_entry_view_children(e: Entry)
    requires
        e is Dir,
    ensures
        #[trigger] entry_view(e) == (EntryView::Dir {
            name: e->Dir_name@,
            children: seq_view(e->Dir_children@),
        }),
{
    let ev = entry_view(e);
    assert(ev.children() =~= seq_view(e->Dir_children@));
    assert(ev =~= EntryView::Dir { name: e->Dir_name@, children: seq_view(e->Dir_children@) });
}

/// Error raised when a child is pushed onto a file leaf, which cannot
/// hold children.
#[derive(Clone, Copy, Debug, PartialEq, Eq, Structural)]
pub enum ContractError {
    ChildrenOfFile,
}

impl Entry {
    /// A file leaf with the given name.
    pub fn new_file(name: String) -> (e: Entry)
        ensures
            e@ == (EntryView::File { name: name@ }),
    {
        Entry::File { name }
    }

    /// A directory with the given name and no children.
    pub fn new_dir(name: String) -> (e: Entry)
        ensures
            e@ == (EntryView::Dir { name: name@, children: Seq::<EntryView>::empty() }),
    {
        let children: Vec<Entry> = Vec::new();
        proof {
            broadcast use lemma_entry_view_children;

            assert(seq_view(children@) =~= Seq::<EntryView>::empty());
        }
        Entry::Dir { name, children }
    }

    /// The entry's own name, regardless of variant.
    pub fn name(&self) -> (r: &String)
        ensures
            r@ == self@.name(),
    {
        match self {
            Entry::Dir { name, .. } => name,
            Entry::File { name } => name,
        }
    }

    pub fn is_dir(&self) -> (r: bool)
        ensures
            r == self@.is_dir(),
    {
        match self {
            Entry::Dir { .. } => true,
            Entry::File { .. } => false,
        }
    }

    /// Read access to a directory's children; a file has none, which
    /// is reported as an error rather than a process abort.
    pub fn children(&self) -> (r: Result<&Vec<Entry>, ContractError>)
        ensures
            match r {
                Ok(c) => self@ is Dir && seq_view(c@) == self@.children(),
                Err(e) => self@ is File && e == ContractError::ChildrenOfFile,
            },
    {
        proof {
            broadcast use lemma_entry_view_children;

        }
        match self {
            Entry::Dir { children, .. } => Ok(children),
            Entry::File { .. } => Err(ContractError::ChildrenOfFile),
        }
    }

    /// Appends a child to a directory's collection; pushing onto a
    /// file is reported as an error and leaves the entry unchanged.
    pub fn push_child(&mut self, child: Entry) -> (r: Result<(), ContractError>)
        ensures
            match r {
                Ok(()) => old(self)@ is Dir && final(self)@ == (EntryView::Dir {
                    name: old(self)@.name(),
                    children: old(self)@.children().push(child@),
                }),
                Err(e) => old(self)@ is File && e == ContractError::ChildrenOfFile && final(self)@
                    == old(self)@,
            },
    {
        let ghost child_v = child@;
        let r = match self {
            Entry::Dir { children, .. } => {
                children.push(child);
                Ok(())
            },
            Entry::File { .. } => Err(ContractError::ChildrenOfFile),
        };
        proof {
            broadcast use lemma_entry_view_children;

            if r is Ok {
                assert(self@.children() =~= old(self)@.children().push(child_v));
                assert(self@ =~= EntryView::Dir {
                    name: old(self)@.name(),
                    children: old(self)@.children().push(child_v),
                });
            }
        }
        r
    }

    /// Decides well-formedness by exhaustive traversal: in every
    /// directory of the tree, no two children may share a name.
    #[verifier::loop_isolation(false)]
    pub fn is_well_formed(&self) -> (b: bool)
        ensures
            b == self@.wf(),
        decreases *self,
    {
        match self {
            Entry::File { .. } => true,
            Entry::Dir { name: own_name, children } => {
                proof {
                    assert(*self == (Entry::Dir { name: *own_name, children: *children }));
                    lemma_entry_view_children(*self);
                }
                if !names_distinct(children) {
                    return false;
                }
                let ghost cv = self@.children();
                let n = children.len();
                let mut i: usize = 0;
                while i < n
                    invariant
                        i <= n,
                        n == children@.len(),
                        cv == seq_view(children@),
                        cv == self@.children(),
                        self@ is Dir,
                        distinct_names(cv),
                        forall|p: int| 0 <= p < i ==> cv[p].wf(),
                    decreases n - i,
                {
                    proof {
                        assert(*self == (Entry::Dir { name: *own_name, children: *children }));
                        assert(self->Dir_children == *children);
                        assert(decreases_to!(*self => self->Dir_children));
                        assert(decreases_to!(
                            self->Dir_children => self->Dir_children[i as int]));
                        assert(decreases_to!(*self => children@[i as int]));
                    }
                    if !children[i].is_well_formed() {
                        proof {
                            assert(!cv[i as int].wf());
                        }
                        return false;
                    }
                    i += 1;
                }
                true
            },
        }
    }
}

/// Decides `distinct_names` over the views of a child vector.
#[verifier::loop_isolation(false)]
fn names_distinct(children: &Vec<Entry>) -> (b: bool)
    ensures
        b == distinct_names(seq_view(children@)),
{
    let ghost cv = seq_view(children@);
    let n = children.len();
    let mut i: usize = 0;
    while i < n
        invariant
            i <= n,
            n == children@.len(),
            cv == seq_view(children@),
            forall|p: int, q: int| 0 <= p < q < n && p < i ==> cv[p].name() != cv[q].name(),
        decreases n - i,
    {
        let mut j: usize = i + 1;
        while j < n
            invariant
                i < n,
                i + 1 <= j <= n,
                n == children@.len(),
                cv == seq_view(children@),
                forall|q: int| i < q < j ==> cv[i as int].name() != cv[q].name(),
            decreases n - j,
        {
            if children[i].name().eq(children[j].name()) {
                proof {
                    assert(cv[i as int].name() == cv[j as int].name());
                    assert(!distinct_names(cv));
                }
                return false;
            }
            j += 1;
        }
        i += 1;
    }
    true
}

} // verus!
