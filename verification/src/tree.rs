//! Files and directories held in memory.

use vstd::prelude::*;

verus! {

/// What stands at a path.
#[derive(Debug, PartialEq, Eq)]
pub enum Entry {
    /// A regular file with its content.
    File(Vec<u8>),
    /// A directory with its entries.
    Directory(Vec<Child>),
    /// Anything else: a link, a device, a socket.
    Other,
}

/// A named entry of a directory.
#[derive(Debug, PartialEq, Eq)]
pub struct Child {
    pub name: String,
    pub entry: Entry,
}

/// Mathematical content of an [`Entry`].
pub enum Tree {
    File { content: Seq<u8> },
    Directory { children: Seq<(Seq<char>, Tree)> },
    Other,
}

/// The content of an entry.
pub open spec fn tree_of(entry: Entry) -> Tree
    decreases entry,
{
    match entry {
        Entry::File(content) => Tree::File { content: content@ },
        Entry::Directory(children) => Tree::Directory {
            children: Seq::new(
                children@.len(),
                |i: int|
                    if 0 <= i < children@.len() {
                        (children@[i].name@, tree_of(children@[i].entry))
                    } else {
                        (Seq::empty(), Tree::Other)
                    },
            ),
        },
        Entry::Other => Tree::Other,
    }
}

impl View for Entry {
    type V = Tree;

    open spec fn view(&self) -> Tree {
        tree_of(*self)
    }
}

/// The entries of a directory, by name.
pub type Listing = Seq<(Seq<char>, Tree)>;

/// The listing that a list of named entries stands for.
pub open spec fn listing(children: Seq<Child>) -> Listing {
    Seq::new(children.len(), |i: int| (children[i].name@, children[i].entry@))
}

/// Number of bytes in the files of `tree`.
pub open spec fn tree_size(tree: Tree) -> nat
    decreases tree, 0nat,
{
    match tree {
        Tree::File { content } => content.len(),
        Tree::Directory { children } => listing_size(children, children.len()),
        Tree::Other => 0,
    }
}

/// Number of bytes in the files of the first `n` entries of `children`.
pub open spec fn listing_size(children: Listing, n: nat) -> nat
    decreases children, n,
{
    if n == 0 || n > children.len() {
        0
    } else {
        listing_size(children, (n - 1) as nat) + tree_size(children[n - 1].1)
    }
}

/// Position of the first entry of `children` with the name `name`.
pub open spec fn position(children: Listing, name: Seq<char>, from: int) -> Option<int>
    decreases children.len() - from,
{
    if from < 0 || from >= children.len() {
        None
    } else if children[from].0 == name {
        Some(from)
    } else {
        position(children, name, from + 1)
    }
}

/// What `position` finds has the name, and nothing before it has.
pub proof fn lemma_position(children: Listing, name: Seq<char>, from: int)
    requires
        0 <= from,
    ensures
        match position(children, name, from) {
            Some(at) => from <= at < children.len() && children[at].0 == name && forall|j: int|
                from <= j < at ==> (#[trigger] children[j]).0 != name,
            None => forall|j: int| from <= j < children.len() ==> (#[trigger] children[j]).0 != name,
        },
    decreases children.len() - from,
{
    if from < children.len() && children[from].0 != name {
        lemma_position(children, name, from + 1);
    }
}

/// The more entries are counted, the more bytes there are.
pub proof fn lemma_listing_size_grows(children: Listing, a: nat, b: nat)
    requires
        a <= b <= children.len(),
    ensures
        listing_size(children, a) <= listing_size(children, b),
    decreases b - a,
{
    if a < b {
        lemma_listing_size_grows(children, a, (b - 1) as nat);
    }
}

impl Entry {
    /// The position of the first entry of `children` with the name `name`.
    pub fn find(children: &Vec<Child>, name: &String) -> (found: Option<usize>)
        ensures
            match found {
                Some(at) => position(listing(children@), name@, 0) == Some(at as int),
                None => position(listing(children@), name@, 0) is None,
            },
    {
        let ghost all = listing(children@);
        let mut i: usize = 0;
        while i < children.len()
            invariant
                i <= children.len(),
                all == listing(children@),
                position(all, name@, 0) == position(all, name@, i as int),
            decreases children.len() - i,
        {
            if children[i].name == *name {
                return Some(i);
            }
            i += 1;
        }
        None
    }
}

} // verus!
