//! The export format of `ncdu`.
//!
//! An export is a list of four things: two version numbers, a block of
//! metadata, and the entry of the root directory. The entry of a file is
//! its info block. The entry of a directory is a list: its own info block,
//! then the entries of its children in ascending order of their names.
//!
//! Format reference: <https://dev.yorhel.nl/ncdu/jsonfmt>

use crate::filetree::{children_view, Node, Tree};
use crate::names::name_lt;
use vstd::prelude::*;

verus! {

/// The time that every export is stamped with.
pub const BIRTH_TIMESTAMP: usize = 1699656086;

/// The name that exports give for the program that wrote them.
pub const PROGNAME: &'static str = "ncdu-import";

/// The version that exports give for the program that wrote them.
pub const PROGVER: &'static str = "1.0";

/// The major version of the format.
pub const MAJOR_VER: u16 = 1;

/// The minor version of the format.
pub const MINOR_VER: u16 = 2;

/// The name that the root of every export goes by.
pub const ROOT_NAME: &'static str = "ROOT";

/// A representation of `ncdu`'s export format.
///
/// When serialized to JSON as a list, this should be ingestible using
/// `ncdu -f`.
#[derive(Debug, PartialEq, Eq)]
pub struct Export(pub MajorVer, pub MinorVer, pub Metadata, pub Entry);

/// Who wrote an export, and when.
#[derive(Debug, PartialEq, Eq)]
pub struct Metadata {
    pub progname: &'static str,
    pub progver: &'static str,
    pub timestamp: usize,
}

/// The name of a file or directory and the size to show for it.
#[derive(Debug, PartialEq, Eq)]
pub struct InfoBlock {
    pub name: String,
    pub dsize: usize,
}

/// The entry of a file, or of a directory with all that is in it.
#[derive(Debug, PartialEq, Eq)]
pub enum Entry {
    /// A file: its info block.
    IB(InfoBlock),
    /// A directory: its info block first, then its children.
    Vec(Vec<Entry>),
}

/// The major version of the format, as an export holds it.
#[derive(Debug, PartialEq, Eq)]
pub struct MajorVer(pub u16);

/// The minor version of the format, as an export holds it.
#[derive(Debug, PartialEq, Eq)]
pub struct MinorVer(pub u16);

/// What an `InfoBlock` stands for.
pub struct Info {
    pub name: Seq<char>,
    pub dsize: nat,
}

/// What an `Entry` stands for.
pub enum Listing {
    IB(Info),
    Vec(Seq<Listing>),
}

/// What an `Export` stands for.
pub struct Document {
    pub major: nat,
    pub minor: nat,
    pub progname: Seq<char>,
    pub progver: Seq<char>,
    pub timestamp: nat,
    pub root: Listing,
}

impl View for InfoBlock {
    type V = Info;

    open spec fn view(&self) -> Info {
        Info { name: self.name@, dsize: self.dsize as nat }
    }
}

/// What a vector of entries stands for.
pub open spec fn entries_view(entries: Seq<Entry>) -> Seq<Listing>
    decreases entries,
{
    Seq::new(
        entries.len(),
        |i: int|
            if 0 <= i < entries.len() {
                entries[i].view()
            } else {
                Listing::Vec(Seq::empty())
            },
    )
}

impl View for Entry {
    type V = Listing;

    open spec fn view(&self) -> Listing
        decreases self,
    {
        match self {
            Entry::IB(block) => Listing::IB(block@),
            Entry::Vec(entries) => Listing::Vec(entries_view(entries@)),
        }
    }
}

impl View for Export {
    type V = Document;

    open spec fn view(&self) -> Document {
        Document {
            major: self.0.0 as nat,
            minor: self.1.0 as nat,
            progname: self.2.progname@,
            progver: self.2.progver@,
            timestamp: self.2.timestamp as nat,
            root: self.3@,
        }
    }
}

/// The entries of `kids`, one for each, in their order.
pub open spec fn entries_of(kids: Seq<(Seq<char>, Node)>) -> Seq<Listing>
    decreases kids,
{
    Seq::new(
        kids.len(),
        |i: int|
            if 0 <= i < kids.len() {
                entry_of(kids[i].0, kids[i].1)
            } else {
                Listing::Vec(Seq::empty())
            },
    )
}

/// The entry of `node` under `name`. A file shows its size. A directory
/// shows size 0 and is followed by its children, however many there are.
pub open spec fn entry_of(name: Seq<char>, node: Node) -> Listing
    decreases node,
{
    match node {
        Node::File(size) => Listing::IB(Info { name, dsize: size }),
        Node::Directory(kids) => Listing::Vec(
            seq![Listing::IB(Info { name, dsize: 0 })] + entries_of(kids),
        ),
    }
}

/// The export of a tree: the fixed header, and the tree's entry under the
/// name of the root.
pub open spec fn document_of(node: Node) -> Document {
    Document {
        major: MAJOR_VER as nat,
        minor: MINOR_VER as nat,
        progname: PROGNAME@,
        progver: PROGVER@,
        timestamp: BIRTH_TIMESTAMP as nat,
        root: entry_of(ROOT_NAME@, node),
    }
}

/// The name that an entry goes by: that of its info block, which a
/// directory's list begins with.
pub open spec fn label(listing: Listing) -> Seq<char> {
    match listing {
        Listing::IB(info) => info.name,
        Listing::Vec(items) => if items.len() > 0 && items[0] is IB {
            items[0]->IB_0.name
        } else {
            Seq::empty()
        },
    }
}

/// In every list of the entry, what follows the info block ascends
/// strictly by name.
pub open spec fn ordered(listing: Listing) -> bool
    decreases listing,
{
    match listing {
        Listing::IB(_) => true,
        Listing::Vec(items) => {
            &&& forall|i: int, j: int|
                1 <= i < j < items.len() ==> name_lt(
                    label(#[trigger] items[i]),
                    label(#[trigger] items[j]),
                )
            &&& forall|i: int| 0 <= i < items.len() ==> ordered(#[trigger] items[i])
        },
    }
}

/// The entry of a well-formed tree goes by the name it was given, and
/// lists the children of every directory in ascending order of their
/// names, whatever the order in which they came into the tree.
pub proof fn lemma_entries_ascend(name: Seq<char>, node: Node)
    requires
        node.wf(),
    ensures
        label(entry_of(name, node)) == name,
        ordered(entry_of(name, node)),
    decreases node,
{
    match node {
        Node::File(_) => {},
        Node::Directory(kids) => {
            let items = entry_of(name, node)->Vec_0;
            assert(items[0] == Listing::IB(Info { name, dsize: 0 }));
            assert forall|i: int| 1 <= i < items.len() implies label(#[trigger] items[i])
                == kids[i - 1].0 && ordered(items[i]) by {
                assert(items[i] == entries_of(kids)[i - 1]);
                assert(kids[i - 1].1.wf());
                lemma_entries_ascend(kids[i - 1].0, kids[i - 1].1);
            }
            assert forall|i: int, j: int| 1 <= i < j < items.len() implies name_lt(
                label(#[trigger] items[i]),
                label(#[trigger] items[j]),
            ) by {
                assert(name_lt(kids[i - 1].0, kids[j - 1].0));
            }
            assert forall|i: int| 0 <= i < items.len() implies ordered(#[trigger] items[i]) by {
                if i == 0 {
                    assert(items[0] is IB);
                }
            }
        },
    }
}

impl Entry {
    /// Lays out `tree` as the entry called `name`.
    pub fn from_tree_and_name(name: String, tree: Tree) -> (entry: Entry)
        ensures
            entry@ == entry_of(name@, tree@),
        decreases tree,
    {
        match tree {
            Tree::File(size) => Entry::IB(InfoBlock { name, dsize: size }),
            Tree::Directory(children) => {
                let ghost kids = children_view(children@);
                let mut dir: Vec<Entry> = Vec::new();
                dir.push(Entry::IB(InfoBlock { name, dsize: 0 }));
                for child in it: children
                    invariant
                        it.seq() == children@,
                        tree == Tree::Directory(children),
                        kids == children_view(children@),
                        entries_view(dir@) == seq![Listing::IB(Info { name: name@, dsize: 0 })]
                            + entries_of(kids.take(it.index() as int)),
                {
                    let ghost before = entries_view(dir@);
                    assert(decreases_to!(tree => child)) by {
                        assert(child == children@[it.index() as int]);
                        assert(decreases_to!(tree => tree->Directory_0));
                    }
                    let (child_name, subtree) = child;
                    let below = Entry::from_tree_and_name(child_name, subtree);
                    dir.push(below);
                    assert(entries_view(dir@) =~= before.push(below@));
                    assert(below@ == entry_of(kids[it.index() as int].0, kids[it.index() as int].1));
                    assert(entries_of(kids.take(it.index() + 1)) =~= entries_of(
                        kids.take(it.index() as int),
                    ).push(below@));
                }
                assert(kids.take(kids.len() as int) =~= kids);
                Entry::Vec(dir)
            },
        }
    }
}

impl From<Tree> for Export {
    /// Lays out `value` as an export: the fixed header, and the tree under
    /// the name of the root.
    fn from(value: Tree) -> (export: Export)
        ensures
            export@ == document_of(value@),
    {
        Export(
            MajorVer(MAJOR_VER),
            MinorVer(MINOR_VER),
            Metadata { progname: PROGNAME, progver: PROGVER, timestamp: BIRTH_TIMESTAMP },
            Entry::from_tree_and_name(ROOT_NAME.to_owned(), value),
        )
    }
}

impl vstd::std_specs::convert::FromSpecImpl<Tree> for Export {
    /// The strings of an export are new ones, so the export is stated by
    /// what it stands for, in the contract of `from`.
    open spec fn obeys_from_spec() -> bool {
        false
    }

    open spec fn from_spec(v: Tree) -> Export {
        arbitrary()
    }
}

} // verus!
