//! The directory tree that file records are folded into.
//!
//! A tree is either a file with a size or a directory of named children.
//! Children are kept in ascending order of their names, each name once.
//! Where a path names both a file and a directory, the directory wins,
//! whichever record came first.

use crate::children::{
    ascending, get, lemma_put_wf, lemma_rank, lemma_rank_is, put, rank, Children,
};
use crate::names::{
    lemma_name_lt_transitive, lemma_segments, name_less, name_lt, same_name, segments,
    split_first,
};
use vstd::prelude::*;

verus! {

/// A file and its size in bytes.
#[derive(Debug, Clone)]
pub struct SizedFile {
    pub path: String,
    pub size: usize,
}

/// What a `SizedFile` stands for: a path and a size.
pub struct Record {
    pub path: Seq<char>,
    pub size: nat,
}

impl View for SizedFile {
    type V = Record;

    open spec fn view(&self) -> Record {
        Record { path: self.path@, size: self.size as nat }
    }
}

/// A file directory tree, storing minimal metadata about the files.
///
/// A directory has no size of its own.
#[derive(Debug, PartialEq)]
pub enum Tree {
    /// A file of the given size.
    File(usize),
    /// A directory and its children, by name.
    Directory(Vec<(String, Tree)>),
}

/// What a `Tree` stands for.
pub enum Node {
    File(nat),
    Directory(Seq<(Seq<char>, Node)>),
}

/// What a vector of children stands for.
pub open spec fn children_view(children: Seq<(String, Tree)>) -> Children
    decreases children,
{
    Seq::new(
        children.len(),
        |i: int|
            if 0 <= i < children.len() {
                (children[i].0@, children[i].1.view())
            } else {
                (Seq::empty(), Node::File(0))
            },
    )
}

impl View for Tree {
    type V = Node;

    open spec fn view(&self) -> Node
        decreases self,
    {
        match self {
            Tree::File(size) => Node::File(*size as nat),
            Tree::Directory(children) => Node::Directory(children_view(children@)),
        }
    }
}

impl Node {
    /// The children of a directory; a file has none.
    pub open spec fn children(self) -> Children {
        match self {
            Node::File(_) => Seq::empty(),
            Node::Directory(kids) => kids,
        }
    }

    /// Every directory in the tree keeps its children in ascending order.
    pub open spec fn wf(self) -> bool
        decreases self,
    {
        match self {
            Node::File(_) => true,
            Node::Directory(kids) => ascending(kids) && forall|i: int|
                0 <= i < kids.len() ==> (#[trigger] kids[i]).1.wf(),
        }
    }

    /// The tree after a file of `size` is recorded under the names `segs`.
    ///
    /// Every name but the last becomes a directory, in place of a file of
    /// that name if there is one. The last name becomes a file of `size`,
    /// unless a directory of that name is there already: then nothing
    /// changes. A file that is inserted into turns into a directory.
    pub open spec fn insert(self, segs: Seq<Seq<char>>, size: nat) -> Node
        decreases segs.len(),
    {
        let kids = self.children();
        if segs.len() == 0 {
            self
        } else if segs.len() == 1 {
            match get(kids, segs[0]) {
                Some(Node::Directory(_)) => Node::Directory(kids),
                _ => Node::Directory(put(kids, segs[0], Node::File(size))),
            }
        } else {
            let below = match get(kids, segs[0]) {
                Some(child) => child,
                None => Node::Directory(Seq::empty()),
            };
            Node::Directory(put(kids, segs[0], below.insert(segs.drop_first(), size)))
        }
    }
}

/// What a vector of files stands for.
pub open spec fn records(files: Seq<SizedFile>) -> Seq<Record> {
    files.map_values(|f: SizedFile| f@)
}

/// The tree that `records` build, one after the other, from an empty
/// directory.
pub open spec fn build(records: Seq<Record>) -> Node
    decreases records.len(),
{
    if records.len() == 0 {
        Node::Directory(Seq::empty())
    } else {
        build(records.drop_last()).insert(segments(records.last().path), records.last().size)
    }
}

/// Recording a file keeps a tree well-formed.
pub proof fn lemma_insert_wf(node: Node, segs: Seq<Seq<char>>, size: nat)
    requires
        node.wf(),
    ensures
        node.insert(segs, size).wf(),
    decreases segs.len(),
{
    let kids = node.children();
    assert(Node::Directory(kids).wf());
    if segs.len() == 1 {
        lemma_put_wf(kids, segs[0], Node::File(size));
    } else if segs.len() > 1 {
        lemma_rank(kids, segs[0]);
        let below = match get(kids, segs[0]) {
            Some(child) => child,
            None => Node::Directory(Seq::empty()),
        };
        assert(below.wf()) by {
            if get(kids, segs[0]) is Some {
                assert(below == kids[rank(kids, segs[0]) as int].1);
            }
        }
        lemma_insert_wf(below, segs.drop_first(), size);
        lemma_put_wf(kids, segs[0], below.insert(segs.drop_first(), size));
    }
}

/// Every list of records builds a well-formed tree.
pub proof fn lemma_build_wf(records: Seq<Record>)
    ensures
        build(records).wf(),
    decreases records.len(),
{
    if records.len() > 0 {
        lemma_build_wf(records.drop_last());
        lemma_insert_wf(
            build(records.drop_last()),
            segments(records.last().path),
            records.last().size,
        );
    }
}

/// Finds where `name` stands among `children`, or where it belongs.
fn locate(children: &Vec<(String, Tree)>, name: &str) -> (i: usize)
    requires
        ascending(children_view(children@)),
    ensures
        i == rank(children_view(children@), name@),
        i <= children.len(),
{
    let ghost kids = children_view(children@);
    let mut lo: usize = 0;
    let mut hi: usize = children.len();
    while lo < hi
        invariant
            lo <= hi <= children.len(),
            kids == children_view(children@),
            ascending(kids),
            forall|j: int| 0 <= j < lo ==> name_lt(#[trigger] kids[j].0, name@),
            forall|j: int| hi <= j < kids.len() ==> !name_lt(#[trigger] kids[j].0, name@),
        decreases hi - lo,
    {
        let mid = lo + (hi - lo) / 2;
        if name_less(children[mid].0.as_str(), name) {
            proof {
                assert forall|j: int| 0 <= j < mid + 1 implies name_lt(
                    #[trigger] kids[j].0,
                    name@,
                ) by {
                    if j < mid {
                        lemma_name_lt_transitive(kids[j].0, kids[mid as int].0, name@);
                    }
                }
            }
            lo = mid + 1;
        } else {
            proof {
                assert forall|j: int| mid <= j < kids.len() implies !name_lt(
                    #[trigger] kids[j].0,
                    name@,
                ) by {
                    if j > mid && name_lt(kids[j].0, name@) {
                        lemma_name_lt_transitive(kids[mid as int].0, kids[j].0, name@);
                    }
                }
            }
            hi = mid;
        }
    }
    proof {
        lemma_rank_is(kids, name@, lo as int);
    }
    lo
}

impl Default for Tree {
    /// An empty directory: the tree before any record.
    fn default() -> (tree: Tree)
        ensures
            tree@ == Node::Directory(Seq::empty()),
            tree@.wf(),
    {
        let tree = Tree::Directory(Vec::new());
        assert(tree@.children() =~= Seq::empty());
        tree
    }
}

impl Tree {
    /// Records a file of `size` under `path`, whose names are cut at the
    /// slashes.
    fn insert_path(&mut self, path: &str, size: usize)
        requires
            old(self)@.wf(),
        ensures
            final(self)@ == old(self)@.insert(segments(path@), size as nat),
            final(self)@.wf(),
        decreases path@.len(),
    {
        proof {
            lemma_segments(path@);
            lemma_insert_wf(self@, segments(path@), size as nat);
        }
        if let Tree::File(_) = self {
            *self = Tree::default();
        }
        let ghost kids = old(self)@.children();
        let ghost segs = segments(path@);
        let (name, rest) = split_first(path);
        match self {
            Tree::File(_) => {},
            Tree::Directory(children) => {
                assert(children_view(children@) =~= kids);
                let i = locate(children, name);
                let found = i < children.len() && same_name(children[i].0.as_str(), name);
                assert(found <==> get(kids, name@) is Some);
                match rest {
                    None => {
                        let leaf = Tree::File(size);
                        if found {
                            let child = &mut children[i];
                            if let Tree::File(_) = child.1 {
                                child.1 = leaf;
                                assert(children_view(children@) =~= put(
                                    kids,
                                    name@,
                                    Node::File(size as nat),
                                ));
                            } else {
                                assert(children_view(children@) =~= kids);
                            }
                        } else {
                            children.insert(i, (name.to_owned(), leaf));
                            assert(children_view(children@) =~= put(
                                kids,
                                name@,
                                Node::File(size as nat),
                            ));
                        }
                    },
                    Some(rest) => {
                        if found {
                            let child = &mut children[i];
                            let ghost below = child.1@;
                            child.1.insert_path(rest, size);
                            assert(children_view(children@) =~= put(
                                kids,
                                name@,
                                below.insert(segs.drop_first(), size as nat),
                            ));
                        } else {
                            let mut below = Tree::default();
                            below.insert_path(rest, size);
                            children.insert(i, (name.to_owned(), below));
                            assert(children_view(children@) =~= put(
                                kids,
                                name@,
                                Node::Directory(Seq::empty()).insert(
                                    segs.drop_first(),
                                    size as nat,
                                ),
                            ));
                        }
                    },
                }
            },
        }
    }

    /// Records one file in the tree. A directory of the file's path stays
    /// as it is; a file of that path gets the new size.
    pub fn add(&mut self, sf: SizedFile)
        requires
            old(self)@.wf(),
        ensures
            final(self)@ == old(self)@.insert(segments(sf.path@), sf.size as nat),
            final(self)@.wf(),
    {
        self.insert_path(sf.path.as_str(), sf.size);
    }

    /// Builds the tree of `files`, taken in order.
    pub fn from(files: Vec<SizedFile>) -> (tree: Tree)
        ensures
            tree@ == build(records(files@)),
            tree@.wf(),
    {
        let ghost all = records(files@);
        let mut result = Tree::default();
        for sf in it: files
            invariant
                all == records(files@),
                it.seq() == files@,
                result@ == build(all.take(it.index() as int)),
                result@.wf(),
        {
            proof {
                let upto = all.take(it.index() + 1);
                assert(upto.drop_last() =~= all.take(it.index() as int));
                assert(upto.last() == sf@);
            }
            result.add(sf);
        }
        assert(all.take(all.len() as int) =~= all);
        result
    }
}

} // verus!
