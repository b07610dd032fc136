//! The tree does not depend on the order of the records.
//!
//! What stands at a place of the built tree is told by the records alone:
//! a directory where some record lies deeper, else a file of the size that
//! the last record of that very path gives. So two lists that hold the same
//! records build the same tree, as long as records of one path that ends up
//! a file agree on its size.

use crate::children::{get, lemma_children_equal, lemma_get_put, lemma_rank, put, rank};
use crate::filetree::{build, lemma_build_wf, Node, Record};
use crate::names::{lemma_segments, lemma_segments_one_to_one, segments};
use vstd::prelude::*;

verus! {

/// What stands at a place of a tree.
pub enum Place {
    Nothing,
    File(nat),
    Directory,
}

/// What stands in `node` where the names `segs` lead, one child after the
/// other.
pub open spec fn place(node: Node, segs: Seq<Seq<char>>) -> Place
    decreases segs.len(),
{
    if segs.len() == 0 {
        match node {
            Node::File(size) => Place::File(size),
            Node::Directory(_) => Place::Directory,
        }
    } else {
        match get(node.children(), segs[0]) {
            None => Place::Nothing,
            Some(child) => place(child, segs.drop_first()),
        }
    }
}

/// `p` is the beginning of `segs`, and shorter.
pub open spec fn proper_prefix(p: Seq<Seq<char>>, segs: Seq<Seq<char>>) -> bool {
    p.len() < segs.len() && segs.take(p.len() as int) =~= p
}

/// Some record of `records` lies below `p`.
pub open spec fn is_directory(records: Seq<Record>, p: Seq<Seq<char>>) -> bool {
    exists|i: int|
        0 <= i < records.len() && proper_prefix(p, segments((#[trigger] records[i]).path))
}

/// The size of the last record of `records` whose path is made of the
/// names `p`.
pub open spec fn last_size(records: Seq<Record>, p: Seq<Seq<char>>) -> Option<nat>
    decreases records.len(),
{
    if records.len() == 0 {
        None
    } else if segments(records.last().path) == p {
        Some(records.last().size)
    } else {
        last_size(records.drop_last(), p)
    }
}

/// What the records say of the place `p`: a directory where a record lies
/// below it, else a file where a record has this path.
pub open spec fn place_by_records(records: Seq<Record>, p: Seq<Seq<char>>) -> Place {
    if is_directory(records, p) {
        Place::Directory
    } else {
        match last_size(records, p) {
            Some(size) => Place::File(size),
            None => Place::Nothing,
        }
    }
}

/// Both lists hold the same records, however often and in whatever order.
pub open spec fn same_records(a: Seq<Record>, b: Seq<Record>) -> bool {
    forall|r: Record| a.contains(r) <==> b.contains(r)
}

/// Records of one path agree on the size, unless the path is that of a
/// directory, where no size counts.
pub open spec fn sizes_agree(records: Seq<Record>) -> bool {
    forall|i: int, j: int|
        0 <= i < records.len() && 0 <= j < records.len() && (#[trigger] records[i]).path == (
        #[trigger] records[j]).path && !is_directory(records, segments(records[i].path))
            ==> records[i].size == records[j].size
}

/// What stands at a place after a file is recorded: a directory on the
/// way to the file, the file at its own place unless a directory is there,
/// and what stood there before everywhere else.
pub proof fn lemma_place_after_insert(
    node: Node,
    segs: Seq<Seq<char>>,
    size: nat,
    p: Seq<Seq<char>>,
)
    requires
        node.wf(),
        segs.len() >= 1,
        p.len() >= 1,
    ensures
        place(node.insert(segs, size), p) == if proper_prefix(p, segs) {
            Place::Directory
        } else if p == segs && !(place(node, p) is Directory) {
            Place::File(size)
        } else {
            place(node, p)
        },
    decreases segs.len(),
{
    reveal_with_fuel(place, 2);
    let kids = node.children();
    let first = segs[0];
    let after = node.insert(segs, size);
    lemma_rank(kids, first);
    assert(get(Seq::<(Seq<char>, Node)>::empty(), p[0]) is None);
    if segs.len() == 1 {
        assert(!proper_prefix(p, segs));
        if p.len() == 1 && p[0] == first {
            assert(p =~= segs);
        }
        match get(kids, first) {
            Some(Node::Directory(_)) => {
                assert(after.children() == kids);
                if p == segs {
                    assert(place(node, p) is Directory);
                }
            },
            _ => {
                let leaf = Node::File(size);
                assert(after.children() == put(kids, first, leaf));
                lemma_get_put(kids, first, leaf, p[0]);
                if p[0] == first {
                    if p.len() == 1 {
                        assert(place(after, p) == Place::File(size));
                        assert(!(place(node, p) is Directory));
                    } else {
                        let q = p.drop_first();
                        assert(get(leaf.children(), q[0]) is None);
                        assert(place(leaf, q) is Nothing);
                        assert(place(node, p) is Nothing) by {
                            if get(kids, first) is Some {
                                let child = get(kids, first)->Some_0;
                                assert(child is File);
                                assert(get(child.children(), q[0]) is None);
                            }
                        }
                    }
                }
            },
        }
    } else {
        let rest = segs.drop_first();
        let below = match get(kids, first) {
            Some(child) => child,
            None => Node::Directory(Seq::empty()),
        };
        let grown = below.insert(rest, size);
        assert(after.children() == put(kids, first, grown));
        lemma_get_put(kids, first, grown, p[0]);
        if p[0] == first {
            if p.len() == 1 {
                assert(segs.take(1) =~= p);
                assert(grown is Directory);
            } else {
                let q = p.drop_first();
                assert(below.wf()) by {
                    if get(kids, first) is Some {
                        assert(below == kids[rank(kids, first) as int].1);
                    }
                }
                lemma_place_after_insert(below, rest, size, q);
                assert(place(below, q) == place(node, p)) by {
                    if get(kids, first) is None {
                        assert(get(below.children(), q[0]) is None);
                    }
                }
                assert(proper_prefix(q, rest) <==> proper_prefix(p, segs)) by {
                    if proper_prefix(q, rest) {
                        assert(segs.take(p.len() as int) =~= seq![first] + rest.take(
                            q.len() as int,
                        ));
                        assert(p =~= seq![first] + q);
                    }
                    if proper_prefix(p, segs) {
                        assert(rest.take(q.len() as int) =~= segs.take(
                            p.len() as int,
                        ).drop_first());
                    }
                }
                assert(q == rest <==> p == segs) by {
                    if q == rest {
                        assert(p =~= seq![first] + q);
                        assert(segs =~= seq![first] + rest);
                    }
                }
            }
        } else {
            assert(!proper_prefix(p, segs)) by {
                if proper_prefix(p, segs) {
                    assert(segs.take(p.len() as int)[0] == p[0]);
                }
            }
        }
    }
}

/// In the tree that records build, every place holds what the records say
/// of it.
pub proof fn lemma_place_in_build(records: Seq<Record>, p: Seq<Seq<char>>)
    requires
        p.len() >= 1,
    ensures
        place(build(records), p) == place_by_records(records, p),
    decreases records.len(),
{
    if records.len() == 0 {
        assert(get(Seq::<(Seq<char>, Node)>::empty(), p[0]) is None);
    } else {
        let front = records.drop_last();
        let last = records.last();
        let segs = segments(last.path);
        lemma_place_in_build(front, p);
        lemma_build_wf(front);
        lemma_segments(last.path);
        lemma_place_after_insert(build(front), segs, last.size, p);
        assert(is_directory(records, p) <==> is_directory(front, p) || proper_prefix(p, segs)) by {
            if is_directory(front, p) {
                let i = choose|i: int|
                    0 <= i < front.len() && proper_prefix(
                        p,
                        segments((#[trigger] front[i]).path),
                    );
                assert(records[i] == front[i]);
            }
            if proper_prefix(p, segs) {
                assert(records[records.len() - 1] == last);
            }
            if is_directory(records, p) {
                let i = choose|i: int|
                    0 <= i < records.len() && proper_prefix(
                        p,
                        segments((#[trigger] records[i]).path),
                    );
                if i < front.len() {
                    assert(records[i] == front[i]);
                }
            }
        }
    }
}

/// A path that some record lies below is a directory in the built tree,
/// whether or not a record gives it a size, and wherever that record
/// stands.
pub proof fn lemma_directory_wins(records: Seq<Record>, i: int, j: int)
    requires
        0 <= i < records.len(),
        0 <= j < records.len(),
        proper_prefix(segments(records[i].path), segments(records[j].path)),
    ensures
        place(build(records), segments(records[i].path)) is Directory,
{
    lemma_segments(records[i].path);
    lemma_place_in_build(records, segments(records[i].path));
}

/// A record that no other lies below is a file of its size in the built
/// tree, where the records of its path agree on the size.
pub proof fn lemma_file_is_kept(records: Seq<Record>, i: int)
    requires
        0 <= i < records.len(),
        sizes_agree(records),
        !is_directory(records, segments(records[i].path)),
    ensures
        place(build(records), segments(records[i].path)) == Place::File(records[i].size),
{
    let p = segments(records[i].path);
    lemma_segments(records[i].path);
    lemma_place_in_build(records, p);
    lemma_last_size(records, p);
    if last_size(records, p) is Some {
        let size = last_size(records, p)->Some_0;
        let k = choose|k: int|
            0 <= k < records.len() && segments((#[trigger] records[k]).path) == p
                && records[k].size == size;
        lemma_segments_one_to_one(records[i].path, records[k].path);
    }
}

/// Well-formed directories with the same at every place are the same
/// tree.
pub proof fn lemma_same_places_same_tree(a: Node, b: Node)
    requires
        a.wf(),
        b.wf(),
        a is Directory,
        b is Directory,
        forall|p: Seq<Seq<char>>| p.len() >= 1 ==> place(a, p) == place(b, p),
    ensures
        a == b,
    decreases a,
{
    let kids_a = a.children();
    let kids_b = b.children();
    assert forall|name: Seq<char>| get(kids_a, name) == get(kids_b, name) by {
        reveal_with_fuel(place, 2);
        let p = seq![name];
        assert(place(a, p) == place(b, p));
        assert(p.drop_first().len() == 0);
        lemma_rank(kids_a, name);
        lemma_rank(kids_b, name);
        if get(kids_a, name) is Some {
            let child_a = get(kids_a, name)->Some_0;
            let child_b = get(kids_b, name)->Some_0;
            assert(child_a == kids_a[rank(kids_a, name) as int].1);
            assert(child_b == kids_b[rank(kids_b, name) as int].1);
            if child_a is Directory {
                assert forall|q: Seq<Seq<char>>| q.len() >= 1 implies place(child_a, q) == place(
                    child_b,
                    q,
                ) by {
                    let long = seq![name] + q;
                    assert(long.drop_first() =~= q);
                    assert(place(a, long) == place(b, long));
                }
                assert(decreases_to!(a => a->Directory_0));
                lemma_same_places_same_tree(child_a, child_b);
            }
        }
    }
    lemma_children_equal(kids_a, kids_b);
}

/// The last size of a path that some record has is the size of a record
/// with that path.
pub proof fn lemma_last_size(records: Seq<Record>, p: Seq<Seq<char>>)
    ensures
        match last_size(records, p) {
            Some(size) => exists|i: int|
                0 <= i < records.len() && segments((#[trigger] records[i]).path) == p
                    && records[i].size == size,
            None => forall|i: int|
                0 <= i < records.len() ==> segments((#[trigger] records[i]).path) != p,
        },
    decreases records.len(),
{
    if records.len() > 0 {
        let front = records.drop_last();
        let n = records.len() - 1;
        if segments(records.last().path) == p {
            assert(records[n] == records.last());
        } else {
            lemma_last_size(front, p);
            match last_size(front, p) {
                Some(size) => {
                    let i = choose|i: int|
                        0 <= i < front.len() && segments((#[trigger] front[i]).path) == p
                            && front[i].size == size;
                    assert(records[i] == front[i]);
                },
                None => {
                    assert forall|i: int| 0 <= i < records.len() implies segments(
                        (#[trigger] records[i]).path,
                    ) != p by {
                        if i < n {
                            assert(records[i] == front[i]);
                        }
                    }
                },
            }
        }
    }
}

/// Lists of the same records say the same of every place, where the
/// records agree on the sizes.
pub proof fn lemma_same_records_same_places(a: Seq<Record>, b: Seq<Record>, p: Seq<Seq<char>>)
    requires
        same_records(a, b),
        sizes_agree(a),
    ensures
        place_by_records(a, p) == place_by_records(b, p),
{
    assert(is_directory(a, p) ==> is_directory(b, p)) by {
        if is_directory(a, p) {
            let i = choose|i: int|
                0 <= i < a.len() && proper_prefix(p, segments((#[trigger] a[i]).path));
            assert(a.contains(a[i]));
            let j = choose|j: int| 0 <= j < b.len() && b[j] == a[i];
            assert(proper_prefix(p, segments(b[j].path)));
        }
    }
    assert(is_directory(b, p) ==> is_directory(a, p)) by {
        if is_directory(b, p) {
            let i = choose|i: int|
                0 <= i < b.len() && proper_prefix(p, segments((#[trigger] b[i]).path));
            assert(b.contains(b[i]));
            let j = choose|j: int| 0 <= j < a.len() && a[j] == b[i];
            assert(proper_prefix(p, segments(a[j].path)));
        }
    }
    if !is_directory(a, p) {
        lemma_last_size(a, p);
        lemma_last_size(b, p);
        if last_size(a, p) is Some {
            let size = last_size(a, p)->Some_0;
            let i = choose|i: int|
                0 <= i < a.len() && segments((#[trigger] a[i]).path) == p && a[i].size == size;
            assert(a.contains(a[i]));
            let j = choose|j: int| 0 <= j < b.len() && b[j] == a[i];
            assert(segments(b[j].path) == p);
            // b has the path too, and the size it gives last is one of a's
            let other = last_size(b, p)->Some_0;
            let k = choose|k: int|
                0 <= k < b.len() && segments((#[trigger] b[k]).path) == p && b[k].size == other;
            assert(b.contains(b[k]));
            let m = choose|m: int| 0 <= m < a.len() && a[m] == b[k];
            lemma_segments_one_to_one(a[i].path, a[m].path);
            assert(a[i].size == a[m].size);
        } else if last_size(b, p) is Some {
            let other = last_size(b, p)->Some_0;
            let k = choose|k: int|
                0 <= k < b.len() && segments((#[trigger] b[k]).path) == p && b[k].size == other;
            assert(b.contains(b[k]));
            let m = choose|m: int| 0 <= m < a.len() && a[m] == b[k];
            assert(segments(a[m].path) == p);
        }
    }
}

/// Two lists of the same records build the same tree, where the records
/// of each path that is no directory agree on its size.
pub proof fn lemma_build_same_records(a: Seq<Record>, b: Seq<Record>)
    requires
        same_records(a, b),
        sizes_agree(a),
    ensures
        build(a) == build(b),
{
    lemma_build_wf(a);
    lemma_build_wf(b);
    lemma_build_is_directory(a);
    lemma_build_is_directory(b);
    assert forall|p: Seq<Seq<char>>| p.len() >= 1 implies place(build(a), p) == place(
        build(b),
        p,
    ) by {
        lemma_place_in_build(a, p);
        lemma_place_in_build(b, p);
        lemma_same_records_same_places(a, b, p);
    }
    lemma_same_places_same_tree(build(a), build(b));
}

/// Building the tree from the same records in another order gives the
/// same tree, where the records of each path that is no directory agree
/// on its size.
pub proof fn lemma_build_order_independent(a: Seq<Record>, b: Seq<Record>)
    requires
        a.to_multiset() == b.to_multiset(),
        sizes_agree(a),
    ensures
        build(a) == build(b),
{
    a.to_multiset_ensures();
    b.to_multiset_ensures();
    assert forall|r: Record| a.contains(r) <==> b.contains(r) by {
        assert(a.contains(r) <==> a.to_multiset().count(r) > 0);
        assert(b.contains(r) <==> b.to_multiset().count(r) > 0);
    }
    lemma_build_same_records(a, b);
}

/// What records build is a directory, also where there are none.
pub proof fn lemma_build_is_directory(records: Seq<Record>)
    ensures
        build(records) is Directory,
{
    if records.len() > 0 {
        lemma_segments(records.last().path);
    }
}

} // verus!
