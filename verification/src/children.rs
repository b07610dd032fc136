//! The children of a directory, as an ordered map from names to trees.
//!
//! Children stand in ascending order of their names. A name is then found
//! at its rank, the number of names that sort before it, and a new child
//! belongs there too.

use crate::filetree::Node;
use crate::names::{
    lemma_name_lt_asymmetric, lemma_name_lt_irreflexive, lemma_name_lt_total,
    lemma_name_lt_transitive, name_lt,
};
use vstd::prelude::*;

verus! {

/// The children of a directory: names and what they lead to.
pub type Children = Seq<(Seq<char>, Node)>;

/// The names of `kids` strictly ascend, so no name occurs twice.
pub open spec fn ascending(kids: Children) -> bool {
    forall|i: int, j: int|
        0 <= i < j < kids.len() ==> name_lt(#[trigger] kids[i].0, #[trigger] kids[j].0)
}

/// How many of `kids` have a name that sorts before `name`. In ascending
/// children this is where `name` stands, or where it belongs.
pub open spec fn rank(kids: Children, name: Seq<char>) -> nat
    decreases kids.len(),
{
    if kids.len() == 0 {
        0
    } else {
        rank(kids.drop_last(), name) + if name_lt(kids.last().0, name) {
            1nat
        } else {
            0nat
        }
    }
}

/// The child called `name`, where there is one.
pub open spec fn get(kids: Children, name: Seq<char>) -> Option<Node> {
    let i = rank(kids, name) as int;
    if i < kids.len() && kids[i].0 == name {
        Some(kids[i].1)
    } else {
        None
    }
}

/// `kids` with the child called `name` set to `node`: replaced where it
/// exists, put in at its place in the order where it does not.
pub open spec fn put(kids: Children, name: Seq<char>, node: Node) -> Children {
    let i = rank(kids, name) as int;
    if i < kids.len() && kids[i].0 == name {
        kids.update(i, (name, node))
    } else {
        kids.insert(i, (name, node))
    }
}

/// Ascending children without the last are ascending.
pub proof fn lemma_ascending_drop_last(kids: Children)
    requires
        ascending(kids),
        kids.len() > 0,
    ensures
        ascending(kids.drop_last()),
{
    let front = kids.drop_last();
    assert forall|i: int, j: int| 0 <= i < j < front.len() implies name_lt(
        #[trigger] front[i].0,
        #[trigger] front[j].0,
    ) by {
        assert(front[i] == kids[i] && front[j] == kids[j]);
    }
}

/// In ascending children, exactly those before `rank` sort before `name`.
pub proof fn lemma_rank(kids: Children, name: Seq<char>)
    requires
        ascending(kids),
    ensures
        rank(kids, name) <= kids.len(),
        forall|j: int| 0 <= j < rank(kids, name) ==> name_lt(#[trigger] kids[j].0, name),
        forall|j: int| rank(kids, name) <= j < kids.len() ==> !name_lt(#[trigger] kids[j].0, name),
    decreases kids.len(),
{
    if kids.len() > 0 {
        let front = kids.drop_last();
        let last = kids.len() - 1;
        lemma_ascending_drop_last(kids);
        lemma_rank(front, name);
        let r = rank(front, name) as int;
        assert forall|j: int| 0 <= j < rank(kids, name) implies name_lt(
            #[trigger] kids[j].0,
            name,
        ) by {
            if j < last {
                if j >= r {
                    // then the last child sorts before `name`, and `j` before the last
                    assert(name_lt(kids[last].0, name));
                    lemma_name_lt_transitive(kids[j].0, kids[last].0, name);
                } else {
                    assert(front[j] == kids[j]);
                }
            }
        }
        assert forall|j: int| rank(kids, name) <= j < kids.len() implies !name_lt(
            #[trigger] kids[j].0,
            name,
        ) by {
            if j < last {
                assert(front[j] == kids[j]);
            } else if name_lt(kids[last].0, name) {
                // some earlier child does not sort before `name`, yet sorts before the last
                assert(front[r] == kids[r]);
                lemma_name_lt_transitive(kids[r].0, kids[last].0, name);
            }
        }
    }
}

/// An index with the earlier names before `name`, and no later one, is
/// the rank of `name`.
pub proof fn lemma_rank_is(kids: Children, name: Seq<char>, i: int)
    requires
        0 <= i <= kids.len(),
        forall|j: int| 0 <= j < i ==> name_lt(#[trigger] kids[j].0, name),
        forall|j: int| i <= j < kids.len() ==> !name_lt(#[trigger] kids[j].0, name),
    ensures
        rank(kids, name) == i,
    decreases kids.len(),
{
    if kids.len() > 0 {
        let front = kids.drop_last();
        let k = if i < kids.len() {
            i
        } else {
            i - 1
        };
        assert forall|j: int| 0 <= j < k implies name_lt(#[trigger] front[j].0, name) by {
            assert(front[j] == kids[j]);
        }
        assert forall|j: int| k <= j < front.len() implies !name_lt(#[trigger] front[j].0, name) by {
            assert(front[j] == kids[j]);
        }
        lemma_rank_is(front, name, k);
        assert(kids.last() == kids[kids.len() - 1]);
    }
}

/// In ascending children, each child stands at the rank of its name.
pub proof fn lemma_rank_of_child(kids: Children, i: int)
    requires
        ascending(kids),
        0 <= i < kids.len(),
    ensures
        rank(kids, kids[i].0) == i,
        get(kids, kids[i].0) == Some(kids[i].1),
{
    let name = kids[i].0;
    assert forall|j: int| i <= j < kids.len() implies !name_lt(#[trigger] kids[j].0, name) by {
        if j == i {
            lemma_name_lt_irreflexive(name);
        } else {
            lemma_name_lt_asymmetric(name, kids[j].0);
        }
    }
    lemma_rank_is(kids, name, i);
}

/// After a child is set, its name leads to it, and every other name
/// leads where it led before.
pub proof fn lemma_get_put(kids: Children, name: Seq<char>, node: Node, other: Seq<char>)
    requires
        ascending(kids),
    ensures
        get(put(kids, name, node), other) == if other == name {
            Some(node)
        } else {
            get(kids, other)
        },
{
    lemma_rank(kids, name);
    lemma_put_ascending(kids, name, node);
    let i = rank(kids, name) as int;
    let after = put(kids, name, node);
    let replaced = i < kids.len() && kids[i].0 == name;
    assert(after[i] == (name, node));
    if other == name {
        lemma_rank_of_child(after, i);
    } else {
        lemma_rank(kids, other);
        lemma_rank(after, other);
        let k = rank(kids, other) as int;
        let m = rank(after, other) as int;
        if k < kids.len() && kids[k].0 == other {
            let to = if replaced || k < i {
                k
            } else {
                k + 1
            };
            assert(after[to] == kids[k]);
            lemma_rank_of_child(after, to);
        } else if m < after.len() && after[m].0 == other {
            let from = if replaced || m < i {
                m
            } else {
                m - 1
            };
            assert(after[m] == kids[from]);
            lemma_rank_of_child(kids, from);
        }
    }
}

/// Ascending children that lead to the same from every name are the same.
pub proof fn lemma_children_equal(a: Children, b: Children)
    requires
        ascending(a),
        ascending(b),
        forall|name: Seq<char>| get(a, name) == get(b, name),
    ensures
        a == b,
    decreases a.len(),
{
    if a.len() == 0 {
        if b.len() > 0 {
            lemma_rank_of_child(b, 0);
            assert(get(a, b[0].0) == get(b, b[0].0));
        }
        assert(a =~= b);
    } else {
        let n = a.len() - 1;
        lemma_rank_of_child(a, n);
        assert(get(a, a[n].0) == get(b, a[n].0));
        let m = b.len() - 1;
        lemma_rank_of_child(b, m);
        assert(get(a, b[m].0) == get(b, b[m].0));
        // the last names are the same: each occurs in the other, at or before the last
        let x = rank(b, a[n].0) as int;
        let y = rank(a, b[m].0) as int;
        assert(b[x].0 == a[n].0 && a[y].0 == b[m].0);
        if x < m && y < n {
            lemma_name_lt_transitive(a[n].0, b[m].0, a[n].0);
            lemma_name_lt_irreflexive(a[n].0);
        }
        if x < m {
            assert(y == n);
            lemma_name_lt_irreflexive(b[m].0);
        }
        if y < n {
            lemma_name_lt_irreflexive(a[n].0);
        }
        assert(a[n] == b[m]);
        let front_a = a.drop_last();
        let front_b = b.drop_last();
        lemma_ascending_drop_last(a);
        lemma_ascending_drop_last(b);
        assert forall|name: Seq<char>| get(front_a, name) == get(front_b, name) by {
            lemma_drop_last_get(a, name);
            lemma_drop_last_get(b, name);
            assert(get(a, name) == get(b, name));
        }
        lemma_children_equal(front_a, front_b);
        assert(a =~= front_a.push(a[n]));
        assert(b =~= front_b.push(b[m]));
    }
}

/// Without their last child, ascending children lead from every name but
/// its own where they led before.
pub proof fn lemma_drop_last_get(kids: Children, name: Seq<char>)
    requires
        ascending(kids),
        kids.len() > 0,
    ensures
        get(kids.drop_last(), name) == if name == kids.last().0 {
            None
        } else {
            get(kids, name)
        },
{
    let front = kids.drop_last();
    let n = kids.len() - 1;
    lemma_ascending_drop_last(kids);
    lemma_rank(kids, name);
    lemma_rank(front, name);
    let k = rank(kids, name) as int;
    let m = rank(front, name) as int;
    if m < front.len() && front[m].0 == name {
        assert(front[m] == kids[m]);
        lemma_rank_of_child(kids, m);
        if name == kids[n].0 {
            lemma_name_lt_irreflexive(name);
        }
    } else if k < n && kids[k].0 == name {
        assert(front[k] == kids[k]);
        lemma_rank_of_child(front, k);
    }
}

/// Setting a child keeps the children in ascending order.
pub proof fn lemma_put_ascending(kids: Children, name: Seq<char>, node: Node)
    requires
        ascending(kids),
    ensures
        ascending(put(kids, name, node)),
{
    lemma_rank(kids, name);
    let i = rank(kids, name) as int;
    let after = put(kids, name, node);
    if !(i < kids.len() && kids[i].0 == name) {
        assert forall|a: int, b: int| 0 <= a < b < after.len() implies name_lt(
            #[trigger] after[a].0,
            #[trigger] after[b].0,
        ) by {
            if b == i {
                assert(after[a] == kids[a]);
            } else if a == i {
                let k = b - 1;
                assert(after[b] == kids[k]);
                assert(!name_lt(kids[k].0, name));
                if k > i && kids[k].0 == name {
                    assert(name_lt(kids[i].0, kids[k].0));
                }
                lemma_name_lt_total(name, kids[k].0);
            } else {
                let x = if a < i {
                    a
                } else {
                    a - 1
                };
                let y = if b < i {
                    b
                } else {
                    b - 1
                };
                assert(after[a] == kids[x] && after[b] == kids[y]);
            }
        }
    } else {
        assert forall|a: int, b: int| 0 <= a < b < after.len() implies name_lt(
            #[trigger] after[a].0,
            #[trigger] after[b].0,
        ) by {
            assert(after[a].0 == kids[a].0 && after[b].0 == kids[b].0);
        }
    }
}

/// Setting a child to a well-formed tree keeps well-formed children so.
pub proof fn lemma_put_wf(kids: Children, name: Seq<char>, node: Node)
    requires
        Node::Directory(kids).wf(),
        node.wf(),
    ensures
        Node::Directory(put(kids, name, node)).wf(),
{
    lemma_rank(kids, name);
    lemma_put_ascending(kids, name, node);
    let i = rank(kids, name) as int;
    let after = put(kids, name, node);
    assert forall|j: int| 0 <= j < after.len() implies (#[trigger] after[j]).1.wf() by {
        if j != i {
            let k = if i < kids.len() && kids[i].0 == name || j < i {
                j
            } else {
                j - 1
            };
            assert(after[j] == kids[k]);
        }
    }
}

} // verus!
