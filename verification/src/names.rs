//! Names of directory entries: how they are ordered and how a path is cut
//! into them.

use vstd::prelude::*;
use vstd::std_specs::iter::IteratorSpec;

verus! {

/// The strict order of names: lexicographic by character, a proper prefix
/// sorting first.
pub open spec fn name_lt(a: Seq<char>, b: Seq<char>) -> bool
    decreases a.len(),
{
    if b.len() == 0 {
        false
    } else if a.len() == 0 {
        true
    } else if a[0] == b[0] {
        name_lt(a.drop_first(), b.drop_first())
    } else {
        a[0] < b[0]
    }
}

/// No name sorts before itself.
pub proof fn lemma_name_lt_irreflexive(a: Seq<char>)
    ensures
        !name_lt(a, a),
    decreases a.len(),
{
    if a.len() > 0 {
        lemma_name_lt_irreflexive(a.drop_first());
    }
}

/// The order of names is transitive.
pub proof fn lemma_name_lt_transitive(a: Seq<char>, b: Seq<char>, c: Seq<char>)
    requires
        name_lt(a, b),
        name_lt(b, c),
    ensures
        name_lt(a, c),
    decreases a.len(),
{
    if a.len() > 0 && a[0] == b[0] && b[0] == c[0] {
        lemma_name_lt_transitive(a.drop_first(), b.drop_first(), c.drop_first());
    }
}

/// Of two different names, one sorts before the other.
pub proof fn lemma_name_lt_total(a: Seq<char>, b: Seq<char>)
    ensures
        name_lt(a, b) || name_lt(b, a) || a == b,
    decreases a.len(),
{
    if a.len() > 0 && b.len() > 0 && a[0] == b[0] {
        lemma_name_lt_total(a.drop_first(), b.drop_first());
        if a.drop_first() == b.drop_first() {
            assert(a =~= seq![a[0]] + a.drop_first());
            assert(b =~= seq![b[0]] + b.drop_first());
        }
    } else if a.len() == 0 && b.len() == 0 {
        assert(a =~= b);
    }
}

/// Two names never sort before each other.
pub proof fn lemma_name_lt_asymmetric(a: Seq<char>, b: Seq<char>)
    requires
        name_lt(a, b),
    ensures
        !name_lt(b, a),
{
    if name_lt(b, a) {
        lemma_name_lt_transitive(a, b, a);
        lemma_name_lt_irreflexive(a);
    }
}

/// Decides whether `a` sorts strictly before `b`.
pub fn name_less(a: &str, b: &str) -> (less: bool)
    ensures
        less == name_lt(a@, b@),
{
    let mut xs = a.chars();
    let mut ys = b.chars();
    loop
        invariant
            name_lt(a@, b@) == name_lt(xs.remaining(), ys.remaining()),
            xs.decrease() is Some,
        decreases xs.decrease()->0,
    {
        let y = ys.next();
        let x = xs.next();
        match (x, y) {
            (_, None) => {
                return false;
            },
            (None, Some(_)) => {
                return true;
            },
            (Some(c), Some(d)) => {
                if c != d {
                    return c < d;
                }
            },
        }
    }
}

/// Decides whether `a` and `b` are the same name.
pub fn same_name(a: &str, b: &str) -> (same: bool)
    ensures
        same == (a@ == b@),
{
    let mut xs = a.chars();
    let mut ys = b.chars();
    let ghost mut seen: Seq<char> = Seq::empty();
    assert(seen + a@ =~= a@ && seen + b@ =~= b@);
    loop
        invariant
            a@ == seen + xs.remaining(),
            b@ == seen + ys.remaining(),
            xs.decrease() is Some,
        decreases xs.decrease()->0,
    {
        let ghost left = xs.remaining();
        let ghost right = ys.remaining();
        let x = xs.next();
        let y = ys.next();
        match (x, y) {
            (None, None) => {
                return true;
            },
            (Some(c), Some(d)) => {
                if c != d {
                    assert(a@[seen.len() as int] == c && b@[seen.len() as int] == d);
                    return false;
                }
                proof {
                    assert(seen.push(c) + left.drop_first() =~= seen + left);
                    assert(seen.push(c) + right.drop_first() =~= seen + right);
                    seen = seen.push(c);
                }
            },
            _ => {
                assert(a@.len() != b@.len());
                return false;
            },
        }
    }
}

/// The index of the first `/` in `path`, or the length of `path` where it
/// holds none.
pub open spec fn slash_at(path: Seq<char>) -> nat
    decreases path.len(),
{
    if path.len() == 0 || path[0] == '/' {
        0
    } else {
        1 + slash_at(path.drop_first())
    }
}

/// The names that `path` is made of: the pieces between its slashes, in
/// order. There is always at least one, and a piece may be empty.
pub open spec fn segments(path: Seq<char>) -> Seq<Seq<char>>
    decreases path.len(),
{
    let i = slash_at(path) as int;
    if i < path.len() {
        seq![path.take(i)] + segments(path.skip(i + 1))
    } else {
        seq![path]
    }
}

/// A path is made of at least one name, and the cut at its first slash
/// gives the first name and the names of the rest.
pub proof fn lemma_segments(path: Seq<char>)
    ensures
        segments(path).len() >= 1,
        segments(path)[0] == path.take(slash_at(path) as int),
        slash_at(path) < path.len() ==> segments(path).len() >= 2 && segments(path).drop_first()
            == segments(path.skip(slash_at(path) as int + 1)),
        slash_at(path) >= path.len() ==> segments(path) == seq![path],
    decreases path.len(),
{
    lemma_slash_at(path);
    let i = slash_at(path) as int;
    if i < path.len() {
        let rest = path.skip(i + 1);
        lemma_segments(rest);
        assert(segments(path).drop_first() =~= segments(rest));
    } else {
        assert(path.take(i) =~= path);
    }
}

/// Paths made of the same names are the same path.
pub proof fn lemma_segments_one_to_one(a: Seq<char>, b: Seq<char>)
    requires
        segments(a) == segments(b),
    ensures
        a == b,
    decreases a.len(),
{
    lemma_slash_at(a);
    lemma_slash_at(b);
    lemma_segments(a);
    lemma_segments(b);
    let i = slash_at(a) as int;
    let j = slash_at(b) as int;
    assert(a.take(i) == b.take(j));
    assert(a.take(i).len() == b.take(j).len());
    if i < a.len() {
        assert(j < b.len());
        lemma_segments_one_to_one(a.skip(i + 1), b.skip(j + 1));
        assert(a =~= a.take(i).push('/') + a.skip(i + 1));
        assert(b =~= b.take(j).push('/') + b.skip(j + 1));
    } else {
        assert(segments(b).len() == 1);
    }
}

/// `slash_at` is the least index that holds a slash.
pub proof fn lemma_slash_at(path: Seq<char>)
    ensures
        slash_at(path) <= path.len(),
        forall|j: int| 0 <= j < slash_at(path) ==> path[j] != '/',
        slash_at(path) < path.len() ==> path[slash_at(path) as int] == '/',
    decreases path.len(),
{
    if path.len() != 0 && path[0] != '/' {
        let rest = path.drop_first();
        lemma_slash_at(rest);
        assert forall|j: int| 0 <= j < slash_at(path) implies path[j] != '/' by {
            if j > 0 {
                assert(path[j] == rest[j - 1]);
            }
        }
    }
}

/// An index that holds a slash, with none before it, is `slash_at`.
pub proof fn lemma_slash_at_is(path: Seq<char>, i: int)
    requires
        0 <= i <= path.len(),
        forall|j: int| 0 <= j < i ==> path[j] != '/',
        i < path.len() ==> path[i] == '/',
    ensures
        slash_at(path) == i,
{
    lemma_slash_at(path);
    let k = slash_at(path) as int;
    if k < i {
        assert(path[k] != '/');
    } else if i < k {
        assert(path[i] == '/');
    }
}

/// Cuts `path` at its first slash: the leading name, and what follows the
/// slash where there is one.
pub fn split_first(path: &str) -> (parts: (&str, Option<&str>))
    ensures
        parts.0@ == path@.take(slash_at(path@) as int),
        parts.1 is Some <==> slash_at(path@) < path@.len(),
        parts.1 matches Some(rest) ==> rest@ == path@.skip(slash_at(path@) as int + 1),
{
    let n = path.unicode_len();
    let mut chars = path.chars();
    let mut i: usize = 0;
    loop
        invariant
            i <= n == path@.len(),
            chars.remaining() == path@.skip(i as int),
            forall|j: int| 0 <= j < i ==> path@[j] != '/',
            chars.decrease() is Some,
        decreases chars.decrease()->0,
    {
        match chars.next() {
            None => {
                proof {
                    lemma_slash_at_is(path@, i as int);
                }
                return (path, None);
            },
            Some(c) => {
                if c == '/' {
                    proof {
                        lemma_slash_at_is(path@, i as int);
                    }
                    let head = path.substring_char(0, i);
                    let rest = path.substring_char(i + 1, n);
                    return (head, Some(rest));
                }
                assert(path@.skip(i as int).drop_first() == path@.skip(i + 1));
                i += 1;
            },
        }
    }
}

} // verus!
