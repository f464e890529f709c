use vstd::prelude::*;
use std::cmp::Ordering;
use crate::entry::{Order, Ordered, same_key, lemma_same_key_transitive, lemma_precedes_same_key};

verus! {

/// A node of a search tree: an entry and the two subtrees it owns.
pub struct BSTNode<T> {
    pub data: T,
    pub left: Option<Box<BSTNode<T>>>,
    pub right: Option<Box<BSTNode<T>>>,
}

/// A binary search tree; the empty tree has no root.
pub struct BSTree<T> {
    pub root: Option<Box<BSTNode<T>>>,
}

/// The entries of a subtree from left to right.
pub open spec fn entries_of<T>(t: Option<Box<BSTNode<T>>>) -> Seq<T>
    decreases t,
{
    match t {
        None => Seq::empty(),
        Some(n) => entries_of(n.left) + seq![n.data] + entries_of(n.right),
    }
}

/// The entries of a subtree: node first, then left, then right.
pub open spec fn pre_order_of<T>(t: Option<Box<BSTNode<T>>>) -> Seq<T>
    decreases t,
{
    match t {
        None => Seq::empty(),
        Some(n) => seq![n.data] + pre_order_of(n.left) + pre_order_of(n.right),
    }
}

/// The entries of a subtree: left, then right, then the node.
pub open spec fn post_order_of<T>(t: Option<Box<BSTNode<T>>>) -> Seq<T>
    decreases t,
{
    match t {
        None => Seq::empty(),
        Some(n) => post_order_of(n.left) + post_order_of(n.right) + seq![n.data],
    }
}

/// The entries that a sequence of references points to.
pub open spec fn deref_all<T>(s: Seq<&T>) -> Seq<T> {
    s.map_values(|x: &T| *x)
}

pub open spec fn walk_of<T>(t: Option<Box<BSTNode<T>>>, order: Order) -> Seq<T> {
    match order {
        Order::Pre => pre_order_of(t),
        Order::In => entries_of(t),
        Order::Post => post_order_of(t),
    }
}

/// Each entry strictly precedes every entry to its right.
pub open spec fn sorted<T: Ordered>(s: Seq<T>) -> bool {
    forall|i: int, j: int| 0 <= i < j < s.len() ==> #[trigger] s[i].precedes(#[trigger] s[j])
}

/// Some entry has the key of `x`.
pub open spec fn holds_key<T: Ordered>(s: Seq<T>, x: T) -> bool {
    exists|i: int| 0 <= i < s.len() && same_key(#[trigger] s[i], x)
}

/// The update keeps the key of the entry it is given.
pub open spec fn keeps_key<T: Ordered, F: Fn(T) -> T>(f: F) -> bool {
    forall|x: T, y: T| #[trigger] f.ensures((x,), y) ==> same_key(x, y)
}

/// The update may be applied to every entry of `s` with the key of `x`.
pub open spec fn applies_to_key<T: Ordered, F: Fn(T) -> T>(s: Seq<T>, x: T, f: F) -> bool {
    forall|i: int| 0 <= i < s.len() && same_key(#[trigger] s[i], x) ==> f.requires((s[i],))
}

/// `r` is `s` after inserting `x`: where `s` holds the key of `x`, that one entry
/// is replaced by what `f` made of it; otherwise `x` is added at some place.
pub open spec fn inserted<T: Ordered, F: Fn(T) -> T>(s: Seq<T>, x: T, f: F, r: Seq<T>) -> bool {
    if holds_key(s, x) {
        exists|i: int|
            0 <= i < s.len() && same_key(s[i], x) && r.len() == s.len() && r == s.update(i, r[i])
                && #[trigger] f.ensures((s[i],), r[i])
    } else {
        exists|p: int| 0 <= p <= s.len() && r == #[trigger] s.insert(p, x)
    }
}

/// `r` is `s` without its entry with the key of `x`, if it has one.
pub open spec fn deleted<T: Ordered>(s: Seq<T>, x: T, r: Seq<T>) -> bool {
    if holds_key(s, x) {
        exists|i: int| 0 <= i < s.len() && same_key(s[i], x) && r == #[trigger] s.remove(i)
    } else {
        r == s
    }
}

/// The subtree after inserting `x`, node by node: an empty slot becomes a new
/// leaf holding `x`; otherwise the search goes left or right as `x` precedes or
/// follows the node's entry, keeping the entry and the other subtree; at an
/// entry with the key of `x`, both subtrees stay and the entry becomes one
/// that `merged` relates to it.
pub open spec fn insert_shape<T: Ordered>(
    t: Option<Box<BSTNode<T>>>,
    x: T,
    merged: spec_fn(T, T) -> bool,
    r: Option<Box<BSTNode<T>>>,
) -> bool
    decreases t,
{
    match t {
        None => r is Some && r->0.data == x && r->0.left is None && r->0.right is None,
        Some(n) => r is Some && if x.precedes(n.data) {
            &&& r->0.data == n.data
            &&& r->0.right == n.right
            &&& insert_shape(n.left, x, merged, r->0.left)
        } else if n.data.precedes(x) {
            &&& r->0.data == n.data
            &&& r->0.left == n.left
            &&& insert_shape(n.right, x, merged, r->0.right)
        } else {
            &&& r->0.left == n.left
            &&& r->0.right == n.right
            &&& merged(n.data, r->0.data)
        },
    }
}

/// The entry of the leftmost node under `n`: the least entry.
pub open spec fn leftmost<T>(n: BSTNode<T>) -> T
    decreases n,
{
    match n.left {
        None => n.data,
        Some(l) => leftmost(*l),
    }
}

/// The subtree `n` with its leftmost node spliced out: that node's slot takes
/// its right subtree.
pub open spec fn without_leftmost<T>(n: BSTNode<T>) -> Option<Box<BSTNode<T>>>
    decreases n,
{
    match n.left {
        None => n.right,
        Some(l) => Some(Box::new(BSTNode { data: n.data, left: without_leftmost(*l), right: n.right })),
    }
}

/// The subtree after deleting the key of `x`. The search goes left or right
/// as in an insert, and where no entry has the key the subtree is unchanged.
/// The node with the key is detached if it is a leaf, replaced by its child if
/// it has one, and otherwise keeps its place and its left subtree, takes the
/// entry of its in-order successor, and loses that successor from its right
/// subtree.
pub open spec fn delete_shape<T: Ordered>(t: Option<Box<BSTNode<T>>>, x: T) -> Option<Box<BSTNode<T>>>
    decreases t,
{
    match t {
        None => None,
        Some(n) => if x.precedes(n.data) {
            Some(Box::new(BSTNode { data: n.data, left: delete_shape(n.left, x), right: n.right }))
        } else if n.data.precedes(x) {
            Some(Box::new(BSTNode { data: n.data, left: n.left, right: delete_shape(n.right, x) }))
        } else {
            match n.right {
                None => n.left,
                Some(rb) => match n.left {
                    None => n.right,
                    Some(_) => Some(Box::new(BSTNode { data: leftmost(*rb), left: n.left, right: without_leftmost(*rb) })),
                },
            }
        },
    }
}

/// A sorted sequence splits at any entry into two sorted parts, all of the
/// first before it and all of the second after it; and back.
proof fn lemma_sorted_split<T: Ordered>(a: Seq<T>, d: T, b: Seq<T>)
    ensures
        sorted(a + seq![d] + b) <==> (sorted(a) && sorted(b) && (forall|k: int|
            0 <= k < a.len() ==> (#[trigger] a[k]).precedes(d)) && (forall|k: int|
            0 <= k < b.len() ==> d.precedes(#[trigger] b[k]))),
{
    let s = a + seq![d] + b;
    assert forall|k: int| 0 <= k < a.len() implies s[k] == a[k] by {}
    assert forall|k: int| 0 <= k < b.len() implies s[a.len() + 1 + k] == b[k] by {}
    assert(s[a.len() as int] == d);
    if sorted(s) {
        assert forall|i: int, j: int| 0 <= i < j < a.len() implies a[i].precedes(a[j]) by {
            assert(s[i] == a[i] && s[j] == a[j]);
        }
        assert forall|i: int, j: int| 0 <= i < j < b.len() implies b[i].precedes(b[j]) by {
            assert(s[a.len() + 1 + i] == b[i] && s[a.len() + 1 + j] == b[j]);
        }
        assert forall|k: int| 0 <= k < a.len() implies (#[trigger] a[k]).precedes(d) by {
            assert(s[k] == a[k]);
        }
        assert forall|k: int| 0 <= k < b.len() implies d.precedes(#[trigger] b[k]) by {
            assert(s[a.len() + 1 + k] == b[k]);
        }
    }
    if sorted(a) && sorted(b) && (forall|k: int| 0 <= k < a.len() ==> (#[trigger] a[k]).precedes(d))
        && (forall|k: int| 0 <= k < b.len() ==> d.precedes(#[trigger] b[k])) {
        assert forall|i: int, j: int| 0 <= i < j < s.len() implies s[i].precedes(s[j]) by {
            let n = a.len() as int;
            if j < n {
                assert(s[i] == a[i] && s[j] == a[j]);
            } else if j == n {
                assert(s[i] == a[i]);
            } else if i < n {
                assert(s[i] == a[i] && s[j] == b[j - n - 1]);
                T::precedes_transitive(a[i], d, b[j - n - 1]);
            } else if i == n {
                assert(s[j] == b[j - n - 1]);
            } else {
                assert(s[i] == b[i - n - 1] && s[j] == b[j - n - 1]);
            }
        }
    }
}

/// In a sorted sequence at most one entry has a given key.
pub proof fn lemma_key_unique<T: Ordered>(s: Seq<T>, x: T, i: int, j: int)
    requires
        sorted(s),
        0 <= i < s.len(),
        0 <= j < s.len(),
        same_key(s[i], x),
        same_key(s[j], x),
    ensures
        i == j,
{
    lemma_same_key_transitive(s[i], x, s[j]);
    if i < j {
        assert(s[i].precedes(s[j]));
    }
    if j < i {
        assert(s[j].precedes(s[i]));
    }
}

/// Where `x` comes before the entry `d`, only the part left of `d` can hold its key.
proof fn lemma_key_left_of<T: Ordered>(a: Seq<T>, d: T, b: Seq<T>, x: T)
    requires
        sorted(a + seq![d] + b),
        x.precedes(d),
    ensures
        forall|i: int| 0 <= i < (a + seq![d] + b).len() && same_key(#[trigger] (a + seq![d] + b)[i], x)
            ==> i < a.len(),
        holds_key(a + seq![d] + b, x) == holds_key(a, x),
{
    let s = a + seq![d] + b;
    lemma_sorted_split(a, d, b);
    assert forall|i: int| 0 <= i < s.len() && same_key(#[trigger] s[i], x) implies i < a.len() by {
        if i >= a.len() {
            if i > a.len() {
                assert(s[i] == b[i - a.len() - 1]);
                T::precedes_transitive(x, d, s[i]);
            }
        }
    }
    if holds_key(a, x) {
        let i = choose|i: int| 0 <= i < a.len() && same_key(#[trigger] a[i], x);
        assert(s[i] == a[i]);
    }
    if holds_key(s, x) {
        let i = choose|i: int| 0 <= i < s.len() && same_key(#[trigger] s[i], x);
        assert(s[i] == a[i]);
    }
}

/// Where `x` comes after the entry `d`, only the part right of `d` can hold its key.
proof fn lemma_key_right_of<T: Ordered>(a: Seq<T>, d: T, b: Seq<T>, x: T)
    requires
        sorted(a + seq![d] + b),
        d.precedes(x),
    ensures
        forall|i: int| 0 <= i < (a + seq![d] + b).len() && same_key(#[trigger] (a + seq![d] + b)[i], x)
            ==> i > a.len(),
        holds_key(a + seq![d] + b, x) == holds_key(b, x),
{
    let s = a + seq![d] + b;
    let n = a.len() as int;
    lemma_sorted_split(a, d, b);
    assert forall|i: int| 0 <= i < s.len() && same_key(#[trigger] s[i], x) implies i > n by {
        if i < n {
            assert(s[i] == a[i]);
            T::precedes_transitive(s[i], d, x);
        }
    }
    if holds_key(b, x) {
        let i = choose|i: int| 0 <= i < b.len() && same_key(#[trigger] b[i], x);
        assert(s[n + 1 + i] == b[i]);
    }
    if holds_key(s, x) {
        let i = choose|i: int| 0 <= i < s.len() && same_key(#[trigger] s[i], x);
        assert(s[i] == b[i - n - 1]);
    }
}


/// At every node, each entry of the left subtree precedes the node's entry,
/// and the node's entry precedes each entry of the right subtree.
pub open spec fn ordered_at_every_node<T: Ordered>(t: Option<Box<BSTNode<T>>>) -> bool
    decreases t,
{
    match t {
        None => true,
        Some(n) => {
            &&& forall|k: int| 0 <= k < entries_of(n.left).len()
                ==> (#[trigger] entries_of(n.left)[k]).precedes(n.data)
            &&& forall|k: int| 0 <= k < entries_of(n.right).len()
                ==> n.data.precedes(#[trigger] entries_of(n.right)[k])
            &&& ordered_at_every_node(n.left)
            &&& ordered_at_every_node(n.right)
        },
    }
}

proof fn lemma_sorted_ordered<T: Ordered>(t: Option<Box<BSTNode<T>>>)
    requires
        sorted(entries_of(t)),
    ensures
        ordered_at_every_node(t),
    decreases t,
{
    if let Some(n) = t {
        lemma_sorted_split(entries_of(n.left), n.data, entries_of(n.right));
        lemma_sorted_ordered(n.left);
        lemma_sorted_ordered(n.right);
    }
}

/// A well-formed tree is ordered at every node.
pub proof fn lemma_ordering_invariant<T: Ordered>(tree: BSTree<T>)
    requires
        tree.wf(),
    ensures
        ordered_at_every_node(tree.root),
{
    lemma_sorted_ordered(tree.root);
}

/// After deleting a key that is present, the key is gone, one entry fewer
/// remains, and every other entry is still there, unchanged.
pub proof fn lemma_delete_then_find<T: Ordered>(s: Seq<T>, x: T, r: Seq<T>)
    requires
        sorted(s),
        holds_key(s, x),
        deleted(s, x, r),
    ensures
        !holds_key(r, x),
        r.len() == s.len() - 1,
        forall|j: int| 0 <= j < s.len() && !same_key(s[j], x) ==> r.contains(#[trigger] s[j]),
        forall|y: T| !same_key(y, x) ==> holds_key(r, y) == holds_key(s, y),
{
    let i = choose|i: int| 0 <= i < s.len() && same_key(s[i], x) && r == #[trigger] s.remove(i);
    assert forall|k: int| 0 <= k < r.len() implies r[k] == s[if k < i { k } else { k + 1 }] by {}
    if holds_key(r, x) {
        let k = choose|k: int| 0 <= k < r.len() && same_key(#[trigger] r[k], x);
        let k2 = if k < i { k } else { k + 1 };
        assert(r[k] == s[k2]);
        lemma_key_unique(s, x, i, k2);
    }
    assert forall|j: int| 0 <= j < s.len() && !same_key(s[j], x) implies r.contains(#[trigger] s[j]) by {
        let k = if j < i { j } else { j - 1 };
        assert(r[k] == s[j]);
    }
    assert forall|y: T| !same_key(y, x) implies holds_key(r, y) == holds_key(s, y) by {
        if holds_key(s, y) {
            let j = choose|j: int| 0 <= j < s.len() && same_key(#[trigger] s[j], y);
            if j == i {
                lemma_same_key_transitive(y, s[i], x);
                assert(same_key(y, s[i]));
            }
            let k = if j < i { j } else { j - 1 };
            assert(r[k] == s[j]);
        }
        if holds_key(r, y) {
            let k = choose|k: int| 0 <= k < r.len() && same_key(#[trigger] r[k], y);
            assert(r[k] == s[if k < i { k } else { k + 1 }]);
        }
    }
}

/// Two ascending sequences of the same entries are one sequence: the in-order
/// walk of a tree does not depend on the order in which its entries came.
pub proof fn lemma_in_order_unique<T: Ordered>(s1: Seq<T>, s2: Seq<T>)
    requires
        sorted(s1),
        sorted(s2),
        forall|x: T| s1.contains(x) <==> s2.contains(x),
    ensures
        s1 == s2,
    decreases s1.len(),
{
    if s1.len() == 0 {
        if s2.len() > 0 {
            assert(s2.contains(s2[0]));
        }
        assert(s1 =~= s2);
    } else {
        assert(s1.contains(s1[0]));
        let j = choose|j: int| 0 <= j < s2.len() && s2[j] == s1[0];
        assert(s2.contains(s2[0]));
        let i = choose|i: int| 0 <= i < s1.len() && s1[i] == s2[0];
        if j > 0 && i > 0 {
            assert(s2[0].precedes(s2[j]));
            assert(s1[0].precedes(s1[i]));
            T::precedes_transitive(s1[0], s2[0], s1[0]);
            T::precedes_irreflexive(s1[0]);
        } else if j > 0 {
            assert(s2[0].precedes(s2[j]));
            T::precedes_irreflexive(s1[0]);
        }
        assert(s1[0] == s2[0]);
        let t1 = s1.drop_first();
        let t2 = s2.drop_first();
        assert forall|x: T| t1.contains(x) <==> t2.contains(x) by {
            if t1.contains(x) {
                let a = choose|a: int| 0 <= a < t1.len() && t1[a] == x;
                assert(s1[0].precedes(s1[a + 1]));
                T::precedes_irreflexive(x);
                assert(s2.contains(x));
                let b = choose|b: int| 0 <= b < s2.len() && s2[b] == x;
                assert(b != 0);
                assert(t2[b - 1] == x);
            }
            if t2.contains(x) {
                let a = choose|a: int| 0 <= a < t2.len() && t2[a] == x;
                assert(s2[0].precedes(s2[a + 1]));
                T::precedes_irreflexive(x);
                assert(s1.contains(x));
                let b = choose|b: int| 0 <= b < s1.len() && s1[b] == x;
                assert(b != 0);
                assert(t1[b - 1] == x);
            }
        }
        assert forall|a: int, b: int| 0 <= a < b < t1.len() implies t1[a].precedes(t1[b]) by {
            assert(s1[a + 1].precedes(s1[b + 1]));
        }
        assert forall|a: int, b: int| 0 <= a < b < t2.len() implies t2[a].precedes(t2[b]) by {
            assert(s2[a + 1].precedes(s2[b + 1]));
        }
        lemma_in_order_unique(t1, t2);
        assert(s1 =~= seq![s1[0]] + t1);
        assert(s2 =~= seq![s2[0]] + t2);
    }
}

/// No two of `ks` share a key.
pub open spec fn distinct_keys<T: Ordered>(ks: Seq<T>) -> bool {
    forall|i: int, j: int| 0 <= i < ks.len() && 0 <= j < ks.len() && i != j ==> !same_key(
        #[trigger] ks[i],
        #[trigger] ks[j],
    )
}

/// `states` are the in-order sequences of a tree that starts empty and takes
/// the entries `ks` one by one, as `insert_fn` leaves them.
pub open spec fn built_by_inserts<T: Ordered, F: Fn(T) -> T>(ks: Seq<T>, f: F, states: Seq<Seq<T>>) -> bool {
    &&& states.len() == ks.len() + 1
    &&& states[0] == Seq::<T>::empty()
    &&& forall|i: int| 0 <= i <= ks.len() ==> sorted(#[trigger] states[i])
    &&& forall|i: int| 0 <= i < ks.len() ==> #[trigger] inserted(states[i], ks[i], f, states[i + 1])
}

proof fn lemma_contents_after_inserts<T: Ordered, F: Fn(T) -> T>(ks: Seq<T>, f: F, states: Seq<Seq<T>>, n: int)
    requires
        built_by_inserts(ks, f, states),
        distinct_keys(ks),
        0 <= n <= ks.len(),
    ensures
        forall|x: T| states[n].contains(x) <==> ks.take(n).contains(x),
    decreases n,
{
    if n == 0 {
        assert(ks.take(0) =~= Seq::<T>::empty());
    } else {
        let m = n - 1;
        lemma_contents_after_inserts(ks, f, states, m);
        let s = states[m];
        let x = ks[m];
        assert(inserted(states[m], ks[m], f, states[m + 1]));
        if holds_key(s, x) {
            let i = choose|i: int| 0 <= i < s.len() && same_key(#[trigger] s[i], x);
            assert(s.contains(s[i]));
            let j = choose|j: int| 0 <= j < ks.take(m).len() && ks.take(m)[j] == s[i];
            assert(ks[j] == s[i]);
            assert(!same_key(ks[j], ks[m]));
        }
        let p = choose|p: int| 0 <= p <= s.len() && states[n] == #[trigger] s.insert(p, x);
        assert(ks.take(n) =~= ks.take(m).push(x));
        assert forall|y: T| states[n].contains(y) <==> ks.take(n).contains(y) by {
            let r = states[n];
            if r.contains(y) {
                let k = choose|k: int| 0 <= k < r.len() && r[k] == y;
                if k < p {
                    assert(s[k] == y);
                } else if k > p {
                    assert(s[k - 1] == y);
                }
                if y != x {
                    assert(s.contains(y));
                    assert(ks.take(m).contains(y));
                    let j = choose|j: int| 0 <= j < ks.take(m).len() && ks.take(m)[j] == y;
                    assert(ks.take(n)[j] == y);
                } else {
                    assert(ks.take(n)[m] == y);
                }
            }
            if ks.take(n).contains(y) {
                let j = choose|j: int| 0 <= j < ks.take(n).len() && ks.take(n)[j] == y;
                if j == m {
                    assert(r[p] == y);
                } else {
                    assert(ks.take(m)[j] == y);
                    assert(s.contains(y));
                    let k = choose|k: int| 0 <= k < s.len() && s[k] == y;
                    if k < p {
                        assert(r[k] == y);
                    } else {
                        assert(r[k + 1] == y);
                    }
                }
            }
        }
    }
}

/// Inserting the same entries, no two with one key, in any two orders gives
/// the same in-order walk.
pub proof fn lemma_insert_order_irrelevant<T: Ordered, F: Fn(T) -> T>(
    ks1: Seq<T>,
    ks2: Seq<T>,
    f: F,
    states1: Seq<Seq<T>>,
    states2: Seq<Seq<T>>,
)
    requires
        distinct_keys(ks1),
        distinct_keys(ks2),
        forall|x: T| ks1.contains(x) <==> ks2.contains(x),
        built_by_inserts(ks1, f, states1),
        built_by_inserts(ks2, f, states2),
    ensures
        states1.last() == states2.last(),
{
    lemma_contents_after_inserts(ks1, f, states1, ks1.len() as int);
    lemma_contents_after_inserts(ks2, f, states2, ks2.len() as int);
    assert(ks1.take(ks1.len() as int) =~= ks1);
    assert(ks2.take(ks2.len() as int) =~= ks2);
    assert(sorted(states1[ks1.len() as int]));
    assert(sorted(states2[ks2.len() as int]));
    lemma_in_order_unique(states1.last(), states2.last());
}

/// On an empty tree nothing is found, a delete changes nothing and fails,
/// and every walk is empty.
pub proof fn lemma_empty_tree<T: Ordered>(x: T, order: Order)
    ensures
        !holds_key(Seq::<T>::empty(), x),
        deleted(Seq::<T>::empty(), x, Seq::<T>::empty()),
        walk_of(None::<Box<BSTNode<T>>>, order) == Seq::<T>::empty(),
{
    assert(pre_order_of(None::<Box<BSTNode<T>>>) == Seq::<T>::empty());
    assert(post_order_of(None::<Box<BSTNode<T>>>) == Seq::<T>::empty());
    assert(entries_of(None::<Box<BSTNode<T>>>) == Seq::<T>::empty());
}

impl<T> BSTNode<T> {
    pub fn new(data: T) -> (r: BSTNode<T>)
        ensures
            r.data == data,
            r.left is None,
            r.right is None,
    {
        BSTNode { data, left: None, right: None }
    }
}

fn insert_node<T: Ordered, F: Fn(T) -> T>(t: Option<Box<BSTNode<T>>>, data: T, f: &F) -> (r:
    Option<Box<BSTNode<T>>>)
    requires
        sorted(entries_of(t)),
        keeps_key(*f),
        applies_to_key(entries_of(t), data, *f),
    ensures
        sorted(entries_of(r)),
        inserted(entries_of(t), data, *f, entries_of(r)),
        insert_shape(t, data, |a: T, b: T| f.ensures((a,), b), r),
    decreases t,
{
    match t {
        None => {
            let r = Some(Box::new(BSTNode::new(data)));
            assert(entries_of(t) =~= Seq::<T>::empty());
            assert(entries_of(r) =~= entries_of(t).insert(0, data));
            assert(!holds_key(entries_of(t), data));
            r
        },
        Some(b) => {
            let mut n = *b;
            let ghost a = entries_of(n.left);
            let ghost d = n.data;
            let ghost c = entries_of(n.right);
            let ghost s = a + seq![d] + c;
            assert(entries_of(t) == s);
            proof {
                lemma_sorted_split(a, d, c);
            }
            match data.compare(&n.data) {
                Ordering::Less => {
                    proof {
                        lemma_key_left_of(a, d, c, data);
                        assert forall|i: int| 0 <= i < a.len() && same_key(#[trigger] a[i], data)
                            implies f.requires((a[i],)) by {
                            assert(s[i] == a[i]);
                        }
                    }
                    n.left = insert_node(n.left, data, f);
                    let ghost a2 = entries_of(n.left);
                    proof {
                        if holds_key(a, data) {
                            let i = choose|i: int|
                                0 <= i < a.len() && same_key(a[i], data) && a2.len() == a.len()
                                    && a2 == a.update(i, a2[i]) && #[trigger] f.ensures((a[i],), a2[i]);
                            assert(a2 + seq![d] + c =~= s.update(i, a2[i]));
                            assert(s[i] == a[i]);
                            assert((a2 + seq![d] + c)[i] == a2[i]);
                            assert(f.ensures((s[i],), (a2 + seq![d] + c)[i]));
                            assert forall|k: int| 0 <= k < a2.len() implies (#[trigger] a2[k]).precedes(d) by {
                                if k == i {
                                    lemma_precedes_same_key(d, a[i], a2[i]);
                                } else {
                                    assert(a2[k] == a[k]);
                                }
                            }
                        } else {
                            let p = choose|p: int| 0 <= p <= a.len() && a2 == #[trigger] a.insert(p, data);
                            assert(a2 + seq![d] + c =~= s.insert(p, data));
                            assert forall|k: int| 0 <= k < a2.len() implies (#[trigger] a2[k]).precedes(d) by {
                                if k > p {
                                    assert(a2[k] == a[k - 1]);
                                } else if k < p {
                                    assert(a2[k] == a[k]);
                                }
                            }
                        }
                        lemma_sorted_split(a2, d, c);
                    }
                },
                Ordering::Greater => {
                    proof {
                        lemma_key_right_of(a, d, c, data);
                        assert forall|i: int| 0 <= i < c.len() && same_key(#[trigger] c[i], data)
                            implies f.requires((c[i],)) by {
                            assert(s[a.len() + 1 + i] == c[i]);
                        }
                    }
                    n.right = insert_node(n.right, data, f);
                    let ghost c2 = entries_of(n.right);
                    proof {
                        let m = a.len() + 1;
                        if holds_key(c, data) {
                            let i = choose|i: int|
                                0 <= i < c.len() && same_key(c[i], data) && c2.len() == c.len()
                                    && c2 == c.update(i, c2[i]) && #[trigger] f.ensures((c[i],), c2[i]);
                            assert(a + seq![d] + c2 =~= s.update(m + i, c2[i]));
                            assert(s[m + i] == c[i]);
                            assert((a + seq![d] + c2)[m + i] == c2[i]);
                            assert(f.ensures((s[m + i],), (a + seq![d] + c2)[m + i]));
                            assert forall|k: int| 0 <= k < c2.len() implies d.precedes(#[trigger] c2[k]) by {
                                if k == i {
                                    lemma_precedes_same_key(d, c[i], c2[i]);
                                } else {
                                    assert(c2[k] == c[k]);
                                }
                            }
                        } else {
                            let p = choose|p: int| 0 <= p <= c.len() && c2 == #[trigger] c.insert(p, data);
                            assert(a + seq![d] + c2 =~= s.insert(m + p, data));
                            assert forall|k: int| 0 <= k < c2.len() implies d.precedes(#[trigger] c2[k]) by {
                                if k > p {
                                    assert(c2[k] == c[k - 1]);
                                } else if k < p {
                                    assert(c2[k] == c[k]);
                                }
                            }
                        }
                        lemma_sorted_split(a, d, c2);
                    }
                },
                Ordering::Equal => {
                    let ghost i = a.len() as int;
                    assert(s[i] == d);
                    n.data = f(n.data);
                    proof {
                        let d2 = n.data;
                        assert(a + seq![d2] + c =~= s.update(i, d2));
                        assert((a + seq![d2] + c)[i] == d2);
                        assert(f.ensures((s[i],), (a + seq![d2] + c)[i]));
                        assert forall|k: int| 0 <= k < a.len() implies (#[trigger] a[k]).precedes(d2) by {
                            lemma_precedes_same_key(a[k], d, d2);
                        }
                        assert forall|k: int| 0 <= k < c.len() implies d2.precedes(#[trigger] c[k]) by {
                            lemma_precedes_same_key(c[k], d, d2);
                        }
                        lemma_sorted_split(a, d2, c);
                    }
                },
            }
            Some(Box::new(n))
        },
    }
}


fn find_node<'a, T: Ordered>(t: &'a Option<Box<BSTNode<T>>>, data: &T) -> (r: Option<&'a BSTNode<T>>)
    requires
        sorted(entries_of(*t)),
    ensures
        r is Some == holds_key(entries_of(*t), *data),
        r is Some ==> exists|i: int|
            0 <= i < entries_of(*t).len() && same_key(entries_of(*t)[i], *data)
                && #[trigger] entries_of(*t)[i] == r.unwrap().data,
    decreases *t,
{
    match t {
        None => None,
        Some(n) => {
            let ghost a = entries_of(n.left);
            let ghost d = n.data;
            let ghost c = entries_of(n.right);
            let ghost s = a + seq![d] + c;
            assert(entries_of(*t) == s);
            proof {
                lemma_sorted_split(a, d, c);
            }
            match data.compare(&n.data) {
                Ordering::Less => {
                    proof {
                        lemma_key_left_of(a, d, c, *data);
                    }
                    let r = find_node(&n.left, data);
                    proof {
                        if r is Some {
                            let i = choose|i: int|
                                0 <= i < a.len() && same_key(a[i], *data) && #[trigger] a[i] == r.unwrap().data;
                            assert(s[i] == a[i]);
                        }
                    }
                    r
                },
                Ordering::Greater => {
                    proof {
                        lemma_key_right_of(a, d, c, *data);
                    }
                    let r = find_node(&n.right, data);
                    proof {
                        if r is Some {
                            let i = choose|i: int|
                                0 <= i < c.len() && same_key(c[i], *data) && #[trigger] c[i] == r.unwrap().data;
                            assert(s[a.len() + 1 + i] == c[i]);
                        }
                    }
                    r
                },
                Ordering::Equal => {
                    assert(s[a.len() as int] == d);
                    let node: &BSTNode<T> = n;
                    Some(node)
                },
            }
        },
    }
}

/// Takes out the leftmost entry of a nonempty subtree.
fn take_min<T>(b: Box<BSTNode<T>>) -> (r: (Option<Box<BSTNode<T>>>, T))
    ensures
        entries_of(Some(b)) == seq![r.1] + entries_of(r.0),
        r.1 == leftmost(*b),
        r.0 == without_leftmost(*b),
    decreases b,
{
    let mut n = *b;
    let ghost n0 = n;
    assert(entries_of(Some(b)) == entries_of(n0.left) + seq![n0.data] + entries_of(n0.right));
    match n.left {
        None => {
            assert(entries_of(n0.left) =~= Seq::<T>::empty());
            assert(entries_of(Some(b)) =~= seq![n.data] + entries_of(n.right));
            (n.right, n.data)
        },
        Some(l) => {
            let (rest, m) = take_min(l);
            n.left = rest;
            let r = Some(Box::new(n));
            assert(entries_of(Some(b)) =~= seq![m] + entries_of(r));
            (r, m)
        },
    }
}

/// Removing any entry keeps a sequence sorted.
proof fn lemma_sorted_remove<T: Ordered>(s: Seq<T>, i: int)
    requires
        sorted(s),
        0 <= i < s.len(),
    ensures
        sorted(s.remove(i)),
{
    let r = s.remove(i);
    assert forall|j: int, k: int| 0 <= j < k < r.len() implies r[j].precedes(r[k]) by {
        let j2 = if j < i { j } else { j + 1 };
        let k2 = if k < i { k } else { k + 1 };
        assert(r[j] == s[j2] && r[k] == s[k2]);
    }
}

fn delete_node<T: Ordered>(t: Option<Box<BSTNode<T>>>, data: &T) -> (r: (Option<Box<BSTNode<T>>>, bool))
    requires
        sorted(entries_of(t)),
    ensures
        r.1 == holds_key(entries_of(t), *data),
        deleted(entries_of(t), *data, entries_of(r.0)),
        sorted(entries_of(r.0)),
        r.0 == delete_shape(t, *data),
        !r.1 ==> r.0 == t,
    decreases t,
{
    match t {
        None => (None, false),
        Some(b) => {
            let mut n = *b;
            let ghost a = entries_of(n.left);
            let ghost d = n.data;
            let ghost c = entries_of(n.right);
            let ghost s = a + seq![d] + c;
            assert(entries_of(t) == s);
            proof {
                lemma_sorted_split(a, d, c);
            }
            match data.compare(&n.data) {
                Ordering::Less => {
                    proof {
                        lemma_key_left_of(a, d, c, *data);
                    }
                    let (l, found) = delete_node(n.left, data);
                    n.left = l;
                    let ghost a2 = entries_of(n.left);
                    proof {
                        if found {
                            let i = choose|i: int|
                                0 <= i < a.len() && same_key(a[i], *data) && a2 == #[trigger] a.remove(i);
                            assert(a2 + seq![d] + c =~= s.remove(i));
                            assert(s[i] == a[i]);
                            lemma_sorted_remove(s, i);
                        }
                    }
                    (Some(Box::new(n)), found)
                },
                Ordering::Greater => {
                    proof {
                        lemma_key_right_of(a, d, c, *data);
                    }
                    let (rt, found) = delete_node(n.right, data);
                    n.right = rt;
                    let ghost c2 = entries_of(n.right);
                    proof {
                        if found {
                            let m = a.len() + 1;
                            let i = choose|i: int|
                                0 <= i < c.len() && same_key(c[i], *data) && c2 == #[trigger] c.remove(i);
                            assert(a + seq![d] + c2 =~= s.remove(m + i));
                            assert(s[m + i] == c[i]);
                            lemma_sorted_remove(s, m + i);
                        }
                    }
                    (Some(Box::new(n)), found)
                },
                Ordering::Equal => {
                    let ghost i = a.len() as int;
                    assert(s[i] == d);
                    proof {
                        lemma_sorted_remove(s, i);
                    }
                    match n.right {
                        None => {
                            assert(a =~= s.remove(i));
                            (n.left, true)
                        },
                        Some(rb) => {
                            match n.left {
                                None => {
                                    assert(c =~= s.remove(i));
                                    (Some(rb), true)
                                },
                                Some(lb) => {
                                    let (rest, m) = take_min(rb);
                                    let ghost r = Some(Box::new(BSTNode { data: m, left: Some(lb), right: rest }));
                                    assert(entries_of(r) =~= s.remove(i));
                                    (Some(Box::new(BSTNode { data: m, left: Some(lb), right: rest })), true)
                                },
                            }
                        },
                    }
                },
            }
        },
    }
}

fn walk_node<'a, T>(t: &'a Option<Box<BSTNode<T>>>, order: Order, out: &mut Vec<&'a T>)
    ensures
        deref_all(final(out)@) == deref_all(old(out)@) + walk_of(*t, order),
    decreases *t,
{
    match t {
        None => {
            assert(deref_all(final(out)@) =~= deref_all(old(out)@) + walk_of(*t, order));
        },
        Some(n) => {
            let ghost o = deref_all(old(out)@);
            let ghost a = walk_of(n.left, order);
            let ghost c = walk_of(n.right, order);
            let ghost d = seq![n.data];
            match order {
                Order::Pre => {
                    out.push(&n.data);
                    assert(deref_all(out@) =~= o + d);
                    walk_node(&n.left, order, out);
                    walk_node(&n.right, order, out);
                    assert(deref_all(out@) =~= o + (d + a + c));
                },
                Order::In => {
                    walk_node(&n.left, order, out);
                    let ghost o1 = deref_all(out@);
                    out.push(&n.data);
                    assert(deref_all(out@) =~= o1 + d);
                    walk_node(&n.right, order, out);
                    assert(deref_all(out@) =~= o + (a + d + c));
                },
                Order::Post => {
                    walk_node(&n.left, order, out);
                    walk_node(&n.right, order, out);
                    let ghost o2 = deref_all(out@);
                    out.push(&n.data);
                    assert(deref_all(out@) =~= o2 + d);
                    assert(deref_all(out@) =~= o + (a + c + d));
                },
            }
            assert(deref_all(out@) =~= deref_all(old(out)@) + walk_of(*t, order));
        },
    }
}

impl<T> View for BSTree<T> {
    type V = Seq<T>;

    /// The entries in ascending order.
    open spec fn view(&self) -> Seq<T> {
        entries_of(self.root)
    }
}

impl<T: Ordered> BSTree<T> {
    /// The ordering invariant: the entries from left to right are strictly ascending.
    pub open spec fn wf(&self) -> bool {
        sorted(self@)
    }

    pub fn new() -> (r: BSTree<T>)
        ensures
            r.root is None,
            r@ == Seq::<T>::empty(),
            r.wf(),
    {
        BSTree { root: None }
    }

    /// Inserts `data`; where an entry with its key is present, that entry is
    /// replaced by `f` applied to it instead.
    pub fn insert_fn<F: Fn(T) -> T>(&mut self, data: T, f: F)
        requires
            old(self).wf(),
            keeps_key(f),
            applies_to_key(old(self)@, data, f),
        ensures
            final(self).wf(),
            inserted(old(self)@, data, f, final(self)@),
            insert_shape(old(self).root, data, |a: T, b: T| f.ensures((a,), b), final(self).root),
    {
        let t = self.root.take();
        self.root = insert_node(t, data, &f);
    }
    /// The entry with the key of `data`, if there is one.
    pub fn find(&self, data: T) -> (r: Option<&BSTNode<T>>)
        requires
            self.wf(),
        ensures
            r is Some == holds_key(self@, data),
            r is Some ==> exists|i: int|
                0 <= i < self@.len() && same_key(self@[i], data) && #[trigger] self@[i] == r.unwrap().data,
    {
        find_node(&self.root, &data)
    }

    /// Removes the entry with the key of `data`; fails where there is none.
    pub fn delete(&mut self, data: T) -> (r: Result<(), String>)
        requires
            old(self).wf(),
        ensures
            final(self).wf(),
            r is Ok == holds_key(old(self)@, data),
            deleted(old(self)@, data, final(self)@),
            final(self).root == delete_shape(old(self).root, data),
            r is Err ==> final(self).root == old(self).root,
    {
        let t = self.root.take();
        let (rest, found) = delete_node(t, &data);
        self.root = rest;
        if found {
            Ok(())
        } else {
            Err("node not found".to_string())
        }
    }

    /// The entries in the given order.
    pub fn traverse(&self, order: Order) -> (r: Vec<&T>)
        ensures
            deref_all(r@) == walk_of(self.root, order),
    {
        let mut out: Vec<&T> = Vec::new();
        walk_node(&self.root, order, &mut out);
        assert(deref_all(out@) =~= walk_of(self.root, order));
        out
    }

    /// Whether the entries are strictly ascending from left to right, as in a
    /// tree built by `insert_fn`; a tree restored from a snapshot should pass it.
    pub fn is_ordered(&self) -> (r: bool)
        ensures
            r == self.wf(),
    {
        let v = self.traverse(Order::In);
        let ghost s = self@;
        assert(deref_all(v@).len() == v@.len());
        if v.len() == 0 {
            return true;
        }
        let mut i: usize = 1;
        proof {
            assert(sorted(s.take(1)));
        }
        while i < v.len()
            invariant
                deref_all(v@) == s,
                s == self@,
                1 <= i <= v.len(),
                sorted(s.take(i as int)),
            decreases v.len() - i,
        {
            assert(*v@[i - 1] == s[i - 1] && *v@[i as int] == s[i as int]);
            match v[i - 1].compare(v[i]) {
                Ordering::Less => {},
                _ => {
                    assert(!s[i - 1].precedes(s[i as int]));
                    return false;
                },
            }
            proof {
                let t = s.take(i + 1);
                assert forall|a: int, b: int| 0 <= a < b < t.len() implies t[a].precedes(t[b]) by {
                    if b < i {
                        assert(t[a] == s.take(i as int)[a] && t[b] == s.take(i as int)[b]);
                    } else if a < i - 1 {
                        assert(s.take(i as int)[a].precedes(s.take(i as int)[i - 1]));
                        T::precedes_transitive(s[a], s[i - 1], s[i as int]);
                    }
                }
            }
            i = i + 1;
        }
        assert(s.take(i as int) =~= s);
        true
    }
}

} // verus!
