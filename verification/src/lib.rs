//! An in-memory ordered container backed by an unbalanced binary search
//! tree over `i64` values.
//!
//! The container stores each distinct value at most once: inserting a value
//! that is already present is reported as a duplicate and changes nothing.
//! Lookups (`contains`, `min`, `max`, `successor`, `predecessor`), ordered
//! traversals, and removals all run in time proportional to the height of
//! the tree; no rebalancing is performed, so the height is unbounded.
//!
//! The abstract view of a tree (`t@`) is the set of values it holds.
//! `t.spec_len()` is the cached size counter, which counts distinct values
//! inserted minus values removed through `remove`; `pop_min` and `pop_max`
//! deliberately leave the counter untouched.
use vstd::prelude::*;

verus! {

/// One tree element: a value and up to two child subtrees.
struct Node {
    value: i64,
    left: Option<Box<Node>>,
    right: Option<Box<Node>>,
}

/// The set of values held in an optional subtree.
spec fn sub_set(node: Option<Box<Node>>) -> Set<i64>
    decreases node,
{
    match node {
        None => Set::empty(),
        Some(n) => sub_set(n.left).union(sub_set(n.right)).insert(n.value),
    }
}

/// The binary-search-tree ordering discipline: every value in a left
/// subtree is smaller than its node's value, every value in a right
/// subtree is larger.
spec fn sub_ordered(node: Option<Box<Node>>) -> bool
    decreases node,
{
    match node {
        None => true,
        Some(n) => {
            &&& sub_ordered(n.left)
            &&& sub_ordered(n.right)
            &&& (forall|x: i64| sub_set(n.left).contains(x) ==> x < n.value)
            &&& (forall|x: i64| sub_set(n.right).contains(x) ==> n.value < x)
        },
    }
}

/// `m` is the smallest member of `s`.
pub open spec fn is_least(s: Set<i64>, m: i64) -> bool {
    s.contains(m) && forall|x: i64| s.contains(x) ==> m <= x
}

/// `m` is the largest member of `s`.
pub open spec fn is_greatest(s: Set<i64>, m: i64) -> bool {
    s.contains(m) && forall|x: i64| s.contains(x) ==> x <= m
}

/// `r` names the smallest member of `s`, or nothing when `s` is empty.
pub open spec fn is_min_of(s: Set<i64>, r: Option<i64>) -> bool {
    match r {
        None => s == Set::<i64>::empty(),
        Some(m) => is_least(s, m),
    }
}

/// `r` names the largest member of `s`, or nothing when `s` is empty.
pub open spec fn is_max_of(s: Set<i64>, r: Option<i64>) -> bool {
    match r {
        None => s == Set::<i64>::empty(),
        Some(m) => is_greatest(s, m),
    }
}

/// Places `value` in the subtree unless it is already there.
///
/// Returns `true` exactly when a new node was created.
fn insert_at(node: &mut Option<Box<Node>>, value: i64) -> (r: bool)
    requires
        sub_ordered(*old(node)),
    ensures
        sub_ordered(*final(node)),
        sub_set(*final(node)) == sub_set(*old(node)).insert(value),
        r == !sub_set(*old(node)).contains(value),
    decreases *old(node),
{
    match node.take() {
        None => {
            *node = Some(Box::new(Node { value, left: None, right: None }));
            proof {
                assert(sub_set(*node) =~= sub_set(*old(node)).insert(value));
            }
            true
        },
        Some(mut n) => {
            if value < n.value {
                let r = insert_at(&mut n.left, value);
                *node = Some(n);
                proof {
                    assert(!sub_set(n.right).contains(value));
                    assert(sub_set(*node) =~= sub_set(*old(node)).insert(value));
                }
                r
            } else if value > n.value {
                let r = insert_at(&mut n.right, value);
                *node = Some(n);
                proof {
                    assert(!sub_set(n.left).contains(value));
                    assert(sub_set(*node) =~= sub_set(*old(node)).insert(value));
                }
                r
            } else {
                *node = Some(n);
                proof {
                    assert(sub_set(*node) =~= sub_set(*old(node)).insert(value));
                }
                false
            }
        },
    }
}

/// Reports whether `value` is a member of the subtree.
fn contains_at(node: &Option<Box<Node>>, value: i64) -> (r: bool)
    requires
        sub_ordered(*node),
    ensures
        r == sub_set(*node).contains(value),
    decreases node,
{
    match node {
        None => false,
        Some(n) => {
            if value < n.value {
                proof {
                    assert(!sub_set(n.right).contains(value));
                }
                contains_at(&n.left, value)
            } else if value > n.value {
                proof {
                    assert(!sub_set(n.left).contains(value));
                }
                contains_at(&n.right, value)
            } else {
                true
            }
        },
    }
}

/// Returns the smallest value in the subtree, or `None` when it is empty.
fn min_at(node: &Option<Box<Node>>) -> (r: Option<i64>)
    requires
        sub_ordered(*node),
    ensures
        is_min_of(sub_set(*node), r),
    decreases node,
{
    match node {
        None => {
            proof {
                assert(sub_set(*node) =~= Set::<i64>::empty());
            }
            None
        },
        Some(n) => {
            match min_at(&n.left) {
                Some(m) => {
                    proof {
                        assert(sub_set(n.left).contains(m));
                        assert forall|x: i64| sub_set(*node).contains(x) implies m <= x by {
                            if sub_set(n.right).contains(x) {
                                assert(n.value < x);
                            }
                        }
                    }
                    Some(m)
                },
                None => {
                    proof {
                        assert forall|x: i64| sub_set(*node).contains(x) implies n.value <= x by {
                            if sub_set(n.left).contains(x) {
                                assert(Set::<i64>::empty().contains(x));
                            }
                            if sub_set(n.right).contains(x) {
                                assert(n.value < x);
                            }
                        }
                    }
                    Some(n.value)
                },
            }
        },
    }
}

/// Returns the largest value in the subtree, or `None` when it is empty.
fn max_at(node: &Option<Box<Node>>) -> (r: Option<i64>)
    requires
        sub_ordered(*node),
    ensures
        is_max_of(sub_set(*node), r),
    decreases node,
{
    match node {
        None => {
            proof {
                assert(sub_set(*node) =~= Set::<i64>::empty());
            }
            None
        },
        Some(n) => {
            match max_at(&n.right) {
                Some(m) => {
                    proof {
                        assert(sub_set(n.right).contains(m));
                        assert forall|x: i64| sub_set(*node).contains(x) implies x <= m by {
                            if sub_set(n.left).contains(x) {
                                assert(x < n.value);
                            }
                        }
                    }
                    Some(m)
                },
                None => {
                    proof {
                        assert forall|x: i64| sub_set(*node).contains(x) implies x <= n.value by {
                            if sub_set(n.right).contains(x) {
                                assert(Set::<i64>::empty().contains(x));
                            }
                            if sub_set(n.left).contains(x) {
                                assert(x < n.value);
                            }
                        }
                    }
                    Some(n.value)
                },
            }
        },
    }
}

/// Detaches the leftmost node of the subtree and returns its value; its
/// right child, if any, takes its place.
fn pop_min_at(node: &mut Option<Box<Node>>) -> (r: Option<i64>)
    requires
        sub_ordered(*old(node)),
    ensures
        sub_ordered(*final(node)),
        (match r {
            None => sub_set(*old(node)) == Set::<i64>::empty() && *final(node) == *old(node),
            Some(m) => is_least(sub_set(*old(node)), m) && sub_set(*final(node)) == sub_set(
                *old(node),
            ).remove(m),
        }),
    decreases *old(node),
{
    match node.take() {
        None => {
            proof {
                assert(sub_set(*old(node)) =~= Set::<i64>::empty());
            }
            None
        },
        Some(mut n) => {
            if n.left.is_none() {
                let m = n.value;
                *node = n.right;
                proof {
                    assert forall|x: i64| sub_set(*old(node)).contains(x) implies m <= x by {
                        if sub_set(n.left).contains(x) {
                            assert(Set::<i64>::empty().contains(x));
                        }
                        if sub_set(n.right).contains(x) {
                            assert(m < x);
                        }
                    }
                    assert(!sub_set(n.right).contains(m));
                    assert(sub_set(*node) == sub_set(n.right));
                    assert(sub_set(*old(node)) == sub_set(n.left).union(sub_set(n.right)).insert(
                        m,
                    ));
                    assert(sub_set(*node) =~= sub_set(*old(node)).remove(m));
                }
                Some(m)
            } else {
                let ghost left_before = n.left;
                let r = pop_min_at(&mut n.left);
                proof {
                    if r is None {
                        assert(sub_set(left_before).contains(left_before.unwrap().value));
                    }
                }
                let m = r.unwrap();
                *node = Some(n);
                proof {
                    assert(sub_set(left_before).contains(m));
                    assert(m < n.value);
                    assert(!sub_set(n.right).contains(m));
                    assert forall|x: i64| sub_set(*old(node)).contains(x) implies m <= x by {
                        if sub_set(n.right).contains(x) {
                            assert(n.value < x);
                        }
                    }
                    assert(sub_set(n.left) == sub_set(left_before).remove(m));
                    assert forall|x: i64|
                        sub_set(*node).contains(x) == sub_set(*old(node)).remove(m).contains(
                            x,
                        ) by {
                        if sub_set(n.right).contains(x) {
                            assert(x != m);
                        }
                    }
                    assert(sub_set(*node) =~= sub_set(*old(node)).remove(m));
                }
                Some(m)
            }
        },
    }
}

/// Detaches the rightmost node of the subtree and returns its value; its
/// left child, if any, takes its place.
fn pop_max_at(node: &mut Option<Box<Node>>) -> (r: Option<i64>)
    requires
        sub_ordered(*old(node)),
    ensures
        sub_ordered(*final(node)),
        (match r {
            None => sub_set(*old(node)) == Set::<i64>::empty() && *final(node) == *old(node),
            Some(m) => is_greatest(sub_set(*old(node)), m) && sub_set(*final(node)) == sub_set(
                *old(node),
            ).remove(m),
        }),
    decreases *old(node),
{
    match node.take() {
        None => {
            proof {
                assert(sub_set(*old(node)) =~= Set::<i64>::empty());
            }
            None
        },
        Some(mut n) => {
            if n.right.is_none() {
                let m = n.value;
                *node = n.left;
                proof {
                    assert forall|x: i64| sub_set(*old(node)).contains(x) implies x <= m by {
                        if sub_set(n.right).contains(x) {
                            assert(Set::<i64>::empty().contains(x));
                        }
                        if sub_set(n.left).contains(x) {
                            assert(x < m);
                        }
                    }
                    assert(!sub_set(n.left).contains(m));
                    assert(sub_set(*node) == sub_set(n.left));
                    assert(sub_set(*old(node)) == sub_set(n.left).union(sub_set(n.right)).insert(
                        m,
                    ));
                    assert(sub_set(*node) =~= sub_set(*old(node)).remove(m));
                }
                Some(m)
            } else {
                let ghost right_before = n.right;
                let r = pop_max_at(&mut n.right);
                proof {
                    if r is None {
                        assert(sub_set(right_before).contains(right_before.unwrap().value));
                    }
                }
                let m = r.unwrap();
                *node = Some(n);
                proof {
                    assert(sub_set(right_before).contains(m));
                    assert(n.value < m);
                    assert(!sub_set(n.left).contains(m));
                    assert forall|x: i64| sub_set(*old(node)).contains(x) implies x <= m by {
                        if sub_set(n.left).contains(x) {
                            assert(x < n.value);
                        }
                    }
                    assert(sub_set(n.right) == sub_set(right_before).remove(m));
                    assert forall|x: i64|
                        sub_set(*node).contains(x) == sub_set(*old(node)).remove(m).contains(
                            x,
                        ) by {
                        if sub_set(n.left).contains(x) {
                            assert(x != m);
                        }
                    }
                    assert(sub_set(*node) =~= sub_set(*old(node)).remove(m));
                }
                Some(m)
            }
        },
    }
}

/// Removes `value` from the subtree if it is there.
///
/// Returns `true` exactly when a node was removed. An interior node with
/// two children keeps its place: its value is overwritten with the
/// smallest value of its right subtree (the in-order successor), and the
/// node that held that value is detached instead.
fn remove_at(node: &mut Option<Box<Node>>, value: i64) -> (r: bool)
    requires
        sub_ordered(*old(node)),
    ensures
        sub_ordered(*final(node)),
        sub_set(*final(node)) == sub_set(*old(node)).remove(value),
        r == sub_set(*old(node)).contains(value),
    decreases *old(node),
{
    match node.take() {
        None => {
            proof {
                assert(sub_set(*node) =~= sub_set(*old(node)).remove(value));
            }
            false
        },
        Some(mut n) => {
            if value < n.value {
                let r = remove_at(&mut n.left, value);
                *node = Some(n);
                proof {
                    assert(!sub_set(n.right).contains(value));
                    assert(sub_set(*node) =~= sub_set(*old(node)).remove(value));
                }
                r
            } else if value > n.value {
                let r = remove_at(&mut n.right, value);
                *node = Some(n);
                proof {
                    assert(!sub_set(n.left).contains(value));
                    assert(sub_set(*node) =~= sub_set(*old(node)).remove(value));
                }
                r
            } else {
                if n.left.is_none() {
                    *node = n.right;
                    proof {
                        assert(!sub_set(n.right).contains(value));
                        assert(sub_set(*node) == sub_set(n.right));
                        assert(sub_set(*old(node)) == sub_set(n.left).union(
                            sub_set(n.right),
                        ).insert(value));
                        assert(sub_set(*node) =~= sub_set(*old(node)).remove(value));
                    }
                } else if n.right.is_none() {
                    *node = n.left;
                    proof {
                        assert(!sub_set(n.left).contains(value));
                        assert(sub_set(*node) == sub_set(n.left));
                        assert(sub_set(*old(node)) == sub_set(n.left).union(
                            sub_set(n.right),
                        ).insert(value));
                        assert(sub_set(*node) =~= sub_set(*old(node)).remove(value));
                    }
                } else {
                    let ghost right_before = n.right;
                    let popped = pop_min_at(&mut n.right);
                    proof {
                        if popped is None {
                            assert(sub_set(right_before).contains(right_before.unwrap().value));
                        }
                    }
                    let m = popped.unwrap();
                    n.value = m;
                    *node = Some(n);
                    proof {
                        assert(sub_set(right_before).contains(m));
                        assert(value < m);
                        assert(!sub_set(n.left).contains(m));
                        assert(sub_set(n.right) == sub_set(right_before).remove(m));
                        assert forall|x: i64| sub_set(n.left).contains(x) implies x < m by {
                            assert(x < value);
                        }
                        assert forall|x: i64| sub_set(n.right).contains(x) implies m < x by {
                            assert(sub_set(right_before).contains(x));
                        }
                        assert forall|x: i64|
                            sub_set(*node).contains(x) == sub_set(*old(node)).remove(
                                value,
                            ).contains(x) by {
                            if sub_set(n.left).contains(x) {
                                assert(x < value);
                            }
                            if sub_set(right_before).contains(x) {
                                assert(value < x);
                            }
                        }
                        assert(sub_set(*node) =~= sub_set(*old(node)).remove(value));
                    }
                }
                true
            }
        },
    }
}

/// `r` names the smallest member of `s` strictly above `v`, or nothing
/// when no member lies above `v`.
pub open spec fn is_successor_of(s: Set<i64>, v: i64, r: Option<i64>) -> bool {
    match r {
        None => forall|x: i64| s.contains(x) ==> x <= v,
        Some(m) => s.contains(m) && v < m && (forall|x: i64| s.contains(x) && v < x ==> m <= x),
    }
}

/// `r` names the largest member of `s` strictly below `v`, or nothing
/// when no member lies below `v`.
pub open spec fn is_predecessor_of(s: Set<i64>, v: i64, r: Option<i64>) -> bool {
    match r {
        None => forall|x: i64| s.contains(x) ==> v <= x,
        Some(m) => s.contains(m) && m < v && (forall|x: i64| s.contains(x) && x < v ==> x <= m),
    }
}

/// Returns the smallest value in the subtree strictly above `value`.
fn successor_at(node: &Option<Box<Node>>, value: i64) -> (r: Option<i64>)
    requires
        sub_ordered(*node),
    ensures
        is_successor_of(sub_set(*node), value, r),
    decreases node,
{
    match node {
        None => None,
        Some(n) => {
            if n.value <= value {
                let r = successor_at(&n.right, value);
                proof {
                    match r {
                        Some(m) => {
                            assert forall|x: i64|
                                sub_set(*node).contains(x) && value < x implies m <= x by {
                                if sub_set(n.left).contains(x) {
                                    assert(x < n.value);
                                }
                            }
                        },
                        None => {
                            assert forall|x: i64| sub_set(*node).contains(x) implies x <= value by {
                                if sub_set(n.left).contains(x) {
                                    assert(x < n.value);
                                }
                            }
                        },
                    }
                }
                r
            } else {
                match successor_at(&n.left, value) {
                    Some(m) => {
                        proof {
                            assert(sub_set(n.left).contains(m));
                            assert forall|x: i64|
                                sub_set(*node).contains(x) && value < x implies m <= x by {
                                if sub_set(n.right).contains(x) {
                                    assert(n.value < x);
                                }
                            }
                        }
                        Some(m)
                    },
                    None => {
                        proof {
                            assert forall|x: i64|
                                sub_set(*node).contains(x) && value < x implies n.value <= x by {
                                if sub_set(n.right).contains(x) {
                                    assert(n.value < x);
                                }
                            }
                        }
                        Some(n.value)
                    },
                }
            }
        },
    }
}

/// Returns the largest value in the subtree strictly below `value`.
fn predecessor_at(node: &Option<Box<Node>>, value: i64) -> (r: Option<i64>)
    requires
        sub_ordered(*node),
    ensures
        is_predecessor_of(sub_set(*node), value, r),
    decreases node,
{
    match node {
        None => None,
        Some(n) => {
            if value <= n.value {
                let r = predecessor_at(&n.left, value);
                proof {
                    match r {
                        Some(m) => {
                            assert forall|x: i64|
                                sub_set(*node).contains(x) && x < value implies x <= m by {
                                if sub_set(n.right).contains(x) {
                                    assert(n.value < x);
                                }
                            }
                        },
                        None => {
                            assert forall|x: i64| sub_set(*node).contains(x) implies value <= x by {
                                if sub_set(n.right).contains(x) {
                                    assert(n.value < x);
                                }
                            }
                        },
                    }
                }
                r
            } else {
                match predecessor_at(&n.right, value) {
                    Some(m) => {
                        proof {
                            assert(sub_set(n.right).contains(m));
                            assert forall|x: i64|
                                sub_set(*node).contains(x) && x < value implies x <= m by {
                                if sub_set(n.left).contains(x) {
                                    assert(x < n.value);
                                }
                            }
                        }
                        Some(m)
                    },
                    None => {
                        proof {
                            assert forall|x: i64|
                                sub_set(*node).contains(x) && x < value implies x <= n.value by {
                                if sub_set(n.left).contains(x) {
                                    assert(x < n.value);
                                }
                            }
                        }
                        Some(n.value)
                    },
                }
            }
        },
    }
}

/// The sequence holds strictly increasing values.
pub open spec fn strictly_ascending(s: Seq<i64>) -> bool {
    forall|i: int, j: int| 0 <= i < j < s.len() ==> s[i] < s[j]
}

/// The sequence holds strictly decreasing values.
pub open spec fn strictly_descending(s: Seq<i64>) -> bool {
    forall|i: int, j: int| 0 <= i < j < s.len() ==> s[j] < s[i]
}

/// The in-order sequence of a subtree: left subtree, own value, right
/// subtree.
spec fn seq_of(node: Option<Box<Node>>) -> Seq<i64>
    decreases node,
{
    match node {
        None => Seq::empty(),
        Some(n) => seq_of(n.left) + seq![n.value] + seq_of(n.right),
    }
}

/// The reverse-order sequence of a subtree: right subtree, own value,
/// left subtree.
spec fn rev_seq_of(node: Option<Box<Node>>) -> Seq<i64>
    decreases node,
{
    match node {
        None => Seq::empty(),
        Some(n) => rev_seq_of(n.right) + seq![n.value] + rev_seq_of(n.left),
    }
}

/// In an ordered subtree, the in-order sequence is strictly ascending and
/// holds exactly the subtree's values.
proof fn lemma_in_order(node: Option<Box<Node>>)
    requires
        sub_ordered(node),
    ensures
        seq_of(node).to_set() == sub_set(node),
        strictly_ascending(seq_of(node)),
    decreases node,
{
    match node {
        None => {
            assert(seq_of(node).to_set() =~= sub_set(node));
        },
        Some(n) => {
            lemma_in_order(n.left);
            lemma_in_order(n.right);
            let l = seq_of(n.left);
            let r = seq_of(n.right);
            let s = seq_of(node);
            assert(s == l + seq![n.value] + r);
            assert forall|x: i64| s.contains(x) implies sub_set(node).contains(x) by {
                let i = choose|i: int| 0 <= i < s.len() && s[i] == x;
                if i < l.len() {
                    assert(l[i] == x);
                    assert(l.to_set().contains(x));
                } else if i > l.len() {
                    assert(r[i - l.len() - 1] == x);
                    assert(r.to_set().contains(x));
                }
            }
            assert forall|x: i64| sub_set(node).contains(x) implies s.contains(x) by {
                if sub_set(n.left).contains(x) {
                    let i = choose|i: int| 0 <= i < l.len() && l[i] == x;
                    assert(s[i] == x);
                } else if sub_set(n.right).contains(x) {
                    let i = choose|i: int| 0 <= i < r.len() && r[i] == x;
                    assert(s[l.len() + 1 + i] == x);
                } else {
                    assert(s[l.len() as int] == x);
                }
            }
            assert(s.to_set() =~= sub_set(node));
            assert forall|i: int, j: int| 0 <= i < j < s.len() implies s[i] < s[j] by {
                if i < l.len() {
                    assert(s[i] == l[i]);
                    assert(l.to_set().contains(l[i]));
                    assert(l[i] < n.value);
                }
                if i > l.len() {
                    assert(s[i] == r[i - l.len() - 1]);
                }
                if j < l.len() {
                    assert(s[j] == l[j]);
                }
                if j > l.len() {
                    assert(s[j] == r[j - l.len() - 1]);
                    assert(r.to_set().contains(r[j - l.len() - 1]));
                    assert(n.value < s[j]);
                }
            }
        },
    }
}

/// The reverse-order sequence is the mirror image of the in-order one.
proof fn lemma_rev_seq(node: Option<Box<Node>>)
    ensures
        rev_seq_of(node) == seq_of(node).reverse(),
    decreases node,
{
    match node {
        None => {
            assert(rev_seq_of(node) =~= seq_of(node).reverse());
        },
        Some(n) => {
            lemma_rev_seq(n.left);
            lemma_rev_seq(n.right);
            let l = seq_of(n.left);
            let r = seq_of(n.right);
            let s = seq_of(node);
            let v = rev_seq_of(node);
            assert(s == l + seq![n.value] + r);
            assert(v == r.reverse() + seq![n.value] + l.reverse());
            assert forall|k: int| 0 <= k < v.len() implies v[k] == s[s.len() - 1 - k] by {
                if k < r.len() {
                    assert(v[k] == r[r.len() - 1 - k]);
                    assert(s[s.len() - 1 - k] == r[r.len() - 1 - k]);
                } else if k > r.len() {
                    assert(v[k] == l[l.len() - 1 - (k - r.len() - 1)]);
                    assert(s[s.len() - 1 - k] == l[s.len() - 1 - k]);
                }
            }
            assert(v =~= s.reverse());
        },
    }
}

/// A sequence in reverse order keeps its members and its length.
proof fn lemma_reverse_members(s: Seq<i64>)
    ensures
        s.reverse().len() == s.len(),
        s.reverse().to_set() == s.to_set(),
{
    assert forall|x: i64| s.reverse().contains(x) implies s.contains(x) by {
        let i = choose|i: int| 0 <= i < s.reverse().len() && s.reverse()[i] == x;
        assert(s[s.len() - 1 - i] == x);
    }
    assert forall|x: i64| s.contains(x) implies s.reverse().contains(x) by {
        let i = choose|i: int| 0 <= i < s.len() && s[i] == x;
        assert(s.reverse()[s.len() - 1 - i] == x);
    }
    assert(s.reverse().to_set() =~= s.to_set());
}

/// A strictly ascending sequence has as many entries as distinct values.
proof fn lemma_ascending_len(s: Seq<i64>)
    requires
        strictly_ascending(s),
    ensures
        s.len() == s.to_set().len(),
{
    assert forall|i: int, j: int|
        0 <= i < s.len() && 0 <= j < s.len() && i != j implies s[i] != s[j] by {
        if i < j {
            assert(s[i] < s[j]);
        } else {
            assert(s[j] < s[i]);
        }
    }
    assert(s.no_duplicates());
    s.unique_seq_to_set();
}

/// Appends the subtree's values to `out` in ascending order.
fn fill_in_order(node: &Option<Box<Node>>, out: &mut Vec<i64>)
    ensures
        final(out)@ == old(out)@ + seq_of(*node),
    decreases node,
{
    match node {
        None => {
            proof {
                assert(out@ =~= old(out)@ + seq_of(*node));
            }
        },
        Some(n) => {
            fill_in_order(&n.left, out);
            out.push(n.value);
            fill_in_order(&n.right, out);
            proof {
                assert(out@ =~= old(out)@ + seq_of(*node));
            }
        },
    }
}

/// Appends the subtree's values to `out` in descending order.
fn fill_reverse_order(node: &Option<Box<Node>>, out: &mut Vec<i64>)
    ensures
        final(out)@ == old(out)@ + rev_seq_of(*node),
    decreases node,
{
    match node {
        None => {
            proof {
                assert(out@ =~= old(out)@ + rev_seq_of(*node));
            }
        },
        Some(n) => {
            fill_reverse_order(&n.right, out);
            out.push(n.value);
            fill_reverse_order(&n.left, out);
            proof {
                assert(out@ =~= old(out)@ + rev_seq_of(*node));
            }
        },
    }
}

/// An ordered container of distinct `i64` values.
pub struct BinarySearchTree {
    root: Option<Box<Node>>,
    size: usize,
}

impl View for BinarySearchTree {
    type V = Set<i64>;

    closed spec fn view(&self) -> Set<i64> {
        sub_set(self.root)
    }
}

impl BinarySearchTree {
    /// The cached element count: distinct values inserted minus values
    /// removed through `remove`. It is not decreased by `pop_min` or
    /// `pop_max`, so it may exceed the cardinality of the view, but it
    /// never falls below it.
    pub closed spec fn spec_len(self) -> nat {
        self.size as nat
    }

    #[verifier::type_invariant]
    spec fn wf(self) -> bool {
        &&& sub_ordered(self.root)
        &&& sub_set(self.root).finite()
        &&& sub_set(self.root).len() <= self.size
    }

    /// Creates an empty container.
    pub fn new() -> (t: Self)
        ensures
            t@ == Set::<i64>::empty(),
            t.spec_len() == 0,
    {
        let t = BinarySearchTree { root: None, size: 0 };
        proof {
            assert(sub_set(t.root) =~= Set::<i64>::empty());
        }
        t
    }

    /// Reports the cached element count. It never undercounts the
    /// members actually held.
    pub fn len(&self) -> (r: usize)
        ensures
            r == self.spec_len(),
            self@.finite(),
            self@.len() <= r,
    {
        proof {
            use_type_invariant(&*self);
        }
        self.size
    }

    /// Inserts `value`, returning `Some(())` when it was newly added and
    /// `None` when it was already present (a duplicate changes nothing).
    ///
    /// The bound on the element count is a machine limit: the counter is
    /// a `usize`.
    pub fn insert(&mut self, value: i64) -> (r: Option<()>)
        requires
            old(self).spec_len() < usize::MAX,
        ensures
            final(self)@ == old(self)@.insert(value),
            r.is_some() <==> !old(self)@.contains(value),
            !old(self)@.contains(value) ==> final(self).spec_len() == old(self).spec_len() + 1,
            old(self)@.contains(value) ==> final(self).spec_len() == old(self).spec_len(),
    {
        proof {
            use_type_invariant(&*self);
        }
        let mut root: Option<Box<Node>> = None;
        std::mem::swap(&mut root, &mut self.root);
        let inserted = insert_at(&mut root, value);
        if inserted {
            self.size = self.size + 1;
        }
        self.root = root;
        if inserted {
            Some(())
        } else {
            None
        }
    }

    /// Reports whether the cached element count is zero; when it is,
    /// the container holds no values at all.
    pub fn is_empty(&self) -> (r: bool)
        ensures
            r == (self.spec_len() == 0),
            r ==> self@ == Set::<i64>::empty(),
    {
        proof {
            use_type_invariant(&*self);
            if self.size == 0 {
                sub_set(self.root).lemma_len0_is_empty();
            }
        }
        self.size == 0
    }
}

impl BinarySearchTree {
    /// Reports whether `value` is a member of the container.
    pub fn contains(&self, value: &i64) -> (r: bool)
        ensures
            r == self@.contains(*value),
    {
        proof {
            use_type_invariant(&*self);
        }
        contains_at(&self.root, *value)
    }

    /// Returns the smallest value, or `None` when the container holds
    /// no values.
    pub fn min(&self) -> (r: Option<i64>)
        ensures
            is_min_of(self@, r),
    {
        proof {
            use_type_invariant(&*self);
        }
        min_at(&self.root)
    }

    /// Returns the largest value, or `None` when the container holds
    /// no values.
    pub fn max(&self) -> (r: Option<i64>)
        ensures
            is_max_of(self@, r),
    {
        proof {
            use_type_invariant(&*self);
        }
        max_at(&self.root)
    }

    /// The in-order (ascending) sequence of the container's values.
    pub closed spec fn spec_seq(self) -> Seq<i64> {
        seq_of(self.root)
    }

    /// Returns the container's values in ascending order: a strictly
    /// ascending sequence holding exactly the members of the view.
    pub fn inorder_traversal(&self) -> (r: Vec<i64>)
        ensures
            r@ == self.spec_seq(),
            strictly_ascending(r@),
            r@.to_set() == self@,
            r@.len() == self@.len(),
    {
        proof {
            use_type_invariant(&*self);
            lemma_in_order(self.root);
            lemma_ascending_len(seq_of(self.root));
        }
        let mut out: Vec<i64> = Vec::new();
        fill_in_order(&self.root, &mut out);
        proof {
            assert(out@ =~= seq_of(self.root));
        }
        out
    }

    /// Returns the container's values in descending order: the mirror
    /// image of `inorder_traversal`, holding exactly the members of the
    /// view.
    pub fn reverse_order_traversal(&self) -> (r: Vec<i64>)
        ensures
            r@ == self.spec_seq().reverse(),
            strictly_descending(r@),
            r@.to_set() == self@,
            r@.len() == self@.len(),
    {
        proof {
            use_type_invariant(&*self);
            lemma_in_order(self.root);
            lemma_rev_seq(self.root);
            lemma_reverse_members(seq_of(self.root));
            lemma_ascending_len(seq_of(self.root));
        }
        let mut out: Vec<i64> = Vec::new();
        fill_reverse_order(&self.root, &mut out);
        proof {
            assert(out@ =~= rev_seq_of(self.root));
            let s = seq_of(self.root);
            assert forall|i: int, j: int| 0 <= i < j < out@.len() implies out@[j] < out@[i] by {
                assert(out@[i] == s[s.len() - 1 - i]);
                assert(out@[j] == s[s.len() - 1 - j]);
            }
        }
        out
    }

    /// Removes `value`, returning `Some(())` when it was present and
    /// `None` when it was absent (in which case nothing changes).
    pub fn remove(&mut self, value: &i64) -> (r: Option<()>)
        ensures
            final(self)@ == old(self)@.remove(*value),
            r.is_some() <==> old(self)@.contains(*value),
            old(self)@.contains(*value) ==> final(self).spec_len() + 1 == old(self).spec_len(),
            !old(self)@.contains(*value) ==> final(self).spec_len() == old(self).spec_len(),
    {
        proof {
            use_type_invariant(&*self);
        }
        let mut root: Option<Box<Node>> = None;
        std::mem::swap(&mut root, &mut self.root);
        let removed = remove_at(&mut root, *value);
        self.root = root;
        if removed {
            self.size = self.size - 1;
            Some(())
        } else {
            None
        }
    }

    /// Returns the next value above `value` in the container's order, or
    /// `None` when `value` is at least the maximum. `value` itself need
    /// not be present.
    pub fn successor(&self, value: &i64) -> (r: Option<i64>)
        ensures
            is_successor_of(self@, *value, r),
    {
        proof {
            use_type_invariant(&*self);
        }
        successor_at(&self.root, *value)
    }

    /// Returns the next value below `value` in the container's order, or
    /// `None` when `value` is at most the minimum. `value` itself need
    /// not be present.
    pub fn predecessor(&self, value: &i64) -> (r: Option<i64>)
        ensures
            is_predecessor_of(self@, *value, r),
    {
        proof {
            use_type_invariant(&*self);
        }
        predecessor_at(&self.root, *value)
    }

    /// Removes and returns the smallest value, or returns `None` when the
    /// container holds no values. The cached element count is deliberately
    /// left unchanged; only `remove` decreases it.
    pub fn pop_min(&mut self) -> (r: Option<i64>)
        ensures
            (match r {
                None => old(self)@ == Set::<i64>::empty() && final(self)@ == old(self)@,
                Some(m) => is_least(old(self)@, m) && final(self)@ == old(self)@.remove(m),
            }),
            final(self).spec_len() == old(self).spec_len(),
    {
        proof {
            use_type_invariant(&*self);
        }
        let mut root: Option<Box<Node>> = None;
        std::mem::swap(&mut root, &mut self.root);
        let r = pop_min_at(&mut root);
        self.root = root;
        r
    }

    /// Removes and returns the largest value, or returns `None` when the
    /// container holds no values. The cached element count is deliberately
    /// left unchanged; only `remove` decreases it.
    pub fn pop_max(&mut self) -> (r: Option<i64>)
        ensures
            (match r {
                None => old(self)@ == Set::<i64>::empty() && final(self)@ == old(self)@,
                Some(m) => is_greatest(old(self)@, m) && final(self)@ == old(self)@.remove(m),
            }),
            final(self).spec_len() == old(self).spec_len(),
    {
        proof {
            use_type_invariant(&*self);
        }
        let mut root: Option<Box<Node>> = None;
        std::mem::swap(&mut root, &mut self.root);
        let r = pop_max_at(&mut root);
        self.root = root;
        r
    }
}

/// A set has at most one smallest member, so `min` and `pop_min` are
/// determined by the view alone.
pub proof fn lemma_least_unique(s: Set<i64>, a: i64, b: i64)
    requires
        is_least(s, a),
        is_least(s, b),
    ensures
        a == b,
{
}

/// A set has at most one largest member, so `max` and `pop_max` are
/// determined by the view alone.
pub proof fn lemma_greatest_unique(s: Set<i64>, a: i64, b: i64)
    requires
        is_greatest(s, a),
        is_greatest(s, b),
    ensures
        a == b,
{
}

/// The smallest member of a nonempty strictly ascending sequence stands
/// first, so `min` equals the first entry of `inorder_traversal`.
pub proof fn lemma_least_is_first(s: Seq<i64>, m: i64)
    requires
        strictly_ascending(s),
        s.len() > 0,
        is_least(s.to_set(), m),
    ensures
        s[0] == m,
{
    let i = choose|i: int| 0 <= i < s.len() && s[i] == m;
    assert(s.to_set().contains(s[0]));
}

/// The largest member of a nonempty strictly ascending sequence stands
/// last, so `max` equals the last entry of `inorder_traversal`.
pub proof fn lemma_greatest_is_last(s: Seq<i64>, m: i64)
    requires
        strictly_ascending(s),
        s.len() > 0,
        is_greatest(s.to_set(), m),
    ensures
        s[s.len() - 1] == m,
{
    let i = choose|i: int| 0 <= i < s.len() && s[i] == m;
    assert(s.to_set().contains(s[s.len() - 1]));
}

/// Two strictly ascending sequences with the same members are the same
/// sequence: an in-order traversal is determined by the membership alone,
/// whatever order the values were inserted in.
pub proof fn lemma_ascending_unique(a: Seq<i64>, b: Seq<i64>)
    requires
        strictly_ascending(a),
        strictly_ascending(b),
        a.to_set() == b.to_set(),
    ensures
        a == b,
    decreases a.len(),
{
    if a.len() == 0 {
        if b.len() > 0 {
            assert(a.to_set().contains(b[0]));
            assert(a[choose|i: int| 0 <= i < a.len() && a[i] == b[0]] == b[0]);
        }
        assert(a =~= b);
    } else if b.len() == 0 {
        assert(b.to_set().contains(a[0]));
        assert(b[choose|i: int| 0 <= i < b.len() && b[i] == a[0]] == a[0]);
    } else {
        assert(a.to_set().contains(a[0]));
        assert(b.to_set().contains(b[0]));
        assert(is_least(a.to_set(), a[0])) by {
            assert forall|x: i64| a.to_set().contains(x) implies a[0] <= x by {
                let i = choose|i: int| 0 <= i < a.len() && a[i] == x;
                if i > 0 {
                    assert(a[0] < a[i]);
                }
            }
        }
        assert(is_least(b.to_set(), b[0])) by {
            assert forall|x: i64| b.to_set().contains(x) implies b[0] <= x by {
                let i = choose|i: int| 0 <= i < b.len() && b[i] == x;
                if i > 0 {
                    assert(b[0] < b[i]);
                }
            }
        }
        lemma_least_unique(a.to_set(), a[0], b[0]);
        let at = a.drop_first();
        let bt = b.drop_first();
        assert forall|x: i64| at.to_set().contains(x) implies a.to_set().remove(a[0]).contains(
            x,
        ) by {
            let i = choose|i: int| 0 <= i < at.len() && at[i] == x;
            assert(a[i + 1] == x);
            assert(a[0] < a[i + 1]);
        }
        assert forall|x: i64| a.to_set().remove(a[0]).contains(x) implies at.to_set().contains(
            x,
        ) by {
            let i = choose|i: int| 0 <= i < a.len() && a[i] == x;
            assert(i > 0);
            assert(at[i - 1] == x);
        }
        assert(at.to_set() =~= a.to_set().remove(a[0]));
        assert forall|x: i64| bt.to_set().contains(x) implies b.to_set().remove(b[0]).contains(
            x,
        ) by {
            let i = choose|i: int| 0 <= i < bt.len() && bt[i] == x;
            assert(b[i + 1] == x);
            assert(b[0] < b[i + 1]);
        }
        assert forall|x: i64| b.to_set().remove(b[0]).contains(x) implies bt.to_set().contains(
            x,
        ) by {
            let i = choose|i: int| 0 <= i < b.len() && b[i] == x;
            assert(i > 0);
            assert(bt[i - 1] == x);
        }
        assert(bt.to_set() =~= b.to_set().remove(b[0]));
        assert(strictly_ascending(at)) by {
            assert forall|i: int, j: int| 0 <= i < j < at.len() implies at[i] < at[j] by {
                assert(a[i + 1] < a[j + 1]);
            }
        }
        assert(strictly_ascending(bt)) by {
            assert forall|i: int, j: int| 0 <= i < j < bt.len() implies bt[i] < bt[j] by {
                assert(b[i + 1] < b[j + 1]);
            }
        }
        lemma_ascending_unique(at, bt);
        assert(at.len() == a.len() - 1);
        assert(bt.len() == b.len() - 1);
        assert(a.len() == b.len());
        assert(a =~= b) by {
            assert forall|i: int| 0 <= i < a.len() implies a[i] == b[i] by {
                if i > 0 {
                    assert(0 <= i - 1 < bt.len());
                    assert(a[i] == at[i - 1]);
                    assert(b[i] == bt[i - 1]);
                }
            }
        }
    }
}

/// Insertion order does not matter to the view: inserting `a` then `b`
/// leaves the same member set as inserting `b` then `a`, so membership
/// after a series of inserts is independent of their order.
pub proof fn lemma_insert_order_irrelevant(s: Set<i64>, a: i64, b: i64)
    ensures
        s.insert(a).insert(b) == s.insert(b).insert(a),
{
    assert(s.insert(a).insert(b) =~= s.insert(b).insert(a));
}

impl Default for BinarySearchTree {
    /// Same as `BinarySearchTree::new`: an empty container.
    fn default() -> (t: Self)
        ensures
            t@ == Set::<i64>::empty(),
            t.spec_len() == 0,
    {
        BinarySearchTree::new()
    }
}

} // verus!
