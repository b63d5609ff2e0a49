//! Height-balanced binary search tree over `u64` keys.
//!
//! Every node stores the height of the subtree rooted at it (leaves have
//! height 1, absent children count as height 0), and after every insertion or
//! removal the tree restores the balance invariant: at each node the heights
//! of the two children differ by at most one.

use vstd::prelude::*;

use crate::sorted_strict;

verus! {

/// One node of the balanced tree: a key, the height of the subtree rooted
/// here, and the two owned child slots.
pub struct Node {
    pub value: u64,
    pub height: usize,
    pub left: Option<Box<Node>>,
    pub right: Option<Box<Node>>,
}

/// The balanced tree itself: at most one root node, which owns all others.
pub struct AVLTree {
    pub root: Option<Box<Node>>,
}

/// The larger of two natural numbers.
pub open spec fn max_nat(a: nat, b: nat) -> nat {
    if a >= b {
        a
    } else {
        b
    }
}

/// The set of keys stored in an optional subtree.
pub open spec fn opt_set(o: Option<Box<Node>>) -> Set<u64>
    decreases o,
{
    match o {
        None => Set::empty(),
        Some(n) => n.as_set(),
    }
}

/// The keys of an optional subtree in left-to-right (in-order) order.
pub open spec fn opt_seq(o: Option<Box<Node>>) -> Seq<u64>
    decreases o,
{
    match o {
        None => Seq::empty(),
        Some(n) => n.as_seq(),
    }
}

/// The true height of an optional subtree: 0 when absent.
pub open spec fn opt_height(o: Option<Box<Node>>) -> nat
    decreases o,
{
    match o {
        None => 0,
        Some(n) => n.subtree_height(),
    }
}

/// Binary-search ordering holds everywhere in an optional subtree.
pub open spec fn opt_ordered(o: Option<Box<Node>>) -> bool
    decreases o,
{
    match o {
        None => true,
        Some(n) => n.ordered(),
    }
}

/// Every stored height field in an optional subtree is accurate.
pub open spec fn opt_heights_ok(o: Option<Box<Node>>) -> bool
    decreases o,
{
    match o {
        None => true,
        Some(n) => n.heights_ok(),
    }
}

/// The balance invariant holds everywhere in an optional subtree.
pub open spec fn opt_balanced(o: Option<Box<Node>>) -> bool
    decreases o,
{
    match o {
        None => true,
        Some(n) => n.balanced(),
    }
}

/// All structural invariants of the balanced tree at once.
pub open spec fn opt_wf(o: Option<Box<Node>>) -> bool {
    opt_ordered(o) && opt_heights_ok(o) && opt_balanced(o)
}

/// The in-order sequence of a subtree contains exactly the keys of its set,
/// and that set is finite.
pub proof fn lemma_seq_set_membership(o: Option<Box<Node>>)
    ensures
        opt_seq(o).to_set() == opt_set(o),
        opt_set(o).finite(),
    decreases o,
{
    broadcast use vstd::seq_lib::seq_to_set_is_finite;

    match o {
        None => {
            assert(opt_seq(o).to_set() =~= opt_set(o));
        },
        Some(n) => {
            lemma_seq_set_membership(n.left);
            lemma_seq_set_membership(n.right);
            let ls = opt_seq(n.left);
            let rs = opt_seq(n.right);
            let s = opt_seq(o);
            assert(s == ls + seq![n.value] + rs);
            assert forall|x: u64| s.contains(x) implies opt_set(o).contains(x) by {
                let i = choose|i: int| 0 <= i < s.len() && s[i] == x;
                if i < ls.len() {
                    assert(ls[i] == x);
                    assert(ls.contains(x));
                    assert(ls.to_set().contains(x));
                } else if i == ls.len() {
                    assert(x == n.value);
                } else {
                    assert(rs[i - ls.len() - 1] == x);
                    assert(rs.contains(x));
                    assert(rs.to_set().contains(x));
                }
            }
            assert forall|x: u64| opt_set(o).contains(x) implies s.contains(x) by {
                if opt_set(n.left).contains(x) {
                    assert(ls.contains(x));
                    let i = choose|i: int| 0 <= i < ls.len() && ls[i] == x;
                    assert(s[i] == x);
                } else if opt_set(n.right).contains(x) {
                    assert(rs.contains(x));
                    let i = choose|i: int| 0 <= i < rs.len() && rs[i] == x;
                    assert(s[ls.len() + 1 + i] == x);
                } else {
                    assert(x == n.value);
                    assert(s[ls.len() as int] == x);
                }
            }
            assert(opt_seq(o).to_set() =~= opt_set(o));
        },
    }
}

/// Binary-search ordering of a subtree is the same thing as its in-order
/// sequence being strictly ascending.
pub proof fn lemma_ordered_iff_sorted(o: Option<Box<Node>>)
    ensures
        opt_ordered(o) <==> sorted_strict(opt_seq(o)),
    decreases o,
{
    match o {
        None => {},
        Some(n) => {
            lemma_ordered_iff_sorted(n.left);
            lemma_ordered_iff_sorted(n.right);
            lemma_seq_set_membership(n.left);
            lemma_seq_set_membership(n.right);
            let ls = opt_seq(n.left);
            let rs = opt_seq(n.right);
            let s = opt_seq(o);
            assert(s == ls + seq![n.value] + rs);
            if opt_ordered(o) {
                assert forall|i: int, j: int| 0 <= i < j < s.len() implies s[i] < s[j] by {
                    if j < ls.len() {
                        assert(s[i] == ls[i] && s[j] == ls[j]);
                    } else if i > ls.len() {
                        assert(s[i] == rs[i - ls.len() - 1] && s[j] == rs[j - ls.len() - 1]);
                    } else {
                        if i < ls.len() {
                            assert(ls.contains(ls[i]));
                            assert(opt_set(n.left).contains(s[i]));
                        }
                        if j > ls.len() {
                            assert(rs.contains(rs[j - ls.len() - 1]));
                            assert(opt_set(n.right).contains(s[j]));
                        }
                    }
                }
            }
            if sorted_strict(s) {
                assert forall|i: int, j: int| 0 <= i < j < ls.len() implies ls[i] < ls[j] by {
                    assert(s[i] == ls[i] && s[j] == ls[j]);
                }
                assert forall|i: int, j: int| 0 <= i < j < rs.len() implies rs[i] < rs[j] by {
                    assert(s[ls.len() + 1 + i] == rs[i] && s[ls.len() + 1 + j] == rs[j]);
                }
                assert forall|x: u64| opt_set(n.left).contains(x) implies x < n.value by {
                    assert(ls.contains(x));
                    let i = choose|i: int| 0 <= i < ls.len() && ls[i] == x;
                    assert(s[i] == x && s[ls.len() as int] == n.value);
                }
                assert forall|x: u64| opt_set(n.right).contains(x) implies n.value < x by {
                    assert(rs.contains(x));
                    let i = choose|i: int| 0 <= i < rs.len() && rs[i] == x;
                    assert(s[ls.len() + 1 + i] == x && s[ls.len() as int] == n.value);
                }
            }
        },
    }
}

/// In an ordered subtree the in-order sequence is strictly ascending, it
/// enumerates the key set exactly, and its length is the number of stored
/// keys.
pub proof fn lemma_traversal_props(o: Option<Box<Node>>)
    requires
        opt_ordered(o),
    ensures
        sorted_strict(opt_seq(o)),
        opt_seq(o).to_set() == opt_set(o),
        opt_seq(o).len() == opt_set(o).len(),
        opt_set(o).finite(),
{
    lemma_seq_set_membership(o);
    lemma_ordered_iff_sorted(o);
    let s = opt_seq(o);
    assert(s.no_duplicates()) by {
        assert forall|i: int, j: int|
            0 <= i < s.len() && 0 <= j < s.len() && i != j implies s[i] != s[j] by {
            if i < j {
                assert(s[i] < s[j]);
            } else {
                assert(s[j] < s[i]);
            }
        }
    }
    s.unique_seq_to_set();
}

impl Node {
    /// The set of keys stored in the subtree rooted at this node.
    pub open spec fn as_set(self) -> Set<u64>
        decreases self,
    {
        opt_set(self.left).union(opt_set(self.right)).insert(self.value)
    }

    /// The keys of the subtree rooted here, in in-order order.
    pub open spec fn as_seq(self) -> Seq<u64>
        decreases self,
    {
        opt_seq(self.left) + seq![self.value] + opt_seq(self.right)
    }

    /// The true height of the subtree rooted here (ignoring stored fields).
    pub open spec fn subtree_height(self) -> nat
        decreases self,
    {
        1 + max_nat(opt_height(self.left), opt_height(self.right))
    }

    /// Keys to the left are smaller, keys to the right are larger, recursively.
    pub open spec fn ordered(self) -> bool
        decreases self,
    {
        &&& opt_ordered(self.left)
        &&& opt_ordered(self.right)
        &&& (forall|x: u64| opt_set(self.left).contains(x) ==> x < self.value)
        &&& (forall|x: u64| opt_set(self.right).contains(x) ==> self.value < x)
    }

    /// The stored height fields agree with the true heights, recursively.
    pub open spec fn heights_ok(self) -> bool
        decreases self,
    {
        &&& opt_heights_ok(self.left)
        &&& opt_heights_ok(self.right)
        &&& self.height as nat == self.subtree_height()
    }

    /// Child heights differ by at most one, recursively.
    pub open spec fn balanced(self) -> bool
        decreases self,
    {
        &&& opt_balanced(self.left)
        &&& opt_balanced(self.right)
        &&& opt_height(self.left) <= opt_height(self.right) + 1
        &&& opt_height(self.right) <= opt_height(self.left) + 1
    }

    /// All invariants of the subtree rooted here.
    pub open spec fn wf(self) -> bool {
        self.ordered() && self.heights_ok() && self.balanced()
    }

    fn new(value: u64) -> (n: Node)
        ensures
            n.wf(),
            n.as_set() == Set::empty().insert(value),
            n.as_seq() == seq![value],
            n.subtree_height() == 1,
    {
        let n = Node { value, height: 1, left: None, right: None };
        proof {
            assert(n.as_set() =~= Set::empty().insert(value));
            assert(n.as_seq() =~= seq![value]);
        }
        n
    }

    /// The stored height of an optional subtree; 0 for an absent child.
    fn height(node: &Option<Box<Node>>) -> (h: usize)
        requires
            opt_heights_ok(*node),
        ensures
            h as nat == opt_height(*node),
    {
        match node {
            None => 0,
            Some(n) => n.height,
        }
    }

    /// Recompute this node's height field from its (already accurate) children.
    fn update_height(&mut self)
        requires
            opt_heights_ok(old(self).left),
            opt_heights_ok(old(self).right),
            old(self).subtree_height() <= usize::MAX,
        ensures
            final(self).value == old(self).value,
            final(self).left == old(self).left,
            final(self).right == old(self).right,
            final(self).heights_ok(),
    {
        let hl = Node::height(&self.left);
        let hr = Node::height(&self.right);
        self.height = 1 + if hl >= hr {
            hl
        } else {
            hr
        };
    }

    /// Promote the left child: it becomes the subtree root, its former right
    /// child becomes the demoted node's new left child.
    fn rotate_right(n: Box<Node>) -> (r: Box<Node>)
        requires
            n.left.is_some(),
            opt_heights_ok(n.left),
            opt_heights_ok(n.right),
            2 + max_nat(
                opt_height(n.left.unwrap().left),
                max_nat(opt_height(n.left.unwrap().right), opt_height(n.right)),
            ) <= usize::MAX,
        ensures
            ({
                let l = n.left.unwrap();
                &&& r.value == l.value
                &&& r.left == l.left
                &&& r.right.is_some()
                &&& r.right.unwrap().value == n.value
                &&& r.right.unwrap().left == l.right
                &&& r.right.unwrap().right == n.right
                &&& r.heights_ok()
                &&& r.as_set() == n.as_set()
                &&& r.as_seq() == n.as_seq()
            }),
    {
        let ghost n0 = *n;
        let mut old_root = n;
        let mut new_root = old_root.left.take().unwrap();
        old_root.left = new_root.right.take();
        (&mut *old_root).update_height();
        let ghost demoted = *old_root;
        new_root.right = Some(old_root);
        (&mut *new_root).update_height();
        proof {
            let l0 = n0.left.unwrap();
            assert(demoted.as_set() == opt_set(l0.right).union(opt_set(n0.right)).insert(
                n0.value,
            ));
            assert(l0.as_set() == opt_set(l0.left).union(opt_set(l0.right)).insert(l0.value));
            assert(opt_set(n0.left) == l0.as_set());
            assert(n0.as_set() == opt_set(n0.left).union(opt_set(n0.right)).insert(n0.value));
            assert(opt_set(new_root.right) == demoted.as_set());
            assert(new_root.as_set() == opt_set(l0.left).union(demoted.as_set()).insert(l0.value));
            assert(new_root.as_set() =~= n0.as_set());
            assert(demoted.as_seq() == opt_seq(l0.right) + seq![n0.value] + opt_seq(n0.right));
            assert(l0.as_seq() == opt_seq(l0.left) + seq![l0.value] + opt_seq(l0.right));
            assert(opt_seq(n0.left) == l0.as_seq());
            assert(n0.as_seq() == opt_seq(n0.left) + seq![n0.value] + opt_seq(n0.right));
            assert(opt_seq(new_root.right) == demoted.as_seq());
            assert(new_root.as_seq() == opt_seq(l0.left) + seq![l0.value] + demoted.as_seq());
            assert(new_root.as_seq() =~= n0.as_seq());
        }
        new_root
    }

    /// Restore the balance invariant at this node after one child changed
    /// height by at most one level, choosing a single or double rotation.
    fn balance(n: Box<Node>) -> (r: Box<Node>)
        requires
            n.ordered(),
            opt_heights_ok(n.left),
            opt_heights_ok(n.right),
            opt_balanced(n.left),
            opt_balanced(n.right),
            opt_height(n.left) <= opt_height(n.right) + 2,
            opt_height(n.right) <= opt_height(n.left) + 2,
            n.subtree_height() <= usize::MAX,
        ensures
            r.wf(),
            r.as_set() == n.as_set(),
            r.as_seq() == n.as_seq(),
            r.subtree_height() <= n.subtree_height(),
            n.subtree_height() <= r.subtree_height() + 1,
            (opt_height(n.left) <= opt_height(n.right) + 1 && opt_height(n.right) <= opt_height(
                n.left,
            ) + 1) ==> r.subtree_height() == n.subtree_height(),
    {
        let ghost n0 = *n;
        let ghost hl0 = opt_height(n0.left);
        let ghost hr0 = opt_height(n0.right);
        let mut node = n;
        (&mut *node).update_height();
        let hl = Node::height(&node.left);
        let hr = Node::height(&node.right);
        if hl > hr && hl - hr == 2 {
            proof {
                assert(opt_height(node.left) >= 2);
                assert(node.left.is_some());
                assert(n0.left.unwrap().heights_ok());
                assert(n0.left.unwrap().balanced());
            }
            let go_double = {
                let l = node.left.as_ref().unwrap();
                let hll = Node::height(&l.left);
                let hlr = Node::height(&l.right);
                hll < hlr
            };
            let ghost l0 = n0.left.unwrap();
            let ghost hll = opt_height(l0.left);
            let ghost hlr = opt_height(l0.right);
            if go_double {
                let l = node.left.take().unwrap();
                proof {
                    assert(l0.subtree_height() == hl0);
                    assert(hlr == hll + 1 && hl0 == hll + 2 && hr0 == hll);
                    assert(opt_height(l.right) >= 1);
                    assert(l.right.is_some());
                    assert(l0.right.unwrap().heights_ok());
                    assert(l0.right.unwrap().balanced());
                }
                let turned = Node::rotate_left(l);
                proof {
                    let inner = turned.left.unwrap();
                    assert(inner.subtree_height() == hll + 1);
                    assert(inner.balanced());
                    assert(turned.as_set() == l0.as_set() && turned.as_seq() == l0.as_seq());
                }
                node.left = Some(turned);
                proof {
                    assert(node.as_seq() == n0.as_seq());
                    assert(node.as_set() =~= n0.as_set());
                }
            }
            let ghost mid = *node;
            let wide = Node::rotate_right(node);
            proof {
                let ml = mid.left.unwrap();
                let d = wide.right.unwrap();
                assert(d.subtree_height() == 1 + max_nat(
                    opt_height(ml.right),
                    opt_height(mid.right),
                ));
                if !go_double {
                    assert(hll >= hlr && hll == hl0 - 1 && hll == hr0 + 1);
                    assert(d.balanced());
                    assert(wide.balanced());
                    assert(wide.subtree_height() <= n0.subtree_height());
                    assert(n0.subtree_height() <= wide.subtree_height() + 1);
                } else {
                    assert(d.balanced());
                    assert(wide.balanced());
                    assert(wide.subtree_height() == hll + 2);
                    assert(n0.subtree_height() == hll + 3);
                }
                assert(wide.as_seq() == n0.as_seq());
                assert(wide.as_set() =~= n0.as_set());
                Self::lemma_balance_shape(n0, *wide);
            }
            wide
        } else if hr > hl && hr - hl == 2 {
            proof {
                assert(opt_height(node.right) >= 2);
                assert(node.right.is_some());
                assert(n0.right.unwrap().heights_ok());
                assert(n0.right.unwrap().balanced());
            }
            let go_double = {
                let g = node.right.as_ref().unwrap();
                let hrl = Node::height(&g.left);
                let hrr = Node::height(&g.right);
                hrl > hrr
            };
            let ghost g0 = n0.right.unwrap();
            let ghost hrl = opt_height(g0.left);
            let ghost hrr = opt_height(g0.right);
            if go_double {
                let g = node.right.take().unwrap();
                proof {
                    assert(g0.subtree_height() == hr0);
                    assert(hrl == hrr + 1 && hr0 == hrr + 2 && hl0 == hrr);
                    assert(opt_height(g.left) >= 1);
                    assert(g.left.is_some());
                    assert(g0.left.unwrap().heights_ok());
                    assert(g0.left.unwrap().balanced());
                }
                let turned = Node::rotate_right(g);
                proof {
                    let inner = turned.right.unwrap();
                    assert(inner.subtree_height() == hrr + 1);
                    assert(inner.balanced());
                    assert(turned.as_set() == g0.as_set() && turned.as_seq() == g0.as_seq());
                }
                node.right = Some(turned);
                proof {
                    assert(node.as_seq() == n0.as_seq());
                    assert(node.as_set() =~= n0.as_set());
                }
            }
            let ghost mid = *node;
            let wide = Node::rotate_left(node);
            proof {
                let mg = mid.right.unwrap();
                let d = wide.left.unwrap();
                assert(d.subtree_height() == 1 + max_nat(
                    opt_height(mid.left),
                    opt_height(mg.left),
                ));
                if !go_double {
                    assert(hrl <= hrr && hrr == hr0 - 1 && hrr == hl0 + 1);
                    assert(d.balanced());
                    assert(wide.balanced());
                    assert(wide.subtree_height() <= n0.subtree_height());
                    assert(n0.subtree_height() <= wide.subtree_height() + 1);
                } else {
                    assert(d.balanced());
                    assert(wide.balanced());
                    assert(wide.subtree_height() == hrr + 2);
                    assert(n0.subtree_height() == hrr + 3);
                }
                assert(wide.as_seq() == n0.as_seq());
                assert(wide.as_set() =~= n0.as_set());
                Self::lemma_balance_shape(n0, *wide);
            }
            wide
        } else {
            proof {
                assert(node.balanced());
                assert(node.as_seq() == n0.as_seq());
                assert(node.as_set() =~= n0.as_set());
                Self::lemma_balance_shape(n0, *node);
            }
            node
        }
    }

    /// The smallest key in the subtree rooted at this node: the left-most
    /// descendant, found by the same descent the deletion code uses.
    fn min_value(&self) -> (m: u64)
        requires
            self.ordered(),
        ensures
            self.as_set().contains(m),
            forall|x: u64| self.as_set().contains(x) ==> m <= x,
        decreases *self,
    {
        match &self.left {
            None => {
                proof {
                    assert(opt_set(self.left) =~= Set::empty());
                    assert(self.as_set().contains(self.value));
                    assert forall|x: u64| self.as_set().contains(x) implies self.value <= x by {
                        if opt_set(self.right).contains(x) {
                            assert(self.value < x);
                        } else {
                            assert(x == self.value);
                        }
                    }
                }
                self.value
            },
            Some(l) => {
                proof {
                    assert(l.ordered());
                }
                let m = (&**l).min_value();
                proof {
                    assert(opt_set(self.left).contains(m));
                    assert(self.as_set().contains(m));
                    assert(m < self.value);
                    assert forall|x: u64| self.as_set().contains(x) implies m <= x by {
                        if opt_set(self.right).contains(x) {
                            assert(self.value < x);
                        }
                    }
                }
                m
            },
        }
    }

    /// Ordering transfers between trees with the same in-order sequence.
    proof fn lemma_balance_shape(a: Node, b: Node)
        requires
            a.ordered(),
            b.as_seq() == a.as_seq(),
        ensures
            b.ordered(),
    {
        lemma_ordered_iff_sorted(Some(Box::new(a)));
        lemma_ordered_iff_sorted(Some(Box::new(b)));
    }

    /// Promote the right child: the mirror image of `rotate_right`.
    fn rotate_left(n: Box<Node>) -> (r: Box<Node>)
        requires
            n.right.is_some(),
            opt_heights_ok(n.left),
            opt_heights_ok(n.right),
            2 + max_nat(
                opt_height(n.left),
                max_nat(opt_height(n.right.unwrap().left), opt_height(n.right.unwrap().right)),
            ) <= usize::MAX,
        ensures
            ({
                let g = n.right.unwrap();
                &&& r.value == g.value
                &&& r.right == g.right
                &&& r.left.is_some()
                &&& r.left.unwrap().value == n.value
                &&& r.left.unwrap().right == g.left
                &&& r.left.unwrap().left == n.left
                &&& r.heights_ok()
                &&& r.as_set() == n.as_set()
                &&& r.as_seq() == n.as_seq()
            }),
    {
        let ghost n0 = *n;
        let mut old_root = n;
        let mut new_root = old_root.right.take().unwrap();
        old_root.right = new_root.left.take();
        (&mut *old_root).update_height();
        let ghost demoted = *old_root;
        new_root.left = Some(old_root);
        (&mut *new_root).update_height();
        proof {
            let g0 = n0.right.unwrap();
            assert(demoted.as_set() == opt_set(n0.left).union(opt_set(g0.left)).insert(n0.value));
            assert(g0.as_set() == opt_set(g0.left).union(opt_set(g0.right)).insert(g0.value));
            assert(opt_set(n0.right) == g0.as_set());
            assert(n0.as_set() == opt_set(n0.left).union(opt_set(n0.right)).insert(n0.value));
            assert(opt_set(new_root.left) == demoted.as_set());
            assert(new_root.as_set() == demoted.as_set().union(opt_set(g0.right)).insert(g0.value));
            assert(new_root.as_set() =~= n0.as_set());
            assert(demoted.as_seq() == opt_seq(n0.left) + seq![n0.value] + opt_seq(g0.left));
            assert(g0.as_seq() == opt_seq(g0.left) + seq![g0.value] + opt_seq(g0.right));
            assert(opt_seq(n0.right) == g0.as_seq());
            assert(n0.as_seq() == opt_seq(n0.left) + seq![n0.value] + opt_seq(n0.right));
            assert(opt_seq(new_root.left) == demoted.as_seq());
            assert(new_root.as_seq() == demoted.as_seq() + seq![g0.value] + opt_seq(g0.right));
            assert(new_root.as_seq() =~= n0.as_seq());
        }
        new_root
    }
}

/// Fibonacci numbers, used to state the classical height bound of
/// height-balanced search trees.
pub open spec fn fib(n: nat) -> nat
    decreases n,
{
    if n == 0 {
        0
    } else if n == 1 {
        1
    } else {
        fib((n - 2) as nat) + fib((n - 1) as nat)
    }
}

/// Fibonacci numbers never decrease.
pub proof fn lemma_fib_mono(i: nat, j: nat)
    requires
        i <= j,
    ensures
        fib(i) <= fib(j),
    decreases j,
{
    if i < j {
        if j == 1 {
            assert(fib(0) == 0 && fib(1) == 1);
        } else {
            lemma_fib_mono(i, (j - 1) as nat);
            assert(fib(j) == fib((j - 2) as nat) + fib((j - 1) as nat));
        }
    }
}

/// A balanced subtree of height `h` holds at least `fib(h + 2) - 1` keys.
pub proof fn lemma_min_size(o: Option<Box<Node>>)
    requires
        opt_balanced(o),
    ensures
        fib(opt_height(o) + 2) <= opt_seq(o).len() + 1,
    decreases o,
{
    match o {
        None => {
            assert(fib(2) == fib(0) + fib(1) == 1);
        },
        Some(n) => {
            assert(n.balanced());
            lemma_min_size(n.left);
            lemma_min_size(n.right);
            let hl = opt_height(n.left);
            let hr = opt_height(n.right);
            let h = n.subtree_height();
            assert(n.as_seq().len() == opt_seq(n.left).len() + 1 + opt_seq(n.right).len());
            assert(fib(h + 2) == fib(h) + fib(h + 1));
            if hl >= hr {
                assert(h == hl + 1);
                lemma_fib_mono(h, hr + 2);
                assert(fib(h + 1) == fib(hl + 2));
            } else {
                assert(h == hr + 1);
                lemma_fib_mono(h, hl + 2);
                assert(fib(h + 1) == fib(hr + 2));
            }
        },
    }
}

/// The classical bound on a well-formed balanced tree: a tree of height `h`
/// stores at least `fib(h + 2) - 1` keys, so the height grows only
/// logarithmically with the number of stored keys.
pub proof fn lemma_height_bound(t: AVLTree)
    requires
        t.wf(),
    ensures
        fib(opt_height(t.root) + 2) <= t@.len() + 1,
{
    lemma_min_size(t.root);
    lemma_traversal_props(t.root);
}

/// Two well-formed trees with the same contents produce the same in-order
/// traversal, whatever their shapes: the traversal is determined by the key
/// set alone. In particular, a repeated insert or the removal of an absent
/// key leaves the traversal unchanged, not merely the key set.
pub proof fn lemma_traversal_determined(a: AVLTree, b: AVLTree)
    requires
        a.wf(),
        b.wf(),
        a@ == b@,
    ensures
        opt_seq(a.root) == opt_seq(b.root),
{
    lemma_traversal_props(a.root);
    lemma_traversal_props(b.root);
    crate::lemma_sorted_unique(opt_seq(a.root), opt_seq(b.root));
}

/// Height never exceeds the number of stored keys.
pub proof fn lemma_height_le_len(o: Option<Box<Node>>)
    ensures
        opt_height(o) <= opt_seq(o).len(),
    decreases o,
{
    match o {
        None => {},
        Some(n) => {
            lemma_height_le_len(n.left);
            lemma_height_le_len(n.right);
            assert(n.as_seq().len() == opt_seq(n.left).len() + 1 + opt_seq(n.right).len());
        },
    }
}

impl View for AVLTree {
    type V = Set<u64>;

    /// A tree is viewed abstractly as the set of keys it stores.
    open spec fn view(&self) -> Set<u64> {
        opt_set(self.root)
    }
}

impl AVLTree {
    /// All structural invariants hold: binary-search ordering, accurate
    /// height fields, and the balance invariant at every node.
    pub open spec fn wf(self) -> bool {
        opt_wf(self.root)
    }

    /// Create an empty tree.
    pub fn new() -> (t: AVLTree)
        ensures
            t.wf(),
            t@ == Set::<u64>::empty(),
    {
        AVLTree { root: None }
    }

    /// Insert `value`; if it is already present, overwrite it in place.
    /// The key-set bound keeps every height counter within `usize`.
    pub fn insert(&mut self, value: u64)
        requires
            old(self).wf(),
            old(self)@.len() < usize::MAX,
        ensures
            final(self).wf(),
            final(self)@ == old(self)@.insert(value),
    {
        proof {
            lemma_traversal_props(self.root);
            lemma_height_le_len(self.root);
        }
        let root = self.root.take();
        self.root = Self::insert_internal(root, value);
    }

    fn insert_internal(node: Option<Box<Node>>, value: u64) -> (r: Option<Box<Node>>)
        requires
            opt_wf(node),
            opt_height(node) < usize::MAX,
        ensures
            r.is_some(),
            opt_wf(r),
            opt_set(r) == opt_set(node).insert(value),
            opt_height(node) <= opt_height(r),
            opt_height(r) <= opt_height(node) + 1,
        decreases node,
    {
        match node {
            None => {
                let leaf = Box::new(Node::new(value));
                proof {
                    assert(leaf.as_set() =~= opt_set(node).insert(value));
                }
                Some(leaf)
            },
            Some(mut n) => {
                let ghost n0 = *n;
                let ghost hl0 = opt_height(n0.left);
                let ghost hr0 = opt_height(n0.right);
                if value < n.value {
                    let child = n.left.take();
                    n.left = Self::insert_internal(child, value);
                    proof {
                        assert forall|x: u64| opt_set(n.left).contains(x) implies x
                            < n.value by {
                            if opt_set(n0.left).contains(x) {
                            }
                        }
                        assert(n.ordered());
                    }
                    let b = Node::balance(n);
                    proof {
                        assert(b.as_set() =~= opt_set(node).insert(value));
                    }
                    Some(b)
                } else if value > n.value {
                    let child = n.right.take();
                    n.right = Self::insert_internal(child, value);
                    proof {
                        assert forall|x: u64| opt_set(n.right).contains(x) implies n.value
                            < x by {
                            if opt_set(n0.right).contains(x) {
                            }
                        }
                        assert(n.ordered());
                    }
                    let b = Node::balance(n);
                    proof {
                        assert(b.as_set() =~= opt_set(node).insert(value));
                    }
                    Some(b)
                } else {
                    n.value = value;
                    proof {
                        assert(value == n0.value);
                        assert(n.ordered());
                    }
                    let b = Node::balance(n);
                    proof {
                        assert(n0.as_set().contains(value));
                        assert(b.as_set() =~= opt_set(node).insert(value));
                    }
                    Some(b)
                }
            },
        }
    }

    /// Remove `value` if present; removing an absent key changes nothing.
    pub fn remove(&mut self, value: u64)
        requires
            old(self).wf(),
        ensures
            final(self).wf(),
            final(self)@ == old(self)@.remove(value),
    {
        let root = self.root.take();
        self.root = Self::remove_internal(root, value);
    }

    /// Report whether `value` is stored, by an iterative descent that never
    /// mutates the tree.
    pub fn contains(&self, value: u64) -> (r: bool)
        requires
            self.wf(),
        ensures
            r == self@.contains(value),
    {
        let mut cur: &Option<Box<Node>> = &self.root;
        loop
            invariant
                opt_ordered(*cur),
                self@.contains(value) == opt_set(*cur).contains(value),
            decreases *cur,
        {
            match cur {
                None => {
                    return false;
                },
                Some(b) => {
                    proof {
                        assert(b.ordered());
                    }
                    if value < b.value {
                        proof {
                            assert(!opt_set(b.right).contains(value));
                            assert(opt_set(*cur).contains(value) == opt_set(b.left).contains(
                                value,
                            ));
                        }
                        cur = &b.left;
                    } else if value > b.value {
                        proof {
                            assert(!opt_set(b.left).contains(value));
                            assert(opt_set(*cur).contains(value) == opt_set(b.right).contains(
                                value,
                            ));
                        }
                        cur = &b.right;
                    } else {
                        proof {
                            assert(opt_set(*cur).contains(value));
                        }
                        return true;
                    }
                },
            }
        }
    }

    /// Emit all keys in ascending order, appending them to `result`.
    fn in_order_helper(node: &Option<Box<Node>>, result: &mut Vec<u64>)
        ensures
            final(result)@ == old(result)@ + opt_seq(*node),
        decreases *node,
    {
        match node {
            None => {
                proof {
                    assert(result@ =~= old(result)@ + opt_seq(*node));
                }
            },
            Some(b) => {
                Self::in_order_helper(&b.left, result);
                result.push(b.value);
                Self::in_order_helper(&b.right, result);
                proof {
                    assert(result@ =~= old(result)@ + opt_seq(*node));
                }
            },
        }
    }

    /// Materialise the stored keys as a vector in ascending sorted order.
    pub fn in_order_traversal(&self) -> (r: Vec<u64>)
        requires
            self.wf(),
        ensures
            r@ == opt_seq(self.root),
            sorted_strict(r@),
            r@.to_set() == self@,
            r@.len() == self@.len(),
    {
        let mut result = Vec::new();
        Self::in_order_helper(&self.root, &mut result);
        proof {
            lemma_traversal_props(self.root);
            assert(result@ =~= opt_seq(self.root));
        }
        result
    }

    /// The current height of the tree; 0 when empty.
    pub fn height(&self) -> (h: usize)
        requires
            self.wf(),
        ensures
            h as nat == opt_height(self.root),
    {
        Node::height(&self.root)
    }

    fn remove_internal(node: Option<Box<Node>>, value: u64) -> (r: Option<Box<Node>>)
        requires
            opt_wf(node),
        ensures
            opt_wf(r),
            opt_set(r) == opt_set(node).remove(value),
            opt_height(r) <= opt_height(node),
            opt_height(node) <= opt_height(r) + 1,
        decreases node,
    {
        match node {
            None => {
                proof {
                    assert(opt_set(node).remove(value) =~= Set::empty());
                }
                None
            },
            Some(mut n) => {
                let ghost n0 = *n;
                let ghost hl0 = opt_height(n0.left);
                let ghost hr0 = opt_height(n0.right);
                if value < n.value {
                    let child = n.left.take();
                    n.left = Self::remove_internal(child, value);
                    proof {
                        assert forall|x: u64| opt_set(n.left).contains(x) implies x
                            < n.value by {
                            assert(opt_set(n0.left).contains(x));
                        }
                        assert(n.ordered());
                        assert(n0.height as nat == n0.subtree_height());
                    }
                    let b = Node::balance(n);
                    proof {
                        assert(!opt_set(n0.right).contains(value));
                        assert(n0.value != value);
                        assert(b.as_set() =~= opt_set(node).remove(value));
                    }
                    Some(b)
                } else if value > n.value {
                    let child = n.right.take();
                    n.right = Self::remove_internal(child, value);
                    proof {
                        assert forall|x: u64| opt_set(n.right).contains(x) implies n.value
                            < x by {
                            assert(opt_set(n0.right).contains(x));
                        }
                        assert(n.ordered());
                        assert(n0.height as nat == n0.subtree_height());
                    }
                    let b = Node::balance(n);
                    proof {
                        assert(!opt_set(n0.left).contains(value));
                        assert(n0.value != value);
                        assert(b.as_set() =~= opt_set(node).remove(value));
                    }
                    Some(b)
                } else {
                    proof {
                        assert(value == n0.value);
                        assert(!opt_set(n0.left).contains(value));
                        assert(!opt_set(n0.right).contains(value));
                    }
                    if n.left.is_none() {
                        proof {
                            assert(opt_set(n0.left) =~= Set::empty());
                            assert(opt_set(n0.right) =~= opt_set(node).remove(value));
                        }
                        return n.right;
                    }
                    if n.right.is_none() {
                        proof {
                            assert(opt_set(n0.right) =~= Set::empty());
                            assert(opt_set(n0.left) =~= opt_set(node).remove(value));
                        }
                        return n.left;
                    }
                    proof {
                        assert(n0.ordered());
                        assert(opt_ordered(n0.right));
                        assert(n0.right.unwrap().ordered());
                    }
                    let m = (&**n.right.as_ref().unwrap()).min_value();
                    proof {
                        assert(opt_set(n0.right).contains(m));
                        assert(n0.value < m);
                    }
                    n.value = m;
                    let child = n.right.take();
                    n.right = Self::remove_internal(child, m);
                    proof {
                        assert forall|x: u64| opt_set(n.left).contains(x) implies x < m by {
                            assert(x < n0.value);
                        }
                        assert forall|x: u64| opt_set(n.right).contains(x) implies m < x by {
                            assert(opt_set(n0.right).contains(x) && x != m);
                        }
                        assert(n.ordered());
                        assert(n0.height as nat == n0.subtree_height());
                    }
                    let b = Node::balance(n);
                    proof {
                        assert(b.as_set() =~= opt_set(node).remove(value));
                    }
                    Some(b)
                }
            },
        }
    }
}

} // verus!
