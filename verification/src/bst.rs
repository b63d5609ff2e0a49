//! Plain (unbalanced) binary search tree over `u64` keys: the baseline that
//! shares the data model and traversal logic of the balanced tree, but has
//! no rebalancing step, so a degenerate insertion order can produce a
//! linear chain.

use vstd::prelude::*;

use crate::sorted_strict;

verus! {

/// One node of the baseline tree: a key and the two owned child slots.
pub struct Node {
    pub value: u64,
    pub left: Option<Box<Node>>,
    pub right: Option<Box<Node>>,
}

/// The baseline binary search tree: at most one root node.
pub struct BST {
    pub root: Option<Box<Node>>,
}

/// The set of keys stored in an optional subtree.
pub open spec fn opt_set(o: Option<Box<Node>>) -> Set<u64>
    decreases o,
{
    match o {
        None => Set::empty(),
        Some(n) => n.as_set(),
    }
}

/// The keys of an optional subtree in left-to-right (in-order) order.
pub open spec fn opt_seq(o: Option<Box<Node>>) -> Seq<u64>
    decreases o,
{
    match o {
        None => Seq::empty(),
        Some(n) => n.as_seq(),
    }
}

/// Binary-search ordering holds everywhere in an optional subtree.
pub open spec fn opt_ordered(o: Option<Box<Node>>) -> bool
    decreases o,
{
    match o {
        None => true,
        Some(n) => n.ordered(),
    }
}

/// The subtree that the search descent reaches for `value`: the node storing
/// `value`, or nothing when the key is absent.
pub open spec fn found_in(o: Option<Box<Node>>, value: u64) -> Option<Box<Node>>
    decreases o,
{
    match o {
        None => None,
        Some(n) => if value < n.value {
            found_in(n.left, value)
        } else if value > n.value {
            found_in(n.right, value)
        } else {
            Some(n)
        },
    }
}

impl Node {
    /// The set of keys stored in the subtree rooted at this node.
    pub open spec fn as_set(self) -> Set<u64>
        decreases self,
    {
        opt_set(self.left).union(opt_set(self.right)).insert(self.value)
    }

    /// The keys of the subtree rooted here, in in-order order.
    pub open spec fn as_seq(self) -> Seq<u64>
        decreases self,
    {
        opt_seq(self.left) + seq![self.value] + opt_seq(self.right)
    }

    /// Keys to the left are smaller, keys to the right are larger, recursively.
    pub open spec fn ordered(self) -> bool
        decreases self,
    {
        &&& opt_ordered(self.left)
        &&& opt_ordered(self.right)
        &&& (forall|x: u64| opt_set(self.left).contains(x) ==> x < self.value)
        &&& (forall|x: u64| opt_set(self.right).contains(x) ==> self.value < x)
    }

    /// Create a leaf node holding `value`.
    pub fn new(value: u64) -> (n: Node)
        ensures
            n.value == value,
            n.left.is_none(),
            n.right.is_none(),
            n.ordered(),
            n.as_set() == Set::empty().insert(value),
            n.as_seq() == seq![value],
    {
        let n = Node { value, left: None, right: None };
        proof {
            assert(n.as_set() =~= Set::empty().insert(value));
            assert(n.as_seq() =~= seq![value]);
        }
        n
    }

    /// A structurally identical copy of the subtree rooted at this node.
    fn duplicate(&self) -> (r: Node)
        ensures
            r == *self,
        decreases *self,
    {
        Node {
            value: self.value,
            left: Self::duplicate_link(&self.left),
            right: Self::duplicate_link(&self.right),
        }
    }

    /// A structurally identical copy of an optional subtree.
    fn duplicate_link(o: &Option<Box<Node>>) -> (r: Option<Box<Node>>)
        ensures
            r == *o,
        decreases *o,
    {
        match o {
            None => None,
            Some(n) => Some(Box::new((&**n).duplicate())),
        }
    }

    /// The smallest key in the subtree rooted at this node: the left-most
    /// descendant, found by the same descent the deletion code uses.
    fn min_value(&self) -> (m: u64)
        requires
            self.ordered(),
        ensures
            self.as_set().contains(m),
            forall|x: u64| self.as_set().contains(x) ==> m <= x,
        decreases *self,
    {
        match &self.left {
            None => {
                proof {
                    assert(opt_set(self.left) =~= Set::empty());
                    assert(self.as_set().contains(self.value));
                    assert forall|x: u64| self.as_set().contains(x) implies self.value <= x by {
                        if opt_set(self.right).contains(x) {
                            assert(self.value < x);
                        } else {
                            assert(x == self.value);
                        }
                    }
                }
                self.value
            },
            Some(l) => {
                proof {
                    assert(l.ordered());
                }
                let m = (&**l).min_value();
                proof {
                    assert(opt_set(self.left).contains(m));
                    assert(self.as_set().contains(m));
                    assert(m < self.value);
                    assert forall|x: u64| self.as_set().contains(x) implies m <= x by {
                        if opt_set(self.right).contains(x) {
                            assert(self.value < x);
                        }
                    }
                }
                m
            },
        }
    }
}

/// The in-order sequence of a subtree contains exactly the keys of its set,
/// and that set is finite.
pub proof fn lemma_seq_set_membership(o: Option<Box<Node>>)
    ensures
        opt_seq(o).to_set() == opt_set(o),
        opt_set(o).finite(),
    decreases o,
{
    broadcast use vstd::seq_lib::seq_to_set_is_finite;

    match o {
        None => {
            assert(opt_seq(o).to_set() =~= opt_set(o));
        },
        Some(n) => {
            lemma_seq_set_membership(n.left);
            lemma_seq_set_membership(n.right);
            let ls = opt_seq(n.left);
            let rs = opt_seq(n.right);
            let s = opt_seq(o);
            assert(s == ls + seq![n.value] + rs);
            assert forall|x: u64| s.contains(x) implies opt_set(o).contains(x) by {
                let i = choose|i: int| 0 <= i < s.len() && s[i] == x;
                if i < ls.len() {
                    assert(ls[i] == x);
                    assert(ls.contains(x));
                    assert(ls.to_set().contains(x));
                } else if i == ls.len() {
                    assert(x == n.value);
                } else {
                    assert(rs[i - ls.len() - 1] == x);
                    assert(rs.contains(x));
                    assert(rs.to_set().contains(x));
                }
            }
            assert forall|x: u64| opt_set(o).contains(x) implies s.contains(x) by {
                if opt_set(n.left).contains(x) {
                    assert(ls.contains(x));
                    let i = choose|i: int| 0 <= i < ls.len() && ls[i] == x;
                    assert(s[i] == x);
                } else if opt_set(n.right).contains(x) {
                    assert(rs.contains(x));
                    let i = choose|i: int| 0 <= i < rs.len() && rs[i] == x;
                    assert(s[ls.len() + 1 + i] == x);
                } else {
                    assert(x == n.value);
                    assert(s[ls.len() as int] == x);
                }
            }
            assert(opt_seq(o).to_set() =~= opt_set(o));
        },
    }
}

/// Binary-search ordering of a subtree is the same thing as its in-order
/// sequence being strictly ascending.
pub proof fn lemma_ordered_iff_sorted(o: Option<Box<Node>>)
    ensures
        opt_ordered(o) <==> sorted_strict(opt_seq(o)),
    decreases o,
{
    match o {
        None => {},
        Some(n) => {
            lemma_ordered_iff_sorted(n.left);
            lemma_ordered_iff_sorted(n.right);
            lemma_seq_set_membership(n.left);
            lemma_seq_set_membership(n.right);
            let ls = opt_seq(n.left);
            let rs = opt_seq(n.right);
            let s = opt_seq(o);
            assert(s == ls + seq![n.value] + rs);
            if opt_ordered(o) {
                assert forall|i: int, j: int| 0 <= i < j < s.len() implies s[i] < s[j] by {
                    if j < ls.len() {
                        assert(s[i] == ls[i] && s[j] == ls[j]);
                    } else if i > ls.len() {
                        assert(s[i] == rs[i - ls.len() - 1] && s[j] == rs[j - ls.len() - 1]);
                    } else {
                        if i < ls.len() {
                            assert(ls.contains(ls[i]));
                            assert(opt_set(n.left).contains(s[i]));
                        }
                        if j > ls.len() {
                            assert(rs.contains(rs[j - ls.len() - 1]));
                            assert(opt_set(n.right).contains(s[j]));
                        }
                    }
                }
            }
            if sorted_strict(s) {
                assert forall|i: int, j: int| 0 <= i < j < ls.len() implies ls[i] < ls[j] by {
                    assert(s[i] == ls[i] && s[j] == ls[j]);
                }
                assert forall|i: int, j: int| 0 <= i < j < rs.len() implies rs[i] < rs[j] by {
                    assert(s[ls.len() + 1 + i] == rs[i] && s[ls.len() + 1 + j] == rs[j]);
                }
                assert forall|x: u64| opt_set(n.left).contains(x) implies x < n.value by {
                    assert(ls.contains(x));
                    let i = choose|i: int| 0 <= i < ls.len() && ls[i] == x;
                    assert(s[i] == x && s[ls.len() as int] == n.value);
                }
                assert forall|x: u64| opt_set(n.right).contains(x) implies n.value < x by {
                    assert(rs.contains(x));
                    let i = choose|i: int| 0 <= i < rs.len() && rs[i] == x;
                    assert(s[ls.len() + 1 + i] == x && s[ls.len() as int] == n.value);
                }
            }
        },
    }
}

/// In an ordered subtree the in-order sequence is strictly ascending, it
/// enumerates the key set exactly, and its length is the number of stored
/// keys.
pub proof fn lemma_traversal_props(o: Option<Box<Node>>)
    requires
        opt_ordered(o),
    ensures
        sorted_strict(opt_seq(o)),
        opt_seq(o).to_set() == opt_set(o),
        opt_seq(o).len() == opt_set(o).len(),
        opt_set(o).finite(),
{
    lemma_seq_set_membership(o);
    lemma_ordered_iff_sorted(o);
    let s = opt_seq(o);
    assert(s.no_duplicates()) by {
        assert forall|i: int, j: int|
            0 <= i < s.len() && 0 <= j < s.len() && i != j implies s[i] != s[j] by {
            if i < j {
                assert(s[i] < s[j]);
            } else {
                assert(s[j] < s[i]);
            }
        }
    }
    s.unique_seq_to_set();
}

/// Two ordered trees with the same contents produce the same in-order
/// traversal, whatever their shapes: the traversal is determined by the key
/// set alone.
pub proof fn lemma_traversal_determined(a: BST, b: BST)
    requires
        a.wf(),
        b.wf(),
        a@ == b@,
    ensures
        opt_seq(a.root) == opt_seq(b.root),
{
    lemma_traversal_props(a.root);
    lemma_traversal_props(b.root);
    crate::lemma_sorted_unique(opt_seq(a.root), opt_seq(b.root));
}

/// What the search descent finds: a node holding exactly the searched key,
/// if and only if the key is stored.
pub proof fn lemma_found_in(o: Option<Box<Node>>, value: u64)
    requires
        opt_ordered(o),
    ensures
        found_in(o, value).is_some() == opt_set(o).contains(value),
        found_in(o, value).is_some() ==> found_in(o, value).unwrap().value == value,
    decreases o,
{
    match o {
        None => {},
        Some(n) => {
            assert(n.ordered());
            if value < n.value {
                lemma_found_in(n.left, value);
                assert(!opt_set(n.right).contains(value));
            } else if value > n.value {
                lemma_found_in(n.right, value);
                assert(!opt_set(n.left).contains(value));
            } else {
                assert(opt_set(o).contains(value));
            }
        },
    }
}

impl View for BST {
    type V = Set<u64>;

    /// A tree is viewed abstractly as the set of keys it stores.
    open spec fn view(&self) -> Set<u64> {
        opt_set(self.root)
    }
}

impl BST {
    /// Binary-search ordering holds everywhere in the tree.
    pub open spec fn wf(self) -> bool {
        opt_ordered(self.root)
    }

    /// Create an empty tree.
    pub fn new() -> (t: BST)
        ensures
            t.wf(),
            t@ == Set::<u64>::empty(),
    {
        BST { root: None }
    }

    /// Insert `value`; if it is already present, overwrite it in place.
    pub fn insert(&mut self, value: u64)
        requires
            old(self).wf(),
        ensures
            final(self).wf(),
            final(self)@ == old(self)@.insert(value),
    {
        let root = self.root.take();
        self.root = Self::insert_internal(root, value);
    }

    fn insert_internal(node: Option<Box<Node>>, value: u64) -> (r: Option<Box<Node>>)
        requires
            opt_ordered(node),
        ensures
            r.is_some(),
            opt_ordered(r),
            opt_set(r) == opt_set(node).insert(value),
        decreases node,
    {
        match node {
            None => {
                let leaf = Box::new(Node::new(value));
                proof {
                    assert(leaf.as_set() =~= opt_set(node).insert(value));
                }
                Some(leaf)
            },
            Some(mut n) => {
                let ghost n0 = *n;
                if value < n.value {
                    let child = n.left.take();
                    n.left = Self::insert_internal(child, value);
                    proof {
                        assert forall|x: u64| opt_set(n.left).contains(x) implies x
                            < n.value by {
                            if opt_set(n0.left).contains(x) {
                            }
                        }
                        assert(n.ordered());
                        assert(n.as_set() =~= opt_set(node).insert(value));
                    }
                } else if value > n.value {
                    let child = n.right.take();
                    n.right = Self::insert_internal(child, value);
                    proof {
                        assert forall|x: u64| opt_set(n.right).contains(x) implies n.value
                            < x by {
                            if opt_set(n0.right).contains(x) {
                            }
                        }
                        assert(n.ordered());
                        assert(n.as_set() =~= opt_set(node).insert(value));
                    }
                } else {
                    n.value = value;
                    proof {
                        assert(value == n0.value);
                        assert(n.ordered());
                        assert(n0.as_set().contains(value));
                        assert(n.as_set() =~= opt_set(node).insert(value));
                    }
                }
                Some(n)
            },
        }
    }

    /// Remove `value` if present; removing an absent key changes nothing.
    pub fn remove(&mut self, value: u64)
        requires
            old(self).wf(),
        ensures
            final(self).wf(),
            final(self)@ == old(self)@.remove(value),
    {
        let root = self.root.take();
        self.root = Self::remove_internal(root, value);
    }

    fn remove_internal(node: Option<Box<Node>>, value: u64) -> (r: Option<Box<Node>>)
        requires
            opt_ordered(node),
        ensures
            opt_ordered(r),
            opt_set(r) == opt_set(node).remove(value),
        decreases node,
    {
        match node {
            None => {
                proof {
                    assert(opt_set(node).remove(value) =~= Set::empty());
                }
                None
            },
            Some(mut n) => {
                let ghost n0 = *n;
                if value < n.value {
                    let child = n.left.take();
                    n.left = Self::remove_internal(child, value);
                    proof {
                        assert forall|x: u64| opt_set(n.left).contains(x) implies x
                            < n.value by {
                            assert(opt_set(n0.left).contains(x));
                        }
                        assert(n.ordered());
                        assert(!opt_set(n0.right).contains(value));
                        assert(n0.value != value);
                        assert(n.as_set() =~= opt_set(node).remove(value));
                    }
                    Some(n)
                } else if value > n.value {
                    let child = n.right.take();
                    n.right = Self::remove_internal(child, value);
                    proof {
                        assert forall|x: u64| opt_set(n.right).contains(x) implies n.value
                            < x by {
                            assert(opt_set(n0.right).contains(x));
                        }
                        assert(n.ordered());
                        assert(!opt_set(n0.left).contains(value));
                        assert(n0.value != value);
                        assert(n.as_set() =~= opt_set(node).remove(value));
                    }
                    Some(n)
                } else {
                    proof {
                        assert(value == n0.value);
                        assert(!opt_set(n0.left).contains(value));
                        assert(!opt_set(n0.right).contains(value));
                    }
                    if n.left.is_none() {
                        proof {
                            assert(opt_set(n0.left) =~= Set::empty());
                            assert(opt_set(n0.right) =~= opt_set(node).remove(value));
                        }
                        return n.right;
                    }
                    if n.right.is_none() {
                        proof {
                            assert(opt_set(n0.right) =~= Set::empty());
                            assert(opt_set(n0.left) =~= opt_set(node).remove(value));
                        }
                        return n.left;
                    }
                    proof {
                        assert(n0.ordered());
                        assert(opt_ordered(n0.right));
                        assert(n0.right.unwrap().ordered());
                    }
                    let m = (&**n.right.as_ref().unwrap()).min_value();
                    proof {
                        assert(opt_set(n0.right).contains(m));
                        assert(n0.value < m);
                    }
                    n.value = m;
                    let child = n.right.take();
                    n.right = Self::remove_internal(child, m);
                    proof {
                        assert forall|x: u64| opt_set(n.left).contains(x) implies x < m by {
                            assert(x < n0.value);
                        }
                        assert forall|x: u64| opt_set(n.right).contains(x) implies m < x by {
                            assert(opt_set(n0.right).contains(x) && x != m);
                        }
                        assert(n.ordered());
                        assert(n.as_set() =~= opt_set(node).remove(value));
                    }
                    Some(n)
                }
            },
        }
    }

    /// Find `value` and return a copy of the subtree rooted at its node, or
    /// nothing when the key is absent.
    pub fn search(&self, value: u64) -> (r: Option<Box<Node>>)
        requires
            self.wf(),
        ensures
            r == found_in(self.root, value),
            r.is_some() == self@.contains(value),
            r.is_some() ==> r.unwrap().value == value,
    {
        proof {
            lemma_found_in(self.root, value);
        }
        Self::search_internal(&self.root, value)
    }

    fn search_internal(node: &Option<Box<Node>>, value: u64) -> (r: Option<Box<Node>>)
        ensures
            r == found_in(*node, value),
        decreases *node,
    {
        match node {
            None => None,
            Some(n) => {
                if value < n.value {
                    Self::search_internal(&n.left, value)
                } else if value > n.value {
                    Self::search_internal(&n.right, value)
                } else {
                    Some(Box::new((&**n).duplicate()))
                }
            },
        }
    }

    /// Materialise the stored keys as a vector in ascending sorted order.
    pub fn in_order_traversal(&self) -> (r: Vec<u64>)
        requires
            self.wf(),
        ensures
            r@ == opt_seq(self.root),
            sorted_strict(r@),
            r@.to_set() == self@,
            r@.len() == self@.len(),
    {
        let mut result = Vec::new();
        Self::in_order_helper(&self.root, &mut result);
        proof {
            lemma_traversal_props(self.root);
            assert(result@ =~= opt_seq(self.root));
        }
        result
    }

    /// Emit all keys in ascending order, appending them to `result`.
    fn in_order_helper(node: &Option<Box<Node>>, result: &mut Vec<u64>)
        ensures
            final(result)@ == old(result)@ + opt_seq(*node),
        decreases *node,
    {
        match node {
            None => {
                proof {
                    assert(result@ =~= old(result)@ + opt_seq(*node));
                }
            },
            Some(b) => {
                Self::in_order_helper(&b.left, result);
                result.push(b.value);
                Self::in_order_helper(&b.right, result);
                proof {
                    assert(result@ =~= old(result)@ + opt_seq(*node));
                }
            },
        }
    }
}

} // verus!
