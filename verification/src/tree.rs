//! The tree itself: nodes, the public handle, and the two traversal
//! iterators.
//!
//! The abstract model of a tree is the sequence of its values in symmetric
//! (in-)order, exposed as the tree's view. Insertion and lookup are specified
//! against that sequence; the iterators are specified by the sequence of
//! values they have yet to yield.

use vstd::prelude::*;
use vstd::multiset::Multiset;
use crate::order::StrictTotalOrder;

verus! {

broadcast use vstd::seq_lib::group_to_multiset_ensures, vstd::multiset::group_multiset_axioms;

/// `s` is in non-decreasing order: no later value comes strictly before an
/// earlier one.
pub open spec fn sorted<T: StrictTotalOrder>(s: Seq<T>) -> bool {
    forall|i: int, j: int| #![trigger s[i], s[j]] 0 <= i <= j < s.len() ==> !s[j].lt_spec(s[i])
}

/// Growing a value collection by one value, as `Tree::add` grows the view,
/// keeps every value already present, makes the new value present, and makes
/// nothing else present.
pub proof fn lemma_membership_after_add<T: StrictTotalOrder>(s1: Seq<T>, s2: Seq<T>, v: T, w: T)
    requires
        s2.to_multiset() == s1.to_multiset().insert(v),
    ensures
        s2.contains(v),
        s1.contains(w) ==> s2.contains(w),
        !s1.contains(w) && w != v ==> !s2.contains(w),
{
    assert(s2.to_multiset().count(v) > 0);
    if s1.contains(w) {
        assert(s1.to_multiset().count(w) > 0);
        assert(s2.to_multiset().count(w) > 0);
    }
    if !s1.contains(w) && w != v {
        assert(s1.to_multiset().count(w) == 0);
        assert(s2.to_multiset().count(w) == 0);
    }
}

/// A sorted sequence is determined by its values: two sorted sequences that
/// hold the same value multiset are equal. Together with the multiset clause
/// of `Tree::add`, this pins the view of a tree down to the one sorted
/// arrangement of everything added to it.
pub proof fn lemma_sorted_unique<T: StrictTotalOrder>(x: Seq<T>, y: Seq<T>)
    requires
        sorted(x),
        sorted(y),
        x.to_multiset() == y.to_multiset(),
    ensures
        x == y,
{
    let leq = |a: T, b: T| !b.lt_spec(a);
    assert forall|a: T| #[trigger] leq(a, a) by {
        if a.lt_spec(a) {
            T::lemma_asymmetric(a, a);
        }
    }
    assert forall|a: T, b: T| #[trigger] leq(a, b) && #[trigger] leq(b, a) implies a == b by {
        if a != b {
            T::lemma_connected(a, b);
        }
    }
    assert forall|a: T, b: T, c: T| #[trigger] leq(a, b) && #[trigger] leq(b, c) implies leq(
        a,
        c,
    ) by {
        if c.lt_spec(a) {
            if a == b {
            } else {
                T::lemma_connected(a, b);
                T::lemma_transitive(c, a, b);
            }
        }
    }
    assert forall|a: T, b: T| #[trigger] leq(a, b) || #[trigger] leq(b, a) by {
        if b.lt_spec(a) {
            T::lemma_asymmetric(b, a);
        }
    }
    assert(vstd::relations::total_ordering(leq));
    assert(vstd::relations::sorted_by(x, leq));
    assert(vstd::relations::sorted_by(y, leq));
    vstd::seq_lib::lemma_sorted_unique(x, y, leq);
    assert(x =~= y);
}

/// One node of the tree: a value and up to two exclusively owned subtrees.
#[derive(Debug)]
pub struct TreeNode<T: StrictTotalOrder> {
    item: T,
    left: Option<Box<TreeNode<T>>>,
    right: Option<Box<TreeNode<T>>>,
}

/// The public handle: an optional root node and the running count of
/// insertions.
#[derive(Debug)]
pub struct Tree<T: StrictTotalOrder> {
    root: Option<TreeNode<T>>,
    size: usize,
}

impl<T: StrictTotalOrder> TreeNode<T> {
    /// The in-order value sequence of an optional subtree.
    pub closed spec fn seq_of(n: Option<Box<TreeNode<T>>>) -> Seq<T>
        decreases n,
    {
        match n {
            None => Seq::empty(),
            Some(node) => node.in_seq(),
        }
    }

    /// The in-order value sequence of the subtree rooted at this node:
    /// left subtree, then the node's own value, then the right subtree.
    pub closed spec fn in_seq(self) -> Seq<T>
        decreases self,
    {
        Self::seq_of(self.left) + seq![self.item] + Self::seq_of(self.right)
    }

    /// The preorder value sequence of an optional subtree.
    pub closed spec fn pre_seq_of(n: Option<Box<TreeNode<T>>>) -> Seq<T>
        decreases n,
    {
        match n {
            None => Seq::empty(),
            Some(node) => node.pre_seq(),
        }
    }

    /// The preorder value sequence of the subtree rooted at this node: the
    /// node's own value, then the left subtree, then the right subtree.
    pub closed spec fn pre_seq(self) -> Seq<T>
        decreases self,
    {
        seq![self.item] + Self::pre_seq_of(self.left) + Self::pre_seq_of(self.right)
    }

    /// The value stored at this node.
    pub closed spec fn item_spec(self) -> T {
        self.item
    }

    /// The subtree that insertion into slot `n` yields: a fresh leaf when the
    /// slot is empty, else a recursive descent.
    pub closed spec fn spec_add_opt(n: Option<Box<TreeNode<T>>>, item: T) -> Option<
        Box<TreeNode<T>>,
    >
        decreases n,
    {
        match n {
            None => Some(Box::new(TreeNode { item, left: None, right: None })),
            Some(b) => Some(Box::new(b.spec_add(item))),
        }
    }

    /// The subtree that insertion below this node yields: `item` descends
    /// left when this node's value is strictly greater, right otherwise.
    pub closed spec fn spec_add(self, item: T) -> TreeNode<T>
        decreases self,
    {
        if item.lt_spec(self.item) {
            TreeNode { left: Self::spec_add_opt(self.left, item), ..self }
        } else {
            TreeNode { right: Self::spec_add_opt(self.right, item), ..self }
        }
    }

    /// The search-tree ordering property: strictly lesser items are confined
    /// to the left subtree, all other items to the right subtree,
    /// recursively.
    spec fn well_formed(self) -> bool
        decreases self,
    {
        &&& (forall|v: T| #[trigger] Self::seq_of(self.left).contains(v) ==> v.lt_spec(self.item))
        &&& (forall|v: T|
            #[trigger] Self::seq_of(self.right).contains(v) ==> !v.lt_spec(self.item))
        &&& (match self.left {
            Some(l) => l.well_formed(),
            None => true,
        })
        &&& (match self.right {
            Some(r) => r.well_formed(),
            None => true,
        })
    }
}

impl<T: StrictTotalOrder> View for TreeNode<T> {
    type V = Seq<T>;

    /// A node subtree is viewed as its in-order value sequence.
    closed spec fn view(&self) -> Seq<T> {
        self.in_seq()
    }
}

impl<T: StrictTotalOrder> View for Tree<T> {
    type V = Seq<T>;

    /// A tree is viewed as its in-order value sequence.
    closed spec fn view(&self) -> Seq<T> {
        match self.root {
            None => Seq::empty(),
            Some(n) => n.in_seq(),
        }
    }
}

/// Membership in a three-part concatenation, split into its parts.
proof fn lemma_three_way_contains<T>(a: Seq<T>, m: T, b: Seq<T>)
    ensures
        forall|v: T|
            #[trigger] (a + seq![m] + b).contains(v) <==> (a.contains(v) || v == m
                || b.contains(v)),
{
    let s = a + seq![m] + b;
    assert forall|v: T| #[trigger] s.contains(v) implies (a.contains(v) || v == m || b.contains(
        v,
    )) by {
        let i: int = choose|i: int| 0 <= i < s.len() && s[i] == v;
        if i < a.len() {
            assert(a[i] == v);
        } else if i == a.len() {
            assert(v == m);
        } else {
            assert(b[i - a.len() - 1] == v);
        }
    }
    assert forall|v: T| (a.contains(v) || v == m || b.contains(v)) implies #[trigger] s.contains(
        v,
    ) by {
        if a.contains(v) {
            let i: int = choose|i: int| 0 <= i < a.len() && a[i] == v;
            assert(s[i] == v);
        } else if v == m {
            assert(s[a.len() as int] == v);
        } else {
            let i: int = choose|i: int| 0 <= i < b.len() && b[i] == v;
            assert(s[a.len() + 1 + i] == v);
        }
    }
}

impl<T: StrictTotalOrder> Tree<T> {
    #[verifier::type_invariant]
    spec fn wf(self) -> bool {
        &&& (match self.root {
            None => true,
            Some(n) => n.well_formed(),
        })
        &&& self.size == self@.len()
    }

    /// The tree that insertion yields: the root is created on the first
    /// insertion, and later values descend from it by comparison.
    pub closed spec fn spec_add(self, item: T) -> Tree<T> {
        Tree {
            root: match self.root {
                None => Some(TreeNode { item, left: None, right: None }),
                Some(n) => Some(n.spec_add(item)),
            },
            size: (self.size + 1) as usize,
        }
    }

    /// Create an empty tree.
    pub fn new() -> (t: Tree<T>)
        ensures
            t@ == Seq::<T>::empty(),
    {
        Tree { root: None, size: 0 }
    }

    /// Return the number of values in the tree.
    pub fn size(&self) -> (n: usize)
        ensures
            n == self@.len(),
    {
        proof {
            use_type_invariant(self);
        }
        self.size
    }

    /// Move `item` into the tree. The view gains exactly one occurrence of
    /// `item` and keeps every value it already held.
    pub fn add(&mut self, item: T)
        requires
            old(self)@.len() < usize::MAX,
        ensures
            final(self)@.len() == old(self)@.len() + 1,
            final(self)@.to_multiset() == old(self)@.to_multiset().insert(item),
            final(self)@.contains(item),
            forall|v: T| #[trigger] old(self)@.contains(v) ==> final(self)@.contains(v),
            forall|v: T| #[trigger] final(self)@.contains(v) ==> v == item || old(self)@.contains(
                v,
            ),
            *final(self) == old(self).spec_add(item),
            sorted(final(self)@),
    {
        proof {
            use_type_invariant(&*self);
        }
        let mut taken = Tree { root: None, size: 0 };
        std::mem::swap(&mut taken, self);
        let Tree { root, size } = taken;
        let new_size: usize = size + 1;
        let new_root = match root {
            None => {
                let n = TreeNode::new(item);
                proof {
                    assert(old(self)@ =~= Seq::<T>::empty());
                    assert(seq![item] =~= Seq::<T>::empty().push(item));
                    assert(Seq::<T>::empty().to_multiset() =~= Multiset::<T>::empty());
                    assert(n.in_seq().to_multiset() =~= old(self)@.to_multiset().insert(item));
                }
                n
            },
            Some(mut n) => {
                n.add(item);
                n
            },
        };
        proof {
            assert(new_root.in_seq().to_multiset() =~= old(self)@.to_multiset().insert(item));
            assert(new_root.in_seq().to_multiset().len() == old(self)@.to_multiset().len() + 1);
            assert(new_root.in_seq().len() == old(self)@.len() + 1);
        }
        *self = Tree { root: Some(new_root), size: new_size };
        proof {
            assert(final(self)@.to_multiset() =~= old(self)@.to_multiset().insert(item));
            assert forall|v: T| #[trigger] old(self)@.contains(v) implies final(self)@.contains(
                v,
            ) by {
                assert(old(self)@.to_multiset().count(v) > 0);
                assert(final(self)@.to_multiset().count(v) > 0);
            }
            assert forall|v: T| #[trigger] final(self)@.contains(v) implies v == item || old(
                self,
            )@.contains(v) by {
                assert(final(self)@.to_multiset().count(v) > 0);
                if v != item {
                    assert(old(self)@.to_multiset().count(v) > 0);
                }
            }
            assert(final(self)@.to_multiset().count(item) > 0);
            new_root.lemma_wf_sorted();
        }
    }

    /// Read-only access to the root node, absent exactly when the tree is
    /// empty.
    pub fn root(&self) -> (r: Option<&TreeNode<T>>)
        ensures
            match r {
                None => self@.len() == 0,
                Some(node) => node@ == self@ && self@.len() > 0,
            },
    {
        proof {
            use_type_invariant(self);
        }
        match &self.root {
            None => None,
            Some(n) => Some(n),
        }
    }

    /// Return `true` exactly when the tree holds a value equal to `item`.
    pub fn contains(&self, item: &T) -> (r: bool)
        ensures
            r == self@.contains(*item),
    {
        proof {
            use_type_invariant(self);
        }
        match &self.root {
            None => false,
            Some(n) => n.contains(item),
        }
    }
}

impl<T: StrictTotalOrder> TreeNode<T> {
    /// The value stored at this node, which is among the subtree's values.
    pub fn item(&self) -> (r: &T)
        ensures
            *r == self.item_spec(),
            self@.contains(self.item_spec()),
    {
        proof {
            assert(self.in_seq()[Self::seq_of(self.left).len() as int] == self.item);
        }
        &self.item
    }

    /// Make a leaf node holding `item`.
    fn new(item: T) -> (n: TreeNode<T>)
        ensures
            n.well_formed(),
            n.in_seq() == seq![item],
            n.item_spec() == item,
            n == (TreeNode { item, left: None, right: None }),
    {
        let n = TreeNode { item, left: None, right: None };
        proof {
            assert(n.in_seq() =~= seq![item]);
        }
        n
    }

    /// Attach `item` below the slot `child`, making a leaf when the slot is
    /// empty.
    fn add_to_child(child: &mut Option<Box<TreeNode<T>>>, item: T)
        requires
            match *old(child) {
                Some(n) => n.well_formed(),
                None => true,
            },
        ensures
            match *final(child) {
                Some(n) => n.well_formed(),
                None => false,
            },
            Self::seq_of(*final(child)).to_multiset() == Self::seq_of(*old(child)).to_multiset()
                .insert(item),
            *final(child) == Self::spec_add_opt(*old(child), item),
        decreases *old(child),
    {
        match child.take() {
            None => {
                *child = Some(Box::new(TreeNode::new(item)));
                proof {
                    assert(Self::seq_of(*old(child)) =~= Seq::<T>::empty());
                    assert(seq![item] =~= Seq::<T>::empty().push(item));
                    assert(Seq::<T>::empty().to_multiset() =~= Multiset::<T>::empty());
                    assert(Self::seq_of(*child).to_multiset() =~= Self::seq_of(
                        *old(child),
                    ).to_multiset().insert(item));
                }
            },
            Some(mut b) => {
                (&mut *b).add(item);
                *child = Some(b);
            },
        }
    }

    /// Add `item` somewhere in the subtree rooted at `self`, descending left
    /// when this node's value is strictly greater and right otherwise.
    fn add(&mut self, item: T)
        requires
            old(self).well_formed(),
        ensures
            final(self).well_formed(),
            final(self).in_seq().to_multiset() == old(self).in_seq().to_multiset().insert(item),
            *final(self) == old(self).spec_add(item),
        decreases *old(self),
    {
        if item.lt(&self.item) {
            Self::add_to_child(&mut self.left, item);
            proof {
                assert forall|v: T| #[trigger] Self::seq_of(self.left).contains(
                    v,
                ) implies v.lt_spec(self.item) by {
                    if v != item {
                        assert(Self::seq_of(self.left).to_multiset().count(v) > 0);
                        assert(Self::seq_of(old(self).left).to_multiset().count(v) > 0);
                        assert(Self::seq_of(old(self).left).contains(v));
                    }
                }
                Self::lemma_in_seq_multiset(*old(self));
                Self::lemma_in_seq_multiset(*self);
                assert(final(self).in_seq().to_multiset() =~= old(self).in_seq().to_multiset()
                    .insert(item));
            }
        } else {
            Self::add_to_child(&mut self.right, item);
            proof {
                assert forall|v: T| #[trigger] Self::seq_of(self.right).contains(
                    v,
                ) implies !v.lt_spec(self.item) by {
                    if v != item {
                        assert(Self::seq_of(self.right).to_multiset().count(v) > 0);
                        assert(Self::seq_of(old(self).right).to_multiset().count(v) > 0);
                        assert(Self::seq_of(old(self).right).contains(v));
                    }
                }
                Self::lemma_in_seq_multiset(*old(self));
                Self::lemma_in_seq_multiset(*self);
                assert(final(self).in_seq().to_multiset() =~= old(self).in_seq().to_multiset()
                    .insert(item));
            }
        }
    }

    /// The multiset of a node's in-order sequence, split into its three
    /// parts.
    proof fn lemma_in_seq_multiset(n: TreeNode<T>)
        ensures
            n.in_seq().to_multiset() == Self::seq_of(n.left).to_multiset().add(
                seq![n.item].to_multiset(),
            ).add(Self::seq_of(n.right).to_multiset()),
    {
        vstd::seq_lib::lemma_multiset_commutative(
            Self::seq_of(n.left) + seq![n.item],
            Self::seq_of(n.right),
        );
        vstd::seq_lib::lemma_multiset_commutative(Self::seq_of(n.left), seq![n.item]);
    }

    /// The search-tree ordering property makes the in-order sequence
    /// non-decreasing.
    proof fn lemma_wf_sorted(&self)
        requires
            self.well_formed(),
        ensures
            sorted(self.in_seq()),
        decreases self,
    {
        let a = Self::seq_of(self.left);
        let b = Self::seq_of(self.right);
        let m = self.item;
        let s = self.in_seq();
        match self.left {
            None => {},
            Some(l) => { l.lemma_wf_sorted(); },
        }
        match self.right {
            None => {},
            Some(r) => { r.lemma_wf_sorted(); },
        }
        assert(sorted(a));
        assert(sorted(b));
        assert forall|i: int, j: int| #![trigger s[i], s[j]] 0 <= i <= j < s.len() implies !s[j].lt_spec(
            s[i],
        ) by {
            let la: int = a.len() as int;
            if j < la {
                assert(a[i] == s[i] && a[j] == s[j]);
            } else if i < la && j == la {
                assert(a.contains(a[i]));
                T::lemma_asymmetric(a[i], m);
            } else if i < la && j > la {
                assert(a.contains(a[i]));
                assert(b.contains(b[j - la - 1]));
                if s[j].lt_spec(s[i]) {
                    T::lemma_transitive(b[j - la - 1], a[i], m);
                }
            } else if i == la && j == la {
                if m.lt_spec(m) {
                    T::lemma_asymmetric(m, m);
                }
            } else if i == la && j > la {
                assert(b.contains(b[j - la - 1]));
            } else {
                assert(b[i - la - 1] == s[i] && b[j - la - 1] == s[j]);
            }
        }
    }

    /// Preorder and in-order traversal visit the same values.
    proof fn lemma_pre_seq_multiset(&self)
        ensures
            self.pre_seq().to_multiset() == self.in_seq().to_multiset(),
        decreases self,
    {
        match self.left {
            None => {},
            Some(l) => { l.lemma_pre_seq_multiset(); },
        }
        match self.right {
            None => {},
            Some(r) => { r.lemma_pre_seq_multiset(); },
        }
        assert(Self::pre_seq_of(self.left).to_multiset() == Self::seq_of(self.left).to_multiset());
        assert(Self::pre_seq_of(self.right).to_multiset() == Self::seq_of(
            self.right,
        ).to_multiset());
        vstd::seq_lib::lemma_multiset_commutative(
            seq![self.item] + Self::pre_seq_of(self.left),
            Self::pre_seq_of(self.right),
        );
        vstd::seq_lib::lemma_multiset_commutative(seq![self.item], Self::pre_seq_of(self.left));
        Self::lemma_in_seq_multiset(*self);
        assert(self.pre_seq().to_multiset() =~= self.in_seq().to_multiset());
    }

    /// Return `true` exactly when `item` occurs in the subtree rooted at
    /// `self`.
    fn contains(&self, item: &T) -> (r: bool)
        requires
            self.well_formed(),
        ensures
            r == self.in_seq().contains(*item),
        decreases self,
    {
        proof {
            lemma_three_way_contains(
                Self::seq_of(self.left),
                self.item,
                Self::seq_of(self.right),
            );
        }
        if item.lt(&self.item) {
            proof {
                if *item == self.item {
                    T::lemma_asymmetric(*item, self.item);
                }
                if Self::seq_of(self.right).contains(*item) {
                    assert(false);
                }
            }
            match &self.left {
                None => false,
                Some(l) => l.contains(item),
            }
        } else if self.item.lt(item) {
            proof {
                if Self::seq_of(self.left).contains(*item) {
                    T::lemma_asymmetric(*item, self.item);
                }
            }
            match &self.right {
                None => false,
                Some(r) => r.contains(item),
            }
        } else {
            proof {
                if *item != self.item {
                    T::lemma_connected(*item, self.item);
                }
            }
            true
        }
    }
}

impl<T: StrictTotalOrder> Tree<T> {
    /// The preorder value sequence of the whole tree.
    pub closed spec fn pre_order_seq(self) -> Seq<T> {
        match self.root {
            None => Seq::empty(),
            Some(n) => n.pre_seq(),
        }
    }

    /// Return an iterator that walks the tree in-order, yielding the view in
    /// non-decreasing sorted order.
    pub fn in_order_iter(&self) -> (it: InOrderIterator<'_, T>)
        ensures
            it.remaining() == self@,
            sorted(self@),
    {
        proof {
            use_type_invariant(self);
            match &self.root {
                None => {},
                Some(n) => { n.lemma_wf_sorted(); },
            }
        }
        InOrderIterator::new(self)
    }

    /// Return an iterator that walks the tree in preorder, yielding the same
    /// values as the view.
    pub fn pre_order_iter(&self) -> (it: PreOrderIterator<'_, T>)
        ensures
            it.remaining() == self.pre_order_seq(),
            it.remaining().to_multiset() == self@.to_multiset(),
    {
        proof {
            match &self.root {
                None => {},
                Some(n) => { n.lemma_pre_seq_multiset(); },
            }
        }
        PreOrderIterator::new(self)
    }
}

/// Lazy preorder traversal: an explicit stack of borrowed nodes whose
/// subtrees are still to be visited, top of stack first.
pub struct PreOrderIterator<'a, T: StrictTotalOrder> {
    stack: Vec<&'a TreeNode<T>>,
}

impl<'a, T: StrictTotalOrder> PreOrderIterator<'a, T> {
    /// The values this iterator has yet to yield, next value first.
    pub closed spec fn remaining(self) -> Seq<T> {
        Self::items_of(self.stack@)
    }

    /// The values still to yield from a stack of pending subtrees.
    spec fn items_of(s: Seq<&'a TreeNode<T>>) -> Seq<T>
        decreases s.len(),
    {
        if s.len() == 0 {
            Seq::empty()
        } else {
            s.last().pre_seq() + Self::items_of(s.drop_last())
        }
    }

    /// Start a preorder walk of `t`.
    fn new(t: &'a Tree<T>) -> (it: Self)
        ensures
            it.remaining() == t.pre_order_seq(),
    {
        match &t.root {
            None => {
                let it = PreOrderIterator { stack: Vec::new() };
                proof {
                    assert(it.remaining() =~= t.pre_order_seq());
                }
                it
            },
            Some(r) => {
                let mut stack: Vec<&'a TreeNode<T>> = Vec::new();
                stack.push(r);
                let it = PreOrderIterator { stack };
                proof {
                    assert(it.stack@.drop_last() =~= Seq::<&'a TreeNode<T>>::empty());
                    assert(Self::items_of(Seq::<&'a TreeNode<T>>::empty()) =~= Seq::<T>::empty());
                    assert(it.remaining() =~= t.pre_order_seq());
                }
                it
            },
        }
    }
}

impl<'a, T: StrictTotalOrder + Copy> PreOrderIterator<'a, T> {
    /// Yield the next value in preorder, or `None` once the walk is done.
    pub fn next(&mut self) -> (r: Option<T>)
        ensures
            old(self).remaining().len() == 0 ==> r is None,
            old(self).remaining().len() == 0 ==> final(self).remaining() == old(self).remaining(),
            old(self).remaining().len() > 0 ==> r == Some(old(self).remaining()[0]),
            old(self).remaining().len() > 0 ==> final(self).remaining() == old(self).remaining().drop_first(),
    {
        if self.stack.len() == 0 {
            None
        } else {
            let current: &'a TreeNode<T> = self.stack.pop().unwrap();
            let ghost mid = self.stack@;
            proof {
                assert(old(self).remaining() =~= current.pre_seq() + Self::items_of(mid));
            }
            match &current.right {
                None => {
                    proof {
                        assert(TreeNode::pre_seq_of(current.right) =~= Seq::<T>::empty());
                    }
                },
                Some(rc) => {
                    self.stack.push(&**rc);
                    proof {
                        assert(self.stack@.drop_last() =~= mid);
                    }
                },
            }
            let ghost mid2 = self.stack@;
            proof {
                assert(Self::items_of(mid2) =~= TreeNode::pre_seq_of(current.right)
                    + Self::items_of(mid));
            }
            match &current.left {
                None => {
                    proof {
                        assert(TreeNode::pre_seq_of(current.left) =~= Seq::<T>::empty());
                    }
                },
                Some(lc) => {
                    self.stack.push(&**lc);
                    proof {
                        assert(self.stack@.drop_last() =~= mid2);
                    }
                },
            }
            proof {
                assert(Self::items_of(self.stack@) =~= TreeNode::pre_seq_of(current.left)
                    + Self::items_of(mid2));
                assert(final(self).remaining() =~= old(self).remaining().drop_first());
                assert(old(self).remaining()[0] == current.item_spec());
            }
            Some(current.item)
        }
    }
}

/// Lazy in-order traversal: an explicit stack of borrowed nodes whose left
/// subtrees have already been walked, top of stack first.
pub struct InOrderIterator<'a, T: StrictTotalOrder> {
    stack: Vec<&'a TreeNode<T>>,
}

impl<'a, T: StrictTotalOrder> InOrderIterator<'a, T> {
    /// The values this iterator has yet to yield, next value first.
    pub closed spec fn remaining(self) -> Seq<T> {
        Self::items_of(self.stack@)
    }

    /// The values still to yield from a stack of partially walked subtrees:
    /// each pending node contributes its own value and its right subtree.
    spec fn items_of(s: Seq<&'a TreeNode<T>>) -> Seq<T>
        decreases s.len(),
    {
        if s.len() == 0 {
            Seq::empty()
        } else {
            seq![s.last().item] + TreeNode::seq_of(s.last().right) + Self::items_of(s.drop_last())
        }
    }

    /// Start an in-order walk of `t`.
    fn new(t: &'a Tree<T>) -> (it: Self)
        ensures
            it.remaining() == t@,
    {
        let mut it = InOrderIterator { stack: Vec::new() };
        match &t.root {
            None => {
                proof {
                    assert(it.remaining() =~= t@);
                }
            },
            Some(r) => {
                it.add_all_left(r);
                proof {
                    assert(it.remaining() =~= t@);
                }
            },
        }
        it
    }

    /// Push `t` and then every node down its left spine, so that the
    /// leftmost descendant ends on top of the stack.
    fn add_all_left(&mut self, t: &'a TreeNode<T>)
        ensures
            final(self).remaining() == t.in_seq() + old(self).remaining(),
    {
        let mut cur: &'a TreeNode<T> = t;
        loop
            invariant_except_break
                cur.in_seq() + Self::items_of(self.stack@) == t.in_seq() + Self::items_of(
                    old(self).stack@,
                ),
            ensures
                Self::items_of(self.stack@) == t.in_seq() + Self::items_of(old(self).stack@),
            decreases cur.in_seq().len(),
        {
            let ghost prev = self.stack@;
            self.stack.push(cur);
            proof {
                assert(self.stack@.drop_last() =~= prev);
                assert(Self::items_of(self.stack@) =~= seq![cur.item] + TreeNode::seq_of(cur.right)
                    + Self::items_of(prev));
            }
            match &cur.left {
                None => {
                    proof {
                        assert(TreeNode::seq_of(cur.left) =~= Seq::<T>::empty());
                        assert(Self::items_of(self.stack@) =~= t.in_seq() + Self::items_of(
                            old(self).stack@,
                        ));
                    }
                    break;
                },
                Some(l) => {
                    proof {
                        assert(TreeNode::seq_of(cur.left) == cur.left.unwrap().in_seq());
                        assert(cur.left.unwrap().in_seq() + Self::items_of(self.stack@)
                            =~= t.in_seq() + Self::items_of(old(self).stack@));
                        assert(cur.left.unwrap().in_seq().len() < cur.in_seq().len());
                    }
                    cur = &**l;
                },
            }
        }
    }
}

impl<'a, T: StrictTotalOrder + Copy> InOrderIterator<'a, T> {
    /// Yield the next value in-order, or `None` once the walk is done.
    pub fn next(&mut self) -> (r: Option<T>)
        ensures
            old(self).remaining().len() == 0 ==> r is None,
            old(self).remaining().len() == 0 ==> final(self).remaining() == old(self).remaining(),
            old(self).remaining().len() > 0 ==> r == Some(old(self).remaining()[0]),
            old(self).remaining().len() > 0 ==> final(self).remaining() == old(self).remaining().drop_first(),
    {
        if self.stack.len() == 0 {
            None
        } else {
            let current: &'a TreeNode<T> = self.stack.pop().unwrap();
            let ghost mid = self.stack@;
            proof {
                assert(old(self).remaining() =~= seq![current.item] + TreeNode::seq_of(
                    current.right,
                ) + Self::items_of(mid));
            }
            match &current.right {
                None => {
                    proof {
                        assert(TreeNode::seq_of(current.right) =~= Seq::<T>::empty());
                        assert(final(self).remaining() =~= old(self).remaining().drop_first());
                    }
                },
                Some(rc) => {
                    self.add_all_left(&**rc);
                    proof {
                        assert(TreeNode::seq_of(current.right) == current.right.unwrap().in_seq());
                        assert(final(self).remaining() =~= old(self).remaining().drop_first());
                    }
                },
            }
            proof {
                assert(old(self).remaining()[0] == current.item);
            }
            Some(current.item)
        }
    }
}

} // verus!
