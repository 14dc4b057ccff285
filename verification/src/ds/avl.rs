use vstd::prelude::*;
use vstd::std_specs::cmp::{PartialEqSpec, PartialOrdSpec};
use core::cmp::Ordering;

verus! {

/// A number type whose values a tree can keep in order.
pub trait RationalNumber: Copy + PartialOrd {

}

impl RationalNumber for u32 {

}

impl RationalNumber for i32 {

}

impl RationalNumber for u64 {

}

impl RationalNumber for i64 {

}

impl RationalNumber for usize {

}

impl RationalNumber for isize {

}

/// True if `first` comes before `second` in the order of the type.
pub open spec fn precedes<T: PartialOrd>(first: T, second: T) -> bool {
    first.partial_cmp_spec(&second) == Some(Ordering::Less)
}

/// True if `first` comes after `second` in the order of the type.
pub open spec fn follows<T: PartialOrd>(first: T, second: T) -> bool {
    first.partial_cmp_spec(&second) == Some(Ordering::Greater)
}

/// True if the order of the type is a strict total order, and its
/// comparison operators compute this order.
pub open spec fn is_ordered<T: PartialOrd>() -> bool {
    &&& T::obeys_partial_cmp_spec()
    &&& T::obeys_eq_spec()
    &&& forall|a: T, b: T| #[trigger] a.eq_spec(&b) <==> a == b
    &&& forall|a: T, b: T| #[trigger] follows(a, b) <==> precedes(b, a)
    &&& forall|a: T, b: T| #[trigger] precedes(a, b) ==> a != b && !precedes(b, a)
    &&& forall|a: T, b: T| a != b && !#[trigger] precedes(a, b) ==> precedes(b, a)
    &&& forall|a: T, b: T, c: T|
        #[trigger] precedes(a, b) && #[trigger] precedes(b, c) ==> precedes(a, c)
}

/// The largest height that a tree may have: heights are compared as signed
/// bytes.
pub const HEIGHT_MAX: u8 = 127;

/// A node of the tree with the subtrees below it.
pub struct Node<T> {
    value: T,
    height: u8,
    left: Option<Box<Node<T>>>,
    right: Option<Box<Node<T>>>,
}

/// The larger of two numbers.
pub open spec fn larger(a: nat, b: nat) -> nat {
    if a >= b {
        a
    } else {
        b
    }
}

impl<T: RationalNumber> Node<T> {
    /// The values of the tree under `link`.
    pub closed spec fn values_under(link: Option<Box<Node<T>>>) -> Set<T>
        decreases link,
    {
        match link {
            None => Set::empty(),
            Some(node) => Self::values_under(node.left).union(
                Self::values_under(node.right),
            ).insert(node.value),
        }
    }

    /// The number of nodes on the longest way down the tree under `link`.
    pub closed spec fn tall_under(link: Option<Box<Node<T>>>) -> nat
        decreases link,
    {
        match link {
            None => 0,
            Some(node) => 1 + larger(Self::tall_under(node.left), Self::tall_under(node.right)),
        }
    }

    /// True if the tree under `link` is a balanced search tree: at every
    /// node the values to the left come before the node's and those to the
    /// right after, the heights of the two subtrees differ by one at most,
    /// and the node knows its height.
    pub closed spec fn wf_under(link: Option<Box<Node<T>>>) -> bool
        decreases link,
    {
        match link {
            None => true,
            Some(node) => {
                &&& Self::wf_under(node.left)
                &&& Self::wf_under(node.right)
                &&& node.level()
                &&& node.sorted()
                &&& node.even()
            },
        }
    }

    /// True if this node knows its height, and the height is within the
    /// limit.
    pub closed spec fn level(self) -> bool {
        &&& self.height == 1 + larger(Self::tall_under(self.left), Self::tall_under(self.right))
        &&& self.height <= HEIGHT_MAX
    }

    /// True if the values to the left come before this node's and those to
    /// the right after.
    pub closed spec fn sorted(self) -> bool {
        &&& forall|v: T| #[trigger] Self::values_under(self.left).contains(v) ==> precedes(v, self.value)
        &&& forall|v: T| #[trigger]
            Self::values_under(self.right).contains(v) ==> precedes(self.value, v)
    }

    /// True if the heights of the two subtrees differ by one at most.
    pub closed spec fn even(self) -> bool {
        Self::tall_under(self.left) <= Self::tall_under(self.right) + 1 && Self::tall_under(
            self.right,
        ) <= Self::tall_under(self.left) + 1
    }

    /// The values of the tree of which this node is the root.
    pub open spec fn values(self) -> Set<T> {
        Self::values_under(Some(Box::new(self)))
    }

    /// The height of the tree of which this node is the root.
    pub open spec fn tall(self) -> nat {
        Self::tall_under(Some(Box::new(self)))
    }

    /// True if the tree of which this node is the root is a balanced search
    /// tree.
    pub open spec fn wf(self) -> bool {
        Self::wf_under(Some(Box::new(self)))
    }

    /// An empty tree has no values and no height, and is in order.
    pub proof fn lemma_nothing_under_none()
        ensures
            Self::values_under(None) == Set::<T>::empty(),
            Self::tall_under(None) == 0,
            Self::wf_under(None),
    {
    }

    /// The value at the root.
    pub closed spec fn root_value(self) -> T {
        self.value
    }

    /// The value at the root is one of the values of the tree.
    pub proof fn lemma_root_value(self)
        ensures
            self.values().contains(self.root_value()),
    {
    }

    /// The value at the root.
    pub fn get_value(&self) -> (value: T)
        ensures
            value == self.root_value(),
    {
        self.value
    }

    /// A tree of one node.
    pub fn new(value: T) -> (node: Self)
        ensures
            node.wf(),
            node.values() == Set::<T>::empty().insert(value),
            node.tall() == 1,
    {
        let node = Node { value, height: 1, left: None, right: None };
        proof {
            Self::lemma_nothing_under_none();
            assert(node.values() =~= Set::<T>::empty().insert(value));
        }
        node
    }

    /// This node in a box of its own; the subtrees move with it.
    fn copy(&mut self) -> (node: Box<Node<T>>)
        ensures
            *node == *old(self),
    {
        let mut copy_node = Box::new(
            Node { value: self.value, height: self.height, left: None, right: None },
        );
        copy_node.left = self.left.take();
        copy_node.right = self.right.take();
        copy_node
    }

    /// True if the heights that the two children know are those of their
    /// trees, and within the limit.
    spec fn children_level(self) -> bool {
        &&& self.left is Some ==> self.left->0.level()
        &&& self.right is Some ==> self.right->0.level()
    }

    fn update_height(&mut self)
        requires
            old(self).children_level(),
            Self::tall_under(old(self).left) < HEIGHT_MAX,
            Self::tall_under(old(self).right) < HEIGHT_MAX,
        ensures
            *final(self) == (Node {
                height: (1 + larger(
                    Self::tall_under(old(self).left),
                    Self::tall_under(old(self).right),
                )) as u8,
                ..*old(self)
            }),
            final(self).level(),
    {
        let mut left_height: u8 = 0;
        let mut right_height: u8 = 0;

        match &self.left {
            None => {},
            Some(node) => {
                left_height = node.height;
            },
        }
        match &self.right {
            None => {},
            Some(node) => {
                right_height = node.height;
            },
        }
        self.height = 1 + if left_height >= right_height {
            left_height
        } else {
            right_height
        };
    }

    fn get_balance_factor(&self) -> (factor: i8)
        requires
            self.children_level(),
        ensures
            factor == Self::tall_under(self.left) - Self::tall_under(self.right),
    {
        let mut left_height: u8 = 0;
        let mut right_height: u8 = 0;

        match &self.left {
            None => {},
            Some(node) => {
                left_height = node.height;
            },
        }
        match &self.right {
            None => {},
            Some(node) => {
                right_height = node.height;
            },
        }
        (left_height as i8) - (right_height as i8)
    }

    /// The node with `value` above the trees under `left` and `right`, which
    /// knows its height.
    spec fn joined(left: Option<Box<Node<T>>>, value: T, right: Option<Box<Node<T>>>) -> Node<T> {
        Node {
            value,
            height: (1 + larger(Self::tall_under(left), Self::tall_under(right))) as u8,
            left,
            right,
        }
    }

    /// This tree turned to the right: the left child becomes the root, the
    /// root its right child, and the right subtree of the left child changes
    /// over to the old root.
    spec fn rotated_right(self) -> Node<T> {
        let x = *self.left->0;
        Self::joined(x.left, x.value, Some(Box::new(Self::joined(x.right, self.value, self.right))))
    }

    /// This tree turned to the left: the right child becomes the root, the
    /// root its left child, and the left subtree of the right child changes
    /// over to the old root.
    spec fn rotated_left(self) -> Node<T> {
        let y = *self.right->0;
        Self::joined(Some(Box::new(Self::joined(self.left, self.value, y.left))), y.value, y.right)
    }

    /// True if the trees under the two children are balanced search trees,
    /// and the values to the left come before this node's and those to the
    /// right after. The node need not know its height, nor be balanced.
    spec fn mended(self) -> bool {
        &&& Self::wf_under(self.left)
        &&& Self::wf_under(self.right)
        &&& self.sorted()
    }

    /// A node above two balanced search trees, between whose values its own
    /// lies, is the root of a search tree with these values; it is balanced
    /// if the heights of the two trees differ by one at most.
    proof fn lemma_joined(left: Option<Box<Node<T>>>, value: T, right: Option<Box<Node<T>>>)
        requires
            Self::joined(left, value, right).mended(),
            larger(Self::tall_under(left), Self::tall_under(right)) < HEIGHT_MAX,
        ensures
            Self::joined(left, value, right).level(),
            Self::joined(left, value, right).tall() == 1 + larger(
                Self::tall_under(left),
                Self::tall_under(right),
            ),
            Self::joined(left, value, right).values() == Self::values_under(left).union(
                Self::values_under(right),
            ).insert(value),
            Self::joined(left, value, right).even() ==> Self::joined(left, value, right).wf(),
    {
    }

    /// What is known of a node: its values and height are made of those of
    /// its subtrees.
    proof fn lemma_node(self)
        ensures
            self.tall() == 1 + larger(Self::tall_under(self.left), Self::tall_under(self.right)),
            self.values() == Self::values_under(self.left).union(
                Self::values_under(self.right),
            ).insert(self.value),
            self.wf() == (self.mended() && self.level() && self.even()),
    {
    }

    /// A tree turned to the right has the values that it had, and is a
    /// search tree as it was; the heights of its parts are made of those of
    /// the three subtrees that were moved.
    proof fn lemma_rotated_right(self)
        requires
            is_ordered::<T>(),
            self.sorted(),
            Self::wf_under(self.right),
            self.left is Some,
            self.left->0.mended(),
            Self::tall_under(self.left) < HEIGHT_MAX,
            Self::tall_under(self.right) < HEIGHT_MAX - 1,
        ensures
            self.rotated_right().values() == self.values(),
            self.rotated_right().sorted(),
            self.rotated_right().level(),
            Self::wf_under(self.rotated_right().left),
            self.rotated_right().right is Some,
            self.rotated_right().right->0.mended(),
            self.rotated_right().right->0.level(),
            Self::tall_under(self.rotated_right().left) == Self::tall_under(self.left->0.left),
            Self::tall_under(self.rotated_right().right) == 1 + larger(
                Self::tall_under(self.left->0.right),
                Self::tall_under(self.right),
            ),
            self.rotated_right().right->0.even() == (Self::tall_under(self.left->0.right)
                <= Self::tall_under(self.right) + 1 && Self::tall_under(self.right)
                <= Self::tall_under(self.left->0.right) + 1),
    {
        let x = *self.left->0;
        x.lemma_node();
        self.lemma_node();
        let lower = Self::joined(x.right, self.value, self.right);
        let upper = self.rotated_right();
        assert(Self::values_under(self.left).contains(x.value));
        assert(precedes(x.value, self.value));
        assert(lower.sorted()) by {
            assert forall|v: T| #[trigger] Self::values_under(lower.left).contains(v) implies precedes(
                v,
                lower.value,
            ) by {
                assert(Self::values_under(self.left).contains(v));
            }
        }
        Self::lemma_joined(x.right, self.value, self.right);
        lower.lemma_node();
        assert(upper.sorted()) by {
            assert forall|v: T| #[trigger] Self::values_under(upper.right).contains(v) implies precedes(
                upper.value,
                v,
            ) by {
                if Self::values_under(x.right).contains(v) {
                } else if v == self.value {
                } else {
                    assert(Self::values_under(self.right).contains(v));
                    assert(precedes(self.value, v));
                }
            }
        }
        upper.lemma_node();
        assert(upper.values() =~= self.values());
    }

    /// A tree turned to the left has the values that it had, and is a
    /// search tree as it was; the heights of its parts are made of those of
    /// the three subtrees that were moved.
    proof fn lemma_rotated_left(self)
        requires
            is_ordered::<T>(),
            self.sorted(),
            Self::wf_under(self.left),
            self.right is Some,
            self.right->0.mended(),
            Self::tall_under(self.right) < HEIGHT_MAX,
            Self::tall_under(self.left) < HEIGHT_MAX - 1,
        ensures
            self.rotated_left().values() == self.values(),
            self.rotated_left().sorted(),
            self.rotated_left().level(),
            Self::wf_under(self.rotated_left().right),
            self.rotated_left().left is Some,
            self.rotated_left().left->0.mended(),
            self.rotated_left().left->0.level(),
            Self::tall_under(self.rotated_left().right) == Self::tall_under(self.right->0.right),
            Self::tall_under(self.rotated_left().left) == 1 + larger(
                Self::tall_under(self.left),
                Self::tall_under(self.right->0.left),
            ),
            self.rotated_left().left->0.even() == (Self::tall_under(self.left)
                <= Self::tall_under(self.right->0.left) + 1 && Self::tall_under(
                self.right->0.left,
            ) <= Self::tall_under(self.left) + 1),
    {
        let y = *self.right->0;
        y.lemma_node();
        self.lemma_node();
        let lower = Self::joined(self.left, self.value, y.left);
        let upper = self.rotated_left();
        assert(Self::values_under(self.right).contains(y.value));
        assert(precedes(self.value, y.value));
        assert(lower.sorted()) by {
            assert forall|v: T| #[trigger] Self::values_under(lower.right).contains(v) implies precedes(
                lower.value,
                v,
            ) by {
                assert(Self::values_under(self.right).contains(v));
            }
        }
        Self::lemma_joined(self.left, self.value, y.left);
        lower.lemma_node();
        assert(upper.sorted()) by {
            assert forall|v: T| #[trigger] Self::values_under(upper.left).contains(v) implies precedes(
                v,
                upper.value,
            ) by {
                if Self::values_under(y.left).contains(v) {
                } else if v == self.value {
                } else {
                    assert(Self::values_under(self.left).contains(v));
                    assert(precedes(v, self.value));
                }
            }
        }
        upper.lemma_node();
        assert(upper.values() =~= self.values());
    }

    /// Turns this tree to the left, and hands out the new root.
    fn left_rotate(&mut self) -> (y_node: Box<Node<T>>)
        requires
            old(self).right is Some,
            old(self).right->0.children_level(),
            old(self).left is Some ==> old(self).left->0.level(),
            Self::tall_under(old(self).right) < HEIGHT_MAX,
            Self::tall_under(old(self).left) < HEIGHT_MAX - 1,
        ensures
            *y_node == old(self).rotated_left(),
    {
        let mut y_node = self.right.take().unwrap();
        let t1: Option<Box<Node<T>>> = self.left.take();
        let t2: Option<Box<Node<T>>> = y_node.left.take();
        proof {
            old(self).right->0.lemma_node();
        }

        let mut x_node = self.copy();

        x_node.left = t1;
        x_node.right = t2;
        x_node.update_height();

        y_node.left = Some(x_node);
        y_node.update_height();

        y_node
    }

    /// Turns this tree to the right, and hands out the new root.
    fn right_rotate(&mut self) -> (x_node: Box<Node<T>>)
        requires
            old(self).left is Some,
            old(self).left->0.children_level(),
            old(self).right is Some ==> old(self).right->0.level(),
            Self::tall_under(old(self).left) < HEIGHT_MAX,
            Self::tall_under(old(self).right) < HEIGHT_MAX - 1,
        ensures
            *x_node == old(self).rotated_right(),
    {
        let mut x_node = self.left.take().unwrap();
        let t3: Option<Box<Node<T>>> = self.right.take();
        let t2: Option<Box<Node<T>>> = x_node.right.take();
        proof {
            old(self).left->0.lemma_node();
        }

        let mut y_node = self.copy();

        y_node.left = t2;
        y_node.right = t3;
        y_node.update_height();

        x_node.right = Some(y_node);
        x_node.update_height();

        x_node
    }

    /// This node with the tree under `left` to its left.
    spec fn with_left(self, left: Option<Box<Node<T>>>) -> Node<T> {
        Node { left, ..self }
    }

    /// This node with the tree under `right` to its right.
    spec fn with_right(self, right: Option<Box<Node<T>>>) -> Node<T> {
        Node { right, ..self }
    }

    /// This tree brought into balance, where the heights of its two
    /// subtrees differ by two at most: a tree whose left side is too tall is
    /// turned to the right, after its left subtree was turned to the left if
    /// that one is taller on its right; and the other way round. A tree in
    /// balance is left as it is, but for its height, which is set.
    spec fn rebalanced(self) -> Node<T> {
        let left_tall = Self::tall_under(self.left);
        let right_tall = Self::tall_under(self.right);
        if left_tall > right_tall + 1 {
            let x = *self.left->0;
            if Self::tall_under(x.right) > Self::tall_under(x.left) {
                self.with_left(Some(Box::new(x.rotated_left()))).rotated_right()
            } else {
                self.rotated_right()
            }
        } else if right_tall > left_tall + 1 {
            let y = *self.right->0;
            if Self::tall_under(y.left) > Self::tall_under(y.right) {
                self.with_right(Some(Box::new(y.rotated_right()))).rotated_left()
            } else {
                self.rotated_left()
            }
        } else {
            Self::joined(self.left, self.value, self.right)
        }
    }

    /// The height of this tree once it is brought into balance.
    spec fn rebalanced_tall(self) -> nat {
        let left_tall = Self::tall_under(self.left);
        let right_tall = Self::tall_under(self.right);
        if left_tall > right_tall + 1 {
            if Self::tall_under(self.left->0.left) == Self::tall_under(self.left->0.right) {
                left_tall + 1
            } else {
                left_tall
            }
        } else if right_tall > left_tall + 1 {
            if Self::tall_under(self.right->0.left) == Self::tall_under(self.right->0.right) {
                right_tall + 1
            } else {
                right_tall
            }
        } else {
            1 + larger(left_tall, right_tall)
        }
    }

    /// A search tree whose two subtrees are balanced and differ in height by
    /// two at most is, once brought into balance, a balanced search tree
    /// with the same values.
    proof fn lemma_rebalanced(self)
        requires
            is_ordered::<T>(),
            self.mended(),
            Self::tall_under(self.left) <= Self::tall_under(self.right) + 2,
            Self::tall_under(self.right) <= Self::tall_under(self.left) + 2,
            larger(Self::tall_under(self.left), Self::tall_under(self.right)) < HEIGHT_MAX,
        ensures
            self.rebalanced().wf(),
            self.rebalanced().values() == self.values(),
            self.rebalanced().tall() == self.rebalanced_tall(),
    {
        let left_tall = Self::tall_under(self.left);
        let right_tall = Self::tall_under(self.right);
        self.lemma_node();
        if left_tall > right_tall + 1 {
            let x = *self.left->0;
            x.lemma_node();
            if Self::tall_under(x.right) > Self::tall_under(x.left) {
                let z = *x.right->0;
                z.lemma_node();
                x.lemma_rotated_left();
                let turned = x.rotated_left();
                turned.lemma_node();
                let bent = self.with_left(Some(Box::new(turned)));
                bent.lemma_node();
                assert(bent.values() =~= self.values());
                assert(bent.sorted()) by {
                    assert forall|v: T| #[trigger]
                        Self::values_under(bent.left).contains(v) implies precedes(
                        v,
                        bent.value,
                    ) by {
                        assert(Self::values_under(self.left).contains(v));
                    }
                }
                turned.left->0.lemma_node();
                bent.lemma_rotated_right();
                let result = bent.rotated_right();
                result.lemma_node();
                result.right->0.lemma_node();
            } else {
                self.lemma_rotated_right();
                let result = self.rotated_right();
                result.lemma_node();
                result.right->0.lemma_node();
            }
        } else if right_tall > left_tall + 1 {
            let y = *self.right->0;
            y.lemma_node();
            if Self::tall_under(y.left) > Self::tall_under(y.right) {
                let z = *y.left->0;
                z.lemma_node();
                y.lemma_rotated_right();
                let turned = y.rotated_right();
                turned.lemma_node();
                let bent = self.with_right(Some(Box::new(turned)));
                bent.lemma_node();
                assert(bent.values() =~= self.values());
                assert(bent.sorted()) by {
                    assert forall|v: T| #[trigger]
                        Self::values_under(bent.right).contains(v) implies precedes(
                        bent.value,
                        v,
                    ) by {
                        assert(Self::values_under(self.right).contains(v));
                    }
                }
                turned.right->0.lemma_node();
                bent.lemma_rotated_left();
                let result = bent.rotated_left();
                result.lemma_node();
                result.left->0.lemma_node();
            } else {
                self.lemma_rotated_left();
                let result = self.rotated_left();
                result.lemma_node();
                result.left->0.lemma_node();
            }
        } else {
            Self::lemma_joined(self.left, self.value, self.right);
        }
    }

    /// True if this tree is taller by one on the side on which `value`
    /// belongs.
    pub closed spec fn leans_to(self, value: T) -> bool {
        if precedes(value, self.value) {
            Self::tall_under(self.left) == Self::tall_under(self.right) + 1
        } else if precedes(self.value, value) {
            Self::tall_under(self.right) == Self::tall_under(self.left) + 1
        } else {
            false
        }
    }

    /// What adding `value` to the left subtree makes of this tree, once it
    /// is brought into balance: a balanced search tree with the value added,
    /// as tall as before or taller by one, and in the latter case leaning to
    /// the side of the value.
    proof fn lemma_grown_left(self, grown: Node<T>, value: T)
        requires
            is_ordered::<T>(),
            self.wf(),
            self.tall() < HEIGHT_MAX,
            precedes(value, self.value),
            grown.wf(),
            grown.values() == Self::values_under(self.left).insert(value),
            grown.tall() == Self::tall_under(self.left) || grown.tall() == Self::tall_under(
                self.left,
            ) + 1,
            grown.tall() == Self::tall_under(self.right) + 2 ==> grown.leans_to(value),
        ensures
            ({
                let bent = self.with_left(Some(Box::new(grown)));
                &&& bent.mended()
                &&& Self::tall_under(bent.left) <= Self::tall_under(bent.right) + 2
                &&& Self::tall_under(bent.right) <= Self::tall_under(bent.left) + 1
                &&& larger(Self::tall_under(bent.left), Self::tall_under(bent.right))
                    < HEIGHT_MAX
                &&& bent.rebalanced().wf()
                &&& bent.rebalanced().values() == self.values().insert(value)
                &&& bent.rebalanced().tall() == self.tall() || bent.rebalanced().tall()
                    == self.tall() + 1
                &&& bent.rebalanced().tall() == self.tall() + 1 ==> bent.rebalanced().leans_to(
                    value,
                )
            }),
    {
        let bent = self.with_left(Some(Box::new(grown)));
        self.lemma_node();
        grown.lemma_node();
        bent.lemma_node();
        assert(bent.sorted()) by {
            assert forall|v: T| #[trigger] Self::values_under(bent.left).contains(v) implies precedes(
                v,
                bent.value,
            ) by {
                if v != value {
                    assert(Self::values_under(self.left).contains(v));
                }
            }
        }
        bent.lemma_rebalanced();
        assert(bent.values() =~= self.values().insert(value));
    }

    /// What adding `value` to the right subtree makes of this tree, once it
    /// is brought into balance.
    proof fn lemma_grown_right(self, grown: Node<T>, value: T)
        requires
            is_ordered::<T>(),
            self.wf(),
            self.tall() < HEIGHT_MAX,
            precedes(self.value, value),
            grown.wf(),
            grown.values() == Self::values_under(self.right).insert(value),
            grown.tall() == Self::tall_under(self.right) || grown.tall() == Self::tall_under(
                self.right,
            ) + 1,
            grown.tall() == Self::tall_under(self.left) + 2 ==> grown.leans_to(value),
        ensures
            ({
                let bent = self.with_right(Some(Box::new(grown)));
                &&& bent.mended()
                &&& Self::tall_under(bent.right) <= Self::tall_under(bent.left) + 2
                &&& Self::tall_under(bent.left) <= Self::tall_under(bent.right) + 1
                &&& larger(Self::tall_under(bent.left), Self::tall_under(bent.right))
                    < HEIGHT_MAX
                &&& bent.rebalanced().wf()
                &&& bent.rebalanced().values() == self.values().insert(value)
                &&& bent.rebalanced().tall() == self.tall() || bent.rebalanced().tall()
                    == self.tall() + 1
                &&& bent.rebalanced().tall() == self.tall() + 1 ==> bent.rebalanced().leans_to(
                    value,
                )
            }),
    {
        let bent = self.with_right(Some(Box::new(grown)));
        self.lemma_node();
        grown.lemma_node();
        bent.lemma_node();
        assert(bent.sorted()) by {
            assert forall|v: T| #[trigger]
                Self::values_under(bent.right).contains(v) implies precedes(bent.value, v) by {
                if v != value {
                    assert(Self::values_under(self.right).contains(v));
                }
            }
        }
        bent.lemma_rebalanced();
        assert(bent.values() =~= self.values().insert(value));
    }

    /// A balanced search tree is, brought into balance, what it was.
    proof fn lemma_rebalanced_in_balance(self)
        requires
            self.wf(),
        ensures
            self.rebalanced() == self,
            self.mended(),
            Self::tall_under(self.left) <= Self::tall_under(self.right) + 1,
            Self::tall_under(self.right) <= Self::tall_under(self.left) + 1,
            larger(Self::tall_under(self.left), Self::tall_under(self.right)) < HEIGHT_MAX,
    {
        self.lemma_node();
    }

    /// Brings this tree into balance after `value` was added to one of its
    /// subtrees, and hands out the new root.
    fn balance_after_add(&mut self, value: T) -> (root: Box<Node<T>>)
        requires
            is_ordered::<T>(),
            old(self).mended(),
            Self::tall_under(old(self).left) <= Self::tall_under(old(self).right) + 2,
            Self::tall_under(old(self).right) <= Self::tall_under(old(self).left) + 2,
            larger(Self::tall_under(old(self).left), Self::tall_under(old(self).right))
                < HEIGHT_MAX,
            Self::tall_under(old(self).left) == Self::tall_under(old(self).right) + 2 ==> old(
                self,
            ).left->0.leans_to(value),
            Self::tall_under(old(self).right) == Self::tall_under(old(self).left) + 2 ==> old(
                self,
            ).right->0.leans_to(value),
        ensures
            *root == old(self).rebalanced(),
    {
        proof {
            old(self).lemma_node();
            if old(self).left is Some {
                old(self).left->0.lemma_node();
            }
            if old(self).right is Some {
                old(self).right->0.lemma_node();
            }
        }
        self.update_height();

        let bf = self.get_balance_factor();

        if bf == -1 || bf == 0 || bf == 1 {
            return self.copy();
        } else if bf > 1 {
            let mut node = self.left.take().unwrap();
            let ghost x = *node;
            proof {
                if node.left is Some {
                    node.left->0.lemma_node();
                }
                if node.right is Some {
                    node.right->0.lemma_node();
                }
            }
            let turn = value > node.value;
            proof {
                assert(turn == follows(value, x.value));
                assert(follows(value, x.value) == precedes(x.value, value));
                assert(turn == (Self::tall_under(x.right) > Self::tall_under(x.left)));
            }
            if turn {
                proof {
                    x.lemma_rotated_left();
                }
                self.left = Some(node.left_rotate());
            } else {
                self.left = Some(node);
            }
            proof {
                self.left->0.lemma_node();
                if self.left->0.left is Some {
                    self.left->0.left->0.lemma_node();
                }
            }
            return self.right_rotate();
        } else {
            let mut node = self.right.take().unwrap();
            let ghost y = *node;
            proof {
                if node.left is Some {
                    node.left->0.lemma_node();
                }
                if node.right is Some {
                    node.right->0.lemma_node();
                }
            }
            let turn = value < node.value;
            proof {
                assert(turn == precedes(value, y.value));
                assert(turn == (Self::tall_under(y.left) > Self::tall_under(y.right)));
            }
            if turn {
                proof {
                    y.lemma_rotated_right();
                }
                self.right = Some(node.right_rotate());
            } else {
                self.right = Some(node);
            }
            proof {
                self.right->0.lemma_node();
                if self.right->0.right is Some {
                    self.right->0.right->0.lemma_node();
                }
            }
            return self.left_rotate();
        }
    }

    /// Adds `value` to the tree of which this node is the root, unless the
    /// tree has it, and hands out the root of the tree that results. The
    /// node itself is used up.
    pub fn add(&mut self, value: T) -> (root: Option<Box<Node<T>>>)
        requires
            is_ordered::<T>(),
            old(self).wf(),
            old(self).tall() < HEIGHT_MAX,
        ensures
            root is Some,
            root->0.wf(),
            root->0.values() == old(self).values().insert(value),
            root->0.tall() == old(self).tall() || root->0.tall() == old(self).tall() + 1,
            root->0.tall() == old(self).tall() + 1 ==> root->0.leans_to(value),
        decreases *old(self),
    {
        proof {
            old(self).lemma_node();
            Self::lemma_nothing_under_none();
        }
        let goes_left = self.value > value;
        let goes_right = self.value < value;
        proof {
            assert(goes_left == follows(self.value, value));
            assert(follows(self.value, value) == precedes(value, self.value));
            assert(goes_right == precedes(self.value, value));
        }
        if goes_left {
            let left = self.left.take();
            match left {
                None => {
                    let leaf = Node::new(value);
                    proof {
                        leaf.lemma_node();
                        assert(leaf.values() =~= Self::values_under(old(self).left).insert(value));
                        old(self).lemma_grown_left(leaf, value);
                    }
                    self.left = Some(Box::new(leaf));
                },
                Some(mut n) => {
                    proof {
                        n.lemma_node();
                    }
                    let grown = n.add(value);
                    proof {
                        old(self).lemma_grown_left(*grown->0, value);
                    }
                    self.left = grown;
                },
            }
        } else if goes_right {
            let right = self.right.take();
            match right {
                None => {
                    let leaf = Node::new(value);
                    proof {
                        leaf.lemma_node();
                        assert(leaf.values() =~= Self::values_under(old(self).right).insert(
                            value,
                        ));
                        old(self).lemma_grown_right(leaf, value);
                    }
                    self.right = Some(Box::new(leaf));
                },
                Some(mut n) => {
                    proof {
                        n.lemma_node();
                    }
                    let grown = n.add(value);
                    proof {
                        old(self).lemma_grown_right(*grown->0, value);
                    }
                    self.right = grown;
                },
            }
        } else {
            proof {
                old(self).lemma_rebalanced_in_balance();
                assert(value == self.value);
                assert(old(self).values().insert(value) =~= old(self).values());
            }
        }
        Some(self.balance_after_add(value))
    }

    /// Brings this tree into balance after a value was removed from one of
    /// its subtrees, and hands out the new root.
    fn balance_after_remove(&mut self) -> (root: Box<Node<T>>)
        requires
            is_ordered::<T>(),
            old(self).mended(),
            Self::tall_under(old(self).left) <= Self::tall_under(old(self).right) + 2,
            Self::tall_under(old(self).right) <= Self::tall_under(old(self).left) + 2,
            larger(Self::tall_under(old(self).left), Self::tall_under(old(self).right))
                < HEIGHT_MAX,
        ensures
            *root == old(self).rebalanced(),
    {
        proof {
            old(self).lemma_node();
            if old(self).left is Some {
                old(self).left->0.lemma_node();
            }
            if old(self).right is Some {
                old(self).right->0.lemma_node();
            }
        }
        self.update_height();

        let bf = self.get_balance_factor();

        if bf == -1 || bf == 0 || bf == 1 {
            return self.copy();
        } else if bf > 1 {
            let left = self.left.take();

            match left {
                None => {},
                Some(mut left_node) => {
                    let ghost x = *left_node;
                    proof {
                        if left_node.left is Some {
                            left_node.left->0.lemma_node();
                        }
                        if left_node.right is Some {
                            left_node.right->0.lemma_node();
                        }
                    }
                    let left_node_bf = left_node.get_balance_factor();

                    if left_node_bf < 0 {
                        proof {
                            x.lemma_rotated_left();
                        }
                        self.left = Some(left_node.left_rotate());
                    } else {
                        self.left = Some(left_node);
                    }
                },
            }
            proof {
                self.left->0.lemma_node();
                if self.left->0.left is Some {
                    self.left->0.left->0.lemma_node();
                }
            }
            return self.right_rotate();
        } else {
            let right = self.right.take();

            match right {
                None => {},
                Some(mut right_node) => {
                    let ghost y = *right_node;
                    proof {
                        if right_node.left is Some {
                            right_node.left->0.lemma_node();
                        }
                        if right_node.right is Some {
                            right_node.right->0.lemma_node();
                        }
                    }
                    let right_node_bf = right_node.get_balance_factor();

                    if right_node_bf > 0 {
                        proof {
                            y.lemma_rotated_right();
                        }
                        self.right = Some(right_node.right_rotate());
                    } else {
                        self.right = Some(right_node);
                    }
                },
            }
            proof {
                self.right->0.lemma_node();
                if self.right->0.right is Some {
                    self.right->0.right->0.lemma_node();
                }
            }
            return self.left_rotate();
        }
    }

    /// The node with the value that comes first in this tree.
    fn get_leftmost_child(&self) -> (first: &Node<T>)
        requires
            is_ordered::<T>(),
            self.wf(),
        ensures
            self.values().contains(first.value),
            forall|v: T| #[trigger]
                self.values().contains(v) ==> v == first.value || precedes(first.value, v),
        decreases self,
    {
        proof {
            self.lemma_node();
            Self::lemma_nothing_under_none();
        }
        match &self.left {
            None => self,
            Some(node) => {
                proof {
                    node.lemma_node();
                }
                let first = node.get_leftmost_child();
                proof {
                    assert(Self::values_under(self.left).contains(first.value));
                    assert forall|v: T| #[trigger] self.values().contains(v) implies v
                        == first.value || precedes(first.value, v) by {
                        if Self::values_under(self.left).contains(v) {
                        } else if v == self.value {
                        } else {
                            assert(Self::values_under(self.right).contains(v));
                            assert(precedes(self.value, v));
                        }
                    }
                }
                first
            },
        }
    }

    /// What becomes of a tree in balance when one of its subtrees is
    /// replaced by a balanced search tree that is as tall or lower by one,
    /// and its root by a value that lies between the values of the two, once
    /// it is brought into balance: a balanced search tree of these values,
    /// as tall as before or lower by one.
    proof fn lemma_shrunk(self, bent: Node<T>)
        requires
            is_ordered::<T>(),
            self.wf(),
            bent.mended(),
            Self::tall_under(bent.left) == Self::tall_under(self.left) && (Self::tall_under(
                bent.right,
            ) == Self::tall_under(self.right) || Self::tall_under(bent.right) + 1
                == Self::tall_under(self.right)) || Self::tall_under(bent.right)
                == Self::tall_under(self.right) && (Self::tall_under(bent.left)
                == Self::tall_under(self.left) || Self::tall_under(bent.left) + 1
                == Self::tall_under(self.left)),
        ensures
            Self::tall_under(bent.left) <= Self::tall_under(bent.right) + 2,
            Self::tall_under(bent.right) <= Self::tall_under(bent.left) + 2,
            larger(Self::tall_under(bent.left), Self::tall_under(bent.right)) < HEIGHT_MAX,
            bent.rebalanced().wf(),
            bent.rebalanced().values() == bent.values(),
            bent.rebalanced().tall() == self.tall() || bent.rebalanced().tall() + 1
                == self.tall(),
    {
        self.lemma_node();
        bent.lemma_node();
        if bent.left is Some {
            bent.left->0.lemma_node();
        }
        if bent.right is Some {
            bent.right->0.lemma_node();
        }
        Self::lemma_nothing_under_none();
        bent.lemma_rebalanced();
    }

    /// Takes `value` out of the tree of which this node is the root, if the
    /// tree has it, and hands out the root of the tree that results, if
    /// values are left. The node itself is used up.
    pub fn remove(&mut self, value: T) -> (root: Option<Box<Node<T>>>)
        requires
            is_ordered::<T>(),
            old(self).wf(),
        ensures
            Self::wf_under(root),
            Self::values_under(root) == old(self).values().remove(value),
            Self::tall_under(root) == old(self).tall() || Self::tall_under(root) + 1 == old(
                self,
            ).tall(),
        decreases *old(self),
    {
        proof {
            old(self).lemma_node();
            old(self).lemma_rebalanced_in_balance();
            Self::lemma_nothing_under_none();
        }
        let goes_left = value < self.value;
        let goes_right = value > self.value;
        let found = self.value == value;
        proof {
            assert(goes_left == precedes(value, self.value));
            assert(goes_right == follows(value, self.value));
            assert(follows(value, self.value) == precedes(self.value, value));
            assert(found == self.value.eq_spec(&value));
            assert(found == (self.value == value));
        }
        if goes_left {
            let left = self.left.take();

            match left {
                None => {
                    self.left = left;
                    proof {
                        assert(!old(self).values().contains(value)) by {
                            if Self::values_under(old(self).right).contains(value) {
                                assert(precedes(old(self).value, value));
                            }
                        }
                        assert(old(self).values().remove(value) =~= old(self).values());
                    }
                    return Some(self.copy());
                },
                Some(mut left_node) => {
                    proof {
                        left_node.lemma_node();
                    }
                    self.left = left_node.remove(value);
                    proof {
                        assert(self.sorted()) by {
                            assert forall|v: T| #[trigger]
                                Self::values_under(self.left).contains(v) implies precedes(
                                v,
                                self.value,
                            ) by {
                                assert(Self::values_under(old(self).left).contains(v));
                            }
                        }
                        old(self).lemma_shrunk(*self);
                        self.lemma_node();
                        assert(self.values() =~= old(self).values().remove(value)) by {
                            if Self::values_under(old(self).right).contains(value) {
                                assert(precedes(old(self).value, value));
                            }
                        }
                    }
                },
            }
        } else if goes_right {
            let right = self.right.take();

            match right {
                None => {
                    self.right = right;
                    proof {
                        assert(!old(self).values().contains(value)) by {
                            if Self::values_under(old(self).left).contains(value) {
                                assert(precedes(value, old(self).value));
                            }
                        }
                        assert(old(self).values().remove(value) =~= old(self).values());
                    }
                    return Some(self.copy());
                },
                Some(mut right_node) => {
                    proof {
                        right_node.lemma_node();
                    }
                    self.right = right_node.remove(value);
                    proof {
                        assert(self.sorted()) by {
                            assert forall|v: T| #[trigger]
                                Self::values_under(self.right).contains(v) implies precedes(
                                self.value,
                                v,
                            ) by {
                                assert(Self::values_under(old(self).right).contains(v));
                            }
                        }
                        old(self).lemma_shrunk(*self);
                        self.lemma_node();
                        assert(self.values() =~= old(self).values().remove(value)) by {
                            if Self::values_under(old(self).left).contains(value) {
                                assert(precedes(value, old(self).value));
                            }
                        }
                    }
                },
            }
        } else if found {
            // find the childs
            let left = self.left.take();
            let right = self.right.take();
            proof {
                assert forall|v: T| #[trigger]
                    Self::values_under(old(self).left).contains(v) implies v != value by {
                    assert(precedes(v, old(self).value));
                }
                assert forall|v: T| #[trigger]
                    Self::values_under(old(self).right).contains(v) implies v != value by {
                    assert(precedes(old(self).value, v));
                }
            }

            if left.is_none() && right.is_none() {
                proof {
                    assert(old(self).values().remove(value) =~= Set::<T>::empty());
                }
                return None;
            } else if left.is_none() {
                proof {
                    assert(old(self).values().remove(value) =~= Self::values_under(right));
                }
                return right;
            } else if right.is_none() {
                proof {
                    assert(old(self).values().remove(value) =~= Self::values_under(left));
                }
                return left;
            } else {
                let mut right_node = right.unwrap();
                proof {
                    right_node.lemma_node();
                }
                let highest_node = right_node.get_leftmost_child();
                let highest_value = highest_node.value;
                let ghost all_right = right_node.values();

                self.value = highest_value;
                self.left = left;
                self.right = right_node.remove(highest_value);
                proof {
                    assert(precedes(old(self).value, highest_value));
                    assert(self.sorted()) by {
                        assert forall|v: T| #[trigger]
                            Self::values_under(self.left).contains(v) implies precedes(
                            v,
                            self.value,
                        ) by {
                            assert(precedes(v, old(self).value));
                        }
                        assert forall|v: T| #[trigger]
                            Self::values_under(self.right).contains(v) implies precedes(
                            self.value,
                            v,
                        ) by {
                            assert(all_right.contains(v));
                        }
                    }
                    old(self).lemma_shrunk(*self);
                    self.lemma_node();
                    assert(self.values() =~= old(self).values().remove(value));
                }
            }
        } else {
            // not reached where the order is total: the value comes before,
            // after, or is the one at this node
            return Some(self.copy());
        }
        Some(self.balance_after_remove())
    }
}

/// A set of numbers, kept as a balanced search tree.
pub struct AVL<T> {
    root: Option<Box<Node<T>>>,
}

impl<T: RationalNumber> View for AVL<T> {
    type V = Set<T>;

    /// The numbers in the tree.
    closed spec fn view(&self) -> Set<T> {
        Node::values_under(self.root)
    }
}

impl<T: RationalNumber> AVL<T> {
    /// True if the tree is a balanced search tree.
    pub closed spec fn wf(&self) -> bool {
        Node::wf_under(self.root)
    }

    /// The height of the tree.
    pub closed spec fn tall(&self) -> nat {
        Node::tall_under(self.root)
    }

    /// The value at the root, if the tree has one.
    pub closed spec fn root_value(&self) -> Option<T> {
        match self.root {
            Some(node) => Some(node.value),
            None => None,
        }
    }

    /// The tree has a root exactly if it has values, and the value at the
    /// root is one of them.
    pub proof fn lemma_root_value(&self)
        ensures
            self.root_value() is None <==> self@ == Set::<T>::empty(),
            self.root_value() is Some ==> self@.contains(self.root_value()->0),
    {
        Node::<T>::lemma_nothing_under_none();
        if self.root is Some {
            self.root->0.lemma_node();
            assert(self@.contains(self.root->0.value));
        }
    }

    /// A tree without values.
    pub fn new() -> (tree: Self)
        ensures
            tree.wf(),
            tree@ == Set::<T>::empty(),
            tree.tall() == 0,
    {
        proof {
            Node::<T>::lemma_nothing_under_none();
        }
        Self { root: None }
    }

    /// Adds `value` to the tree, unless the tree has it.
    pub fn add(&mut self, value: T)
        requires
            is_ordered::<T>(),
            old(self).wf(),
            old(self).tall() < HEIGHT_MAX,
        ensures
            final(self).wf(),
            final(self)@ == old(self)@.insert(value),
            final(self).tall() == old(self).tall() || final(self).tall() == old(self).tall() + 1,
    {
        let some_node = self.root.take();

        if let Some(mut node) = some_node {
            proof {
                node.lemma_node();
            }
            self.root = node.add(value);
        } else {
            proof {
                Node::<T>::lemma_nothing_under_none();
            }
            self.root = Some(Box::new(Node::new(value)));
        }
    }

    /// Takes `value` out of the tree, if the tree has it.
    pub fn remove(&mut self, value: T)
        requires
            is_ordered::<T>(),
            old(self).wf(),
        ensures
            final(self).wf(),
            final(self)@ == old(self)@.remove(value),
            final(self).tall() == old(self).tall() || final(self).tall() + 1 == old(self).tall(),
    {
        let some_node = self.root.take();

        if let Some(mut node) = some_node {
            proof {
                node.lemma_node();
            }
            self.root = node.remove(value);
        } else {
            proof {
                Node::<T>::lemma_nothing_under_none();
                assert(old(self)@.remove(value) =~= old(self)@);
            }
        }
    }

    /// The value at the root, if the tree has values.
    pub fn get_root(&self) -> (value: Option<&T>)
        ensures
            match value {
                Some(found) => self.root_value() == Some(*found),
                None => self.root_value() is None,
            },
    {
        let some_node = self.root.as_ref();

        if let Some(node) = some_node {
            Some(&node.value)
        } else {
            None
        }
    }

    pub fn is_empty(&self) -> (empty: bool)
        ensures
            empty == (self@ == Set::<T>::empty()),
    {
        proof {
            self.lemma_root_value();
        }
        self.root.is_none()
    }
}

/// The order of `u32` is a strict total order.
pub proof fn lemma_u32_is_ordered()
    ensures
        is_ordered::<u32>(),
{
}

/// The order of `i32` is a strict total order.
pub proof fn lemma_i32_is_ordered()
    ensures
        is_ordered::<i32>(),
{
}

/// The order of `u64` is a strict total order.
pub proof fn lemma_u64_is_ordered()
    ensures
        is_ordered::<u64>(),
{
}

/// The order of `i64` is a strict total order.
pub proof fn lemma_i64_is_ordered()
    ensures
        is_ordered::<i64>(),
{
}

/// The order of `usize` is a strict total order.
pub proof fn lemma_usize_is_ordered()
    ensures
        is_ordered::<usize>(),
{
}

/// The order of `isize` is a strict total order.
pub proof fn lemma_isize_is_ordered()
    ensures
        is_ordered::<isize>(),
{
}

} // verus!
