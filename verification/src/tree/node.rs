use vstd::multiset::Multiset;
use vstd::prelude::*;

use crate::tree::utils::{Color, Direction, RotationType};

verus! {

/// The tree's storage unit: a key, a colour, and two optional owned children.
/// All upward communication during rebalancing happens through return values,
/// never through stored parent pointers.
pub struct Node {
    pub left: Option<Box<Node>>,
    pub right: Option<Box<Node>>,
    pub value: i64,
    pub color: Color,
}

/// The colour of an optional subtree root; a missing node counts as `Black`.
pub open spec fn color_of(n: Option<Box<Node>>) -> Color {
    match n {
        None => Color::Black,
        Some(node) => node.color,
    }
}

/// The child of `n` on side `dir`.
pub open spec fn child_of(n: Node, dir: Direction) -> Option<Box<Node>> {
    match dir {
        Direction::Left => n.left,
        Direction::Right => n.right,
    }
}

/// The multiset of keys stored in an optional subtree.
pub open spec fn mset_of(n: Option<Box<Node>>) -> Multiset<i64>
    decreases n,
{
    match n {
        None => Multiset::empty(),
        Some(node) => node.mset(),
    }
}

/// The in-order key sequence of an optional subtree.
pub open spec fn seq_of(n: Option<Box<Node>>) -> Seq<i64>
    decreases n,
{
    match n {
        None => Seq::empty(),
        Some(node) => node.inorder(),
    }
}

/// Every key of `m` lies at or below `v`.
pub open spec fn all_at_or_below(m: Multiset<i64>, v: i64) -> bool {
    forall|x: i64| m.contains(x) ==> x <= v
}

/// Every key of `m` lies at or above `v`.
pub open spec fn all_at_or_above(m: Multiset<i64>, v: i64) -> bool {
    forall|x: i64| m.contains(x) ==> x >= v
}

/// Binary-search-tree order: keys on the left are at or below the node's
/// key, keys on the right at or above it. Fresh duplicates descend
/// rightwards, but a rotation may carry an equal key to the left side, so
/// the order is non-strict on both sides.
pub open spec fn ordered(n: Option<Box<Node>>) -> bool
    decreases n,
{
    match n {
        None => true,
        Some(node) => node.ordered(),
    }
}

/// No red node has a red child anywhere in the subtree.
pub open spec fn no_red_red(n: Option<Box<Node>>) -> bool
    decreases n,
{
    match n {
        None => true,
        Some(node) => node.no_red_red(),
    }
}

/// The number of black nodes on the path from the root of `n` down to the
/// leftmost missing-child position (the subtree's black height, once all
/// paths agree).
pub open spec fn black_height(n: Option<Box<Node>>) -> nat
    decreases n,
{
    match n {
        None => 0nat,
        Some(node) => node.black_height(),
    }
}

/// Every path from the root of `n` to a missing-child position passes the
/// same number of black nodes.
pub open spec fn balanced(n: Option<Box<Node>>) -> bool
    decreases n,
{
    match n {
        None => true,
        Some(node) => node.balanced(),
    }
}

/// The three structural red-black invariants of a subtree.
pub open spec fn rb_ok(n: Option<Box<Node>>) -> bool {
    ordered(n) && no_red_red(n) && balanced(n)
}

/// The number of nodes in an optional subtree.
pub open spec fn size_of(n: Option<Box<Node>>) -> nat
    decreases n,
{
    match n {
        None => 0nat,
        Some(node) => node.size(),
    }
}

/// The height of an optional subtree, for termination measures.
pub open spec fn height_of(n: Option<Box<Node>>) -> nat
    decreases n,
{
    match n {
        None => 0nat,
        Some(node) => node.height(),
    }
}

/// A sequence is sorted in non-decreasing order.
pub open spec fn sorted(s: Seq<i64>) -> bool {
    forall|i: int, j: int| 0 <= i <= j < s.len() ==> s[i] <= s[j]
}

impl Node {
    /// The multiset of keys stored in the subtree rooted at `self`.
    pub open spec fn mset(self) -> Multiset<i64>
        decreases self,
    {
        mset_of(self.left).insert(self.value).add(mset_of(self.right))
    }

    /// The in-order key sequence of the subtree rooted at `self`.
    pub open spec fn inorder(self) -> Seq<i64>
        decreases self,
    {
        seq_of(self.left).push(self.value) + seq_of(self.right)
    }

    /// Binary-search-tree order at this node and below.
    pub open spec fn ordered(self) -> bool
        decreases self,
    {
        &&& ordered(self.left)
        &&& ordered(self.right)
        &&& all_at_or_below(mset_of(self.left), self.value)
        &&& all_at_or_above(mset_of(self.right), self.value)
    }

    /// No red node has a red child at this node or below.
    pub open spec fn no_red_red(self) -> bool
        decreases self,
    {
        &&& (self.color is Red ==> color_of(self.left) is Black && color_of(self.right) is Black)
        &&& no_red_red(self.left)
        &&& no_red_red(self.right)
    }

    /// Black nodes on the leftmost path from this node to a missing child.
    pub open spec fn black_height(self) -> nat
        decreases self,
    {
        black_height(self.left) + (if self.color is Black {
            1nat
        } else {
            0nat
        })
    }

    /// All paths below this node pass equally many black nodes.
    pub open spec fn balanced(self) -> bool
        decreases self,
    {
        &&& balanced(self.left)
        &&& balanced(self.right)
        &&& black_height(self.left) == black_height(self.right)
    }

    /// The three structural red-black invariants of this subtree.
    pub open spec fn rb_ok(self) -> bool {
        self.ordered() && self.no_red_red() && self.balanced()
    }

    /// The number of nodes in the subtree rooted at `self`.
    pub open spec fn size(self) -> nat
        decreases self,
    {
        size_of(self.left) + size_of(self.right) + 1
    }

    /// Height of the subtree rooted at `self`.
    pub open spec fn height(self) -> nat
        decreases self,
    {
        1 + (if height_of(self.left) >= height_of(self.right) {
            height_of(self.left)
        } else {
            height_of(self.right)
        })
    }

    /// A fresh leaf: no children.
    pub fn new(color: Color, value: i64) -> (n: Node)
        ensures
            n == (Node { color, value, left: None, right: None }),
    {
        Node { color, value, left: None, right: None }
    }

    /// The child slot on side `dir`.
    pub fn get_child(&self, dir: Direction) -> (c: &Option<Box<Node>>)
        ensures
            *c == child_of(*self, dir),
    {
        match dir {
            Direction::Left => &self.left,
            Direction::Right => &self.right,
        }
    }

    /// The child on side `dir`, as an optional reference.
    pub fn get_child_as_ref(&self, dir: Direction) -> (c: Option<&Box<Node>>)
        ensures
            (match c {
                Some(b) => child_of(*self, dir) == Some(*b),
                None => child_of(*self, dir) is None,
            }),
    {
        match dir {
            Direction::Left => self.left.as_ref(),
            Direction::Right => self.right.as_ref(),
        }
    }

    /// Put `node` into the child slot on side `dir`.
    pub fn set_child(&mut self, dir: Direction, node: Node)
        ensures
            child_of(*final(self), dir) is Some,
            *child_of(*final(self), dir).unwrap() == node,
            child_of(*final(self), dir.flip()) == child_of(*old(self), dir.flip()),
            final(self).value == old(self).value,
            final(self).color == old(self).color,
    {
        match dir {
            Direction::Left => self.left = Some(Box::new(node)),
            Direction::Right => self.right = Some(Box::new(node)),
        }
    }

    /// Put an optional child (possibly a missing one) into the slot on side
    /// `dir`.
    pub fn set_child_or_leaf(&mut self, dir: Direction, child: Option<Box<Node>>)
        ensures
            child_of(*final(self), dir) == child,
            child_of(*final(self), dir.flip()) == child_of(*old(self), dir.flip()),
            final(self).value == old(self).value,
            final(self).color == old(self).color,
    {
        match dir {
            Direction::Left => self.left = child,
            Direction::Right => self.right = child,
        }
    }

    /// Take the child on side `dir` out of the node, leaving the slot empty.
    pub fn remove_child(&mut self, dir: Direction) -> (c: Option<Box<Node>>)
        ensures
            c == child_of(*old(self), dir),
            child_of(*final(self), dir) is None,
            child_of(*final(self), dir.flip()) == child_of(*old(self), dir.flip()),
            final(self).value == old(self).value,
            final(self).color == old(self).color,
    {
        match dir {
            Direction::Left => self.left.take(),
            Direction::Right => self.right.take(),
        }
    }

    /// Whether this node is black.
    pub fn is_black(&self) -> (b: bool)
        ensures
            b == (self.color is Black),
    {
        self.color == Color::Black
    }

    /// Rotate the subtree rooted at `self`, promoting a child or grandchild
    /// to the new subtree root. Purely structural: the keys and their order
    /// are preserved exactly, and no colour field is touched — recolouring
    /// is the caller's responsibility.
    pub fn rotate(self, rtype: RotationType) -> (r: Node)
        requires
            can_rotate(self, rtype),
        ensures
            (rtype matches RotationType::Single(d) ==> single_rotation(self, r, d)),
            (rtype matches RotationType::Double(d) ==> double_rotation(self, r, d)),
            r.mset() == self.mset(),
            self.ordered() ==> r.ordered(),
    {
        match rtype {
            RotationType::Single(dir) => self.rotate_once(dir),
            RotationType::Double(dir) => self.rotate_twice(dir),
        }
    }

    /// Single rotation towards `dir`: the child opposite `dir` becomes the
    /// new root, and `self` becomes its `dir`-side child.
    fn rotate_once(self, dir: Direction) -> (r: Node)
        requires
            child_of(self, dir.flip()) is Some,
        ensures
            single_rotation(self, r, dir),
            r.mset() == self.mset(),
            self.ordered() ==> r.ordered(),
    {
        let ghost g0 = self;
        let mut g = self;
        let u = g.remove_child(dir);
        let mut p = *(g.remove_child(dir.opposite()).unwrap());
        let n = p.remove_child(dir.opposite());
        let s = p.remove_child(dir);

        g.set_child_or_leaf(dir, u);
        g.set_child_or_leaf(dir.opposite(), s);

        p.set_child(dir, g);
        p.set_child_or_leaf(dir.opposite(), n);

        proof {
            lemma_single_rotation(g0, p, dir);
        }
        p
    }

    /// Double rotation towards `dir`: the inner grandchild becomes the new
    /// root, with the former parent and `self` as its two children.
    fn rotate_twice(self, dir: Direction) -> (r: Node)
        requires
            child_of(self, dir.flip()) is Some,
            child_of(*child_of(self, dir.flip()).unwrap(), dir) is Some,
        ensures
            double_rotation(self, r, dir),
            r.mset() == self.mset(),
            self.ordered() ==> r.ordered(),
    {
        let ghost g0 = self;
        let mut g = self;
        let u = g.remove_child(dir);
        let mut p = *(g.remove_child(dir.opposite()).unwrap());
        let mut n = *(p.remove_child(dir).unwrap());
        let s = p.remove_child(dir.opposite());

        let b1 = n.remove_child(dir.opposite());
        let b2 = n.remove_child(dir);

        p.set_child_or_leaf(dir.opposite(), s);
        p.set_child_or_leaf(dir, b1);

        g.set_child_or_leaf(dir.opposite(), b2);
        g.set_child_or_leaf(dir, u);

        n.set_child(dir.opposite(), p);
        n.set_child(dir, g);

        proof {
            lemma_double_rotation(g0, n, dir);
        }
        n
    }
}

/// Whether `self` has the children that `rotate` with `rtype` rearranges.
pub open spec fn can_rotate(g: Node, rtype: RotationType) -> bool {
    match rtype {
        RotationType::Single(d) => child_of(g, d.flip()) is Some,
        RotationType::Double(d) => child_of(g, d.flip()) is Some && child_of(
            *child_of(g, d.flip()).unwrap(),
            d,
        ) is Some,
    }
}

/// The exact structural relation between a subtree `g` and the result `r` of
/// a single rotation towards `dir`: `g`'s child opposite `dir` is the new
/// root, `g` sits on its `dir` side and has adopted that child's `dir`-side
/// subtree. Colours travel with their nodes.
pub open spec fn single_rotation(g: Node, r: Node, dir: Direction) -> bool {
    let p = *child_of(g, dir.flip()).unwrap();
    &&& r.value == p.value
    &&& r.color == p.color
    &&& child_of(r, dir.flip()) == child_of(p, dir.flip())
    &&& child_of(r, dir) is Some
    &&& ({
        let g2 = *child_of(r, dir).unwrap();
        &&& g2.value == g.value
        &&& g2.color == g.color
        &&& child_of(g2, dir) == child_of(g, dir)
        &&& child_of(g2, dir.flip()) == child_of(p, dir)
    })
}

/// The exact structural relation between a subtree `g` and the result `r` of
/// a double rotation towards `dir`: the inner grandchild is the new root,
/// the former parent and `g` are its children, and the grandchild's two
/// subtrees are split between them. Colours travel with their nodes.
pub open spec fn double_rotation(g: Node, r: Node, dir: Direction) -> bool {
    let p = *child_of(g, dir.flip()).unwrap();
    let n = *child_of(p, dir).unwrap();
    &&& r.value == n.value
    &&& r.color == n.color
    &&& child_of(r, dir.flip()) is Some
    &&& child_of(r, dir) is Some
    &&& ({
        let p2 = *child_of(r, dir.flip()).unwrap();
        &&& p2.value == p.value
        &&& p2.color == p.color
        &&& child_of(p2, dir.flip()) == child_of(p, dir.flip())
        &&& child_of(p2, dir) == child_of(n, dir.flip())
    })
    &&& ({
        let g2 = *child_of(r, dir).unwrap();
        &&& g2.value == g.value
        &&& g2.color == g.color
        &&& child_of(g2, dir) == child_of(g, dir)
        &&& child_of(g2, dir.flip()) == child_of(n, dir)
    })
}

/// Any key of a child subtree is a key of the whole subtree.
pub proof fn lemma_mset_parts(n: Node)
    ensures
        forall|x: i64| mset_of(n.left).contains(x) ==> n.mset().contains(x),
        forall|x: i64| mset_of(n.right).contains(x) ==> n.mset().contains(x),
        n.mset().contains(n.value),
{
}

/// One unfolding of every spec function at a present node, stated as plain
/// equalities so that callers are not limited by definition fuel.
pub proof fn lemma_opt_specs(n: Option<Box<Node>>)
    requires
        n is Some,
    ensures
        mset_of(n) == (*n.unwrap()).mset(),
        seq_of(n) == (*n.unwrap()).inorder(),
        ordered(n) == (*n.unwrap()).ordered(),
        no_red_red(n) == (*n.unwrap()).no_red_red(),
        black_height(n) == (*n.unwrap()).black_height(),
        balanced(n) == (*n.unwrap()).balanced(),
        color_of(n) == n.unwrap().color,
        height_of(n) == (*n.unwrap()).height(),
        size_of(n) == (*n.unwrap()).size(),
{
}

/// One unfolding of every spec function of a node in terms of its children,
/// stated as plain equalities so that callers are not limited by definition
/// fuel.
pub proof fn lemma_node_specs(n: Node)
    ensures
        n.mset() == mset_of(n.left).insert(n.value).add(mset_of(n.right)),
        n.inorder() == seq_of(n.left).push(n.value) + seq_of(n.right),
        n.ordered() == (ordered(n.left) && ordered(n.right) && all_at_or_below(
            mset_of(n.left),
            n.value,
        ) && all_at_or_above(mset_of(n.right), n.value)),
        n.no_red_red() == ((n.color is Red ==> color_of(n.left) is Black && color_of(n.right)
            is Black) && no_red_red(n.left) && no_red_red(n.right)),
        n.black_height() == black_height(n.left) + (if n.color is Black {
            1nat
        } else {
            0nat
        }),
        n.balanced() == (balanced(n.left) && balanced(n.right) && black_height(n.left)
            == black_height(n.right)),
        n.size() == size_of(n.left) + size_of(n.right) + 1,
{
}

/// `n` with the child slot on side `dir` replaced by `c`.
pub open spec fn with_child(n: Node, dir: Direction, c: Option<Box<Node>>) -> Node {
    match dir {
        Direction::Left => Node { left: c, right: n.right, value: n.value, color: n.color },
        Direction::Right => Node { left: n.left, right: c, value: n.value, color: n.color },
    }
}

/// Inserting a key that respects a bound keeps the bound.
pub proof fn lemma_bound_insert(m: Multiset<i64>, v: i64, b: i64)
    ensures
        all_at_or_below(m, b) && v <= b ==> all_at_or_below(m.insert(v), b),
        all_at_or_above(m, b) && v >= b ==> all_at_or_above(m.insert(v), b),
{
    if all_at_or_below(m, b) && v <= b {
        assert forall|x: i64| m.insert(v).contains(x) implies x <= b by {
            if m.contains(x) {
            } else {
                assert(x == v);
            }
        }
    }
    if all_at_or_above(m, b) && v >= b {
        assert forall|x: i64| m.insert(v).contains(x) implies x >= b by {
            if m.contains(x) {
            } else {
                assert(x == v);
            }
        }
    }
}

/// Removing a key keeps any bound the multiset respected.
pub proof fn lemma_bound_remove(m: Multiset<i64>, x: i64, b: i64)
    ensures
        all_at_or_below(m, b) ==> all_at_or_below(m.remove(x), b),
        all_at_or_above(m, b) ==> all_at_or_above(m.remove(x), b),
{
    if all_at_or_below(m, b) {
        assert forall|y: i64| m.remove(x).contains(y) implies y <= b by {
            assert(m.contains(y));
        }
    }
    if all_at_or_above(m, b) {
        assert forall|y: i64| m.remove(x).contains(y) implies y >= b by {
            assert(m.contains(y));
        }
    }
}

/// Recolouring a node's root touches neither its keys, their order, nor the
/// balance below it; only the black height and the red-red condition at the
/// root move with the colour.
pub proof fn lemma_recolor(a: Node, b: Node)
    requires
        b.left == a.left,
        b.right == a.right,
        b.value == a.value,
    ensures
        b.mset() == a.mset(),
        b.inorder() == a.inorder(),
        b.ordered() == a.ordered(),
        b.balanced() == a.balanced(),
        b.color is Black ==> b.black_height() == black_height(a.left) + 1,
        b.color is Red ==> b.black_height() == black_height(a.left),
        b.no_red_red() == ((b.color is Red ==> color_of(a.left) is Black && color_of(a.right)
            is Black) && no_red_red(a.left) && no_red_red(a.right)),
{
    lemma_node_specs(a);
    lemma_node_specs(b);
}

/// A single rotation preserves the key multiset and the search order of the
/// subtree it reshapes.
pub proof fn lemma_single_rotation(g: Node, r: Node, dir: Direction)
    requires
        child_of(g, dir.flip()) is Some,
        single_rotation(g, r, dir),
    ensures
        r.mset() == g.mset(),
        g.ordered() ==> r.ordered(),
{
    if dir is Left {
        let p = *g.right.unwrap();
        let g2 = *r.left.unwrap();
        lemma_opt_specs(g.right);
        lemma_opt_specs(r.left);
        lemma_node_specs(g);
        lemma_node_specs(p);
        lemma_node_specs(g2);
        lemma_node_specs(r);
        assert(p.mset() == mset_of(p.left).insert(p.value).add(mset_of(p.right)));
        assert(g2.mset() == mset_of(g.left).insert(g.value).add(mset_of(p.left)));
        assert(r.mset() =~= g.mset());
        if g.ordered() {
            assert(p.mset().contains(p.value));
            assert forall|x: i64| mset_of(p.left).contains(x) implies x >= g.value by {
                assert(p.mset().contains(x));
            }
            assert(g2.ordered());
            assert forall|x: i64| g2.mset().contains(x) implies x <= p.value by {
                if mset_of(g.left).contains(x) {
                } else if mset_of(p.left).contains(x) {
                } else {
                    assert(x == g.value);
                }
            }
            assert(r.ordered());
        }
    } else {
        let p = *g.left.unwrap();
        let g2 = *r.right.unwrap();
        lemma_opt_specs(g.left);
        lemma_opt_specs(r.right);
        lemma_node_specs(g);
        lemma_node_specs(p);
        lemma_node_specs(g2);
        lemma_node_specs(r);
        assert(p.mset() == mset_of(p.left).insert(p.value).add(mset_of(p.right)));
        assert(g2.mset() == mset_of(p.right).insert(g.value).add(mset_of(g.right)));
        assert(r.mset() =~= g.mset());
        if g.ordered() {
            assert(p.mset().contains(p.value));
            assert forall|x: i64| mset_of(p.right).contains(x) implies x <= g.value by {
                assert(p.mset().contains(x));
            }
            assert(g2.ordered());
            assert forall|x: i64| g2.mset().contains(x) implies x >= p.value by {
                if mset_of(g.right).contains(x) {
                } else if mset_of(p.right).contains(x) {
                } else {
                    assert(x == g.value);
                }
            }
            assert(r.ordered());
        }
    }
}

/// A double rotation preserves the key multiset and the search order of the
/// subtree it reshapes.
pub proof fn lemma_double_rotation(g: Node, r: Node, dir: Direction)
    requires
        child_of(g, dir.flip()) is Some,
        child_of(*child_of(g, dir.flip()).unwrap(), dir) is Some,
        double_rotation(g, r, dir),
    ensures
        r.mset() == g.mset(),
        g.ordered() ==> r.ordered(),
{
    if dir is Left {
        let p = *g.right.unwrap();
        let n = *p.left.unwrap();
        let p2 = *r.right.unwrap();
        let g2 = *r.left.unwrap();
        lemma_opt_specs(g.right);
        lemma_opt_specs(p.left);
        lemma_opt_specs(r.right);
        lemma_opt_specs(r.left);
        lemma_node_specs(g);
        lemma_node_specs(p);
        lemma_node_specs(n);
        lemma_node_specs(p2);
        lemma_node_specs(g2);
        lemma_node_specs(r);
        assert(n.mset() == mset_of(n.left).insert(n.value).add(mset_of(n.right)));
        assert(p.mset() == mset_of(p.left).insert(p.value).add(mset_of(p.right)));
        assert(g2.mset() == mset_of(g.left).insert(g.value).add(mset_of(n.left)));
        assert(p2.mset() == mset_of(n.right).insert(p.value).add(mset_of(p.right)));
        assert(r.mset() =~= g.mset());
        if g.ordered() {
            assert(n.mset().contains(n.value));
            assert(p.mset().contains(n.value));
            assert forall|x: i64| n.mset().contains(x) implies x >= g.value by {
                assert(p.mset().contains(x));
            }
            assert(g2.ordered()) by {
                assert forall|x: i64| mset_of(n.left).contains(x) implies x >= g.value by {
                    assert(n.mset().contains(x));
                }
            }
            assert(p2.ordered()) by {
                assert forall|x: i64| mset_of(n.right).contains(x) implies x <= p.value by {
                    assert(n.mset().contains(x));
                }
            }
            assert forall|x: i64| g2.mset().contains(x) implies x <= n.value by {
                if mset_of(g.left).contains(x) {
                } else if mset_of(n.left).contains(x) {
                    assert(n.mset().contains(x));
                } else {
                    assert(x == g.value);
                }
            }
            assert forall|x: i64| p2.mset().contains(x) implies x >= n.value by {
                if mset_of(p.right).contains(x) {
                } else if mset_of(n.right).contains(x) {
                    assert(n.mset().contains(x));
                } else {
                    assert(x == p.value);
                }
            }
            assert(r.ordered());
        }
    } else {
        let p = *g.left.unwrap();
        let n = *p.right.unwrap();
        let p2 = *r.left.unwrap();
        let g2 = *r.right.unwrap();
        lemma_opt_specs(g.left);
        lemma_opt_specs(p.right);
        lemma_opt_specs(r.left);
        lemma_opt_specs(r.right);
        lemma_node_specs(g);
        lemma_node_specs(p);
        lemma_node_specs(n);
        lemma_node_specs(p2);
        lemma_node_specs(g2);
        lemma_node_specs(r);
        assert(n.mset() == mset_of(n.left).insert(n.value).add(mset_of(n.right)));
        assert(p.mset() == mset_of(p.left).insert(p.value).add(mset_of(p.right)));
        assert(g2.mset() == mset_of(n.right).insert(g.value).add(mset_of(g.right)));
        assert(p2.mset() == mset_of(p.left).insert(p.value).add(mset_of(n.left)));
        assert(r.mset() =~= g.mset());
        if g.ordered() {
            assert(n.mset().contains(n.value));
            assert(p.mset().contains(n.value));
            assert forall|x: i64| n.mset().contains(x) implies x <= g.value by {
                assert(p.mset().contains(x));
            }
            assert(g2.ordered()) by {
                assert forall|x: i64| mset_of(n.right).contains(x) implies x <= g.value by {
                    assert(n.mset().contains(x));
                }
            }
            assert(p2.ordered()) by {
                assert forall|x: i64| mset_of(n.left).contains(x) implies x >= p.value by {
                    assert(n.mset().contains(x));
                }
            }
            assert forall|x: i64| g2.mset().contains(x) implies x >= n.value by {
                if mset_of(g.right).contains(x) {
                } else if mset_of(n.right).contains(x) {
                    assert(n.mset().contains(x));
                } else {
                    assert(x == g.value);
                }
            }
            assert forall|x: i64| p2.mset().contains(x) implies x <= n.value by {
                if mset_of(p.left).contains(x) {
                } else if mset_of(n.left).contains(x) {
                    assert(n.mset().contains(x));
                } else {
                    assert(x == p.value);
                }
            }
            assert(r.ordered());
        }
    }
}

} // verus!
