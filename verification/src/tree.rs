use vstd::multiset::Multiset;
use vstd::prelude::*;

pub mod iter;
pub mod laws;
pub mod node;
pub mod utils;

use crate::tree::node::{
    all_at_or_above, balanced, black_height, can_rotate, child_of, color_of,
    height_of, lemma_bound_insert, lemma_bound_remove, lemma_double_rotation,
    lemma_mset_parts, lemma_node_specs, lemma_opt_specs, lemma_recolor, lemma_single_rotation,
    mset_of, no_red_red, ordered, rb_ok, seq_of, size_of, sorted, with_child, Node,
};
use crate::tree::utils::{get_color, Color, Direction, RotationType};

verus! {

/// A red-black tree over `i64` keys with multiset semantics: inserting a key
/// that is already present stores a second copy.
pub struct RBTree {
    pub root: Option<Box<Node>>,
}

/// The tree under its plain name.
pub type Tree = RBTree;

impl View for RBTree {
    type V = Multiset<i64>;

    open spec fn view(&self) -> Multiset<i64> {
        mset_of(self.root)
    }
}

impl RBTree {
    /// The red-black invariants: binary-search-tree order, no red node with a
    /// red child, equal black counts on all paths, and a black root (a missing
    /// root counts as black).
    pub open spec fn inv(self) -> bool {
        rb_ok(self.root) && color_of(self.root) is Black
    }

    /// An empty tree.
    pub fn new() -> (t: RBTree)
        ensures
            t@ == Multiset::<i64>::empty(),
            t.inv(),
    {
        RBTree { root: None }
    }

    /// Whether the tree holds no keys.
    pub fn is_empty(&self) -> (r: bool)
        ensures
            r == (self@.len() == 0),
    {
        proof {
            if self.root is Some {
                assert(self@.contains(self.root.unwrap().value));
            }
        }
        self.root.is_none()
    }

    /// Whether `value` is stored in the tree, by iterative descent: smaller
    /// keys are sought on the left, larger ones on the right.
    pub fn contains(&self, value: i64) -> (found: bool)
        requires
            ordered(self.root),
        ensures
            found == self@.contains(value),
    {
        let mut next: &Option<Box<Node>> = &self.root;
        loop
            invariant
                ordered(*next),
                mset_of(self.root).contains(value) == mset_of(*next).contains(value),
            decreases height_of(*next),
        {
            match next {
                Some(node) => {
                    proof {
                        lemma_opt_specs(*next);
                        lemma_node_specs(**node);
                    }
                    if node.value == value {
                        proof {
                            lemma_mset_parts(**node);
                        }
                        return true;
                    } else if value < node.value {
                        proof {
                            if mset_of(node.right).contains(value) {
                                assert(value >= node.value);
                            }
                        }
                        next = &node.left;
                    } else {
                        proof {
                            if mset_of(node.left).contains(value) {
                                assert(value <= node.value);
                            }
                        }
                        next = &node.right;
                    }
                },
                None => {
                    return false;
                },
            }
        }
    }
}

/// The signal a frame of the recursive insertion sends to its parent frame.
enum InsertReturn {
    /// The subtree is fully repaired.
    Done,
    /// The subtree's root was just recoloured red; its children are black.
    Node,
    /// The subtree's root is red and its child on the carried side is red:
    /// the red-red violation must be repaired by the grandparent.
    Parent(Direction),
    /// The subtree is a black grandparent with a red child and red
    /// grandchild and a black uncle: the parent frame must rotate it.
    Rotate(RotationType),
}

/// The state a subtree is in when its frame signals `Parent(d)`: a red root
/// whose `d`-side child is red with black children, everything below free of
/// red-red pairs, and a black subtree on the other side.
pub open spec fn parent_signal(n: Node, d: Direction) -> bool {
    &&& n.color is Red
    &&& child_of(n, d) is Some
    &&& color_of(child_of(n, d)) is Red
    &&& color_of((*child_of(n, d).unwrap()).left) is Black
    &&& color_of((*child_of(n, d).unwrap()).right) is Black
    &&& no_red_red(child_of(n, d))
    &&& color_of(child_of(n, d.flip())) is Black
    &&& no_red_red(child_of(n, d.flip()))
}

/// The state a subtree is in when its frame signals `Rotate(rt)`: a black
/// grandparent with a red child towards the insertion, a red grandchild on
/// the side `rt` resolves, and a black uncle. Rotating by `rt` and then
/// recolouring repairs it.
pub open spec fn insert_rotate_signal(n: Node, rt: RotationType) -> bool {
    let rd = rt.direction();
    let p = child_of(n, rd.flip());
    &&& n.color is Black
    &&& p is Some
    &&& color_of(p) is Red
    &&& color_of(child_of(n, rd)) is Black
    &&& no_red_red(child_of(n, rd))
    &&& can_rotate(n, rt)
    &&& (rt matches RotationType::Single(_) ==> ({
        let pn = *p.unwrap();
        &&& child_of(pn, rd.flip()) is Some
        &&& color_of(child_of(pn, rd.flip())) is Red
        &&& no_red_red(child_of(pn, rd.flip()))
        &&& color_of(child_of(pn, rd)) is Black
        &&& no_red_red(child_of(pn, rd))
    }))
    &&& (rt matches RotationType::Double(_) ==> ({
        let pn = *p.unwrap();
        &&& child_of(pn, rd) is Some
        &&& color_of(child_of(pn, rd)) is Red
        &&& no_red_red(child_of(pn, rd))
        &&& color_of(child_of(pn, rd.flip())) is Black
        &&& no_red_red(child_of(pn, rd.flip()))
    }))
}

/// The signal a frame of the recursive deletion sends to its parent frame.
enum DeleteReturn {
    /// The subtree is fully repaired.
    Done,
    /// The key is nowhere on the search path; nothing was changed.
    NotFound,
    /// The subtree's root itself must be removed: the parent replaces it by
    /// the carried subtree (recoloured black). The flag tells whether the
    /// black heights are already settled.
    Delete(Option<Box<Node>>, bool),
    /// The subtree lost one black level and everything nearby is black: the
    /// parent must continue the repair one level up.
    Continue,
    /// The subtree has a black-level deficit that a rotation at its root
    /// repairs: the parent frame must rotate it.
    Rotate(RotationType),
    /// The subtree's deficient side faces a red sibling: the parent frame
    /// must apply the red-sibling repair to it.
    Case3(Direction),
}

/// The subtree under `n`'s `d` side is one black level short of its sibling;
/// everything else about `n` is intact.
pub open spec fn deficit(n: Node, d: Direction) -> bool {
    &&& n.no_red_red()
    &&& child_of(n, d.flip()) is Some
    &&& color_of(child_of(n, d)) is Black
    &&& balanced(child_of(n, d))
    &&& balanced(child_of(n, d.flip()))
    &&& black_height(child_of(n, d)) + 1 == black_height(child_of(n, d.flip()))
}

/// The black height the subtree at `n` is owed once the deficit on side `d`
/// is repaired: what the intact sibling side shows, plus `n`'s own colour.
pub open spec fn target_bh(n: Node, d: Direction) -> nat {
    black_height(child_of(n, d.flip())) + (if n.color is Black {
        1nat
    } else {
        0nat
    })
}

/// The state a subtree is in when its frame signals `Rotate(rt)` during
/// deletion: the `rt.direction()` side is one black level short, the black
/// sibling has a red nephew placed so that rotating by `rt` and recolouring
/// settles the deficit (the distant nephew for a single rotation, the near
/// one for a double rotation).
pub open spec fn del_rotate_config(n: Node, rt: RotationType) -> bool {
    let rd = rt.direction();
    let s = child_of(n, rd.flip());
    &&& n.no_red_red()
    &&& can_rotate(n, rt)
    &&& s is Some
    &&& color_of(s) is Black
    &&& color_of(child_of(n, rd)) is Black
    &&& balanced(child_of(n, rd))
    &&& balanced(s)
    &&& black_height(child_of(n, rd)) + 1 == black_height(s)
    &&& (rt matches RotationType::Single(_) ==> ({
        let sn = *s.unwrap();
        &&& child_of(sn, rd.flip()) is Some
        &&& color_of(child_of(sn, rd.flip())) is Red
    }))
    &&& (rt matches RotationType::Double(_) ==> ({
        let sn = *s.unwrap();
        &&& child_of(sn, rd) is Some
        &&& color_of(child_of(sn, rd)) is Red
        &&& color_of(child_of(sn, rd.flip())) is Black
    }))
}

/// The state a subtree is in when its frame signals `Case3(d)`: the `d` side
/// is one black level short and the sibling is red (so the root is black).
pub open spec fn case3_config(n: Node, d: Direction) -> bool {
    let s = child_of(n, d.flip());
    &&& n.no_red_red()
    &&& n.color is Black
    &&& s is Some
    &&& color_of(s) is Red
    &&& color_of(child_of(n, d)) is Black
    &&& balanced(child_of(n, d))
    &&& balanced(s)
    &&& black_height(child_of(n, d)) + 1 == black_height(s)
}

/// What `DeleteReturn::Done` promises: one copy of `removed` left the
/// subtree `pre`, every invariant holds again, the black height is intact,
/// and a black root stayed black.
pub open spec fn del_done(pre: Node, post: Node, removed: i64) -> bool {
    &&& post.mset() == pre.mset().remove(removed)
    &&& pre.mset().contains(removed)
    &&& post.ordered()
    &&& post.no_red_red()
    &&& post.balanced()
    &&& post.black_height() == pre.black_height()
    &&& (pre.color is Black ==> post.color is Black)
}

/// What `DeleteReturn::Continue` promises: one copy of `removed` left, the
/// subtree is internally repaired but one black level short, and its root is
/// black (as it was before).
pub open spec fn del_continue(pre: Node, post: Node, removed: i64) -> bool {
    &&& post.mset() == pre.mset().remove(removed)
    &&& pre.mset().contains(removed)
    &&& post.ordered()
    &&& post.no_red_red()
    &&& post.balanced()
    &&& post.black_height() + 1 == pre.black_height()
    &&& post.color is Black
    &&& pre.color is Black
}

/// What `DeleteReturn::Rotate(rt)` promises: one copy of `removed` left and
/// the subtree sits in the rotation configuration; rotating restores the old
/// black height, and the root colour has not changed.
pub open spec fn del_rotate(pre: Node, post: Node, removed: i64, rt: RotationType) -> bool {
    &&& post.mset() == pre.mset().remove(removed)
    &&& pre.mset().contains(removed)
    &&& post.ordered()
    &&& del_rotate_config(post, rt)
    &&& target_bh(post, rt.direction()) == pre.black_height()
    &&& post.color == pre.color
}

/// What `DeleteReturn::Case3(d)` promises: like `del_rotate`, with the
/// red-sibling configuration instead.
pub open spec fn del_case3(pre: Node, post: Node, removed: i64, d: Direction) -> bool {
    &&& post.mset() == pre.mset().remove(removed)
    &&& pre.mset().contains(removed)
    &&& post.ordered()
    &&& case3_config(post, d)
    &&& target_bh(post, d) == pre.black_height()
    &&& post.color == pre.color
}

/// What `DeleteReturn::Delete(repl, done)` promises: the root of `pre` held
/// `removed` and must leave; `repl` carries everything else (a red leaf or
/// nothing, by the invariants), and `done` tells whether replacing settles
/// the black heights.
pub open spec fn del_splice(
    pre: Node,
    post: Node,
    removed: i64,
    repl: Option<Box<Node>>,
    done: bool,
) -> bool {
    &&& mset_of(repl).insert(removed) == pre.mset()
    &&& ordered(repl)
    &&& no_red_red(repl)
    &&& balanced(repl)
    &&& post.left is None
    &&& post.right is None
    &&& (done && repl is None ==> pre.color is Red && pre.black_height() == 0)
    &&& (done && repl is Some ==> pre.color is Black && pre.black_height() == 1 && color_of(repl)
        is Red && (*repl.unwrap()).left is None && (*repl.unwrap()).right is None)
    &&& (!done ==> repl is None && pre.color is Black && pre.black_height() == 1)
}

/// Apply the rotation a delete-time `Rotate(rt)` signal asks for and
/// recolour: the promoted node takes the old root's colour and both its
/// children turn black, which settles the black-level deficit.
fn finish_delete_rotation(child: Node, rt: RotationType) -> (r: Node)
    requires
        child.ordered(),
        del_rotate_config(child, rt),
    ensures
        r.mset() == child.mset(),
        r.ordered(),
        r.no_red_red(),
        r.balanced(),
        r.black_height() == target_bh(child, rt.direction()),
        r.color == child.color,
{
    let ghost c0 = child;
    let rd = rt.get_direction();
    let old_color = child.color;
    let rotated = child.rotate(rt);
    proof {
        match rt {
            RotationType::Single(d) => lemma_single_rotation(c0, rotated, d),
            RotationType::Double(d) => lemma_double_rotation(c0, rotated, d),
        }
    }
    let ghost rot = rotated;
    let mut res = rotated;
    res.color = old_color;
    let lc = res.remove_child(Direction::Left);
    match lc {
        Some(lb) => {
            let mut ln = *lb;
            ln.color = Color::Black;
            proof {
                lemma_recolor(*lb, ln);
            }
            res.set_child(Direction::Left, ln);
        },
        None => {},
    }
    let rc = res.remove_child(Direction::Right);
    match rc {
        Some(rb) => {
            let mut rn = *rb;
            rn.color = Color::Black;
            proof {
                lemma_recolor(*rb, rn);
            }
            res.set_child(Direction::Right, rn);
        },
        None => {},
    }
    proof {
        let s = *child_of(c0, rd.flip()).unwrap();
        lemma_node_specs(c0);
        lemma_node_specs(s);
        lemma_node_specs(rot);
        lemma_node_specs(res);
        lemma_opt_specs(child_of(c0, rd.flip()));
        lemma_opt_specs(child_of(rot, rd));
        lemma_opt_specs(child_of(rot, rd.flip()));
        lemma_opt_specs(child_of(res, rd));
        lemma_opt_specs(child_of(res, rd.flip()));
        lemma_node_specs(*child_of(rot, rd).unwrap());
        lemma_node_specs(*child_of(rot, rd.flip()).unwrap());
        lemma_node_specs(*child_of(res, rd).unwrap());
        lemma_node_specs(*child_of(res, rd.flip()).unwrap());
        assert(child_of(res, rd) is Some && child_of(res, rd.flip()) is Some);
        assert((*child_of(res, rd).unwrap()).left == (*child_of(rot, rd).unwrap()).left);
        assert((*child_of(res, rd).unwrap()).right == (*child_of(rot, rd).unwrap()).right);
        assert((*child_of(res, rd.flip()).unwrap()).left == (*child_of(
            rot,
            rd.flip(),
        ).unwrap()).left);
        assert((*child_of(res, rd.flip()).unwrap()).right == (*child_of(
            rot,
            rd.flip(),
        ).unwrap()).right);
        assert(mset_of(child_of(res, rd)) == mset_of(child_of(rot, rd)));
        assert(mset_of(child_of(res, rd.flip())) == mset_of(child_of(rot, rd.flip())));
        assert(res.mset() == rot.mset());
        assert(res.ordered());
        match rt {
            RotationType::Single(_) => {
                let dn = child_of(s, rd.flip());
                let nn = child_of(s, rd);
                lemma_opt_specs(dn);
                lemma_node_specs(*dn.unwrap());
                assert(black_height(child_of(s, rd)) == black_height(child_of(s, rd.flip())));
                assert(black_height(child_of(c0, rd)) == black_height(nn));
                assert((*child_of(res, rd).unwrap()).balanced());
                assert((*child_of(res, rd.flip()).unwrap()).balanced());
                assert(black_height(child_of(res, rd)) == black_height(nn) + 1);
                assert(black_height(child_of(res, rd.flip())) == black_height(nn) + 1);
                assert(res.balanced());
                assert(res.no_red_red());
                assert(res.black_height() == target_bh(c0, rd));
            },
            RotationType::Double(_) => {
                let nn = *child_of(s, rd).unwrap();
                lemma_opt_specs(child_of(s, rd));
                lemma_node_specs(nn);
                assert(black_height(child_of(s, rd)) == black_height(child_of(s, rd.flip())));
                assert(black_height(child_of(nn, rd)) == black_height(child_of(nn, rd.flip())));
                assert(black_height(child_of(c0, rd)) == black_height(child_of(nn, rd)));
                assert((*child_of(res, rd).unwrap()).balanced());
                assert((*child_of(res, rd.flip()).unwrap()).balanced());
                assert(black_height(child_of(res, rd)) == black_height(child_of(nn, rd)) + 1);
                assert(black_height(child_of(res, rd.flip())) == black_height(
                    child_of(nn, rd),
                ) + 1);
                assert(res.balanced());
                assert(res.no_red_red());
                assert(res.black_height() == target_bh(c0, rd));
            },
        }
    }
    res
}

impl RBTree {
    /// Classify and, where possible, repair a one-black-level deficit on the
    /// `dir` side of `parent`: recolour locally (the all-black and
    /// red-parent cases), or tell the caller which rotation is needed.
    fn do_delete_checks(parent: &mut Box<Node>, dir: Direction) -> (res: DeleteReturn)
        requires
            (**old(parent)).ordered(),
            deficit(**old(parent), dir),
        ensures
            (**final(parent)).mset() == (**old(parent)).mset(),
            (**final(parent)).ordered(),
            (res matches DeleteReturn::Done ==> (**final(parent)).no_red_red()
                && (**final(parent)).balanced()
                && (**final(parent)).black_height() == target_bh(**old(parent), dir)
                && ((**old(parent)).color is Black ==> (**final(parent)).color is Black)),
            (res matches DeleteReturn::Continue ==> (**final(parent)).no_red_red()
                && (**final(parent)).balanced()
                && (**final(parent)).black_height() + 1 == target_bh(**old(parent), dir)
                && (**final(parent)).color is Black && (**old(parent)).color is Black),
            (res matches DeleteReturn::Rotate(rt) ==> **final(parent) == **old(parent)
                && rt.direction() == dir && del_rotate_config(**final(parent), rt)),
            (res matches DeleteReturn::Case3(d) ==> **final(parent) == **old(parent) && d == dir
                && case3_config(**final(parent), d)),
            !(res is NotFound),
            !(res is Delete),
    {
        proof {
            lemma_node_specs(**parent);
            lemma_opt_specs(child_of(**parent, dir.flip()));
            if child_of(**parent, dir) is Some {
                lemma_opt_specs(child_of(**parent, dir));
            }
        }
        let parent_is_black = parent.is_black();
        let node_is_black = get_color(parent.get_child_as_ref(dir)) == Color::Black;
        let sib = parent.get_child_as_ref(dir.opposite()).unwrap();
        let ghost sibn = **sib;
        let sibling_is_black = sib.is_black();
        let left_nephew_is_black = get_color(sib.left.as_ref()) == Color::Black;
        let right_nephew_is_black = get_color(sib.right.as_ref()) == Color::Black;
        let all_black = parent_is_black && node_is_black && sibling_is_black
            && left_nephew_is_black && right_nephew_is_black;
        let distant_nephew_is_red = match dir.opposite() {
            Direction::Left => !left_nephew_is_black,
            Direction::Right => !right_nephew_is_black,
        };
        proof {
            lemma_node_specs(sibn);
        }
        if all_black {
            let sb = parent.remove_child(dir.opposite()).unwrap();
            let mut sn = *sb;
            sn.color = Color::Red;
            proof {
                lemma_recolor(*sb, sn);
            }
            parent.set_child(dir.opposite(), sn);
            proof {
                lemma_node_specs(**parent);
                lemma_opt_specs(child_of(**parent, dir.flip()));
                lemma_node_specs(sn);
                assert((**parent).mset() =~= (**old(parent)).mset());
                assert((**parent).ordered());
                assert((**parent).no_red_red());
                assert((**parent).balanced());
            }
            DeleteReturn::Continue
        } else if !sibling_is_black {
            proof {
                assert(case3_config(**parent, dir));
            }
            DeleteReturn::Case3(dir)
        } else if !parent_is_black && sibling_is_black && left_nephew_is_black
            && right_nephew_is_black {
            let sb = parent.remove_child(dir.opposite()).unwrap();
            let mut sn = *sb;
            sn.color = Color::Red;
            proof {
                lemma_recolor(*sb, sn);
            }
            parent.set_child(dir.opposite(), sn);
            parent.color = Color::Black;
            proof {
                lemma_node_specs(**parent);
                lemma_opt_specs(child_of(**parent, dir.flip()));
                lemma_node_specs(sn);
                assert((**parent).mset() =~= (**old(parent)).mset());
                assert((**parent).ordered());
                assert((**parent).no_red_red());
                assert((**parent).balanced());
            }
            DeleteReturn::Done
        } else if distant_nephew_is_red {
            proof {
                assert(del_rotate_config(**parent, RotationType::Single(dir)));
            }
            DeleteReturn::Rotate(RotationType::Single(dir))
        } else {
            proof {
                assert(color_of(child_of(sibn, dir)) is Red);
                assert(del_rotate_config(**parent, RotationType::Double(dir)));
            }
            DeleteReturn::Rotate(RotationType::Double(dir))
        }
    }

    /// The red-sibling repair: rotate the subtree so that the red sibling
    /// becomes its black root, recolour the demoted parent red, and settle
    /// the remaining deficit one level down with the ordinary checks (which
    /// can only end in the red-parent or rotation cases there).
    fn case3(child: Node, direction: Direction) -> (r: Node)
        requires
            child.ordered(),
            case3_config(child, direction),
        ensures
            r.mset() == child.mset(),
            r.ordered(),
            r.no_red_red(),
            r.balanced(),
            r.black_height() == target_bh(child, direction),
            r.color is Black,
    {
        let ghost c0 = child;
        let rotated0 = child.rotate(RotationType::Single(direction));
        proof {
            lemma_single_rotation(c0, rotated0, direction);
        }
        let ghost rot = rotated0;
        let mut rotated = rotated0;
        rotated.color = Color::Black;
        let pb = rotated.remove_child(direction).unwrap();
        let mut pn = *pb;
        pn.color = Color::Red;
        proof {
            lemma_recolor(*pb, pn);
        }
        let ghost pn0 = pn;
        let mut pbox = Box::new(pn);
        proof {
            let s = *child_of(c0, direction.flip()).unwrap();
            lemma_node_specs(c0);
            lemma_opt_specs(child_of(c0, direction.flip()));
            lemma_node_specs(s);
            lemma_node_specs(rot);
            lemma_node_specs(pn);
            lemma_opt_specs(child_of(rot, direction));
            lemma_node_specs(*child_of(rot, direction).unwrap());
            if child_of(c0, direction) is Some {
                lemma_opt_specs(child_of(c0, direction));
            }
            if child_of(s, direction) is Some {
                lemma_opt_specs(child_of(s, direction));
            }
            if child_of(s, direction.flip()) is Some {
                lemma_opt_specs(child_of(s, direction.flip()));
            }
            assert(black_height(child_of(s, direction)) == black_height(
                child_of(s, direction.flip()),
            ));
            assert(child_of(pn, direction.flip()) == child_of(s, direction));
            assert(black_height(child_of(pn, direction)) + 1 == black_height(
                child_of(pn, direction.flip()),
            ));
            assert(child_of(pn, direction.flip()) is Some);
            assert(deficit(pn, direction));
            assert(pn.ordered());
        }
        let next_step = Self::do_delete_checks(&mut pbox, direction);
        match next_step {
            DeleteReturn::Done => {
                proof {
                    assert((*pbox).black_height() == target_bh(pn0, direction));
                }
                rotated.set_child(direction, *pbox);
            },
            DeleteReturn::Rotate(second_rotation) => {
                let fixed = finish_delete_rotation(*pbox, second_rotation);
                proof {
                    assert(fixed.black_height() == target_bh(pn0, direction));
                }
                rotated.set_child(direction, fixed);
            },
            _ => {
                // the demoted parent is red here, so the all-black and
                // red-sibling cases cannot recur
                proof {
                    assert(false);
                }
            },
        }
        proof {
            let s = *child_of(c0, direction.flip()).unwrap();
            lemma_node_specs(c0);
            lemma_opt_specs(child_of(c0, direction.flip()));
            lemma_node_specs(s);
            lemma_node_specs(rot);
            lemma_node_specs(rotated);
            lemma_node_specs(pn0);
            lemma_opt_specs(child_of(rotated, direction));
            lemma_node_specs(*child_of(rotated, direction).unwrap());
            if child_of(s, direction.flip()) is Some {
                lemma_opt_specs(child_of(s, direction.flip()));
            }
            assert(child_of(rotated, direction.flip()) == child_of(s, direction.flip()));
            assert(mset_of(child_of(rotated, direction)) == pn0.mset());
            assert(rotated.mset() =~= rot.mset());
            assert(rotated.ordered());
            assert(black_height(child_of(rotated, direction)) == black_height(
                child_of(s, direction),
            ));
            assert(rotated.balanced());
            assert(rotated.no_red_red());
            assert(rotated.black_height() == target_bh(c0, direction));
        }
        rotated
    }
}

/// Apply the rotation an `InsertReturn::Rotate` signal asks for and recolour:
/// the promoted node turns black and the demoted grandparent red, which
/// removes the red-red pair without changing the subtree's black height.
fn finish_insert_rotation(child: Node, rt: RotationType) -> (r: Node)
    requires
        child.ordered(),
        child.balanced(),
        insert_rotate_signal(child, rt),
    ensures
        r.mset() == child.mset(),
        r.ordered(),
        r.no_red_red(),
        r.balanced(),
        r.black_height() == child.black_height(),
        r.color is Black,
{
    let ghost c0 = child;
    let rd = rt.get_direction();
    let rotated = child.rotate(rt);
    proof {
        match rt {
            RotationType::Single(d) => lemma_single_rotation(c0, rotated, d),
            RotationType::Double(d) => lemma_double_rotation(c0, rotated, d),
        }
    }
    let ghost rot = rotated;
    let mut res = rotated;
    res.color = Color::Black;
    let rc = res.remove_child(rd);
    let mut rcn = *(rc.unwrap());
    rcn.color = Color::Red;
    let ghost g2 = *child_of(rot, rd).unwrap();
    res.set_child(rd, rcn);
    proof {
        let p = *child_of(c0, rd.flip()).unwrap();
        lemma_recolor(g2, rcn);
        lemma_node_specs(c0);
        lemma_node_specs(p);
        lemma_node_specs(rot);
        lemma_node_specs(res);
        lemma_node_specs(g2);
        lemma_node_specs(rcn);
        lemma_opt_specs(child_of(c0, rd.flip()));
        lemma_opt_specs(child_of(rot, rd));
        lemma_opt_specs(child_of(res, rd));
        assert(mset_of(child_of(res, rd)) == mset_of(child_of(rot, rd)));
        assert(res.mset() == rot.mset());
        assert(res.ordered());
        match rt {
            RotationType::Single(_) => {
                let nsub = child_of(p, rd.flip());
                lemma_opt_specs(nsub);
                assert(child_of(res, rd.flip()) == nsub);
                assert(no_red_red(child_of(res, rd))) by {
                    assert(child_of(rcn, rd) == child_of(c0, rd));
                    assert(child_of(rcn, rd.flip()) == child_of(p, rd));
                }
                assert(res.no_red_red());
                assert(black_height(child_of(c0, rd)) == black_height(child_of(c0, rd.flip())));
                assert(black_height(child_of(p, rd)) == black_height(child_of(p, rd.flip())));
                assert(black_height(child_of(c0, rd.flip())) == black_height(child_of(p, rd)));
                assert(rcn.balanced());
                assert(rcn.black_height() == black_height(child_of(c0, rd)));
                assert(black_height(nsub) == black_height(child_of(c0, rd)));
                assert(res.balanced());
                assert(res.black_height() == c0.black_height());
            },
            RotationType::Double(_) => {
                let n = *child_of(p, rd).unwrap();
                lemma_opt_specs(child_of(p, rd));
                lemma_node_specs(n);
                let p2 = *child_of(rot, rd.flip()).unwrap();
                lemma_opt_specs(child_of(rot, rd.flip()));
                lemma_node_specs(p2);
                assert(child_of(res, rd.flip()) == child_of(rot, rd.flip()));
                assert(no_red_red(child_of(res, rd))) by {
                    assert(child_of(rcn, rd) == child_of(c0, rd));
                    assert(child_of(rcn, rd.flip()) == child_of(n, rd));
                }
                assert(no_red_red(child_of(res, rd.flip()))) by {
                    assert(child_of(p2, rd.flip()) == child_of(p, rd.flip()));
                    assert(child_of(p2, rd) == child_of(n, rd.flip()));
                }
                assert(res.no_red_red());
                assert(black_height(child_of(c0, rd)) == black_height(child_of(c0, rd.flip())));
                assert(black_height(child_of(p, rd)) == black_height(child_of(p, rd.flip())));
                assert(black_height(child_of(n, rd)) == black_height(child_of(n, rd.flip())));
                assert(black_height(child_of(c0, rd.flip())) == black_height(child_of(p, rd)));
                assert(black_height(child_of(p, rd)) == black_height(child_of(n, rd)));
                assert(rcn.balanced());
                assert(p2.balanced());
                assert(rcn.black_height() == black_height(child_of(c0, rd)));
                assert(p2.black_height() == black_height(child_of(c0, rd)));
                assert(res.balanced());
                assert(res.black_height() == c0.black_height());
            },
        }
    }
    res
}

impl RBTree {
    /// Recursive descent and bottom-up repair for insertion: attach a fresh
    /// red leaf at the first missing child position on the search path, then
    /// let every frame on the way back interpret its child's signal, recolour
    /// or rotate, and signal its own parent in turn.
    fn recursive_insert(node: &mut Box<Node>, value: i64) -> (res: InsertReturn)
        requires
            (*old(node)).ordered(),
            (*old(node)).no_red_red(),
            (*old(node)).balanced(),
        ensures
            (*final(node)).mset() == (*old(node)).mset().insert(value),
            (*final(node)).ordered(),
            (*final(node)).balanced(),
            (*final(node)).black_height() == (*old(node)).black_height(),
            (res matches InsertReturn::Done ==> (*final(node)).no_red_red()
                && (*final(node)).color == (*old(node)).color),
            (res matches InsertReturn::Node ==> (*final(node)).no_red_red()
                && (*final(node)).color is Red
                && color_of((*final(node)).left) is Black
                && color_of((*final(node)).right) is Black),
            (res matches InsertReturn::Parent(d) ==> parent_signal(**final(node), d)
                && (*final(node)).color == (*old(node)).color),
            (res matches InsertReturn::Rotate(rt) ==> insert_rotate_signal(**final(node), rt)),
        decreases (*old(node)).height(),
    {
        proof {
            lemma_node_specs(**node);
        }
        let direction = if value < node.value {
            Direction::Left
        } else {
            Direction::Right
        };
        let uncle_color = get_color(node.get_child_as_ref(direction.opposite()));
        let next_opt = node.remove_child(direction);
        match next_opt {
            None => {
                node.set_child(direction, Node::new(Color::Red, value));
                proof {
                    lemma_node_specs(**node);
                    lemma_opt_specs(child_of(**node, direction));
                    lemma_node_specs(*child_of(**node, direction).unwrap());
                    assert((*node).mset() =~= (*old(node)).mset().insert(value));
                    assert(mset_of(child_of(**node, direction)) =~= Multiset::empty().insert(
                        value,
                    ));
                    assert((*node).ordered());
                }
                if node.is_black() {
                    InsertReturn::Done
                } else {
                    InsertReturn::Parent(direction)
                }
            },
            Some(mut next) => {
                proof {
                    lemma_opt_specs(child_of(**old(node), direction));
                    assert((*next).height() < (*old(node)).height());
                }
                let state = Self::recursive_insert(&mut next, value);
                match state {
                    InsertReturn::Done => {
                        node.set_child_or_leaf(direction, Some(next));
                        proof {
                            lemma_node_specs(**node);
                            lemma_opt_specs(child_of(**node, direction));
                            assert((*node).mset() =~= (*old(node)).mset().insert(value));
                            lemma_bound_insert(
                                mset_of(child_of(**old(node), direction)),
                                value,
                                old(node).value,
                            );
                            assert((*node).ordered());
                        }
                        InsertReturn::Done
                    },
                    InsertReturn::Node => {
                        node.set_child_or_leaf(direction, Some(next));
                        proof {
                            lemma_node_specs(**node);
                            lemma_opt_specs(child_of(**node, direction));
                            assert((*node).mset() =~= (*old(node)).mset().insert(value));
                            lemma_bound_insert(
                                mset_of(child_of(**old(node), direction)),
                                value,
                                old(node).value,
                            );
                            assert((*node).ordered());
                        }
                        if node.is_black() {
                            InsertReturn::Done
                        } else {
                            InsertReturn::Parent(direction)
                        }
                    },
                    InsertReturn::Parent(child_direction) => {
                        if uncle_color == Color::Red {
                            let mut child = *next;
                            child.color = Color::Black;
                            proof {
                                lemma_recolor(*next, child);
                            }
                            node.set_child(direction, child);
                            let uncle_box = node.remove_child(direction.opposite()).unwrap();
                            let mut uncle = *uncle_box;
                            uncle.color = Color::Black;
                            proof {
                                lemma_recolor(*uncle_box, uncle);
                                lemma_opt_specs(child_of(**old(node), direction.flip()));
                                lemma_node_specs(*child_of(**old(node), direction.flip()).unwrap());
                            }
                            node.set_child(direction.opposite(), uncle);
                            node.color = Color::Red;
                            proof {
                                lemma_node_specs(**node);
                                lemma_opt_specs(child_of(**node, direction));
                                lemma_opt_specs(child_of(**node, direction.flip()));
                                lemma_node_specs(child);
                                lemma_node_specs(uncle);
                                assert((*node).mset() =~= (*old(node)).mset().insert(value));
                                lemma_bound_insert(
                                    mset_of(child_of(**old(node), direction)),
                                    value,
                                    old(node).value,
                                );
                                assert((*node).ordered());
                            }
                            InsertReturn::Node
                        } else {
                            node.set_child_or_leaf(direction, Some(next));
                            proof {
                                lemma_node_specs(**node);
                                lemma_opt_specs(child_of(**node, direction));
                                lemma_node_specs(*next);
                                assert((*node).mset() =~= (*old(node)).mset().insert(value));
                                lemma_bound_insert(
                                    mset_of(child_of(**old(node), direction)),
                                    value,
                                    old(node).value,
                                );
                                assert((*node).ordered());
                                assert((*old(node)).color is Black);
                            }
                            if child_direction != direction {
                                InsertReturn::Rotate(RotationType::Double(direction.opposite()))
                            } else {
                                InsertReturn::Rotate(RotationType::Single(direction.opposite()))
                            }
                        }
                    },
                    InsertReturn::Rotate(rotation_type) => {
                        let fixed = finish_insert_rotation(*next, rotation_type);
                        node.set_child(direction, fixed);
                        proof {
                            lemma_node_specs(**node);
                            lemma_opt_specs(child_of(**node, direction));
                            assert((*node).mset() =~= (*old(node)).mset().insert(value));
                            lemma_bound_insert(
                                mset_of(child_of(**old(node), direction)),
                                value,
                                old(node).value,
                            );
                            assert((*node).ordered());
                        }
                        InsertReturn::Done
                    },
                }
            },
        }
    }

    /// Insert `value`. A key already present gains a second copy. The walk
    /// attaches a fresh red leaf, and the signal relay on the way back up
    /// restores the red-black invariants; whatever signal reaches the root,
    /// the root ends up black.
    pub fn insert(&mut self, value: i64)
        requires
            old(self).inv(),
        ensures
            final(self).inv(),
            final(self)@ == old(self)@.insert(value),
    {
        let root_opt = self.root.take();
        match root_opt {
            None => {
                self.root = Some(
                    Box::new(Node { color: Color::Black, value, left: None, right: None }),
                );
                proof {
                    lemma_opt_specs(self.root);
                    lemma_node_specs(*self.root.unwrap());
                    assert(self@ =~= old(self)@.insert(value));
                }
            },
            Some(mut root) => {
                let state = Self::recursive_insert(&mut root, value);
                proof {
                    lemma_opt_specs(Some(root));
                }
                match state {
                    InsertReturn::Done => {
                        self.root = Some(root);
                    },
                    InsertReturn::Node => {
                        let mut r = *root;
                        r.color = Color::Black;
                        proof {
                            lemma_recolor(*root, r);
                        }
                        self.root = Some(Box::new(r));
                        proof {
                            lemma_opt_specs(self.root);
                        }
                    },
                    InsertReturn::Parent(_) => {
                        // a red root would contradict the black root the
                        // walk started from
                        proof {
                            assert(false);
                        }
                        let mut r = *root;
                        r.color = Color::Black;
                        self.root = Some(Box::new(r));
                    },
                    InsertReturn::Rotate(rotation_type) => {
                        let fixed = finish_insert_rotation(*root, rotation_type);
                        self.root = Some(Box::new(fixed));
                        proof {
                            lemma_opt_specs(self.root);
                        }
                    },
                }
            },
        }
    }
}

impl RBTree {
    /// Interpret the signal a child operation on side `dir` sent up:
    /// propagate, splice in a replacement, rotate the child subtree, or run
    /// the deficit checks at this node. `c0b` is the child subtree as it
    /// stood before that operation and `removed` the key that left it.
    #[verifier::rlimit(100)]
    fn handle_delete_return(
        node: &mut Box<Node>,
        dir: Direction,
        state: DeleteReturn,
        Ghost(c0b): Ghost<Option<Box<Node>>>,
        Ghost(removed): Ghost<i64>,
    ) -> (res: DeleteReturn)
        requires
            c0b is Some,
            child_of(**old(node), dir) is Some,
            with_child(**old(node), dir, c0b).ordered(),
            with_child(**old(node), dir, c0b).no_red_red(),
            with_child(**old(node), dir, c0b).balanced(),
            (state matches DeleteReturn::NotFound ==> child_of(**old(node), dir) == c0b),
            (state matches DeleteReturn::Done ==> del_done(
                *c0b.unwrap(),
                *child_of(**old(node), dir).unwrap(),
                removed,
            )),
            (state matches DeleteReturn::Continue ==> del_continue(
                *c0b.unwrap(),
                *child_of(**old(node), dir).unwrap(),
                removed,
            )),
            (state matches DeleteReturn::Rotate(rt) ==> del_rotate(
                *c0b.unwrap(),
                *child_of(**old(node), dir).unwrap(),
                removed,
                rt,
            )),
            (state matches DeleteReturn::Case3(d) ==> del_case3(
                *c0b.unwrap(),
                *child_of(**old(node), dir).unwrap(),
                removed,
                d,
            )),
            (state matches DeleteReturn::Delete(repl, done) ==> del_splice(
                *c0b.unwrap(),
                *child_of(**old(node), dir).unwrap(),
                removed,
                repl,
                done,
            )),
        ensures
            !(res is Delete),
            (res matches DeleteReturn::NotFound ==> **final(node) == with_child(
                **old(node),
                dir,
                c0b,
            ) && state matches DeleteReturn::NotFound),
            (res matches DeleteReturn::Done ==> del_done(
                with_child(**old(node), dir, c0b),
                **final(node),
                removed,
            )),
            (res matches DeleteReturn::Continue ==> del_continue(
                with_child(**old(node), dir, c0b),
                **final(node),
                removed,
            )),
            (res matches DeleteReturn::Rotate(rt) ==> del_rotate(
                with_child(**old(node), dir, c0b),
                **final(node),
                removed,
                rt,
            )),
            (res matches DeleteReturn::Case3(d) ==> del_case3(
                with_child(**old(node), dir, c0b),
                **final(node),
                removed,
                d,
            )),
    {
        let ghost n0 = with_child(**old(node), dir, c0b);
        let ghost c0 = *c0b.unwrap();
        proof {
            lemma_node_specs(n0);
            lemma_node_specs(**node);
            lemma_opt_specs(c0b);
            lemma_opt_specs(child_of(**old(node), dir));
            lemma_node_specs(c0);
            if child_of(n0, dir.flip()) is Some {
                lemma_opt_specs(child_of(n0, dir.flip()));
            }
            lemma_bound_remove(c0.mset(), removed, n0.value);
        }
        match state {
            DeleteReturn::NotFound => {
                proof {
                    assert(**node == n0);
                }
                DeleteReturn::NotFound
            },
            DeleteReturn::Done => {
                proof {
                    assert(mset_of(child_of(n0, dir)).contains(removed));
                    assert(n0.mset().contains(removed));
                    assert((**node).mset() =~= n0.mset().remove(removed));
                    assert((**node).ordered());
                    assert((**node).no_red_red());
                    assert((**node).balanced());
                }
                DeleteReturn::Done
            },
            DeleteReturn::Continue => {
                proof {
                    assert(mset_of(child_of(n0, dir)).contains(removed));
                    assert(n0.mset().contains(removed));
                    assert((**node).mset() =~= n0.mset().remove(removed));
                    assert((**node).ordered());
                    assert(deficit(**node, dir));
                }
                let ghost mid = **node;
                let r = Self::do_delete_checks(node, dir);
                proof {
                    assert(target_bh(mid, dir) == n0.black_height());
                    assert((**node).mset() =~= n0.mset().remove(removed));
                }
                r
            },
            DeleteReturn::Rotate(rt) => {
                let childb = node.remove_child(dir).unwrap();
                let fixed = finish_delete_rotation(*childb, rt);
                node.set_child(dir, fixed);
                proof {
                    lemma_node_specs(**node);
                    lemma_opt_specs(child_of(**node, dir));
                    assert(mset_of(child_of(n0, dir)).contains(removed));
                    assert(n0.mset().contains(removed));
                    assert((**node).mset() =~= n0.mset().remove(removed));
                    assert((**node).ordered());
                    assert((**node).no_red_red());
                    assert((**node).balanced());
                    assert((**node).black_height() == n0.black_height());
                }
                DeleteReturn::Done
            },
            DeleteReturn::Case3(d) => {
                let childb = node.remove_child(dir).unwrap();
                let fixed = Self::case3(*childb, d);
                node.set_child(dir, fixed);
                proof {
                    lemma_node_specs(**node);
                    lemma_opt_specs(child_of(**node, dir));
                    assert(mset_of(child_of(n0, dir)).contains(removed));
                    assert(n0.mset().contains(removed));
                    assert((**node).mset() =~= n0.mset().remove(removed));
                    assert((**node).ordered());
                    assert((**node).no_red_red());
                    assert((**node).balanced());
                    assert((**node).black_height() == n0.black_height());
                }
                DeleteReturn::Done
            },
            DeleteReturn::Delete(repl, done) => {
                proof {
                    assert(mset_of(repl) =~= c0.mset().remove(removed));
                    assert(mset_of(child_of(n0, dir)).contains(removed));
                    assert(n0.mset().contains(removed));
                }
                let ghost replg = repl;
                let _husk = node.remove_child(dir);
                match repl {
                    Some(rb) => {
                        let mut rn = *rb;
                        rn.color = Color::Black;
                        proof {
                            lemma_recolor(*rb, rn);
                            lemma_opt_specs(replg);
                            lemma_node_specs(rn);
                        }
                        node.set_child(dir, rn);
                    },
                    None => {},
                }
                proof {
                    lemma_node_specs(**node);
                    if child_of(**node, dir) is Some {
                        lemma_opt_specs(child_of(**node, dir));
                    }
                    assert(mset_of(child_of(**node, dir)) == mset_of(replg));
                    assert((**node).mset() =~= n0.mset().remove(removed));
                    assert((**node).ordered());
                }
                if done {
                    proof {
                        assert((**node).no_red_red());
                        assert((**node).balanced());
                        assert((**node).black_height() == n0.black_height());
                    }
                    DeleteReturn::Done
                } else {
                    proof {
                        assert(deficit(**node, dir));
                    }
                    let ghost mid = **node;
                    let r = Self::do_delete_checks(node, dir);
                    proof {
                        assert(target_bh(mid, dir) == n0.black_height());
                        assert((**node).mset() =~= n0.mset().remove(removed));
                    }
                    r
                }
            },
        }
    }

    /// Walk to the leftmost node of the subtree (the in-order successor of
    /// the node above it), detach it there, and carry its key out, repairing
    /// on the way back with the same signal machinery as deletion.
    fn successor_stage_delete(node: &mut Box<Node>) -> (r: (DeleteReturn, i64))
        requires
            (**old(node)).ordered(),
            (**old(node)).no_red_red(),
            (**old(node)).balanced(),
        ensures
            (**old(node)).mset().contains(r.1),
            all_at_or_above((**old(node)).mset(), r.1),
            !(r.0 is NotFound),
            (r.0 matches DeleteReturn::Done ==> del_done(**old(node), **final(node), r.1)),
            (r.0 matches DeleteReturn::Continue ==> del_continue(**old(node), **final(node), r.1)),
            (r.0 matches DeleteReturn::Rotate(rt) ==> del_rotate(
                **old(node),
                **final(node),
                r.1,
                rt,
            )),
            (r.0 matches DeleteReturn::Case3(d) ==> del_case3(**old(node), **final(node), r.1, d)),
            (r.0 matches DeleteReturn::Delete(repl, done) ==> del_splice(
                **old(node),
                **final(node),
                r.1,
                repl,
                done,
            )),
        decreases (**old(node)).height(),
    {
        proof {
            lemma_node_specs(**node);
        }
        let left_opt = node.remove_child(Direction::Left);
        match left_opt {
            Some(mut lc) => {
                proof {
                    lemma_opt_specs(child_of(**old(node), Direction::Left));
                    assert((*lc).height() < (**old(node)).height());
                }
                let (dr, v) = Self::successor_stage_delete(&mut lc);
                node.set_child_or_leaf(Direction::Left, Some(lc));
                proof {
                    assert(with_child(**node, Direction::Left, child_of(**old(node),
                    Direction::Left)) == **old(node));
                    assert(v <= (**old(node)).value);
                    lemma_mset_parts(**old(node));
                }
                let r2 = Self::handle_delete_return(
                    node,
                    Direction::Left,
                    dr,
                    Ghost(child_of(**old(node), Direction::Left)),
                    Ghost(v),
                );
                proof {
                    assert forall|x: i64| (**old(node)).mset().contains(x) implies x >= v by {
                        if mset_of((**old(node)).left).contains(x) {
                        } else if mset_of((**old(node)).right).contains(x) {
                            assert(x >= (**old(node)).value);
                        } else {
                            assert(x == (**old(node)).value);
                        }
                    }
                }
                (r2, v)
            },
            None => {
                let v = node.value;
                proof {
                    assert(**node == **old(node));
                    lemma_mset_parts(**old(node));
                    assert forall|x: i64| (**old(node)).mset().contains(x) implies x >= v by {
                        if mset_of((**old(node)).right).contains(x) {
                            assert(x >= (**old(node)).value);
                        } else {
                            assert(x == (**old(node)).value);
                        }
                    }
                }
                if !node.is_black() {
                    proof {
                        if (**node).right is Some {
                            lemma_opt_specs((**node).right);
                            lemma_node_specs(*(**node).right.unwrap());
                            assert(false);
                        }
                        assert((**old(node)).mset() =~= mset_of(
                            None::<Box<Node>>,
                        ).insert(v));
                    }
                    (DeleteReturn::Delete(None, true), v)
                } else {
                    let right_opt = node.remove_child(Direction::Right);
                    match right_opt {
                        Some(rc) => {
                            proof {
                                lemma_opt_specs(child_of(**old(node), Direction::Right));
                                lemma_node_specs(*rc);
                                assert((*rc).color is Red) by {
                                    if (*rc).color is Black {
                                        assert(black_height(child_of(**old(node),
                                        Direction::Right)) >= 1);
                                    }
                                }
                                if (*rc).left is Some {
                                    lemma_opt_specs((*rc).left);
                                    lemma_node_specs(*(*rc).left.unwrap());
                                    assert(false);
                                }
                                if (*rc).right is Some {
                                    lemma_opt_specs((*rc).right);
                                    lemma_node_specs(*(*rc).right.unwrap());
                                    assert(false);
                                }
                                assert((**old(node)).mset() =~= mset_of(child_of(**old(node),
                                Direction::Right)).insert(v));
                            }
                            (DeleteReturn::Delete(Some(rc), true), v)
                        },
                        None => {
                            proof {
                                assert((**old(node)).mset() =~= mset_of(
                                    None::<Box<Node>>,
                                ).insert(v));
                            }
                            (DeleteReturn::Delete(None, false), v)
                        },
                    }
                }
            },
        }
    }

    /// Recursive descent and bottom-up repair for deletion: find the key,
    /// splice its node out (through the in-order successor when it has two
    /// children), and let every frame on the way back interpret its child's
    /// signal.
    fn recursive_delete(node: &mut Box<Node>, value: i64) -> (res: DeleteReturn)
        requires
            (**old(node)).ordered(),
            (**old(node)).no_red_red(),
            (**old(node)).balanced(),
        ensures
            (res matches DeleteReturn::NotFound ==> **final(node) == **old(node) && !(**old(
                node,
            )).mset().contains(value)),
            (res matches DeleteReturn::Done ==> del_done(**old(node), **final(node), value)),
            (res matches DeleteReturn::Continue ==> del_continue(
                **old(node),
                **final(node),
                value,
            )),
            (res matches DeleteReturn::Rotate(rt) ==> del_rotate(
                **old(node),
                **final(node),
                value,
                rt,
            )),
            (res matches DeleteReturn::Case3(d) ==> del_case3(
                **old(node),
                **final(node),
                value,
                d,
            )),
            (res matches DeleteReturn::Delete(repl, done) ==> del_splice(
                **old(node),
                **final(node),
                value,
                repl,
                done,
            )),
        decreases (**old(node)).height(),
    {
        proof {
            lemma_node_specs(**node);
            lemma_mset_parts(**node);
        }
        if value == node.value {
            let left_is_some = node.left.is_some();
            let right_is_some = node.right.is_some();
            if left_is_some && right_is_some {
                let mut rc = node.remove_child(Direction::Right).unwrap();
                proof {
                    lemma_opt_specs(child_of(**old(node), Direction::Right));
                    assert((*rc).height() < (**old(node)).height());
                }
                let (dr, succ) = Self::successor_stage_delete(&mut rc);
                node.set_child_or_leaf(Direction::Right, Some(rc));
                node.value = succ;
                let ghost n0 = with_child(**node, Direction::Right, child_of(**old(node),
                Direction::Right));
                proof {
                    lemma_node_specs(n0);
                    assert(succ >= (**old(node)).value);
                    assert(n0.ordered()) by {
                        assert forall|x: i64| mset_of(n0.left).contains(x) implies x
                            <= succ by {
                            assert(x <= (**old(node)).value);
                        }
                    }
                    assert(n0.no_red_red());
                    assert(n0.balanced());
                    assert(n0.black_height() == (**old(node)).black_height());
                    assert(n0.color == (**old(node)).color);
                }
                let r2 = Self::handle_delete_return(
                    node,
                    Direction::Right,
                    dr,
                    Ghost(child_of(**old(node), Direction::Right)),
                    Ghost(succ),
                );
                proof {
                    assert(n0.mset().remove(succ) =~= (**old(node)).mset().remove(value));
                    assert(n0.mset().contains(succ));
                    assert((**old(node)).mset().contains(value));
                }
                r2
            } else if !node.is_black() {
                proof {
                    if (**node).left is Some {
                        lemma_opt_specs((**node).left);
                        lemma_node_specs(*(**node).left.unwrap());
                        assert(false);
                    }
                    if (**node).right is Some {
                        lemma_opt_specs((**node).right);
                        lemma_node_specs(*(**node).right.unwrap());
                        assert(false);
                    }
                    assert((**old(node)).mset() =~= mset_of(None::<Box<Node>>).insert(value));
                }
                DeleteReturn::Delete(None, true)
            } else if left_is_some {
                let lc = node.remove_child(Direction::Left).unwrap();
                proof {
                    lemma_opt_specs(child_of(**old(node), Direction::Left));
                    lemma_node_specs(*lc);
                    assert((*lc).color is Red) by {
                        if (*lc).color is Black {
                            assert(black_height(child_of(**old(node), Direction::Left)) >= 1);
                        }
                    }
                    if (*lc).left is Some {
                        lemma_opt_specs((*lc).left);
                        lemma_node_specs(*(*lc).left.unwrap());
                        assert(false);
                    }
                    if (*lc).right is Some {
                        lemma_opt_specs((*lc).right);
                        lemma_node_specs(*(*lc).right.unwrap());
                        assert(false);
                    }
                    assert((**old(node)).mset() =~= mset_of(child_of(**old(node),
                    Direction::Left)).insert(value));
                }
                DeleteReturn::Delete(Some(lc), true)
            } else if right_is_some {
                let rc = node.remove_child(Direction::Right).unwrap();
                proof {
                    lemma_opt_specs(child_of(**old(node), Direction::Right));
                    lemma_node_specs(*rc);
                    assert((*rc).color is Red) by {
                        if (*rc).color is Black {
                            assert(black_height(child_of(**old(node), Direction::Right)) >= 1);
                        }
                    }
                    if (*rc).left is Some {
                        lemma_opt_specs((*rc).left);
                        lemma_node_specs(*(*rc).left.unwrap());
                        assert(false);
                    }
                    if (*rc).right is Some {
                        lemma_opt_specs((*rc).right);
                        lemma_node_specs(*(*rc).right.unwrap());
                        assert(false);
                    }
                    assert((**old(node)).mset() =~= mset_of(child_of(**old(node),
                    Direction::Right)).insert(value));
                }
                DeleteReturn::Delete(Some(rc), true)
            } else {
                proof {
                    assert((**old(node)).mset() =~= mset_of(None::<Box<Node>>).insert(value));
                }
                DeleteReturn::Delete(None, false)
            }
        } else if value < node.value {
            let left_opt = node.remove_child(Direction::Left);
            match left_opt {
                Some(mut lc) => {
                    proof {
                        lemma_opt_specs(child_of(**old(node), Direction::Left));
                        assert((*lc).height() < (**old(node)).height());
                    }
                        let dr = Self::recursive_delete(&mut lc, value);
                    node.set_child_or_leaf(Direction::Left, Some(lc));
                    proof {
                        assert(with_child(**node, Direction::Left, child_of(**old(node),
                        Direction::Left)) == **old(node));
                    }
                    let r2 = Self::handle_delete_return(
                        node,
                        Direction::Left,
                        dr,
                        Ghost(child_of(**old(node), Direction::Left)),
                        Ghost(value),
                    );
                    proof {
                        if r2 is NotFound {
                            assert(!mset_of((**old(node)).left).contains(value));
                            if mset_of((**old(node)).right).contains(value) {
                                assert(value >= (**old(node)).value);
                            }
                            assert(!(**old(node)).mset().contains(value));
                        }
                    }
                    r2
                },
                None => {
                    proof {
                        assert(**node == **old(node));
                        if mset_of((**old(node)).right).contains(value) {
                            assert(value >= (**old(node)).value);
                        }
                        assert(!(**old(node)).mset().contains(value));
                    }
                    DeleteReturn::NotFound
                },
            }
        } else {
            let right_opt = node.remove_child(Direction::Right);
            match right_opt {
                Some(mut rc) => {
                    proof {
                        lemma_opt_specs(child_of(**old(node), Direction::Right));
                        assert((*rc).height() < (**old(node)).height());
                    }
                        let dr = Self::recursive_delete(&mut rc, value);
                    node.set_child_or_leaf(Direction::Right, Some(rc));
                    proof {
                        assert(with_child(**node, Direction::Right, child_of(**old(node),
                        Direction::Right)) == **old(node));
                    }
                    let r2 = Self::handle_delete_return(
                        node,
                        Direction::Right,
                        dr,
                        Ghost(child_of(**old(node), Direction::Right)),
                        Ghost(value),
                    );
                    proof {
                        if r2 is NotFound {
                            assert(!mset_of((**old(node)).right).contains(value));
                            if mset_of((**old(node)).left).contains(value) {
                                assert(value <= (**old(node)).value);
                            }
                            assert(!(**old(node)).mset().contains(value));
                        }
                    }
                    r2
                },
                None => {
                    proof {
                        assert(**node == **old(node));
                        if mset_of((**old(node)).left).contains(value) {
                            assert(value <= (**old(node)).value);
                        }
                        assert(!(**old(node)).mset().contains(value));
                    }
                    DeleteReturn::NotFound
                },
            }
        }
    }

    /// Remove one copy of `value` from the tree, and say whether it was
    /// there. An absent key leaves the tree untouched. Whatever signal
    /// reaches the root, the root ends up black; if the repair propagates
    /// out of the root, the tree's overall black height simply shrinks by
    /// one.
    pub fn delete(&mut self, value: i64) -> (found: bool)
        requires
            old(self).inv(),
        ensures
            final(self).inv(),
            found == old(self)@.contains(value),
            final(self)@ == (if old(self)@.contains(value) {
                old(self)@.remove(value)
            } else {
                old(self)@
            }),
            !old(self)@.contains(value) ==> *final(self) == *old(self),
    {
        let root_opt = self.root.take();
        match root_opt {
            None => {
                proof {
                    assert(!old(self)@.contains(value));
                    assert(self@ =~= old(self)@);
                }
                false
            },
            Some(mut root) => {
                proof {
                    lemma_opt_specs(old(self).root);
                }
                let state = Self::recursive_delete(&mut root, value);
                proof {
                    lemma_opt_specs(Some(root));
                }
                match state {
                    DeleteReturn::Done => {
                        self.root = Some(root);
                        proof {
                            lemma_opt_specs(self.root);
                        }
                        true
                    },
                    DeleteReturn::Continue => {
                        self.root = Some(root);
                        proof {
                            lemma_opt_specs(self.root);
                        }
                        true
                    },
                    DeleteReturn::NotFound => {
                        self.root = Some(root);
                        proof {
                            lemma_opt_specs(self.root);
                            assert(*self == *old(self));
                        }
                        false
                    },
                    DeleteReturn::Delete(replacement, _) => {
                        match replacement {
                            Some(rb) => {
                                let mut rn = *rb;
                                rn.color = Color::Black;
                                proof {
                                    lemma_recolor(*rb, rn);
                                    lemma_node_specs(rn);
                                }
                                self.root = Some(Box::new(rn));
                                proof {
                                    lemma_opt_specs(self.root);
                                    assert(self@ =~= old(self)@.remove(value));
                                }
                            },
                            None => {
                                self.root = None;
                                proof {
                                    assert(self@ =~= old(self)@.remove(value));
                                }
                            },
                        }
                        true
                    },
                    DeleteReturn::Rotate(rotation_type) => {
                        let fixed = finish_delete_rotation(*root, rotation_type);
                        self.root = Some(Box::new(fixed));
                        proof {
                            lemma_opt_specs(self.root);
                        }
                        true
                    },
                    DeleteReturn::Case3(direction) => {
                        let fixed = Self::case3(*root, direction);
                        self.root = Some(Box::new(fixed));
                        proof {
                            lemma_opt_specs(self.root);
                        }
                        true
                    },
                }
            },
        }
    }
}

/// The number of keys in an optional subtree, counted recursively.
fn subtree_size(n: &Option<Box<Node>>) -> (s: usize)
    requires
        mset_of(*n).len() <= usize::MAX,
    ensures
        s == mset_of(*n).len(),
    decreases height_of(*n),
{
    proof {
        crate::tree::laws::lemma_size_len(*n);
    }
    match n {
        None => 0,
        Some(b) => {
            proof {
                lemma_opt_specs(*n);
                lemma_node_specs(**b);
                crate::tree::laws::lemma_size_len((**b).left);
                crate::tree::laws::lemma_size_len((**b).right);
            }
            let ls = subtree_size(&b.left);
            let rs = subtree_size(&b.right);
            ls + rs + 1
        },
    }
}

/// Whether no red node of the subtree has a red child, checked recursively.
fn check_red(n: &Option<Box<Node>>) -> (b: bool)
    ensures
        b == no_red_red(*n),
    decreases height_of(*n),
{
    match n {
        None => true,
        Some(node) => {
            proof {
                lemma_opt_specs(*n);
                lemma_node_specs(**node);
            }
            let here = if !node.is_black() {
                get_color(node.left.as_ref()) == Color::Black && get_color(node.right.as_ref())
                    == Color::Black
            } else {
                true
            };
            here && check_red(&node.left) && check_red(&node.right)
        },
    }
}

/// The black height of the subtree if all its paths agree, `None` if they
/// do not.
fn check_black(n: &Option<Box<Node>>) -> (r: Option<u64>)
    requires
        mset_of(*n).len() < u64::MAX,
    ensures
        (r is Some <==> balanced(*n)),
        (balanced(*n) ==> r == Some(black_height(*n) as u64)),
    decreases height_of(*n),
{
    proof {
        crate::tree::laws::lemma_size_len(*n);
        crate::tree::laws::lemma_bh_le_size(*n);
    }
    match n {
        None => Some(0),
        Some(node) => {
            proof {
                lemma_opt_specs(*n);
                lemma_node_specs(**node);
                crate::tree::laws::lemma_size_len((**node).left);
                crate::tree::laws::lemma_size_len((**node).right);
                crate::tree::laws::lemma_bh_le_size((**node).left);
                crate::tree::laws::lemma_bh_le_size((**node).right);
            }
            let lh = check_black(&node.left);
            let rh = check_black(&node.right);
            match (lh, rh) {
                (Some(a), Some(b)) => {
                    if a == b {
                        if node.is_black() {
                            Some(a + 1)
                        } else {
                            Some(a)
                        }
                    } else {
                        None
                    }
                },
                _ => None,
            }
        },
    }
}

impl RBTree {
    /// The number of keys stored in the tree.
    pub fn size(&self) -> (n: usize)
        requires
            self@.len() <= usize::MAX,
        ensures
            n == self@.len(),
    {
        subtree_size(&self.root)
    }

    /// Runtime check of the no-red-red invariant, by full-tree traversal.
    /// Always true for a tree built through this interface.
    pub fn no_red_violations(&self) -> (b: bool)
        ensures
            b == no_red_red(self.root),
    {
        check_red(&self.root)
    }

    /// Runtime check of the equal-black-heights invariant, by recursive
    /// black-height computation that compares the two sides at every node.
    /// Always true for a tree built through this interface.
    pub fn no_black_violations(&self) -> (b: bool)
        requires
            self@.len() < u64::MAX,
        ensures
            b == balanced(self.root),
    {
        check_black(&self.root).is_some()
    }

    /// Whether the root is black; an empty tree counts as black-rooted.
    /// Always true for a tree built through this interface.
    pub fn root_is_black(&self) -> (b: bool)
        ensures
            b == (color_of(self.root) is Black),
    {
        match &self.root {
            Some(node) => node.is_black(),
            None => true,
        }
    }

    /// Consume the tree and produce its keys in ascending order.
    pub fn into_iter(self) -> (it: crate::tree::iter::IntoIter)
        ensures
            it.remaining() == seq_of(self.root),
            it.remaining().to_multiset() == self@,
            (ordered(self.root) ==> sorted(it.remaining())),
    {
        proof {
            crate::tree::laws::lemma_seq_mset(self.root);
            if ordered(self.root) {
                crate::tree::laws::lemma_ordered_sorted(self.root);
            }
        }
        crate::tree::iter::IntoIter::new(self)
    }
}

} // verus!
