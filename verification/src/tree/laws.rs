//! The laws the tree obeys, stated over its abstract views and proved once
//! and for all: what in-order traversal yields, how the key count moves
//! under insertion and deletion, and which structural invariants every
//! well-formed tree carries.

use vstd::multiset::Multiset;
use vstd::prelude::*;

use crate::tree::node::{
    balanced, black_height, color_of, lemma_node_specs, lemma_opt_specs, mset_of, no_red_red,
    ordered, seq_of, size_of, sorted, Node,
};
use crate::tree::RBTree;

verus! {

/// The in-order sequence of a subtree carries exactly its keys.
pub proof fn lemma_seq_mset(n: Option<Box<Node>>)
    ensures
        seq_of(n).to_multiset() == mset_of(n),
    decreases n,
{
    broadcast use vstd::seq_lib::group_to_multiset_ensures;

    match n {
        None => {
            assert(seq_of(n).to_multiset() =~= mset_of(n)) by {
                vstd::multiset::lemma_multiset_empty_len(seq_of(n).to_multiset());
            }
        },
        Some(b) => {
            lemma_opt_specs(n);
            lemma_node_specs(*b);
            lemma_seq_mset(b.left);
            lemma_seq_mset(b.right);
            vstd::seq_lib::lemma_multiset_commutative(
                seq_of(b.left).push(b.value),
                seq_of(b.right),
            );
            assert(seq_of(b.left).push(b.value).to_multiset() =~= seq_of(b.left).to_multiset()
                .insert(b.value));
            assert(seq_of(n).to_multiset() =~= mset_of(n));
        },
    }
}

/// Law: in-order traversal of a search-ordered tree yields its keys in
/// non-decreasing order — strictly ascending apart from keys that were
/// stored more than once.
pub proof fn lemma_ordered_sorted(n: Option<Box<Node>>)
    requires
        ordered(n),
    ensures
        sorted(seq_of(n)),
    decreases n,
{
    broadcast use vstd::seq_lib::group_to_multiset_ensures;

    match n {
        None => {},
        Some(b) => {
            lemma_opt_specs(n);
            lemma_node_specs(*b);
            lemma_ordered_sorted(b.left);
            lemma_ordered_sorted(b.right);
            lemma_seq_mset(b.left);
            lemma_seq_mset(b.right);
            let ls = seq_of(b.left);
            let rs = seq_of(b.right);
            let s = seq_of(n);
            assert(s == ls.push(b.value) + rs);
            assert forall|i: int| 0 <= i < s.len() implies (if i < ls.len() {
                s[i] == ls[i]
            } else if i == ls.len() {
                s[i] == b.value
            } else {
                s[i] == rs[i - ls.len() - 1]
            }) by {}
            assert forall|i: int| 0 <= i < ls.len() implies ls[i] <= b.value by {
                assert(ls.contains(ls[i]));
                assert(mset_of(b.left).contains(ls[i]));
            }
            assert forall|i: int| 0 <= i < rs.len() implies rs[i] >= b.value by {
                assert(rs.contains(rs[i]));
                assert(mset_of(b.right).contains(rs[i]));
            }
            assert forall|i: int, j: int| 0 <= i <= j < s.len() implies s[i] <= s[j] by {}
        },
    }
}

/// Law: a repeated key in the in-order output always reflects a key that is
/// stored more than once — traversal never invents duplicates.
pub proof fn lemma_duplicates_counted(t: RBTree, i: int, j: int)
    requires
        t.inv(),
        0 <= i < j < seq_of(t.root).len(),
        seq_of(t.root)[i] == seq_of(t.root)[j],
    ensures
        t@.count(seq_of(t.root)[i]) >= 2,
{
    broadcast use vstd::seq_lib::group_to_multiset_ensures;

    lemma_seq_mset(t.root);
    let s = seq_of(t.root);
    let v = s[i];
    assert(s.remove(j).to_multiset() =~= s.to_multiset().remove(v));
    assert(s.remove(j)[i] == v);
    assert(s.remove(j).contains(v));
    assert(s.remove(j).to_multiset().count(v) > 0);
}

/// A subtree holds as many keys as it has nodes.
pub proof fn lemma_size_len(n: Option<Box<Node>>)
    ensures
        mset_of(n).len() == size_of(n),
    decreases n,
{
    match n {
        None => {},
        Some(b) => {
            lemma_opt_specs(n);
            lemma_node_specs(*b);
            lemma_size_len(b.left);
            lemma_size_len(b.right);
        },
    }
}

/// The black height of a subtree never exceeds its node count.
pub proof fn lemma_bh_le_size(n: Option<Box<Node>>)
    ensures
        black_height(n) <= size_of(n),
    decreases n,
{
    match n {
        None => {},
        Some(b) => {
            lemma_opt_specs(n);
            lemma_node_specs(*b);
            lemma_bh_le_size(b.left);
        },
    }
}

/// Law: every well-formed tree satisfies the four red-black invariants —
/// search order, no red node with a red child, equal black counts on every
/// root-to-missing-child path, and a black root.
pub proof fn lemma_valid_tree_invariants(t: RBTree)
    requires
        t.inv(),
    ensures
        ordered(t.root),
        no_red_red(t.root),
        balanced(t.root),
        color_of(t.root) is Black,
{
}

/// Law: for a well-formed tree, in-order traversal yields a sorted sequence
/// holding exactly the stored keys.
pub proof fn lemma_inorder_ascending(t: RBTree)
    requires
        t.inv(),
    ensures
        sorted(seq_of(t.root)),
        seq_of(t.root).to_multiset() == t@,
{
    lemma_ordered_sorted(t.root);
    lemma_seq_mset(t.root);
}

/// Law: inserting a key grows the key count by exactly one; together with
/// `lemma_remove_count` this pins the tree's size to the number of
/// insertions minus the number of successful deletions.
pub proof fn lemma_insert_count(m: Multiset<i64>, v: i64)
    ensures
        m.insert(v).len() == m.len() + 1,
        m.insert(v).contains(v),
{
}

/// Law: a successful deletion shrinks the key count by exactly one, and
/// deleting an absent key changes nothing.
pub proof fn lemma_remove_count(m: Multiset<i64>, v: i64)
    ensures
        m.contains(v) ==> m.remove(v).len() + 1 == m.len(),
        !m.contains(v) ==> m.remove(v) == m,
{
    if m.contains(v) {
        assert(m.remove(v).insert(v) =~= m);
        lemma_insert_count(m.remove(v), v);
    } else {
        assert(m.remove(v) =~= m);
    }
}

/// Law: deleting a key right after inserting it restores the key multiset —
/// the round trip leaves the tree's contents as they were.
pub proof fn lemma_insert_then_remove(m: Multiset<i64>, v: i64)
    ensures
        m.insert(v).remove(v) == m,
        m.insert(v).contains(v),
{
    assert(m.insert(v).remove(v) =~= m);
}

/// Law: the tree's view is empty exactly when the tree itself is: emptying
/// a tree by deletions brings it back to `is_empty`.
pub proof fn lemma_empty_tree(t: RBTree)
    ensures
        (t@.len() == 0) <==> (t.root is None),
{
    match t.root {
        None => {},
        Some(b) => {
            lemma_opt_specs(t.root);
            lemma_node_specs(*b);
            assert(t@.contains(b.value));
            assert(t@.count(b.value) <= t@.len()) by {
                vstd::multiset::axiom_count_le_len(t@, b.value);
            }
        },
    }
}

} // verus!
