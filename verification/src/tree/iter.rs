use vstd::prelude::*;

use crate::tree::node::{lemma_node_specs, lemma_opt_specs, seq_of, Node};
use crate::tree::RBTree;

verus! {

/// One entry of the iterator's work stack: either a key ready to be
/// produced, or a subtree still to be decomposed.
enum IterTask {
    Value(i64),
    Node(Box<Node>),
}

/// A consuming in-order iterator over a tree's keys, driven by an explicit
/// work stack instead of recursion: popping an entry either yields a key or
/// expands a subtree into "left subtree, then its key, then right subtree",
/// pushed in reverse.
pub struct IntoIter {
    tasks: Vec<IterTask>,
}

/// The keys one stack entry still stands for, in the order they will come
/// out.
spec fn task_out(t: IterTask) -> Seq<i64> {
    match t {
        IterTask::Value(v) => seq![v],
        IterTask::Node(n) => (*n).inorder(),
    }
}

/// The keys a whole stack still stands for: entries are popped from the
/// end, so the last entry's keys come first.
spec fn tasks_out(ts: Seq<IterTask>) -> Seq<i64>
    decreases ts.len(),
{
    if ts.len() == 0 {
        Seq::empty()
    } else {
        task_out(ts.last()) + tasks_out(ts.drop_last())
    }
}

/// A termination measure for the stack: expanding a subtree always shrinks
/// it.
spec fn task_weight(t: IterTask) -> nat {
    match t {
        IterTask::Value(_) => 1nat,
        IterTask::Node(n) => 3 * (*n).size(),
    }
}

/// The termination measure of a whole stack.
spec fn tasks_weight(ts: Seq<IterTask>) -> nat
    decreases ts.len(),
{
    if ts.len() == 0 {
        0nat
    } else {
        task_weight(ts.last()) + tasks_weight(ts.drop_last())
    }
}

/// Pushing one entry prepends its keys to the stack's output and adds its
/// weight.
proof fn lemma_tasks_push(ts: Seq<IterTask>, t: IterTask)
    ensures
        tasks_out(ts.push(t)) == task_out(t) + tasks_out(ts),
        tasks_weight(ts.push(t)) == task_weight(t) + tasks_weight(ts),
{
    assert(ts.push(t).drop_last() =~= ts);
    assert(ts.push(t).last() == t);
}

/// Decompose one subtree onto the stack: its right subtree deepest, then
/// its key, then its left subtree on top, so that popping yields ascending
/// order.
fn add_tasks(tasks: &mut Vec<IterTask>, node: Box<Node>)
    ensures
        tasks_out(final(tasks)@) == (*node).inorder() + tasks_out(old(tasks)@),
        tasks_weight(final(tasks)@) < tasks_weight(old(tasks)@) + task_weight(
            IterTask::Node(node),
        ),
{
    proof {
        lemma_node_specs(*node);
    }
    let n = *node;
    let Node { left, right, value, color: _ } = n;
    let ghost lg = left;
    let ghost rg = right;
    let ghost t0 = tasks@;
    match right {
        Some(r) => tasks.push(IterTask::Node(r)),
        None => {},
    }
    let ghost t1 = tasks@;
    tasks.push(IterTask::Value(value));
    let ghost t2 = tasks@;
    match left {
        Some(l) => tasks.push(IterTask::Node(l)),
        None => {},
    }
    proof {
        if rg is Some {
            lemma_tasks_push(t0, IterTask::Node(rg.unwrap()));
            lemma_opt_specs(rg);
        }
        lemma_tasks_push(t1, IterTask::Value(value));
        if lg is Some {
            lemma_tasks_push(t2, IterTask::Node(lg.unwrap()));
            lemma_opt_specs(lg);
        }
        assert(tasks_out(tasks@) =~= (*node).inorder() + tasks_out(t0));
    }
}

impl IntoIter {
    /// The keys still to be produced, in the order they will come out.
    pub closed spec fn remaining(self) -> Seq<i64> {
        tasks_out(self.tasks@)
    }

    /// Seed the stack with the whole tree, consuming it.
    pub fn new(tree: RBTree) -> (it: IntoIter)
        ensures
            it.remaining() == seq_of(tree.root),
    {
        let mut tasks: Vec<IterTask> = Vec::new();
        match tree.root {
            Some(root_node) => {
                proof {
                    lemma_opt_specs(tree.root);
                }
                add_tasks(&mut tasks, root_node);
                proof {
                    assert(tasks_out(tasks@) =~= seq_of(tree.root));
                }
            },
            None => {},
        }
        IntoIter { tasks }
    }

    /// The next key in order, or `None` once the tree is exhausted.
    pub fn next(&mut self) -> (r: Option<i64>)
        ensures
            (r matches Some(v) ==> old(self).remaining() == seq![v] + final(self).remaining()),
            (r is None ==> old(self).remaining().len() == 0 && final(self).remaining().len()
                == 0),
    {
        loop
            invariant
                tasks_out(self.tasks@) == tasks_out(old(self).tasks@),
            decreases tasks_weight(self.tasks@),
        {
            let ghost tprev = self.tasks@;
            let popped = self.tasks.pop();
            match popped {
                Some(task) => {
                    proof {
                        assert(tprev.drop_last() =~= self.tasks@);
                    }
                    match task {
                        IterTask::Value(v) => {
                            return Some(v);
                        },
                        IterTask::Node(nb) => {
                            add_tasks(&mut self.tasks, nb);
                            proof {
                                assert(tasks_out(self.tasks@) =~= tasks_out(tprev));
                            }
                        },
                    }
                },
                None => {
                    return None;
                },
            }
        }
    }
}

} // verus!
