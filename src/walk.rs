use vstd::prelude::*;
use vstd::multiset::Multiset;

use crate::octree::{children_of, is_leaf, FmmTree, NodeId, ObjectId};

verus! {

/// The bodies in the run of node `id`.
pub open spec fn run_ms(tree: &FmmTree, id: NodeId) -> Multiset<ObjectId> {
    let n = tree.nodes@[id.0 as int];
    tree.order@.subrange(n.first as int, n.last as int).to_multiset()
}

/// The bodies in the runs of the nodes `s`, counted together.
pub open spec fn runs_ms(tree: &FmmTree, s: Seq<NodeId>) -> Multiset<ObjectId>
    decreases s.len(),
{
    if s.len() == 0 {
        Multiset::empty()
    } else {
        runs_ms(tree, s.drop_last()).add(run_ms(tree, s.last()))
    }
}

pub open spec fn valid_ids(tree: &FmmTree, s: Seq<NodeId>) -> bool {
    forall|k: int| 0 <= k < s.len() ==> (#[trigger] s[k]).0 < tree.nodes@.len()
}

proof fn lemma_runs_ms_append(tree: &FmmTree, a: Seq<NodeId>, b: Seq<NodeId>)
    ensures
        runs_ms(tree, a + b) == runs_ms(tree, a).add(runs_ms(tree, b)),
    decreases b.len(),
{
    if b.len() == 0 {
        assert(a + b =~= a);
        assert(runs_ms(tree, b) =~= Multiset::empty());
        assert(runs_ms(tree, a).add(Multiset::empty()) =~= runs_ms(tree, a));
    } else {
        let b1 = b.drop_last();
        lemma_runs_ms_append(tree, a, b1);
        assert((a + b).drop_last() =~= a + b1);
        assert((a + b).last() == b.last());
        assert(runs_ms(tree, a + b) =~= runs_ms(tree, a).add(runs_ms(tree, b)));
    }
}

/// The runs of the first `k` children of internal node `i` together make up
/// the start of its run, up to where child `k - 1` ends.
proof fn lemma_children_runs_prefix(tree: &FmmTree, i: int, k: int)
    requires
        tree.shape_wf(),
        0 <= i < tree.nodes@.len(),
        !is_leaf(tree.nodes@[i]),
        1 <= k <= children_of(tree.nodes@[i]).len(),
    ensures
        runs_ms(tree, children_of(tree.nodes@[i]).subrange(0, k)) == tree.order@.subrange(
            tree.nodes@[i].first as int,
            tree.nodes@[children_of(tree.nodes@[i])[k - 1].0 as int].last as int,
        ).to_multiset(),
        tree.nodes@[children_of(tree.nodes@[i])[k - 1].0 as int].last <= tree.nodes@[i].last,
        tree.nodes@[i].first < tree.nodes@[children_of(tree.nodes@[i])[k - 1].0 as int].last,
    decreases k,
{
    let n = tree.nodes@[i];
    let ch = children_of(n);
    assert(tree.node_shape(i));
    let c = ch[k - 1].0 as int;
    assert(i < ch[k - 1].0 < tree.nodes@.len());
    assert(tree.node_shape(c));
    let s = ch.subrange(0, k);
    assert(s.drop_last() =~= ch.subrange(0, k - 1));
    assert(s.last() == ch[k - 1]);
    if k == 1 {
        assert(ch.subrange(0, 0) =~= Seq::<NodeId>::empty());
        assert(runs_ms(tree, ch.subrange(0, 0)) =~= Multiset::empty());
        assert(Multiset::<ObjectId>::empty().add(run_ms(tree, ch[0])) =~= run_ms(tree, ch[0]));
        if ch.len() == 1 {
        } else {
            lemma_children_runs_suffix_bound(tree, i, 1);
        }
    } else {
        lemma_children_runs_prefix(tree, i, k - 1);
        let p = ch[k - 2].0 as int;
        assert(tree.nodes@[ch[k - 2].0 as int].last == tree.nodes@[ch[k - 1].0 as int].first);
        let lo = n.first as int;
        let mid = tree.nodes@[p].last as int;
        let hi = tree.nodes@[c].last as int;
        if k < ch.len() {
            lemma_children_runs_suffix_bound(tree, i, k);
        }
        assert(tree.order@.subrange(lo, hi) =~= tree.order@.subrange(lo, mid) + tree.order@.subrange(mid, hi));
        vstd::seq_lib::lemma_multiset_commutative(tree.order@.subrange(lo, mid), tree.order@.subrange(mid, hi));
        if k < ch.len() {
            lemma_children_runs_suffix_bound(tree, i, k);
        }
    }
}

/// A child that is not the last ends no later than its parent.
proof fn lemma_children_runs_suffix_bound(tree: &FmmTree, i: int, k: int)
    requires
        tree.shape_wf(),
        0 <= i < tree.nodes@.len(),
        !is_leaf(tree.nodes@[i]),
        0 <= k < children_of(tree.nodes@[i]).len(),
    ensures
        tree.nodes@[children_of(tree.nodes@[i])[k].0 as int].first <= tree.nodes@[i].last,
        k > 0 ==> tree.nodes@[children_of(tree.nodes@[i])[k - 1].0 as int].last <= tree.nodes@[i].last,
    decreases children_of(tree.nodes@[i]).len() - k,
{
    let ch = children_of(tree.nodes@[i]);
    assert(tree.node_shape(i));
    assert(i < ch[k].0 < tree.nodes@.len());
    assert(tree.node_shape(ch[k].0 as int));
    if k + 1 < ch.len() {
        lemma_children_runs_suffix_bound(tree, i, k + 1);
    }
}

/// The runs of an internal node's children together are the node's run.
proof fn lemma_children_runs(tree: &FmmTree, i: int)
    requires
        tree.shape_wf(),
        0 <= i < tree.nodes@.len(),
        !is_leaf(tree.nodes@[i]),
    ensures
        runs_ms(tree, children_of(tree.nodes@[i])) == run_ms(tree, NodeId(i as usize)),
{
    let ch = children_of(tree.nodes@[i]);
    assert(tree.node_shape(i));
    lemma_children_runs_prefix(tree, i, ch.len() as int);
    assert(ch.subrange(0, ch.len() as int) =~= ch);
}

/// Depth-first walk over a Barnes-Hut tree for one body. Each node taken off
/// the stack is either accepted as a whole (its aggregate stands for all its
/// bodies) or, if internal, descended into (its children are stacked).
pub struct TreeWalk {
    pub stack: Vec<NodeId>,
    pub current: Option<NodeId>,
    /// The nodes accepted so far.
    pub accepted: Ghost<Seq<NodeId>>,
}

impl TreeWalk {
    /// The bodies still ahead: those of the stacked nodes and of the node in hand.
    pub open spec fn pending(&self, tree: &FmmTree) -> Multiset<ObjectId> {
        let cur = match self.current {
            Some(id) => run_ms(tree, id),
            None => Multiset::empty(),
        };
        runs_ms(tree, self.stack@).add(cur)
    }

    /// Arena index of the node in hand.
    pub open spec fn held(&self) -> int {
        match self.current {
            Some(id) => id.0 as int,
            None => 0,
        }
    }

    /// The walk accounts for every body of `tree` once: each is either ahead
    /// or in exactly one accepted node.
    pub open spec fn inv(&self, tree: &FmmTree) -> bool {
        &&& tree.shape_wf()
        &&& valid_ids(tree, self.stack@)
        &&& valid_ids(tree, self.accepted@)
        &&& (self.current matches Some(id) ==> id.0 < tree.nodes@.len())
        &&& self.pending(tree).add(runs_ms(tree, self.accepted@)) == tree.order@.to_multiset()
    }

    /// A walk that starts at the root; over an empty tree it is already done.
    pub fn new(tree: &FmmTree) -> (w: TreeWalk)
        requires
            tree.shape_wf(),
        ensures
            w.inv(tree),
            w.current is None,
            w.accepted@.len() == 0,
            tree.nodes@.len() > 0 ==> w.stack@ == seq![NodeId(0)],
            tree.nodes@.len() == 0 ==> w.stack@.len() == 0,
    {
        let mut stack: Vec<NodeId> = Vec::new();
        if tree.nodes.len() > 0 {
            stack.push(NodeId(0));
        }
        let w = TreeWalk { stack, current: None, accepted: Ghost(Seq::empty()) };
        proof {
            let e = Multiset::<ObjectId>::empty();
            assert(runs_ms(tree, w.accepted@) =~= e);
            if tree.nodes@.len() > 0 {
                assert(w.stack@.drop_last() =~= Seq::<NodeId>::empty());
                assert(runs_ms(tree, w.stack@.drop_last()) =~= e);
                assert(tree.order@.subrange(0, tree.order@.len() as int) =~= tree.order@);
                assert(e.add(run_ms(tree, NodeId(0))) =~= run_ms(tree, NodeId(0)));
                assert(run_ms(tree, NodeId(0)).add(e) =~= run_ms(tree, NodeId(0)));
                assert(w.pending(tree).add(e) =~= tree.order@.to_multiset());
            } else {
                vstd::seq_lib::to_multiset_len(tree.order@);
                vstd::multiset::lemma_multiset_empty_len(tree.order@.to_multiset());
                assert(runs_ms(tree, w.stack@) =~= e);
                assert(w.pending(tree).add(e) =~= tree.order@.to_multiset());
            }
        }
        w
    }

    /// Takes the top node off the stack and holds it; `None` once the walk is done.
    pub fn next(&mut self, tree: &FmmTree) -> (r: Option<NodeId>)
        requires
            old(self).inv(tree),
            old(self).current is None,
        ensures
            final(self).inv(tree),
            final(self).accepted@ == old(self).accepted@,
            old(self).stack@.len() == 0 ==> r is None && final(self).stack@.len() == 0
                && final(self).current is None,
            old(self).stack@.len() > 0 ==> r == Some(old(self).stack@.last()) && final(self).current == r
                && final(self).stack@ == old(self).stack@.drop_last(),
            r matches Some(id) ==> id.0 < tree.nodes@.len(),
    {
        let r = self.stack.pop();
        self.current = r;
        proof {
            if r is Some {
                assert(runs_ms(tree, self.stack@).add(run_ms(tree, r->0)).add(Multiset::empty())
                    =~= runs_ms(tree, self.stack@).add(run_ms(tree, r->0)));
            }
        }
        r
    }

    /// Counts the node in hand as a whole.
    pub fn accept(&mut self, tree: &FmmTree)
        requires
            old(self).inv(tree),
            old(self).current is Some,
        ensures
            final(self).inv(tree),
            final(self).current is None,
            final(self).stack@ == old(self).stack@,
            final(self).accepted@ == old(self).accepted@.push(old(self).current->0),
    {
        let ghost id = self.current->0;
        let ghost acc0 = self.accepted@;
        self.current = None;
        self.accepted = Ghost(acc0.push(id));
        proof {
            assert(self.accepted@.drop_last() =~= acc0);
            let e = Multiset::<ObjectId>::empty();
            let s = runs_ms(tree, self.stack@);
            assert(s.add(e) =~= s);
            assert(s.add(run_ms(tree, id)).add(runs_ms(tree, acc0)) =~= s.add(runs_ms(tree, acc0).add(run_ms(tree, id))));
        }
    }

    /// Replaces the internal node in hand by its children on the stack.
    pub fn descend(&mut self, tree: &FmmTree)
        requires
            old(self).inv(tree),
            old(self).current matches Some(id) && !is_leaf(tree.nodes@[id.0 as int]),
        ensures
            final(self).inv(tree),
            final(self).current is None,
            final(self).stack@ == old(self).stack@ + children_of(tree.nodes@[old(self).held()]),
            final(self).accepted@ == old(self).accepted@,
    {
        let id = match self.current {
            Some(id) => id,
            None => NodeId(0),
        };
        let ghost stack0 = self.stack@;
        let ghost acc0 = self.accepted@;
        let ghost cur0 = self.current;
        let node = tree.get(id);
        match &node.data {
            crate::octree::NodeData::Internal { children } => {
                let mut k: usize = 0;
                while k < children.len()
                    invariant
                        tree.shape_wf(),
                        id.0 < tree.nodes@.len(),
                        tree.node_shape(id.0 as int),
                        children@ == children_of(tree.nodes@[id.0 as int]),
                        !is_leaf(tree.nodes@[id.0 as int]),
                        k <= children@.len(),
                        self.stack@ == stack0 + children@.subrange(0, k as int),
                        self.accepted@ == acc0,
                        self.current == cur0,
                    decreases children@.len() - k,
                {
                    self.stack.push(children[k]);
                    k = k + 1;
                    proof {
                        assert(self.stack@ =~= stack0 + children@.subrange(0, k as int));
                    }
                }
                proof {
                    assert(children@.subrange(0, children@.len() as int) =~= children@);
                }
            },
            crate::octree::NodeData::External => {},
        }
        self.current = None;
        proof {
            assert(tree.node_shape(id.0 as int));
            let ch = children_of(tree.nodes@[id.0 as int]);
            assert(valid_ids(tree, self.stack@)) by {
                assert forall|k: int| 0 <= k < self.stack@.len() implies (#[trigger] self.stack@[k]).0
                    < tree.nodes@.len() by {
                    if k >= stack0.len() {
                        assert(self.stack@[k] == ch[k - stack0.len()]);
                    } else {
                        assert(self.stack@[k] == stack0[k]);
                    }
                }
            }
            lemma_children_runs(tree, id.0 as int);
            lemma_runs_ms_append(tree, stack0, ch);
            let e = Multiset::<ObjectId>::empty();
            assert(runs_ms(tree, self.stack@).add(e) =~= runs_ms(tree, stack0).add(run_ms(tree, id)));
        }
    }

    /// When the walk is done, the accepted nodes hold every body of the tree
    /// exactly once, whichever nodes were accepted and which descended.
    pub proof fn lemma_done_covers_all(&self, tree: &FmmTree)
        requires
            self.inv(tree),
            self.stack@.len() == 0,
            self.current is None,
        ensures
            runs_ms(tree, self.accepted@) == tree.order@.to_multiset(),
    {
        let e = Multiset::<ObjectId>::empty();
        assert(runs_ms(tree, self.stack@) =~= e);
        assert(e.add(e).add(runs_ms(tree, self.accepted@)) =~= runs_ms(tree, self.accepted@));
    }
}

} // verus!
