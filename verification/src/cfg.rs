//! The whole program and its control-flow edges, in both directions.

use vstd::prelude::*;
use std::collections::HashMap;
use crate::block::{Block, CFTransfer};
use crate::index::Label;

verus! {

broadcast use vstd::std_specs::hash::group_hash_axioms;

/// Where a block's terminator leads.
#[derive(Debug, Clone, Copy, PartialEq, Eq, Structural)]
pub enum ForwardEdge {
    /// A return: the target is the caller's.
    Dynamic,
    Direct(Label),
    Conditional { target_if_true: Label, target_if_false: Label },
}

#[derive(Debug, Clone, PartialEq, Eq)]
pub struct IR {
    pub blocks: Vec<Block>,
    /// From a block's label, by index, to where it leads.
    pub forwards_branching_map: HashMap<usize, ForwardEdge>,
    /// From a block's label, by index, to the blocks that lead to it.
    pub backwards_branching_map: HashMap<usize, Vec<Label>>,
}

/// The edge that a terminator contributes.
pub open spec fn edge_of(end: CFTransfer) -> ForwardEdge {
    match end {
        CFTransfer::Return(_) => ForwardEdge::Dynamic,
        CFTransfer::DirectBranch { target, .. } => ForwardEdge::Direct(target),
        CFTransfer::ConditionalBranch { target_if_true, target_if_false, .. } => {
            ForwardEdge::Conditional { target_if_true, target_if_false }
        },
    }
}

/// The edge leads to `label`.
pub open spec fn targets(edge: ForwardEdge, label: Label) -> bool {
    match edge {
        ForwardEdge::Dynamic => false,
        ForwardEdge::Direct(target) => target == label,
        ForwardEdge::Conditional { target_if_true, target_if_false } => target_if_true == label
            || target_if_false == label,
    }
}

/// The blocks below `k` that lead to `label`, each once, in increasing order.
pub open spec fn predecessors_below(blocks: Seq<Block>, label: Label, k: int) -> Seq<Label>
    decreases k,
{
    if k <= 0 {
        Seq::empty()
    } else if targets(edge_of(blocks[k - 1].end), label) {
        predecessors_below(blocks, label, k - 1).push(Label((k - 1) as usize))
    } else {
        predecessors_below(blocks, label, k - 1)
    }
}

/// A block is listed among the predecessors of `label` exactly if its
/// terminator leads to `label`.
pub proof fn lemma_predecessors_iff_targets(blocks: Seq<Block>, label: Label, k: int, p: Label)
    requires
        0 <= k <= blocks.len(),
        k <= usize::MAX,
    ensures
        predecessors_below(blocks, label, k).contains(p) <==> (p.0 < k && targets(
            edge_of(blocks[p.0 as int].end),
            label,
        )),
    decreases k,
{
    if k > 0 {
        lemma_predecessors_iff_targets(blocks, label, k - 1, p);
        let prev = predecessors_below(blocks, label, k - 1);
        let last = Label((k - 1) as usize);
        if targets(edge_of(blocks[k - 1].end), label) {
            if prev.push(last).contains(p) {
                let j = choose|j: int| 0 <= j < prev.push(last).len() && prev.push(last)[j] == p;
                if j < prev.len() {
                    assert(prev[j] == p);
                    assert(prev.contains(p));
                }
            }
            if p.0 < k && targets(edge_of(blocks[p.0 as int].end), label) {
                if p.0 == k - 1 {
                    assert(prev.push(last)[prev.len() as int] == p);
                } else {
                    assert(prev.contains(p));
                    let j = choose|j: int| 0 <= j < prev.len() && prev[j] == p;
                    assert(prev.push(last)[j] == p);
                }
            }
        }
    }
}

impl IR {
    /// The forward map holds every block's edge.
    pub open spec fn forwards_exact(&self) -> bool {
        &&& forall|k: usize|
            self.forwards_branching_map@.contains_key(k) <==> k < self.blocks@.len()
        &&& forall|k: usize|
            k < self.blocks@.len() ==> #[trigger] self.forwards_branching_map@[k] == edge_of(
                self.blocks@[k as int].end,
            )
    }

    /// The backward map holds, for every block that has predecessors, all of
    /// them; it holds no other key.
    pub open spec fn backwards_exact(&self) -> bool {
        &&& forall|l: usize|
            self.backwards_branching_map@.contains_key(l) <==> predecessors_below(
                self.blocks@,
                Label(l),
                self.blocks@.len() as int,
            ).len() > 0
        &&& forall|l: usize|
            self.backwards_branching_map@.contains_key(l)
                ==> (#[trigger] self.backwards_branching_map@[l])@ == predecessors_below(
                self.blocks@,
                Label(l),
                self.blocks@.len() as int,
            )
    }

    /// The block `p` is recorded as a predecessor of the block `l`.
    pub open spec fn has_predecessor(&self, l: usize, p: usize) -> bool {
        self.backwards_branching_map@.contains_key(l) && self.backwards_branching_map@[l]@.contains(
            Label(p),
        )
    }

    /// The block `p` has a forward edge that leads to the block `l`.
    pub open spec fn has_successor(&self, p: usize, l: usize) -> bool {
        self.forwards_branching_map@.contains_key(p) && targets(
            self.forwards_branching_map@[p],
            Label(l),
        )
    }

    /// In a program whose two maps are exact, the backward map is the inverse
    /// of the forward map.
    pub proof fn lemma_bidirectional(&self, l: usize, p: usize)
        requires
            self.forwards_exact(),
            self.backwards_exact(),
        ensures
            self.has_predecessor(l, p) <==> self.has_successor(p, l),
    {
        let n = self.blocks@.len() as int;
        assert(self.blocks@.len() == self.blocks.len());
        lemma_predecessors_iff_targets(self.blocks@, Label(l), n, Label(p));
        let preds = predecessors_below(self.blocks@, Label(l), n);
        if self.has_successor(p, l) {
            assert(preds.contains(Label(p)));
            assert(preds.len() > 0);
        }
    }

    /// Assembles the program: every block's forward edge, and for every block
    /// the set of blocks that lead to it.
    pub fn from_blocks(blocks: Vec<Block>) -> (ir: IR)
        ensures
            ir.blocks == blocks,
            ir.forwards_exact(),
            ir.backwards_exact(),
            forall|l: usize, p: usize| ir.has_predecessor(l, p) <==> ir.has_successor(p, l),
    {
        let n: usize = blocks.len();
        let mut forwards: HashMap<usize, ForwardEdge> = HashMap::new();
        let mut backwards: HashMap<usize, Vec<Label>> = HashMap::new();
        let mut i: usize = 0;
        while i < n
            invariant
                i <= n,
                n == blocks.len(),
                forall|k: usize| forwards@.contains_key(k) <==> k < i,
                forall|k: usize| k < i ==> #[trigger] forwards@[k] == edge_of(blocks@[k as int].end),
                forall|l: usize|
                    backwards@.contains_key(l) <==> predecessors_below(
                        blocks@,
                        Label(l),
                        i as int,
                    ).len() > 0,
                forall|l: usize|
                    backwards@.contains_key(l) ==> (#[trigger] backwards@[l])@
                        == predecessors_below(blocks@, Label(l), i as int),
            decreases n - i,
        {
            let source = Label(i);
            match &blocks[i].end {
                CFTransfer::Return(_) => {
                    forwards.insert(i, ForwardEdge::Dynamic);
                },
                CFTransfer::DirectBranch { target, .. } => {
                    add_predecessor(&mut backwards, target.0, source);
                    forwards.insert(i, ForwardEdge::Direct(*target));
                },
                CFTransfer::ConditionalBranch { target_if_true, target_if_false, .. } => {
                    add_predecessor(&mut backwards, target_if_true.0, source);
                    if target_if_false.0 != target_if_true.0 {
                        add_predecessor(&mut backwards, target_if_false.0, source);
                    }
                    forwards.insert(
                        i,
                        ForwardEdge::Conditional {
                            target_if_true: *target_if_true,
                            target_if_false: *target_if_false,
                        },
                    );
                },
            }
            i += 1;
        }
        let ir = IR { blocks, forwards_branching_map: forwards, backwards_branching_map: backwards };
        proof {
            assert forall|l: usize, p: usize| ir.has_predecessor(l, p) <==> ir.has_successor(
                p,
                l,
            ) by {
                ir.lemma_bidirectional(l, p);
            }
        }
        ir
    }
}

/// Records `source` as one more predecessor of `target`.
fn add_predecessor(map: &mut HashMap<usize, Vec<Label>>, target: usize, source: Label)
    ensures
        forall|k: usize| final(map)@.contains_key(k) <==> k == target || old(map)@.contains_key(k),
        final(map)@[target]@ == (if old(map)@.contains_key(target) {
            old(map)@[target]@
        } else {
            Seq::empty()
        }).push(source),
        forall|k: usize|
            k != target && old(map)@.contains_key(k) ==> #[trigger] final(map)@[k] == old(map)@[k],
{
    let mut list: Vec<Label> = match map.remove(&target) {
        Some(list) => list,
        None => Vec::new(),
    };
    list.push(source);
    map.insert(target, list);
}

} // verus!
