//! The drag tree that makes the mass flow behind whoever moves.
//!
//! A breadth-first spanning tree is grown over the connected mass from
//! whoever is moving; one of the deepest tails is chosen at random; and every
//! organelle along that chain shuffles forward into the cell its predecessor
//! just left. The highlight is the union of all deepest chains.

use vstd::prelude::*;

use super::actors::ActorId;

verus! {

/// One node of the drag's spanning tree.
#[derive(Clone, Copy, PartialEq, Eq, Structural, Debug)]
pub(crate) struct Node {
    pub(crate) id: ActorId,
    /// Index into the tree's nodes, or `None` for the mover.
    pub(crate) parent: Option<usize>,
    pub(crate) dist: usize,
}

/// A breadth-first spanning tree of the connected mass, rooted at whoever is
/// about to move.
#[derive(Clone, Debug)]
pub struct SlimeTree {
    pub(crate) root: ActorId,
    pub(crate) version: u64,
    pub(crate) nodes: Vec<Node>,
    pub(crate) max_depth: usize,
}

/// Every node but the first hangs off an earlier node one step nearer the
/// root, and the first is the root itself.
pub(crate) open spec fn tree_ok(nodes: Seq<Node>, max_depth: usize) -> bool {
    &&& nodes.len() > 0
    &&& nodes[0].parent is None
    &&& nodes[0].dist == 0
    &&& forall|i: int|
        0 < i < nodes.len() ==> {
            &&& (#[trigger] nodes[i]).parent is Some
            &&& nodes[i].parent->0 < i
            &&& nodes[i].dist == nodes[nodes[i].parent->0 as int].dist + 1
        }
    &&& forall|i: int| 0 <= i < nodes.len() ==> (#[trigger] nodes[i]).dist <= max_depth && nodes[i].dist <= i
}

/// The chain from the root down to node `i`, root first.
pub(crate) open spec fn chain_spec(nodes: Seq<Node>, i: int) -> Seq<ActorId>
    decreases i,
{
    if 0 < i < nodes.len() {
        match nodes[i].parent {
            Some(p) => if p < i {
                chain_spec(nodes, p as int).push(nodes[i].id)
            } else {
                seq![nodes[i].id]
            },
            None => seq![nodes[i].id],
        }
    } else if i == 0 && nodes.len() > 0 {
        seq![nodes[0].id]
    } else {
        Seq::empty()
    }
}

/// A chain is one longer than its node's depth.
pub(crate) proof fn lemma_chain_len(nodes: Seq<Node>, max_depth: usize, i: int)
    requires
        tree_ok(nodes, max_depth),
        0 <= i < nodes.len(),
    ensures
        chain_spec(nodes, i).len() == nodes[i].dist + 1,
    decreases i,
{
    if i > 0 {
        let p = nodes[i].parent->0;
        lemma_chain_len(nodes, max_depth, p as int);
    }
}

impl SlimeTree {
    /// Indices of every node at the greatest depth reached, in order.
    pub(crate) fn deepest(&self) -> (r: Vec<usize>)
        ensures
            forall|k: int| 0 <= k < r@.len() ==> #[trigger] r@[k] < self.nodes@.len() && self.nodes@[r@[k] as int].dist
                == self.max_depth,
            forall|i: int| 0 <= i < self.nodes@.len() && (#[trigger] self.nodes@[i]).dist == self.max_depth ==> r@.contains(
                i as usize,
            ),
            forall|k: int, l: int| 0 <= k < l < r@.len() ==> (#[trigger] r@[k]) < (#[trigger] r@[l]),
    {
        let mut out: Vec<usize> = Vec::new();
        let mut i: usize = 0;
        while i < self.nodes.len()
            invariant
                i <= self.nodes@.len(),
                forall|k: int| 0 <= k < out@.len() ==> #[trigger] out@[k] < i && self.nodes@[out@[k] as int].dist
                    == self.max_depth,
                forall|j: int| 0 <= j < i && (#[trigger] self.nodes@[j]).dist == self.max_depth ==> out@.contains(
                    j as usize,
                ),
                forall|k: int, l: int| 0 <= k < l < out@.len() ==> (#[trigger] out@[k]) < (#[trigger] out@[l]),
            decreases self.nodes@.len() - i,
        {
            if self.nodes[i].dist == self.max_depth {
                let ghost before = out@;
                out.push(i);
                proof {
                    assert forall|j: int| 0 <= j < i + 1 && (#[trigger] self.nodes@[j]).dist == self.max_depth implies out@.contains(
                        j as usize,
                    ) by {
                        if j == i {
                            assert(out@[out@.len() - 1] == i);
                        } else {
                            let k = choose|k: int| 0 <= k < before.len() && before[k] == j as usize;
                            assert(out@[k] == j as usize);
                        }
                    }
                }
            }
            i = i + 1;
        }
        out
    }

    /// The chain from the mover down to node `index`, mover first.
    pub(crate) fn chain(&self, index: usize) -> (r: Vec<ActorId>)
        requires
            tree_ok(self.nodes@, self.max_depth),
            index < self.nodes@.len(),
        ensures
            r@ == chain_spec(self.nodes@, index as int),
    {
        let mut rev: Vec<ActorId> = Vec::new();
        let mut at: usize = index;
        let mut done = false;
        while !done
            invariant
                tree_ok(self.nodes@, self.max_depth),
                at < self.nodes@.len(),
                !done ==> chain_spec(self.nodes@, index as int) == chain_spec(self.nodes@, at as int) + rev@.reverse(),
                done ==> chain_spec(self.nodes@, index as int) == rev@.reverse(),
            decreases at, (if done { 0nat } else { 1nat }),
        {
            let node = self.nodes[at];
            let ghost before = rev@;
            rev.push(node.id);
            proof {
                assert(rev@.reverse() =~= seq![node.id] + before.reverse());
            }
            match node.parent {
                Some(p) => {
                    proof {
                        assert(at > 0);
                        assert(chain_spec(self.nodes@, at as int) == chain_spec(self.nodes@, p as int).push(node.id));
                        assert(chain_spec(self.nodes@, p as int).push(node.id) + before.reverse() =~= chain_spec(
                            self.nodes@,
                            p as int,
                        ) + rev@.reverse());
                    }
                    at = p;
                },
                None => {
                    proof {
                        assert(at == 0);
                        assert(chain_spec(self.nodes@, at as int) =~= seq![node.id]);
                    }
                    done = true;
                },
            }
        }
        let mut out: Vec<ActorId> = Vec::new();
        let mut k: usize = rev.len();
        while k > 0
            invariant
                k <= rev@.len(),
                out@ == rev@.reverse().subrange(0, rev@.len() - k),
            decreases k,
        {
            k = k - 1;
            out.push(rev[k]);
            proof {
                assert(out@ =~= rev@.reverse().subrange(0, rev@.len() - k));
            }
        }
        proof {
            assert(rev@.reverse().subrange(0, rev@.len() as int) =~= rev@.reverse());
        }
        out
    }
}

} // verus!
