//! The state graph of a track.

use crate::timing::sequence::Sequence;
use vstd::prelude::*;

verus! {

/// A moment in the life of a node at which a script may be run.
#[derive(Debug, Clone, Copy, PartialEq, Eq)]
pub enum Hook {
    OnEnter,
    OnLeave,
    OnStart,
    OnEnd,
    OnLoop,
}

/// When a transition along an edge takes place.
#[derive(Debug, Clone, Copy, PartialEq, Eq)]
pub enum TransitionTiming {
    Immediate,
    NextBeat,
    NextBar,
    FinishSequence,
}

/// A musical state: a pattern under a name.
#[derive(Debug, PartialEq, Eq)]
pub struct Node {
    pub id: String,
    pub sequence: Sequence,
    pub hooks: Vec<(Hook, String)>,
}

/// A transition from one node to another.
#[derive(Debug, PartialEq, Eq)]
pub struct Edge {
    pub from: String,
    pub to: String,
    pub condition: String,
    pub timing: TransitionTiming,
    pub inlet_hook: Option<String>,
}

/// The nodes and edges of one track, in the order in which they were
/// declared.
#[derive(Debug, PartialEq, Eq)]
pub struct StateGraph {
    pub nodes: Vec<Node>,
    pub edges: Vec<Edge>,
}

/// The edges of `edges` that leave the node `id`, in the order they have in
/// `edges`.
pub open spec fn leaving(edges: Seq<Edge>, id: Seq<char>) -> Seq<Edge>
    decreases edges.len(),
{
    if edges.len() == 0 {
        edges
    } else if edges.last().from@ == id {
        leaving(edges.drop_last(), id).push(edges.last())
    } else {
        leaving(edges.drop_last(), id)
    }
}

impl StateGraph {
    /// Whether the node at index `i` is the first one named `id`.
    pub open spec fn first_named(self, id: Seq<char>, i: int) -> bool {
        &&& 0 <= i < self.nodes@.len()
        &&& self.nodes@[i].id@ == id
        &&& forall|j: int| 0 <= j < i ==> self.nodes@[j].id@ != id
    }

    /// The index of the first node named `id`, if there is one.
    pub open spec fn node_index(self, id: Seq<char>) -> Option<int> {
        if exists|i: int| self.first_named(id, i) {
            Some(choose|i: int| self.first_named(id, i))
        } else {
            None
        }
    }

    /// The first node named `id`, if there is one.
    pub open spec fn node(self, id: Seq<char>) -> Option<Node> {
        match self.node_index(id) {
            Some(i) => Some(self.nodes@[i]),
            None => None,
        }
    }

    /// The edges that leave the node `id`, in the order of their declaration.
    pub open spec fn outgoing(self, id: Seq<char>) -> Seq<Edge> {
        leaving(self.edges@, id)
    }

    /// The node that follows `id`: the target of the first edge that leaves
    /// it, or `id` itself when no edge leaves it.
    pub open spec fn successor(self, id: Seq<char>) -> Seq<char> {
        if self.outgoing(id).len() > 0 {
            self.outgoing(id)[0].to@
        } else {
            id
        }
    }

    /// Creates a graph without nodes or edges.
    pub fn new() -> (graph: Self)
        ensures
            graph.nodes@.len() == 0,
            graph.edges@.len() == 0,
    {
        Self { nodes: Vec::new(), edges: Vec::new() }
    }

    /// If a node is named `id`, the first such node is at one index only.
    pub proof fn lemma_first_named_unique(self, id: Seq<char>, i: int, j: int)
        requires
            self.first_named(id, i),
            self.first_named(id, j),
        ensures
            i == j,
    {
        if i < j {
            assert(self.nodes@[i].id@ != id);
        } else if j < i {
            assert(self.nodes@[j].id@ != id);
        }
    }

    /// Returns the first node named `id`.
    pub fn get_node(&self, id: &str) -> (found: Option<&Node>)
        ensures
            match found {
                Some(node) => self.node(id@) == Some(*node),
                None => self.node(id@) is None,
            },
            found is Some <==> exists|i: int| 0 <= i < self.nodes@.len() && self.nodes@[i].id@ == id@,
    {
        let name = id.to_owned();
        let mut i: usize = 0;
        while i < self.nodes.len()
            invariant
                0 <= i <= self.nodes.len(),
                name@ == id@,
                forall|j: int| 0 <= j < i ==> self.nodes@[j].id@ != id@,
            decreases self.nodes.len() - i,
        {
            if self.nodes[i].id == name {
                proof {
                    assert(self.first_named(id@, i as int));
                    let chosen = choose|k: int| self.first_named(id@, k);
                    self.lemma_first_named_unique(id@, i as int, chosen);
                }
                return Some(&self.nodes[i]);
            }
            i += 1;
        }
        proof {
            assert forall|k: int| !self.first_named(id@, k) by {}
        }
        None
    }

    /// Returns the edges that leave the node `node_id`, in the order of their
    /// declaration.
    pub fn get_outgoing_edges(&self, node_id: &str) -> (found: Vec<&Edge>)
        ensures
            found@.len() == self.outgoing(node_id@).len(),
            forall|k: int| 0 <= k < found@.len() ==> *found@[k] == self.outgoing(node_id@)[k],
    {
        let name = node_id.to_owned();
        let mut found: Vec<&Edge> = Vec::new();
        let mut i: usize = 0;
        while i < self.edges.len()
            invariant
                0 <= i <= self.edges.len(),
                name@ == node_id@,
                found@.len() == leaving(self.edges@.take(i as int), node_id@).len(),
                forall|k: int|
                    0 <= k < found@.len() ==> *found@[k] == leaving(
                        self.edges@.take(i as int),
                        node_id@,
                    )[k],
            decreases self.edges.len() - i,
        {
            proof {
                assert(self.edges@.take(i + 1).drop_last() =~= self.edges@.take(i as int));
            }
            if self.edges[i].from == name {
                found.push(&self.edges[i]);
            }
            i += 1;
        }
        proof {
            assert(self.edges@.take(i as int) =~= self.edges@);
        }
        found
    }

    /// Returns the name of the node that follows `current`: the target of the
    /// first edge that leaves it, or `current` itself when no edge leaves it.
    pub fn next_node(&self, current: &str) -> (next: String)
        ensures
            next@ == self.successor(current@),
    {
        let edges = self.get_outgoing_edges(current);
        if edges.len() > 0 {
            edges[0].to.clone()
        } else {
            current.to_owned()
        }
    }
}

} // verus!
