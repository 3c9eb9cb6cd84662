//! Lookup from a pair of vertex ids to the edge that connects them.
//!
//! The input adapters intern vertex names into dense ids and need to turn a
//! path given as vertices into the edge sequence the simulator works on.
//! The map holds one entry per edge and refuses duplicates, since at most one
//! edge may connect an ordered pair of vertices.

use vstd::prelude::*;
use crate::network::{VertexId, EdgeId};

verus! {

/// First edge id registered for the ordered vertex pair `(a, b)`, if any.
pub open spec fn lookup_pair(
    entries: Seq<(VertexId, VertexId, EdgeId)>,
    a: VertexId,
    b: VertexId,
) -> Option<EdgeId>
    decreases entries.len(),
{
    if entries.len() == 0 {
        None
    } else if entries[0].0 == a && entries[0].1 == b {
        Some(entries[0].2)
    } else {
        lookup_pair(entries.skip(1), a, b)
    }
}

/// A map from ordered vertex pairs to edge ids, with unique keys.
pub struct EdgeMap {
    entries: Vec<(VertexId, VertexId, EdgeId)>,
}

impl View for EdgeMap {
    type V = Seq<(VertexId, VertexId, EdgeId)>;

    closed spec fn view(&self) -> Seq<(VertexId, VertexId, EdgeId)> {
        self.entries@
    }
}

impl EdgeMap {
    /// Create an empty map.
    pub fn new() -> (m: EdgeMap)
        ensures
            m@ == Seq::<(VertexId, VertexId, EdgeId)>::empty(),
    {
        EdgeMap { entries: Vec::new() }
    }

    /// Register the edge from `a` to `b`; the pair must be new.
    pub fn insert(&mut self, a: VertexId, b: VertexId, edge_id: EdgeId)
        requires
            lookup_pair(old(self)@, a, b) is None,
        ensures
            final(self)@ == old(self)@.push((a, b, edge_id)),
    {
        self.entries.push((a, b, edge_id));
    }

    /// The edge from `a` to `b`, if one was registered.
    pub fn get(&self, a: VertexId, b: VertexId) -> (r: Option<EdgeId>)
        ensures
            r == lookup_pair(self@, a, b),
    {
        let n = self.entries.len();
        proof {
            assert(self@.skip(0) =~= self@);
        }
        let mut i: usize = 0;
        while i < n
            invariant
                0 <= i <= n,
                n == self@.len(),
                lookup_pair(self@, a, b) == lookup_pair(self@.skip(i as int), a, b),
            decreases n - i,
        {
            proof {
                assert(self@.skip(i as int)[0] == self@[i as int]);
                assert(self@.skip(i as int).skip(1) =~= self@.skip(i + 1));
            }
            let entry = self.entries[i];
            if entry.0 == a && entry.1 == b {
                return Some(entry.2);
            }
            i = i + 1;
        }
        proof {
            assert(self@.skip(n as int) =~= Seq::<(VertexId, VertexId, EdgeId)>::empty());
        }
        None
    }
}

/// Turn a path given as a vertex sequence into the sequence of edges that
/// connect its consecutive vertices.
#[verifier::loop_isolation(false)]
pub fn vertex_path_to_edge_path(vertex_path: Vec<VertexId>, edge_to_id: &EdgeMap) -> (edge_path:
    Vec<EdgeId>)
    requires
        vertex_path@.len() >= 1,
        forall|i: int|
            0 <= i < vertex_path@.len() - 1 ==> (#[trigger] lookup_pair(
                edge_to_id@,
                vertex_path@[i],
                vertex_path@[i + 1],
            )) is Some,
    ensures
        edge_path@.len() == vertex_path@.len() - 1,
        forall|i: int|
            0 <= i < edge_path@.len() ==> Some(#[trigger] edge_path@[i]) == lookup_pair(
                edge_to_id@,
                vertex_path@[i],
                vertex_path@[i + 1],
            ),
{
    let mut edge_path: Vec<EdgeId> = Vec::new();
    let n = vertex_path.len();
    let mut id: usize = 0;
    while id < n - 1
        invariant
            n == vertex_path@.len(),
            n >= 1,
            0 <= id <= n - 1,
            edge_path@.len() == id,
            forall|i: int|
                0 <= i < id ==> Some(#[trigger] edge_path@[i]) == lookup_pair(
                    edge_to_id@,
                    vertex_path@[i],
                    vertex_path@[i + 1],
                ),
        decreases n - 1 - id,
    {
        let found = edge_to_id.get(vertex_path[id], vertex_path[id + 1]);
        match found {
            Some(e) => {
                edge_path.push(e);
            },
            None => {
                proof {
                    assert(lookup_pair(edge_to_id@, vertex_path@[id as int], vertex_path@[id + 1])
                        is Some);
                }
                assert(false);
            },
        }
        id = id + 1;
    }
    edge_path
}

} // verus!
