use crate::edges::Undirected;
use crate::error::Error;
use crate::graphs::orth::Orth;
use crate::graphs::Node;
use vstd::prelude::*;

verus! {

/// A weight for each edge of a grid, read from a table indexed by cell id and slot.
#[derive(Debug)]
pub struct Uniform {
    weights: Undirected<usize>,
}

impl Uniform {
    pub closed spec fn spec_weights(&self) -> Undirected<usize> {
        self.weights
    }

    pub open spec fn wf(&self) -> bool {
        self.spec_weights().refs_ok()
    }

    /// Weights for the edges of `graph` from `slice`, which holds one row per cell: an edge
    /// takes the entry of its first cell's slot. Fails with `MismatchedListSize` where the
    /// table has not one row per cell.
    pub fn from_slice<C: Node, const N: usize>(graph: &Orth<C>, slice: &[[usize; N]]) -> (r: Result<Self, Error>)
        requires
            graph.wf(),
            forall|x: int| 0 <= x < graph.spec_len() ==> #[trigger] graph.spec_cells()[x].slots().len() <= N,
        ensures
            slice@.len() != graph.spec_len() ==> r == Err::<Self, Error>(
                Error::MismatchedListSize(slice@.len() as usize, graph.spec_len()),
            ),
            slice@.len() == graph.spec_len() ==> (r matches Ok(u) && {
                let w = u.spec_weights();
                &&& u.wf()
                &&& w.indexes(graph.spec_cells())
                &&& forall|e: int| 0 <= e < w.spec_edges().len() ==> #[trigger] w.spec_edges()[e].spec_value()
                    == slice@[w.spec_edges()[e].spec_a().id as int]@[w.spec_edges()[e].spec_a().side as int]
                &&& forall|o: int| 0 <= o < w.spec_outside().len() ==> #[trigger] w.spec_outside()[o].1 == 0
            }),
    {
        if slice.len() != graph.len() {
            return Err(Error::MismatchedListSize(slice.len(), graph.len()));
        }
        let inner = |g: &Orth<C>, id: usize, n: usize| -> (r: usize)
            requires
                id < slice@.len(),
                n < N,
            ensures
                r == slice@[id as int]@[n as int],
            { slice[id][n] };
        let outer = |g: &Orth<C>, id: usize, n: usize| -> (r: usize)
            ensures
                r == 0,
            { 0 };
        let weights = Undirected::new_with(graph, inner, outer);
        proof {
            crate::edges::lemma_index_refs(graph.spec_cells(), weights);
        }
        Ok(Uniform { weights })
    }

    /// The weight of the edge at slot `n` of cell `id`.
    pub fn weight(&self, id: usize, n: usize) -> (r: Result<usize, Error>)
        requires
            self.wf(),
        ensures
            match self.spec_weights().lookup_error(id, n) {
                Some(e) => r == Err::<usize, Error>(e),
                None => r == Ok::<usize, Error>(self.spec_weights().spec_edge_value(id as int, n as int)),
            },
    {
        match self.weights.edge_value(id, n) {
            Ok(v) => Ok(*v),
            Err(e) => Err(e),
        }
    }
}

} // verus!
