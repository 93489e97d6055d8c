use vstd::prelude::*;

verus! {

/// Every way in which an operation on a grid, an edge index, a distance map or a path
/// can refuse its input.
#[derive(Debug, Clone, Copy, PartialEq, Eq, Structural)]
pub enum Error {
    /// Generation was asked for on a grid without cells.
    ZeroSizedGraph,
    /// The second cell is not a topological neighbor of the first.
    InvalidNeighbor(usize, usize),
    /// The two cells are linked already.
    AlreadyLinked(usize, usize),
    /// The two cells are not linked.
    AlreadyUnlinked(usize, usize),
    /// A cell id at or past the grid's length (id, length).
    InvalidCell(usize, usize),
    /// An id at or past the length of an index (id, length).
    InvalidId(usize, usize),
    /// A slot at or past a cell's arity (slot, arity).
    InvalidNeighborId(usize, usize),
    /// No edge is registered at this (id, slot).
    InvalidEdge(usize, usize),
    /// A per-cell table whose length differs from the grid's (table, grid).
    MismatchedListSize(usize, usize),
    /// The requested end cell has no recorded distance.
    NoPathAvailable(usize),
    /// The path already holds this cell.
    InvalidPathAdd(usize),
}

} // verus!
