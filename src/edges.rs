use crate::error::Error;
use crate::graphs::orth::{cell_ok, cells_wf, slot_ok, Orth};
use crate::graphs::{slot_edges_new, slot_edges_of, slot_edges_push, slot_edges_slice, SlotEdges};
use crate::graphs::{is_first_slot, lemma_first_slot_unique, lemma_slot_of, slot_of, Node};
use vstd::prelude::*;

verus! {

/// One side of a cell: the cell's id and the slot.
#[derive(Debug, Clone, Copy, PartialEq, Eq, Structural)]
pub struct Conn {
    pub id: usize,
    pub side: usize,
}

impl Conn {
    pub fn new(id: usize, side: usize) -> (r: Self)
        ensures
            r == (Conn { id, side }),
    {
        Conn { id, side }
    }

    pub fn id(&self) -> (r: usize)
        ensures
            r == self.id,
    {
        self.id
    }

    pub fn side(&self) -> (r: usize)
        ensures
            r == self.side,
    {
        self.side
    }
}

/// Side `k` of cell `x`.
pub open spec fn conn_at(x: int, k: int) -> Conn {
    Conn { id: x as usize, side: k as usize }
}

/// A payload after a write that hit it (`hit`) or not.
pub open spec fn value_after_set<V>(before: V, hit: bool, value: V) -> V {
    if hit { value } else { before }
}

/// `a` comes before `b` in the order in which the index walks cells and slots.
pub open spec fn conn_before(a: Conn, b: Conn) -> bool {
    a.id < b.id || (a.id == b.id && a.side < b.side)
}

/// An edge between two adjacent cells, with its payload.
#[derive(Clone, Debug)]
pub struct UndirEdge<V> {
    a: Conn,
    b: Conn,
    v: V,
}

impl<V> UndirEdge<V> {
    pub closed spec fn spec_a(&self) -> Conn {
        self.a
    }

    pub closed spec fn spec_b(&self) -> Conn {
        self.b
    }

    pub closed spec fn spec_value(&self) -> V {
        self.v
    }

    fn new(a: Conn, b: Conn, v: V) -> (r: Self)
        ensures
            r.spec_a() == a,
            r.spec_b() == b,
            r.spec_value() == v,
    {
        UndirEdge { a, b, v }
    }

    /// The same edge carrying `value`.
    fn map<C: Node, U>(&self, grid: &Orth<C>, value: U) -> (r: UndirEdge<U>)
        ensures
            r.spec_a() == self.spec_a(),
            r.spec_b() == self.spec_b(),
            r.spec_value() == value,
    {
        UndirEdge { a: self.a, b: self.b, v: value }
    }

    /// The same edge carrying what `f` returns for its first side.
    fn map_with<C: Node, F: Fn(&Orth<C>, &Conn) -> U, U>(&self, grid: &Orth<C>, f: &F) -> (r: UndirEdge<U>)
        requires
            f.requires((grid, &self.spec_a())),
        ensures
            r.spec_a() == self.spec_a(),
            r.spec_b() == self.spec_b(),
            f.ensures((grid, &self.spec_a()), r.spec_value()),
    {
        UndirEdge { a: self.a, b: self.b, v: f(grid, &self.a) }
    }

    /// The side of the cell that was walked first.
    pub fn a(&self) -> (r: &Conn)
        ensures
            *r == self.spec_a(),
    {
        &self.a
    }

    /// The side of the other cell.
    pub fn b(&self) -> (r: &Conn)
        ensures
            *r == self.spec_b(),
    {
        &self.b
    }

    pub fn conns(&self) -> (r: (&Conn, &Conn))
        ensures
            *r.0 == self.spec_a(),
            *r.1 == self.spec_b(),
    {
        (&self.a, &self.b)
    }

    pub fn value(&self) -> (r: &V)
        ensures
            *r == self.spec_value(),
    {
        &self.v
    }

    /// One of the two sides belongs to cell `id`.
    pub fn has_id(&self, id: usize) -> (r: bool)
        ensures
            r == (self.spec_a().id == id || self.spec_b().id == id),
    {
        self.a.id == id || self.b.id == id
    }
}

/// A deduplicated list of the edges between adjacent cells of a grid, one record per
/// adjacent pair, and a list of the cell sides that face no neighbor, each with a payload.
#[derive(Debug)]
pub struct Undirected<V> {
    cells: Vec<SlotEdges>,
    edges: Vec<UndirEdge<V>>,
    outside: Vec<(Conn, V)>,
}

impl<V> Undirected<V> {
    /// For each cell and slot, the id of the edge record that the slot refers to.
    pub closed spec fn spec_cells(&self) -> Seq<Seq<Option<usize>>> {
        self.cells@.map_values(|r: SlotEdges| slot_edges_of(r))
    }

    pub closed spec fn spec_edges(&self) -> Seq<UndirEdge<V>> {
        self.edges@
    }

    pub closed spec fn spec_outside(&self) -> Seq<(Conn, V)> {
        self.outside@
    }

    /// The index describes the grid `g` (see `index_holds`).
    pub open spec fn indexes<C: Node>(&self, g: Seq<C>) -> bool {
        index_holds(g, self.spec_cells(), self.spec_edges(), self.spec_outside())
    }

    /// Walks every slot of every cell in ascending id order. A slot whose neighbor already
    /// recorded the shared edge refers to that record; a slot reaching a later neighbor gets
    /// a new record whose payload is `inner(grid, id, slot)`; a slot without a neighbor
    /// goes to the boundary list with the payload `outer(grid, id, slot)`.
    pub fn new_with<C: Node, I: Fn(&Orth<C>, usize, usize) -> V, O: Fn(&Orth<C>, usize, usize) -> V>(
        grid: &Orth<C>,
        inner: I,
        outer: O,
    ) -> (r: Self)
        requires
            grid.wf(),
            forall|id: usize, n: usize| id < grid.spec_len() && n < grid.spec_cells()[id as int].slots().len()
                ==> #[trigger] inner.requires((grid, id, n)),
            forall|id: usize, n: usize| id < grid.spec_len() && n < grid.spec_cells()[id as int].slots().len()
                ==> #[trigger] outer.requires((grid, id, n)),
        ensures
            r.indexes(grid.spec_cells()),
            forall|e: int| 0 <= e < r.spec_edges().len() ==> inner.ensures(
                (grid, r.spec_edges()[e].spec_a().id, r.spec_edges()[e].spec_a().side),
                #[trigger] r.spec_edges()[e].spec_value(),
            ),
            forall|o: int| 0 <= o < r.spec_outside().len() ==> outer.ensures(
                (grid, r.spec_outside()[o].0.id, r.spec_outside()[o].0.side),
                #[trigger] r.spec_outside()[o].1,
            ),
    {
        let ghost g = grid.spec_cells();
        let n = grid.len();
        let mut cells: Vec<SlotEdges> = Vec::new();
        let mut edges: Vec<UndirEdge<V>> = Vec::new();
        let mut outside: Vec<(Conn, V)> = Vec::new();
        proof {
            assert forall|z: int| 0 <= z < g.len() implies #[trigger] g[z].slots().len() <= usize::MAX by {
                assert(cell_ok(g, z));
            }
            lemma_start::<C, V>(g);
            assert(cells@.map_values(|r: SlotEdges| slot_edges_of(r)) =~= Seq::<Seq<Option<usize>>>::empty());
        }
        let mut x: usize = 0;
        while x < n
            invariant
                grid.wf(),
                g == grid.spec_cells(),
                n == g.len(),
                x <= n,
                forall|id: usize, n: usize| id < grid.spec_len() && n < grid.spec_cells()[id as int].slots().len()
                    ==> #[trigger] inner.requires((grid, id, n)),
                forall|id: usize, n: usize| id < grid.spec_len() && n < grid.spec_cells()[id as int].slots().len()
                    ==> #[trigger] outer.requires((grid, id, n)),
                partial(g, cells@.map_values(|r: SlotEdges| slot_edges_of(r)), Seq::empty(), edges@, outside@, x as int, 0),
                forall|e: int| 0 <= e < edges@.len() ==> inner.ensures(
                    (grid, edges@[e].spec_a().id, edges@[e].spec_a().side),
                    #[trigger] edges@[e].spec_value(),
                ),
                forall|o: int| 0 <= o < outside@.len() ==> outer.ensures(
                    (grid, outside@[o].0.id, outside@[o].0.side),
                    #[trigger] outside@[o].1,
                ),
            decreases n - x,
        {
            let ghost cv = cells@.map_values(|r: SlotEdges| slot_edges_of(r));
            let cell = grid.node(x);
            let slots = cell.all_neighbors();
            let mut row = slot_edges_new();
            let mut k: usize = 0;
            while k < slots.len()
                invariant
                    grid.wf(),
                    g == grid.spec_cells(),
                    n == g.len(),
                    x < n,
                    slots@ == g[x as int].slots(),
                    cv == cells@.map_values(|r: SlotEdges| slot_edges_of(r)),
                    k <= slots@.len(),
                    forall|id: usize, n: usize| id < grid.spec_len() && n < grid.spec_cells()[id as int].slots().len()
                        ==> #[trigger] inner.requires((grid, id, n)),
                    forall|id: usize, n: usize| id < grid.spec_len() && n < grid.spec_cells()[id as int].slots().len()
                        ==> #[trigger] outer.requires((grid, id, n)),
                    partial(g, cv, slot_edges_of(row), edges@, outside@, x as int, k as int),
                    forall|e: int| 0 <= e < edges@.len() ==> inner.ensures(
                        (grid, edges@[e].spec_a().id, edges@[e].spec_a().side),
                        #[trigger] edges@[e].spec_value(),
                    ),
                    forall|o: int| 0 <= o < outside@.len() ==> outer.ensures(
                        (grid, outside@[o].0.id, outside@[o].0.side),
                        #[trigger] outside@[o].1,
                    ),
                decreases slots.len() - k,
            {
                let mut boundary = true;
                if let Some(y) = slots[k] {
                    proof {
                        crate::graphs::orth::lemma_slot_linked(g, x as int, k as int);
                        assert(cell_ok(g, x as int));
                        assert(slot_ok(g, x as int, k as int));
                    }
                    let neighbor = grid.node(y);
                    if let Some(j) = neighbor.neighbor_id(x) {
                        boundary = false;
                        if y < x {
                            proof {
                                lemma_step_alias(g, cv, slot_edges_of(row), edges@, outside@, x as int, k as int, y as int, j as int);
                                assert(cv[y as int] == slot_edges_of(cells@[y as int]));
                            }
                            let e = slot_edges_slice(&cells[y])[j];
                            slot_edges_push(&mut row, e);
                        } else {
                            let v = inner(grid, x, k);
                            let edge = UndirEdge::new(Conn::new(x, k), Conn::new(y, j), v);
                            let id = edges.len();
                            proof {
                                lemma_step_new(g, cv, slot_edges_of(row), edges@, outside@, x as int, k as int, y as int, j as int, edge);
                            }
                            slot_edges_push(&mut row, Some(id));
                            edges.push(edge);
                        }
                    } else {
                        proof {
                            lemma_slot_of(g[y as int].slots(), x);
                        }
                    }
                }
                if boundary {
                    let v = outer(grid, x, k);
                    proof {
                        lemma_step_boundary(g, cv, slot_edges_of(row), edges@, outside@, x as int, k as int, v);
                    }
                    slot_edges_push(&mut row, None);
                    outside.push((Conn::new(x, k), v));
                }
                k = k + 1;
            }
            proof {
                lemma_row_end(g, cv, slot_edges_of(row), edges@, outside@, x as int);
            }
            cells.push(row);
            proof {
                assert(cells@.map_values(|r: SlotEdges| slot_edges_of(r)) =~= cv.push(slot_edges_of(row)));
            }
            x = x + 1;
        }
        proof {
            lemma_finish(g, cells@.map_values(|r: SlotEdges| slot_edges_of(r)), edges@, outside@);
        }
        Undirected { cells, edges, outside }
    }

    /// An index over `grid` whose edges all carry `inner` and whose boundary sides all
    /// carry `outer`.
    pub fn new<C: Node>(grid: &Orth<C>, inner: V, outer: V) -> (r: Self)
        where
            V: Copy,
        requires
            grid.wf(),
        ensures
            r.indexes(grid.spec_cells()),
            forall|e: int| 0 <= e < r.spec_edges().len() ==> #[trigger] r.spec_edges()[e].spec_value() == inner,
            forall|o: int| 0 <= o < r.spec_outside().len() ==> #[trigger] r.spec_outside()[o].1 == outer,
    {
        let i = |g: &Orth<C>, id: usize, n: usize| -> (r: V)
            ensures
                r == inner,
            { inner };
        let o = |g: &Orth<C>, id: usize, n: usize| -> (r: V)
            ensures
                r == outer,
            { outer };
        Self::new_with(grid, i, o)
    }

    fn copy_cells(&self) -> (r: Vec<SlotEdges>)
        ensures
            r@.map_values(|v: SlotEdges| slot_edges_of(v)) == self.spec_cells(),
    {
        let mut r: Vec<SlotEdges> = Vec::new();
        let mut x: usize = 0;
        while x < self.cells.len()
            invariant
                x <= self.cells@.len(),
                r@.len() == x,
                forall|z: int| 0 <= z < x ==> #[trigger] slot_edges_of(r@[z]) == slot_edges_of(self.cells@[z]),
            decreases self.cells@.len() - x,
        {
            let src = slot_edges_slice(&self.cells[x]);
            let mut row = slot_edges_new();
            let mut k: usize = 0;
            while k < src.len()
                invariant
                    k <= src@.len(),
                    slot_edges_of(row) == src@.subrange(0, k as int),
                decreases src@.len() - k,
            {
                slot_edges_push(&mut row, src[k]);
                k = k + 1;
                assert(slot_edges_of(row) =~= src@.subrange(0, k as int));
            }
            assert(src@.subrange(0, src@.len() as int) =~= src@);
            r.push(row);
            x = x + 1;
        }
        assert(r@.map_values(|v: SlotEdges| slot_edges_of(v)) =~= self.spec_cells());
        r
    }

    /// The same edges and boundary sides, each edge now carrying a clone of `inner` and each
    /// boundary side a clone of `outer`.
    pub fn map<C: Node, U: Clone>(&self, grid: &Orth<C>, inner: &U, outer: &U) -> (r: Undirected<U>)
        ensures
            r.spec_cells() == self.spec_cells(),
            r.spec_edges().len() == self.spec_edges().len(),
            forall|e: int| 0 <= e < r.spec_edges().len() ==> (#[trigger] r.spec_edges()[e]).spec_a()
                == self.spec_edges()[e].spec_a() && r.spec_edges()[e].spec_b() == self.spec_edges()[e].spec_b()
                && cloned(*inner, r.spec_edges()[e].spec_value()),
            r.spec_outside().len() == self.spec_outside().len(),
            forall|o: int| 0 <= o < r.spec_outside().len() ==> (#[trigger] r.spec_outside()[o]).0
                == self.spec_outside()[o].0 && cloned(*outer, r.spec_outside()[o].1),
    {
        let mut edges: Vec<UndirEdge<U>> = Vec::new();
        let mut e: usize = 0;
        while e < self.edges.len()
            invariant
                e <= self.edges@.len(),
                edges@.len() == e,
                forall|f: int| 0 <= f < e ==> (#[trigger] edges@[f]).spec_a() == self.edges@[f].spec_a()
                    && edges@[f].spec_b() == self.edges@[f].spec_b() && cloned(*inner, edges@[f].spec_value()),
            decreases self.edges@.len() - e,
        {
            edges.push(self.edges[e].map(grid, inner.clone()));
            e = e + 1;
        }
        let mut outside: Vec<(Conn, U)> = Vec::new();
        let mut o: usize = 0;
        while o < self.outside.len()
            invariant
                o <= self.outside@.len(),
                outside@.len() == o,
                forall|p: int| 0 <= p < o ==> (#[trigger] outside@[p]).0 == self.outside@[p].0 && cloned(*outer, outside@[p].1),
            decreases self.outside@.len() - o,
        {
            outside.push((self.outside[o].0, outer.clone()));
            o = o + 1;
        }
        Undirected { cells: self.copy_cells(), edges, outside }
    }

    /// The same edges and boundary sides, each carrying what `inner` (for an edge, given its
    /// first side) or `outer` (for a boundary side) returns; the adjacency is reused as it is.
    pub fn map_with<C: Node, F: Fn(&Orth<C>, &Conn) -> U, U>(&self, grid: &Orth<C>, inner: F, outer: F) -> (r: Undirected<U>)
        requires
            forall|c: Conn| #[trigger] inner.requires((grid, &c)),
            forall|c: Conn| #[trigger] outer.requires((grid, &c)),
        ensures
            r.spec_cells() == self.spec_cells(),
            r.spec_edges().len() == self.spec_edges().len(),
            forall|e: int| 0 <= e < r.spec_edges().len() ==> (#[trigger] r.spec_edges()[e]).spec_a()
                == self.spec_edges()[e].spec_a() && r.spec_edges()[e].spec_b() == self.spec_edges()[e].spec_b()
                && inner.ensures((grid, &self.spec_edges()[e].spec_a()), r.spec_edges()[e].spec_value()),
            r.spec_outside().len() == self.spec_outside().len(),
            forall|o: int| 0 <= o < r.spec_outside().len() ==> (#[trigger] r.spec_outside()[o]).0
                == self.spec_outside()[o].0 && outer.ensures((grid, &self.spec_outside()[o].0), r.spec_outside()[o].1),
    {
        let mut edges: Vec<UndirEdge<U>> = Vec::new();
        let mut e: usize = 0;
        while e < self.edges.len()
            invariant
                e <= self.edges@.len(),
                edges@.len() == e,
                forall|c: Conn| #[trigger] inner.requires((grid, &c)),
                forall|f: int| 0 <= f < e ==> (#[trigger] edges@[f]).spec_a() == self.edges@[f].spec_a()
                    && edges@[f].spec_b() == self.edges@[f].spec_b()
                    && inner.ensures((grid, &self.edges@[f].spec_a()), edges@[f].spec_value()),
            decreases self.edges@.len() - e,
        {
            edges.push(self.edges[e].map_with(grid, &inner));
            e = e + 1;
        }
        let mut outside: Vec<(Conn, U)> = Vec::new();
        let mut o: usize = 0;
        while o < self.outside.len()
            invariant
                o <= self.outside@.len(),
                outside@.len() == o,
                forall|c: Conn| #[trigger] outer.requires((grid, &c)),
                forall|p: int| 0 <= p < o ==> (#[trigger] outside@[p]).0 == self.outside@[p].0
                    && outer.ensures((grid, &self.outside@[p].0), outside@[p].1),
            decreases self.outside@.len() - o,
        {
            let c = self.outside[o].0;
            let v = outer(grid, &c);
            outside.push((c, v));
            o = o + 1;
        }
        Undirected { cells: self.copy_cells(), edges, outside }
    }

    /// The payload of the edge that slot `n` of cell `id` refers to.
    pub open spec fn spec_edge_value(&self, id: int, n: int) -> V {
        self.spec_edges()[self.spec_cells()[id][n].unwrap() as int].spec_value()
    }

    /// What `edge_value(id, n)` and `set_edge_value(id, n, _)` fail with, if they fail.
    pub open spec fn lookup_error(&self, id: usize, n: usize) -> Option<Error> {
        if id >= self.spec_cells().len() {
            Some(Error::InvalidId(id, self.spec_cells().len() as usize))
        } else if n >= self.spec_cells()[id as int].len() {
            Some(Error::InvalidNeighborId(n, self.spec_cells()[id as int].len() as usize))
        } else if self.spec_cells()[id as int][n as int] is None {
            Some(Error::InvalidEdge(id, n))
        } else {
            None
        }
    }

    /// Every slot refers to an existing edge record.
    pub open spec fn refs_ok(&self) -> bool {
        forall|x: int, k: int| 0 <= x < self.spec_cells().len() && 0 <= k < self.spec_cells()[x].len()
            && #[trigger] self.spec_cells()[x][k] is Some ==> self.spec_cells()[x][k].unwrap() < self.spec_edges().len()
    }

    /// The payload of the edge at slot `n` of cell `id`.
    pub fn edge_value(&self, id: usize, n: usize) -> (r: Result<&V, Error>)
        requires
            self.refs_ok(),
        ensures
            match self.lookup_error(id, n) {
                Some(e) => r == Err::<&V, Error>(e),
                None => r == Ok::<&V, Error>(&self.spec_edge_value(id as int, n as int)),
            },
    {
        if id >= self.cells.len() {
            return Err(Error::InvalidId(id, self.cells.len()));
        }
        let slots = slot_edges_slice(&self.cells[id]);
        if n >= slots.len() {
            Err(Error::InvalidNeighborId(n, slots.len()))
        } else {
            match slots[n] {
                Some(e) => Ok(&self.edges[e].v),
                None => Err(Error::InvalidEdge(id, n)),
            }
        }
    }

    /// Replaces the payload of the edge at slot `n` of cell `id`; the other slot of that
    /// edge sees the new payload too.
    pub fn set_edge_value(&mut self, id: usize, n: usize, value: V) -> (r: Result<(), Error>)
        requires
            old(self).refs_ok(),
        ensures
            final(self).refs_ok(),
            final(self).spec_cells() == old(self).spec_cells(),
            final(self).spec_outside() == old(self).spec_outside(),
            final(self).spec_edges().len() == old(self).spec_edges().len(),
            forall|e: int| 0 <= e < old(self).spec_edges().len() ==> (#[trigger] final(self).spec_edges()[e]).spec_a()
                == old(self).spec_edges()[e].spec_a() && final(self).spec_edges()[e].spec_b()
                == old(self).spec_edges()[e].spec_b(),
            match old(self).lookup_error(id, n) {
                Some(e) => r == Err::<(), Error>(e) && final(self).spec_edges() == old(self).spec_edges(),
                None => r is Ok && set_post(*old(self), *final(self), id, n, value),
            },
    {
        if id >= self.cells.len() {
            return Err(Error::InvalidId(id, self.cells.len()));
        }
        let slots = slot_edges_slice(&self.cells[id]);
        if n >= slots.len() {
            Err(Error::InvalidNeighborId(n, slots.len()))
        } else if let Some(e) = slots[n] {
            let a = self.edges[e].a;
            let b = self.edges[e].b;
            self.edges.set(e, UndirEdge { a, b, v: value });
            proof {
                assert(self.spec_cells() =~= old(self).spec_cells());
            }
            Ok(())
        } else {
            Err(Error::InvalidEdge(id, n))
        }
    }

    /// All edge records; an edge's id is its position.
    pub fn edges(&self) -> (r: &Vec<UndirEdge<V>>)
        ensures
            r@ == self.spec_edges(),
    {
        &self.edges
    }

    /// The sides that face no neighbor, with their payloads.
    pub fn outer(&self) -> (r: &Vec<(Conn, V)>)
        ensures
            r@ == self.spec_outside(),
    {
        &self.outside
    }
}

/// `cells`, `edges` and `outside` index the grid `g`: a slot refers to an edge exactly
/// where it holds a neighbor, each edge joins two slots that hold each other, with the
/// lower cell id first, and both slots refer to it; the boundary list holds every empty
/// slot once, in walk order.
pub open spec fn index_holds<C: Node, V>(
    g: Seq<C>,
    cells: Seq<Seq<Option<usize>>>,
    edges: Seq<UndirEdge<V>>,
    outside: Seq<(Conn, V)>,
) -> bool {
    &&& cells.len() == g.len()
    &&& forall|x: int| 0 <= x < g.len() ==> #[trigger] cells[x].len() == g[x].slots().len()
    &&& forall|x: int, k: int| 0 <= x < g.len() && 0 <= k < g[x].slots().len() ==> (
        #[trigger] cells[x][k] is Some <==> g[x].slots()[k] is Some)
    &&& forall|x: int, k: int| 0 <= x < g.len() && 0 <= k < g[x].slots().len() && #[trigger] cells[x][k] is Some
        ==> cells[x][k].unwrap() < edges.len() && (
            edges[cells[x][k].unwrap() as int].spec_a() == conn_at(x, k)
            || edges[cells[x][k].unwrap() as int].spec_b() == conn_at(x, k))
    &&& forall|e: int| 0 <= e < edges.len() ==> #[trigger] edge_ok(g, cells, edges[e].spec_a(), edges[e].spec_b(), e)
    &&& forall|e: int, f: int| 0 <= e < f < edges.len() ==> conn_before(
        #[trigger] edges[e].spec_a(),
        #[trigger] edges[f].spec_a(),
    )
    &&& forall|o: int| 0 <= o < outside.len() ==> #[trigger] boundary_ok(g, outside[o].0)
    &&& forall|o: int, p: int| 0 <= o < p < outside.len() ==> conn_before(#[trigger] outside[o].0, #[trigger] outside[p].0)
    &&& forall|x: int, k: int| 0 <= x < g.len() && 0 <= k < g[x].slots().len() && #[trigger] g[x].slots()[k] is None
        ==> exists|o: int| 0 <= o < outside.len() && #[trigger] outside[o].0 == conn_at(x, k)
}

/// Edge record `e` joins `a` and `b`: two slots of distinct cells, the lower id first,
/// that hold each other, and both refer to `e`.
pub open spec fn edge_ok<C: Node>(g: Seq<C>, cells: Seq<Seq<Option<usize>>>, a: Conn, b: Conn, e: int) -> bool {
    &&& a.id < b.id < g.len()
    &&& a.side < g[a.id as int].slots().len()
    &&& g[a.id as int].slots()[a.side as int] == Some(b.id)
    &&& slot_of(g[b.id as int].slots(), a.id) == Some(b.side as int)
    &&& cells[a.id as int][a.side as int] == Some(e as usize)
    &&& cells[b.id as int][b.side as int] == Some(e as usize)
}

/// Slot `m` of cell `z` comes before slot `k` of cell `x` in walk order.
pub open spec fn done(x: int, k: int, z: int, m: int) -> bool {
    z < x || (z == x && m < k)
}

/// The edge id that slot `m` of cell `z` refers to while the index is built: rows before
/// `x` are in `cv`, row `x` is `row`.
pub open spec fn ref_at(cv: Seq<Seq<Option<usize>>>, row: Seq<Option<usize>>, x: int, z: int, m: int) -> Option<usize> {
    if z < x { cv[z][m] } else { row[m] }
}

/// Edge `e` joins `a` and `b` as `edge_ok` asks, where `b` may not be walked yet.
pub open spec fn edge_part<C: Node>(
    g: Seq<C>,
    cv: Seq<Seq<Option<usize>>>,
    row: Seq<Option<usize>>,
    x: int,
    k: int,
    a: Conn,
    b: Conn,
    e: int,
) -> bool {
    &&& a.id < b.id < g.len()
    &&& a.side < g[a.id as int].slots().len()
    &&& g[a.id as int].slots()[a.side as int] == Some(b.id)
    &&& slot_of(g[b.id as int].slots(), a.id) == Some(b.side as int)
    &&& done(x, k, a.id as int, a.side as int)
    &&& ref_at(cv, row, x, a.id as int, a.side as int) == Some(e as usize)
    &&& done(x, k, b.id as int, b.side as int) ==> ref_at(cv, row, x, b.id as int, b.side as int) == Some(e as usize)
}

/// The index holds what walking the slots of `g` up to slot `k` of cell `x` produces.
pub open spec fn partial<C: Node, V>(
    g: Seq<C>,
    cv: Seq<Seq<Option<usize>>>,
    row: Seq<Option<usize>>,
    edges: Seq<UndirEdge<V>>,
    outside: Seq<(Conn, V)>,
    x: int,
    k: int,
) -> bool {
    &&& 0 <= x <= g.len()
    &&& g.len() <= usize::MAX
    &&& forall|z: int| 0 <= z < g.len() ==> #[trigger] g[z].slots().len() <= usize::MAX
    &&& cv.len() == x
    &&& row.len() == k
    &&& (x < g.len() ==> k <= g[x].slots().len())
    &&& (x == g.len() ==> k == 0)
    &&& forall|z: int| 0 <= z < x ==> #[trigger] cv[z].len() == g[z].slots().len()
    &&& forall|z: int, m: int| 0 <= z < g.len() && 0 <= m < g[z].slots().len() && done(x, k, z, m) ==> (
        #[trigger] ref_at(cv, row, x, z, m) is Some <==> g[z].slots()[m] is Some)
    &&& forall|z: int, m: int| 0 <= z < g.len() && 0 <= m < g[z].slots().len() && done(x, k, z, m)
        && #[trigger] ref_at(cv, row, x, z, m) is Some ==> ref_at(cv, row, x, z, m).unwrap() < edges.len() && (
            edges[ref_at(cv, row, x, z, m).unwrap() as int].spec_a() == conn_at(z, m)
            || edges[ref_at(cv, row, x, z, m).unwrap() as int].spec_b() == conn_at(z, m))
    &&& forall|e: int| 0 <= e < edges.len() ==> #[trigger] edge_part(g, cv, row, x, k, edges[e].spec_a(), edges[e].spec_b(), e)
    &&& forall|e: int, f: int| 0 <= e < f < edges.len() ==> conn_before(#[trigger] edges[e].spec_a(), #[trigger] edges[f].spec_a())
    &&& forall|o: int| 0 <= o < outside.len() ==> #[trigger] boundary_ok(g, outside[o].0)
        && done(x, k, outside[o].0.id as int, outside[o].0.side as int)
    &&& forall|o: int, p: int| 0 <= o < p < outside.len() ==> conn_before(#[trigger] outside[o].0, #[trigger] outside[p].0)
    &&& forall|z: int, m: int| 0 <= z < g.len() && 0 <= m < g[z].slots().len() && done(x, k, z, m)
        && #[trigger] g[z].slots()[m] is None ==> exists|o: int| 0 <= o < outside.len() && #[trigger] outside[o].0 == conn_at(z, m)
}

proof fn lemma_start<C: Node, V>(g: Seq<C>)
    requires
        g.len() <= usize::MAX,
        forall|z: int| 0 <= z < g.len() ==> #[trigger] g[z].slots().len() <= usize::MAX,
    ensures
        partial(g, Seq::<Seq<Option<usize>>>::empty(), Seq::empty(), Seq::<UndirEdge<V>>::empty(), Seq::<(Conn, V)>::empty(), 0, 0),
{
}

#[verifier::rlimit(60)]
proof fn lemma_step_boundary<C: Node, V>(
    g: Seq<C>,
    cv: Seq<Seq<Option<usize>>>,
    row: Seq<Option<usize>>,
    edges: Seq<UndirEdge<V>>,
    outside: Seq<(Conn, V)>,
    x: int,
    k: int,
    v: V,
)
    requires
        partial(g, cv, row, edges, outside, x, k),
        x < g.len(),
        k < g[x].slots().len(),
        g[x].slots()[k] is None,
    ensures
        partial(g, cv, row.push(None), edges, outside.push((conn_at(x, k), v)), x, k + 1),
{
    let row2 = row.push(None);
    let out2 = outside.push((conn_at(x, k), v));
    assert forall|z: int, m: int| 0 <= z < g.len() && 0 <= m < g[z].slots().len() && done(x, k + 1, z, m) implies
        #[trigger] ref_at(cv, row2, x, z, m) == (if z == x && m == k { None } else { ref_at(cv, row, x, z, m) }) by {
    }
    assert forall|e: int| 0 <= e < edges.len() implies #[trigger] edge_part(g, cv, row2, x, k + 1, edges[e].spec_a(), edges[e].spec_b(), e) by {
        assert(edge_part(g, cv, row, x, k, edges[e].spec_a(), edges[e].spec_b(), e));
        let b = edges[e].spec_b();
        if b.id == x && b.side == k {
            assert(g[x].slots()[k] is Some) by {
                let a = edges[e].spec_a();
                lemma_slot_of(g[b.id as int].slots(), a.id);
            }
        }
    }
    assert forall|o: int, p: int| 0 <= o < p < out2.len() implies conn_before(#[trigger] out2[o].0, #[trigger] out2[p].0) by {
        if p == outside.len() {
            assert(boundary_ok(g, outside[o].0));
            assert(done(x, k, outside[o].0.id as int, outside[o].0.side as int));
        }
    }
    assert forall|z: int, m: int| 0 <= z < g.len() && 0 <= m < g[z].slots().len() && done(x, k + 1, z, m)
        && #[trigger] g[z].slots()[m] is None implies exists|o: int| 0 <= o < out2.len() && #[trigger] out2[o].0 == conn_at(z, m) by {
        if z == x && m == k {
            assert(out2[outside.len() as int].0 == conn_at(z, m));
        } else {
            let o = choose|o: int| 0 <= o < outside.len() && #[trigger] outside[o].0 == conn_at(z, m);
            assert(out2[o].0 == conn_at(z, m));
        }
    }
    assert forall|o: int| 0 <= o < out2.len() implies #[trigger] boundary_ok(g, out2[o].0)
        && done(x, k + 1, out2[o].0.id as int, out2[o].0.side as int) by {
        if o < outside.len() {
            assert(boundary_ok(g, outside[o].0));
        } else {
            assert(g[x].slots().len() <= usize::MAX);
        }
    }
    assert forall|z: int, m: int| 0 <= z < g.len() && 0 <= m < g[z].slots().len() && done(x, k + 1, z, m)
        && #[trigger] ref_at(cv, row2, x, z, m) is Some implies ref_at(cv, row2, x, z, m).unwrap() < edges.len() && (
            edges[ref_at(cv, row2, x, z, m).unwrap() as int].spec_a() == conn_at(z, m)
            || edges[ref_at(cv, row2, x, z, m).unwrap() as int].spec_b() == conn_at(z, m)) by {
        assert(ref_at(cv, row, x, z, m) is Some);
    }
    assert forall|z: int, m: int| 0 <= z < g.len() && 0 <= m < g[z].slots().len() && done(x, k + 1, z, m) implies (
        #[trigger] ref_at(cv, row2, x, z, m) is Some <==> g[z].slots()[m] is Some) by {
        if !(z == x && m == k) {
            assert(done(x, k, z, m));
        }
    }
    assert(forall|e: int, f: int| 0 <= e < f < edges.len() ==> conn_before(#[trigger] edges[e].spec_a(), #[trigger] edges[f].spec_a()));
    assert(forall|z: int| 0 <= z < x ==> #[trigger] cv[z].len() == g[z].slots().len());
    assert(row2.len() == k + 1);
    assert(forall|o: int| 0 <= o < out2.len() ==> #[trigger] boundary_ok(g, out2[o].0)
        && done(x, k + 1, out2[o].0.id as int, out2[o].0.side as int));
    assert(forall|o: int, p: int| 0 <= o < p < out2.len() ==> conn_before(#[trigger] out2[o].0, #[trigger] out2[p].0));
    assert(forall|z: int, m: int| 0 <= z < g.len() && 0 <= m < g[z].slots().len() && done(x, k + 1, z, m)
        && #[trigger] g[z].slots()[m] is None ==> exists|o: int| 0 <= o < out2.len() && #[trigger] out2[o].0 == conn_at(z, m));
    assert(forall|e: int| 0 <= e < edges.len() ==> #[trigger] edge_part(g, cv, row2, x, k + 1, edges[e].spec_a(), edges[e].spec_b(), e));
    assert(0 <= x <= g.len());
    assert(g.len() <= usize::MAX);
    assert(forall|z: int| 0 <= z < g.len() ==> #[trigger] g[z].slots().len() <= usize::MAX);
    assert(cv.len() == x);
    assert(x < g.len() ==> k + 1 <= g[x].slots().len());
    assert(forall|z: int, m: int| 0 <= z < g.len() && 0 <= m < g[z].slots().len() && done(x, k + 1, z, m) ==> (
        #[trigger] ref_at(cv, row2, x, z, m) is Some <==> g[z].slots()[m] is Some));
    assert(partial(g, cv, row2, edges, out2, x, k + 1));
}

proof fn lemma_step_alias<C: Node, V>(
    g: Seq<C>,
    cv: Seq<Seq<Option<usize>>>,
    row: Seq<Option<usize>>,
    edges: Seq<UndirEdge<V>>,
    outside: Seq<(Conn, V)>,
    x: int,
    k: int,
    y: int,
    j: int,
)
    requires
        partial(g, cv, row, edges, outside, x, k),
        cells_wf(g),
        x < g.len(),
        k < g[x].slots().len(),
        g[x].slots()[k] == Some(y as usize),
        0 <= y < x,
        slot_of(g[y].slots(), x as usize) == Some(j),
    ensures
        cv[y][j] is Some,
        partial(g, cv, row.push(cv[y][j]), edges, outside, x, k + 1),
{
    lemma_slot_of(g[y].slots(), x as usize);
    assert(cell_ok(g, x));
    assert(slot_ok(g, x, k));
    assert(is_first_slot(g[x].slots(), y as usize, k));
    lemma_first_slot_unique(g[x].slots(), y as usize, k);
    assert(ref_at(cv, row, x, y, j) is Some);
    let e = cv[y][j].unwrap() as int;
    assert(edge_part(g, cv, row, x, k, edges[e].spec_a(), edges[e].spec_b(), e));
    if edges[e].spec_b() == conn_at(y, j) {
        lemma_slot_of(g[y].slots(), edges[e].spec_a().id);
    }
    assert(edges[e].spec_a() == conn_at(y, j));
    assert(edges[e].spec_b() == conn_at(x, k));
    let row2 = row.push(cv[y][j]);
    assert forall|z: int, m: int| 0 <= z < g.len() && 0 <= m < g[z].slots().len() && done(x, k + 1, z, m) implies
        #[trigger] ref_at(cv, row2, x, z, m) == (if z == x && m == k { Some(e as usize) } else { ref_at(cv, row, x, z, m) }) by {
    }
    assert forall|f: int| 0 <= f < edges.len() implies #[trigger] edge_part(g, cv, row2, x, k + 1, edges[f].spec_a(), edges[f].spec_b(), f) by {
        assert(edge_part(g, cv, row, x, k, edges[f].spec_a(), edges[f].spec_b(), f));
        let a = edges[f].spec_a();
        let b = edges[f].spec_b();
        if b.id == x && b.side == k {
            lemma_slot_of(g[x].slots(), a.id);
            assert(a.id == y);
            assert(cell_ok(g, y));
            assert(slot_ok(g, y, a.side as int));
            assert(a.side == j);
        }
    }
    assert forall|z: int, m: int| 0 <= z < g.len() && 0 <= m < g[z].slots().len() && done(x, k + 1, z, m)
        && #[trigger] ref_at(cv, row2, x, z, m) is Some implies ref_at(cv, row2, x, z, m).unwrap() < edges.len() && (
            edges[ref_at(cv, row2, x, z, m).unwrap() as int].spec_a() == conn_at(z, m)
            || edges[ref_at(cv, row2, x, z, m).unwrap() as int].spec_b() == conn_at(z, m)) by {
        if !(z == x && m == k) {
            assert(ref_at(cv, row, x, z, m) is Some);
        }
    }
    assert forall|o: int| 0 <= o < outside.len() implies #[trigger] boundary_ok(g, outside[o].0)
        && done(x, k + 1, outside[o].0.id as int, outside[o].0.side as int) by {
        assert(boundary_ok(g, outside[o].0));
    }
    assert forall|z: int, m: int| 0 <= z < g.len() && 0 <= m < g[z].slots().len() && done(x, k + 1, z, m)
        && #[trigger] g[z].slots()[m] is None implies exists|o: int| 0 <= o < outside.len() && #[trigger] outside[o].0 == conn_at(z, m) by {
        assert(done(x, k, z, m));
    }
    assert forall|z: int, m: int| 0 <= z < g.len() && 0 <= m < g[z].slots().len() && done(x, k + 1, z, m) implies (
        #[trigger] ref_at(cv, row2, x, z, m) is Some <==> g[z].slots()[m] is Some) by {
        if !(z == x && m == k) {
            assert(done(x, k, z, m));
        }
    }
}

#[verifier::spinoff_prover]
proof fn lemma_step_new<C: Node, V>(
    g: Seq<C>,
    cv: Seq<Seq<Option<usize>>>,
    row: Seq<Option<usize>>,
    edges: Seq<UndirEdge<V>>,
    outside: Seq<(Conn, V)>,
    x: int,
    k: int,
    y: int,
    j: int,
    ed: UndirEdge<V>,
)
    requires
        partial(g, cv, row, edges, outside, x, k),
        cells_wf(g),
        x < g.len(),
        k < g[x].slots().len(),
        g[x].slots()[k] == Some(y as usize),
        x < y < g.len(),
        slot_of(g[y].slots(), x as usize) == Some(j),
        ed.spec_a() == conn_at(x, k),
        ed.spec_b() == conn_at(y, j),
        edges.len() <= usize::MAX,
    ensures
        partial(g, cv, row.push(Some(edges.len() as usize)), edges.push(ed), outside, x, k + 1),
{
    lemma_slot_of(g[y].slots(), x as usize);
    assert(cell_ok(g, x));
    assert(slot_ok(g, x, k));
    let row2 = row.push(Some(edges.len() as usize));
    let edges2 = edges.push(ed);
    assert forall|z: int, m: int| 0 <= z < g.len() && 0 <= m < g[z].slots().len() && done(x, k + 1, z, m) implies
        #[trigger] ref_at(cv, row2, x, z, m) == (if z == x && m == k { Some(edges.len() as usize) } else { ref_at(cv, row, x, z, m) }) by {
    }
    assert forall|f: int| 0 <= f < edges2.len() implies #[trigger] edge_part(g, cv, row2, x, k + 1, edges2[f].spec_a(), edges2[f].spec_b(), f) by {
        if f == edges.len() {
            assert(edges2[f] == ed);
            assert(is_first_slot(g[y].slots(), x as usize, j));
            assert(g[x].slots().len() <= usize::MAX);
            assert(g[y].slots().len() <= usize::MAX);
            assert(ed.spec_a().id as int == x);
            assert(ed.spec_a().side as int == k);
            assert(ed.spec_b().id as int == y);
            assert(ed.spec_b().side as int == j);
            assert(ref_at(cv, row2, x, x, k) == Some(f as usize));
            assert(!done(x, k + 1, y, j));
        } else {
            assert(edges2[f] == edges[f]);
            assert(edge_part(g, cv, row, x, k, edges[f].spec_a(), edges[f].spec_b(), f));
            let a = edges[f].spec_a();
            let b = edges[f].spec_b();
            if b.id == x && b.side == k {
                lemma_slot_of(g[x].slots(), a.id);
            }
        }
    }
    assert forall|e: int, f: int| 0 <= e < f < edges2.len() implies conn_before(#[trigger] edges2[e].spec_a(), #[trigger] edges2[f].spec_a()) by {
        if f == edges.len() {
            assert(edge_part(g, cv, row, x, k, edges[e].spec_a(), edges[e].spec_b(), e));
        }
    }
    assert forall|z: int, m: int| 0 <= z < g.len() && 0 <= m < g[z].slots().len() && done(x, k + 1, z, m)
        && #[trigger] ref_at(cv, row2, x, z, m) is Some implies ref_at(cv, row2, x, z, m).unwrap() < edges2.len() && (
            edges2[ref_at(cv, row2, x, z, m).unwrap() as int].spec_a() == conn_at(z, m)
            || edges2[ref_at(cv, row2, x, z, m).unwrap() as int].spec_b() == conn_at(z, m)) by {
        if !(z == x && m == k) {
            assert(ref_at(cv, row, x, z, m) is Some);
            assert(edges2[ref_at(cv, row, x, z, m).unwrap() as int] == edges[ref_at(cv, row, x, z, m).unwrap() as int]);
        } else {
            assert(edges2[edges.len() as int] == ed);
        }
    }
    assert forall|o: int| 0 <= o < outside.len() implies #[trigger] boundary_ok(g, outside[o].0)
        && done(x, k + 1, outside[o].0.id as int, outside[o].0.side as int) by {
        assert(boundary_ok(g, outside[o].0));
    }
    assert forall|z: int, m: int| 0 <= z < g.len() && 0 <= m < g[z].slots().len() && done(x, k + 1, z, m)
        && #[trigger] g[z].slots()[m] is None implies exists|o: int| 0 <= o < outside.len() && #[trigger] outside[o].0 == conn_at(z, m) by {
        assert(done(x, k, z, m));
    }
    assert forall|z: int, m: int| 0 <= z < g.len() && 0 <= m < g[z].slots().len() && done(x, k + 1, z, m) implies (
        #[trigger] ref_at(cv, row2, x, z, m) is Some <==> g[z].slots()[m] is Some) by {
        if !(z == x && m == k) {
            assert(done(x, k, z, m));
        } else {
            assert(ref_at(cv, row2, x, z, m) == Some(edges.len() as usize));
        }
    }
    let ed2 = edges.push(ed);
    assert(forall|o: int, p: int| 0 <= o < p < outside.len() ==> conn_before(#[trigger] outside[o].0, #[trigger] outside[p].0));
    assert(forall|z: int| 0 <= z < x ==> #[trigger] cv[z].len() == g[z].slots().len());
    assert(row2.len() == k + 1);
    assert(forall|e: int, f: int| 0 <= e < f < ed2.len() ==> conn_before(#[trigger] ed2[e].spec_a(), #[trigger] ed2[f].spec_a()));
    assert(forall|e: int| 0 <= e < ed2.len() ==> #[trigger] edge_part(g, cv, row2, x, k + 1, ed2[e].spec_a(), ed2[e].spec_b(), e));
}
#[verifier::spinoff_prover]
proof fn lemma_row_end<C: Node, V>(
    g: Seq<C>,
    cv: Seq<Seq<Option<usize>>>,
    row: Seq<Option<usize>>,
    edges: Seq<UndirEdge<V>>,
    outside: Seq<(Conn, V)>,
    x: int,
)
    requires
        x < g.len(),
        partial(g, cv, row, edges, outside, x, g[x].slots().len() as int),
    ensures
        partial(g, cv.push(row), Seq::empty(), edges, outside, x + 1, 0),
{
    let k = g[x].slots().len() as int;
    let cv2 = cv.push(row);
    let e0 = Seq::<Option<usize>>::empty();
    assert forall|z: int, m: int| 0 <= z < g.len() && 0 <= m < g[z].slots().len() implies
        (z <= x ==> #[trigger] ref_at(cv2, e0, x + 1, z, m) == ref_at(cv, row, x, z, m)) && (done(x + 1, 0, z, m) == done(x, k, z, m)) by {
    }
    assert forall|f: int| 0 <= f < edges.len() implies #[trigger] edge_part(g, cv2, e0, x + 1, 0, edges[f].spec_a(), edges[f].spec_b(), f) by {
        assert(edge_part(g, cv, row, x, k, edges[f].spec_a(), edges[f].spec_b(), f));
        let a = edges[f].spec_a();
        let b = edges[f].spec_b();
        lemma_slot_of(g[b.id as int].slots(), a.id);
    }
    assert forall|o: int| 0 <= o < outside.len() implies #[trigger] boundary_ok(g, outside[o].0)
        && done(x + 1, 0, outside[o].0.id as int, outside[o].0.side as int) by {
        assert(boundary_ok(g, outside[o].0));
    }
    assert forall|z: int, m: int| 0 <= z < g.len() && 0 <= m < g[z].slots().len() && done(x + 1, 0, z, m)
        && #[trigger] ref_at(cv2, e0, x + 1, z, m) is Some implies ref_at(cv2, e0, x + 1, z, m).unwrap() < edges.len() && (
            edges[ref_at(cv2, e0, x + 1, z, m).unwrap() as int].spec_a() == conn_at(z, m)
            || edges[ref_at(cv2, e0, x + 1, z, m).unwrap() as int].spec_b() == conn_at(z, m)) by {
        assert(ref_at(cv, row, x, z, m) is Some);
    }
    assert forall|z: int, m: int| 0 <= z < g.len() && 0 <= m < g[z].slots().len() && done(x + 1, 0, z, m) implies (
        #[trigger] ref_at(cv2, e0, x + 1, z, m) is Some <==> g[z].slots()[m] is Some) by {
        assert(done(x, k, z, m));
    }
    assert forall|z: int, m: int| 0 <= z < g.len() && 0 <= m < g[z].slots().len() && done(x + 1, 0, z, m)
        && #[trigger] g[z].slots()[m] is None implies exists|o: int| 0 <= o < outside.len() && #[trigger] outside[o].0 == conn_at(z, m) by {
        assert(done(x, k, z, m));
    }
    assert forall|z: int| 0 <= z < x + 1 implies #[trigger] cv2[z].len() == g[z].slots().len() by {
        if z < x {
            assert(cv2[z] == cv[z]);
        }
    }
}

proof fn lemma_finish<C: Node, V>(
    g: Seq<C>,
    cv: Seq<Seq<Option<usize>>>,
    edges: Seq<UndirEdge<V>>,
    outside: Seq<(Conn, V)>,
)
    requires
        partial(g, cv, Seq::empty(), edges, outside, g.len() as int, 0),
    ensures
        index_holds(g, cv, edges, outside),
{
    let n = g.len() as int;
    let e0 = Seq::<Option<usize>>::empty();
    assert forall|z: int, m: int| 0 <= z < g.len() && 0 <= m < g[z].slots().len() implies
        #[trigger] ref_at(cv, e0, n, z, m) == cv[z][m] && done(n, 0, z, m) by {
    }
    assert forall|f: int| 0 <= f < edges.len() implies #[trigger] edge_ok(g, cv, edges[f].spec_a(), edges[f].spec_b(), f) by {
        assert(edge_part(g, cv, e0, n, 0, edges[f].spec_a(), edges[f].spec_b(), f));
    }
    assert forall|x: int, k: int| 0 <= x < g.len() && 0 <= k < g[x].slots().len() ==> (
        #[trigger] cv[x][k] is Some <==> g[x].slots()[k] is Some) by {
        if 0 <= x < g.len() && 0 <= k < g[x].slots().len() {
            assert(ref_at(cv, e0, n, x, k) == cv[x][k]);
        }
    }
    assert forall|x: int, k: int| 0 <= x < g.len() && 0 <= k < g[x].slots().len() && #[trigger] cv[x][k] is Some
        implies cv[x][k].unwrap() < edges.len() && (
            edges[cv[x][k].unwrap() as int].spec_a() == conn_at(x, k)
            || edges[cv[x][k].unwrap() as int].spec_b() == conn_at(x, k)) by {
        assert(ref_at(cv, e0, n, x, k) == cv[x][k]);
    }
    assert forall|x: int, k: int| 0 <= x < g.len() && 0 <= k < g[x].slots().len() && #[trigger] g[x].slots()[k] is None
        implies exists|o: int| 0 <= o < outside.len() && #[trigger] outside[o].0 == conn_at(x, k) by {
        assert(done(n, 0, x, k));
    }
}

/// An index that describes a grid refers only to existing records.
pub proof fn lemma_index_refs<C: Node, V>(g: Seq<C>, idx: Undirected<V>)
    requires
        idx.indexes(g),
    ensures
        idx.refs_ok(),
{
    assert forall|x: int, k: int| 0 <= x < idx.spec_cells().len() && 0 <= k < idx.spec_cells()[x].len()
        && #[trigger] idx.spec_cells()[x][k] is Some implies idx.spec_cells()[x][k].unwrap() < idx.spec_edges().len() by {
        assert(idx.spec_cells()[x].len() == g[x].slots().len());
    }
}

/// What `set_edge_value(id, n, value)` leaves behind in `after` when it succeeds on `before`.
pub open spec fn set_post<V>(before: Undirected<V>, after: Undirected<V>, id: usize, n: usize, value: V) -> bool {
    &&& before.lookup_error(id, n) is None
    &&& after.spec_cells() == before.spec_cells()
    &&& after.spec_edges().len() == before.spec_edges().len()
    &&& forall|e: int| 0 <= e < before.spec_edges().len() ==> (#[trigger] after.spec_edges()[e]).spec_value()
        == value_after_set(before.spec_edges()[e].spec_value(), e == before.spec_cells()[id as int][n as int].unwrap(), value)
}

/// Edge dedup: for two adjacent cells `a` and `b`, where slot `i` of `a` holds `b` and slot
/// `j` of `b` holds `a`, both slots refer to one edge record, so reading either gives the
/// same payload, and a payload written through either is read through the other.
pub proof fn lemma_edge_shared<C: Node, V>(
    g: Seq<C>,
    idx: Undirected<V>,
    written: Undirected<V>,
    a: int,
    i: int,
    b: int,
    j: int,
    value: V,
)
    requires
        cells_wf(g),
        g.len() <= usize::MAX,
        idx.indexes(g),
        0 <= a < g.len(),
        0 <= i < g[a].slots().len(),
        0 <= b < g.len(),
        g[a].slots()[i] == Some(b as usize),
        0 <= j < g[b].slots().len(),
        g[b].slots()[j] == Some(a as usize),
        set_post(idx, written, a as usize, i as usize, value),
    ensures
        idx.lookup_error(a as usize, i as usize) is None,
        idx.lookup_error(b as usize, j as usize) is None,
        idx.spec_cells()[a][i] == idx.spec_cells()[b][j],
        idx.spec_edge_value(a, i) == idx.spec_edge_value(b, j),
        written.spec_edge_value(a, i) == value,
        written.spec_edge_value(b, j) == value,
{
    let cells = idx.spec_cells();
    let edges = idx.spec_edges();
    crate::graphs::orth::lemma_slot_linked(g, a, i);
    assert(cell_ok(g, a));
    assert(cell_ok(g, b));
    assert(slot_ok(g, b, j));
    assert(is_first_slot(g[b].slots(), a as usize, j));
    lemma_first_slot_unique(g[b].slots(), a as usize, j);
    assert(cells[a].len() == g[a].slots().len());
    assert(cells[b].len() == g[b].slots().len());
    assert(cells[a][i] is Some);
    let e = cells[a][i].unwrap() as int;
    assert(edge_ok(g, cells, edges[e].spec_a(), edges[e].spec_b(), e));
    let ea = edges[e].spec_a();
    let eb = edges[e].spec_b();
    lemma_slot_of(g[eb.id as int].slots(), ea.id);
    assert(conn_at(a, i).id as int == a);
    assert(conn_at(a, i).side as int == i);
    if ea == conn_at(a, i) {
        assert(g[a].slots()[i] == Some(eb.id));
        assert(eb.id as int == b);
        assert(eb.side as int == j);
    } else {
        assert(eb == conn_at(a, i));
        assert(is_first_slot(g[a].slots(), ea.id, i));
        assert(ea.id as int == b);
        assert(cell_ok(g, ea.id as int));
        assert(slot_ok(g, ea.id as int, ea.side as int));
        assert(ea.side as int == j);
    }
    assert(cells[b][j] == Some(e as usize));
}

/// `c` is a slot of the grid that holds no neighbor.
pub open spec fn boundary_ok<C: Node>(g: Seq<C>, c: Conn) -> bool {
    c.id < g.len() && c.side < g[c.id as int].slots().len() && g[c.id as int].slots()[c.side as int] is None
}

} // verus!
