use crate::graphs::orth::{walk, cells_wf, lemma_linked_slot, lemma_slot_linked, linked, Orth};
use crate::graphs::{lemma_some_ids_len, lemma_some_ids_update, some_ids, Node};
use crate::util::AddUpdate;
use vstd::prelude::*;

verus! {

/// Every cell with a positive distance `k` is linked to a cell at distance `k - 1`.
pub open spec fn parents_ok<C: Node>(g: Seq<C>, d: Seq<Option<usize>>) -> bool {
    forall|v: int| 0 <= v < d.len() && #[trigger] d[v] is Some && d[v].unwrap() > 0 ==> exists|u: int|
        #[trigger] linked(g, v, u) && d[u] == Some((d[v].unwrap() - 1) as usize)
}

/// Every cell linked to `u` has a distance at most one more than that of `u`.
pub open spec fn closed_at<C: Node>(g: Seq<C>, d: Seq<Option<usize>>, u: int) -> bool {
    forall|v: int| #[trigger] linked(g, u, v) ==> d[v] is Some && d[v].unwrap() <= d[u].unwrap() + 1
}

/// `d` holds the breadth-first distances over the links of `g` from `start`: the start is
/// at 0 and is the only cell there, each other recorded cell has a linked cell one step
/// nearer, and no link leads from a recorded cell to an unrecorded one or skips a level.
/// With a start outside the grid nothing is recorded.
pub open spec fn is_distance_map<C: Node>(g: Seq<C>, d: Seq<Option<usize>>, start: int) -> bool {
    &&& d.len() == g.len()
    &&& 0 <= start < g.len() ==> d[start] == Some(0usize)
    &&& !(0 <= start < g.len()) ==> forall|v: int| 0 <= v < d.len() ==> #[trigger] d[v] is None
    &&& forall|v: int| 0 <= v < d.len() && #[trigger] d[v] == Some(0usize) ==> v == start
    &&& parents_ok(g, d)
    &&& forall|u: int| 0 <= u < d.len() && #[trigger] d[u] is Some ==> closed_at(g, d, u)
}

/// `m` is the greatest recorded distance, or 0 where nothing is recorded.
pub open spec fn is_max_of(d: Seq<Option<usize>>, m: usize) -> bool {
    &&& forall|v: int| 0 <= v < d.len() && #[trigger] d[v] is Some ==> d[v].unwrap() <= m
    &&& (m > 0 ==> exists|v: int| 0 <= v < d.len() && #[trigger] d[v] == Some(m))
}

/// Recorded distances stay as they are.
pub open spec fn grows(d: Seq<Option<usize>>, e: Seq<Option<usize>>) -> bool {
    &&& d.len() == e.len()
    &&& forall|v: int| 0 <= v < d.len() && #[trigger] d[v] is Some ==> e[v] == d[v]
}

proof fn lemma_closed_grows<C: Node>(g: Seq<C>, d: Seq<Option<usize>>, e: Seq<Option<usize>>, u: int)
    requires
        grows(d, e),
        d.len() == g.len(),
        0 <= u < d.len(),
        d[u] is Some,
        closed_at(g, d, u),
    ensures
        closed_at(g, e, u),
{
    assert forall|v: int| #[trigger] linked(g, u, v) implies e[v] is Some && e[v].unwrap() <= e[u].unwrap() + 1 by {
        assert(d[v] is Some);
    }
}

/// A distance map of a start is unique: two maps that both satisfy `is_distance_map` for
/// the same grid and start agree on every cell, so the contract of `Dist::simple` fixes its
/// result.
pub proof fn lemma_distance_map_unique<C: Node>(g: Seq<C>, d1: Seq<Option<usize>>, d2: Seq<Option<usize>>, start: int)
    requires
        cells_wf(g),
        g.len() <= usize::MAX,
        is_distance_map(g, d1, start),
        is_distance_map(g, d2, start),
    ensures
        d1 == d2,
{
    assert forall|v: int| 0 <= v < d1.len() implies #[trigger] d1[v] == d2[v] by {
        if d1[v] is Some {
            lemma_bounded_by(g, d1, d2, start, v, d1[v].unwrap() as int);
            lemma_bounded_by(g, d2, d1, start, v, d2[v].unwrap() as int);
        } else if d2[v] is Some {
            lemma_bounded_by(g, d2, d1, start, v, d2[v].unwrap() as int);
        }
    }
    assert(d1 =~= d2);
}

/// A cell at distance `k` in one distance map is at distance at most `k` in another.
proof fn lemma_bounded_by<C: Node>(g: Seq<C>, d1: Seq<Option<usize>>, d2: Seq<Option<usize>>, start: int, v: int, k: int)
    requires
        cells_wf(g),
        g.len() <= usize::MAX,
        is_distance_map(g, d1, start),
        is_distance_map(g, d2, start),
        0 <= v < d1.len(),
        d1[v] == Some(k as usize),
        0 <= k <= usize::MAX,
    ensures
        d2[v] is Some,
        d2[v].unwrap() <= k,
    decreases k,
{
    if k == 0 {
        assert(d1[v] == Some(0usize));
    } else {
        assert(d1[v] is Some && d1[v].unwrap() > 0);
        let u = choose|u: int| #[trigger] linked(g, v, u) && d1[u] == Some((d1[v].unwrap() - 1) as usize);
        crate::graphs::orth::lemma_linked_symmetric(g, v, u);
        lemma_bounded_by(g, d1, d2, start, u, k - 1);
        assert(closed_at(g, d2, u));
        assert(linked(g, u, v));
    }
}

/// The distances of a distance map are hop counts: a cell has a distance exactly when it
/// can be reached from the start over links, and its distance is the fewest links that
/// reach it. So every reachable cell is recorded, and no unreachable one is.
pub proof fn lemma_distance_is_hops<C: Node>(g: Seq<C>, d: Seq<Option<usize>>, start: int, v: int)
    requires
        cells_wf(g),
        g.len() <= usize::MAX,
        is_distance_map(g, d, start),
        0 <= v < g.len(),
    ensures
        d[v] is Some ==> walk(g, start, v, d[v].unwrap() as nat),
        forall|n: nat| #[trigger] walk(g, start, v, n) ==> d[v] is Some && d[v].unwrap() <= n,
{
    if d[v] is Some {
        lemma_recorded_walk(g, d, start, v, d[v].unwrap() as nat);
    }
    assert forall|n: nat| #[trigger] walk(g, start, v, n) implies d[v] is Some && d[v].unwrap() <= n by {
        lemma_walk_recorded(g, d, start, v, n);
    }
}

proof fn lemma_recorded_walk<C: Node>(g: Seq<C>, d: Seq<Option<usize>>, start: int, v: int, k: nat)
    requires
        cells_wf(g),
        g.len() <= usize::MAX,
        is_distance_map(g, d, start),
        0 <= v < g.len(),
        k <= usize::MAX,
        d[v] == Some(k as usize),
    ensures
        walk(g, start, v, k),
    decreases k,
{
    if k == 0 {
        assert(d[v] == Some(0usize));
    } else {
        assert(d[v] is Some && d[v].unwrap() > 0);
        let u = choose|u: int| #[trigger] linked(g, v, u) && d[u] == Some((d[v].unwrap() - 1) as usize);
        crate::graphs::orth::lemma_linked_symmetric(g, v, u);
        lemma_recorded_walk(g, d, start, u, (k - 1) as nat);
        assert(linked(g, u, v));
    }
}

proof fn lemma_walk_recorded<C: Node>(g: Seq<C>, d: Seq<Option<usize>>, start: int, v: int, n: nat)
    requires
        cells_wf(g),
        is_distance_map(g, d, start),
        walk(g, start, v, n),
    ensures
        0 <= v < g.len(),
        d[v] is Some,
        d[v].unwrap() <= n,
    decreases n,
{
    if n > 0 {
        if walk(g, start, v, (n - 1) as nat) {
            lemma_walk_recorded(g, d, start, v, (n - 1) as nat);
        } else {
            let u = choose|u: int| #[trigger] linked(g, u, v) && walk(g, start, u, (n - 1) as nat);
            lemma_walk_recorded(g, d, start, u, (n - 1) as nat);
            assert(closed_at(g, d, u));
        }
    }
}

/// Hop distances from one cell of a grid, over its links.
#[derive(Clone, Debug)]
pub struct Dist {
    dist: Vec<Option<usize>>,
    start: usize,
    max: usize,
}

impl Dist {
    /// The recorded distance of each cell.
    pub closed spec fn spec_dist(&self) -> Seq<Option<usize>> {
        self.dist@
    }

    pub closed spec fn spec_start(&self) -> usize {
        self.start
    }

    pub closed spec fn spec_max(&self) -> usize {
        self.max
    }

    /// The breadth-first distances from `start` over the links of `graph`.
    pub fn simple<C: Node>(graph: &Orth<C>, start: usize) -> (r: Self)
        requires
            graph.wf(),
        ensures
            r.spec_start() == start,
            is_distance_map(graph.spec_cells(), r.spec_dist(), start as int),
            is_max_of(r.spec_dist(), r.spec_max()),
    {
        distance_simple(graph, start)
    }

    pub(crate) fn blank<C: Node>(graph: &Orth<C>) -> (r: Self)
        requires
            graph.wf(),
        ensures
            r.spec_dist().len() == graph.spec_len(),
            forall|v: int| 0 <= v < r.spec_dist().len() ==> #[trigger] r.spec_dist()[v] is None,
            r.spec_start() == 0,
            r.spec_max() == 0,
    {
        let n = graph.len();
        let mut dist: Vec<Option<usize>> = Vec::new();
        let mut i: usize = 0;
        while i < n
            invariant
                i <= n,
                dist@.len() == i,
                forall|v: int| 0 <= v < i ==> #[trigger] dist@[v] is None,
            decreases n - i,
        {
            dist.push(None);
            i = i + 1;
        }
        Dist { dist, start: 0, max: 0 }
    }

    /// The distance of cell `id`; `None` where it was not reached or lies outside the grid.
    pub fn dist(&self, id: usize) -> (r: Option<usize>)
        ensures
            r == (if id < self.spec_dist().len() { self.spec_dist()[id as int] } else { None }),
    {
        if id >= self.dist.len() {
            return None;
        }
        self.dist[id]
    }

    /// The greatest distance recorded.
    pub fn max(&self) -> (r: usize)
        ensures
            r == self.spec_max(),
    {
        self.max
    }

    pub fn set_max(&mut self, max: usize)
        ensures
            final(self).spec_max() == max,
            final(self).spec_dist() == old(self).spec_dist(),
            final(self).spec_start() == old(self).spec_start(),
    {
        self.max = max;
    }

    /// The cell the distances were measured from.
    pub fn source(&self) -> (r: usize)
        ensures
            r == self.spec_start(),
    {
        self.start
    }

    fn start(&mut self, start: usize)
        ensures
            final(self).spec_start() == start,
            final(self).spec_dist() == old(self).spec_dist(),
            final(self).spec_max() == old(self).spec_max(),
    {
        self.start = start;
    }

    /// Records `dist` for `id`, or lowers what is there to `dist`.
    fn add(&mut self, id: usize, dist: usize) -> (r: AddUpdate)
        requires
            id < old(self).spec_dist().len(),
        ensures
            final(self).spec_start() == old(self).spec_start(),
            final(self).spec_max() == old(self).spec_max(),
            match old(self).spec_dist()[id as int] {
                None => r == AddUpdate::Added
                    && final(self).spec_dist() == old(self).spec_dist().update(id as int, Some(dist)),
                Some(d) => if dist < d {
                    r == AddUpdate::Updated
                        && final(self).spec_dist() == old(self).spec_dist().update(id as int, Some(dist))
                } else {
                    r == AddUpdate::Exists && final(self).spec_dist() == old(self).spec_dist()
                },
            },
    {
        match self.dist(id) {
            Some(d) => {
                if dist < d {
                    self.dist.set(id, Some(dist));
                    return AddUpdate::Updated;
                }
                AddUpdate::Exists
            },
            None => {
                self.dist.set(id, Some(dist));
                AddUpdate::Added
            },
        }
    }
}

#[verifier::rlimit(50)]
pub(crate) fn distance_simple<C: Node>(graph: &Orth<C>, start: usize) -> (r: Dist)
    requires
        graph.wf(),
    ensures
        r.spec_start() == start,
        is_distance_map(graph.spec_cells(), r.spec_dist(), start as int),
        is_max_of(r.spec_dist(), r.spec_max()),
{
    let ghost g = graph.spec_cells();
    let n = graph.len();
    let mut dist = Dist::blank(graph);
    dist.start(start);
    if start >= n {
        return dist;
    }
    let mut max: usize = 0;
    let mut frontier: Vec<usize> = Vec::new();
    frontier.push(start);
    dist.add(start, 0);
    assert(frontier@[0] == start);
    let ghost mut level: int = 0;
    proof {
        lemma_some_ids_update(dist.spec_dist().update(start as int, None), start as int, Some(0usize));
        assert(dist.spec_dist().update(start as int, None) =~= unrecorded(n as int));
        lemma_some_ids_len(unrecorded(n as int));
        lemma_some_ids_len(dist.spec_dist());
    }
    while frontier.len() > 0
        invariant
            graph.wf(),
            g == graph.spec_cells(),
            n == g.len(),
            start < n,
            dist.spec_start() == start,
            dist.spec_dist().len() == n,
            dist.spec_dist()[start as int] == Some(0usize),
            forall|v: int| 0 <= v < n && #[trigger] dist.spec_dist()[v] == Some(0usize) ==> v == start,
            forall|v: int| 0 <= v < n && #[trigger] dist.spec_dist()[v] is Some ==> dist.spec_dist()[v].unwrap() <= level,
            parents_ok(g, dist.spec_dist()),
            forall|v: int| 0 <= v < n ==> (#[trigger] dist.spec_dist()[v] == Some(level as usize) <==> frontier@.contains(v as usize)),
            forall|j: int| 0 <= j < frontier@.len() ==> #[trigger] frontier@[j] < n,
            forall|u: int| 0 <= u < n && #[trigger] dist.spec_dist()[u] is Some && dist.spec_dist()[u].unwrap() < level
                ==> closed_at(g, dist.spec_dist(), u),
            is_max_of(dist.spec_dist(), max),
            0 <= level,
            level + (n - some_ids(dist.spec_dist()).len()) + frontier@.len() <= n,
            some_ids(dist.spec_dist()).len() <= n,
        decreases (n - some_ids(dist.spec_dist()).len()) + frontier@.len(),
    {
        let ghost d0 = dist.spec_dist();
        let ghost rec0 = some_ids(d0).len();
        let mut frontier2: Vec<usize> = Vec::new();
        let mut k: usize = 0;
        while k < frontier.len()
            invariant
                graph.wf(),
                g == graph.spec_cells(),
                n == g.len(),
                start < n,
                0 <= level < n,
                frontier@.len() > 0,
                k <= frontier@.len(),
                dist.spec_start() == start,
                dist.spec_dist().len() == n,
                grows(d0, dist.spec_dist()),
                dist.spec_dist()[start as int] == Some(0usize),
                forall|v: int| 0 <= v < n && #[trigger] dist.spec_dist()[v] == Some(0usize) ==> v == start,
                forall|v: int| 0 <= v < n && #[trigger] dist.spec_dist()[v] is Some ==> dist.spec_dist()[v].unwrap() <= level + 1,
                parents_ok(g, dist.spec_dist()),
                forall|v: int| 0 <= v < n ==> (#[trigger] dist.spec_dist()[v] == Some(level as usize) <==> frontier@.contains(v as usize)),
                forall|v: int| 0 <= v < n ==> (#[trigger] dist.spec_dist()[v] == Some((level + 1) as usize) <==> frontier2@.contains(v as usize)),
                forall|j: int| 0 <= j < frontier@.len() ==> #[trigger] frontier@[j] < n,
                forall|j: int| 0 <= j < frontier2@.len() ==> #[trigger] frontier2@[j] < n,
                forall|u: int| 0 <= u < n && #[trigger] d0[u] is Some && d0[u].unwrap() < level
                    ==> closed_at(g, d0, u),
                forall|j: int| 0 <= j < k ==> closed_at(g, dist.spec_dist(), #[trigger] frontier@[j] as int),
                is_max_of(dist.spec_dist(), max),
                max <= level + 1,
                some_ids(dist.spec_dist()).len() == rec0 + frontier2@.len(),
                rec0 == some_ids(d0).len(),
                forall|v: int| 0 <= v < n && #[trigger] d0[v] is None && dist.spec_dist()[v] is Some
                    ==> dist.spec_dist()[v] == Some((level + 1) as usize),
                some_ids(dist.spec_dist()).len() <= n,
            decreases frontier@.len() - k,
        {
            let cell = frontier[k];
            assert(frontier@.contains(cell));
            let d = dist.dist(cell).unwrap();
            let ghost dk = dist.spec_dist();
            visit_links(graph, &mut dist, &mut frontier2, &mut max, cell, d);
            proof {
                let e = dist.spec_dist();
                assert forall|v: int| 0 <= v < n && #[trigger] e[v] == Some(0usize) implies v == start by {
                    if dk[v] is Some {
                        assert(e[v] == dk[v]);
                    }
                }
                assert forall|v: int| 0 <= v < n implies (#[trigger] e[v] == Some(level as usize)
                    <==> frontier@.contains(v as usize)) by {
                    if dk[v] is Some {
                        assert(e[v] == dk[v]);
                    }
                }
                assert forall|v: int| 0 <= v < n && #[trigger] d0[v] is None && e[v] is Some
                    implies e[v] == Some((level + 1) as usize) by {
                    if dk[v] is Some {
                        assert(e[v] == dk[v]);
                    }
                }
            }
            proof {
                assert forall|j: int| 0 <= j < k + 1 implies closed_at(g, dist.spec_dist(), #[trigger] frontier@[j] as int) by {
                    if j < k {
                        lemma_closed_grows(g, dk, dist.spec_dist(), frontier@[j] as int);
                    }
                }
                assert forall|u: int| 0 <= u < n && #[trigger] d0[u] is Some && d0[u].unwrap() < level
                    implies closed_at(g, d0, u) by {
                }
            }
            k = k + 1;
        }
        proof {
            let e = dist.spec_dist();
            assert forall|u: int| 0 <= u < n && #[trigger] e[u] is Some && e[u].unwrap() < level + 1
                implies closed_at(g, e, u) by {
                if e[u].unwrap() < level {
                    assert(d0[u] is Some);
                    lemma_closed_grows(g, d0, e, u);
                } else {
                    assert(frontier@.contains(u as usize));
                    let j = choose|j: int| 0 <= j < frontier@.len() && frontier@[j] == u as usize;
                    assert(closed_at(g, e, frontier@[j] as int));
                }
            }
        }
        frontier = frontier2;
        proof {
            level = level + 1;
        }
    }
    proof {
        let e = dist.spec_dist();
        assert forall|u: int| 0 <= u < n && #[trigger] e[u] is Some implies closed_at(g, e, u) by {
            if e[u].unwrap() == level {
                assert(frontier@.contains(u as usize));
            }
        }
    }
    dist.set_max(max);
    dist
}

/// Records `d + 1` for every cell linked to `cell` that has no distance yet, and queues it.
fn visit_links<C: Node>(
    graph: &Orth<C>,
    dist: &mut Dist,
    frontier: &mut Vec<usize>,
    max: &mut usize,
    cell: usize,
    d: usize,
)
    requires
        graph.wf(),
        cell < graph.spec_len(),
        d < graph.spec_len(),
        old(dist).spec_dist().len() == graph.spec_len(),
        old(dist).spec_dist()[cell as int] == Some(d),
        forall|v: int| 0 <= v < graph.spec_len() && #[trigger] old(dist).spec_dist()[v] is Some
            ==> old(dist).spec_dist()[v].unwrap() <= d + 1,
        parents_ok(graph.spec_cells(), old(dist).spec_dist()),
        forall|v: int| 0 <= v < graph.spec_len() ==> (#[trigger] old(dist).spec_dist()[v] == Some((d + 1) as usize)
            <==> old(frontier)@.contains(v as usize)),
        forall|j: int| 0 <= j < old(frontier)@.len() ==> #[trigger] old(frontier)@[j] < graph.spec_len(),
        is_max_of(old(dist).spec_dist(), *old(max)),
        *old(max) <= d + 1,
        some_ids(old(dist).spec_dist()).len() <= graph.spec_len(),
    ensures
        grows(old(dist).spec_dist(), final(dist).spec_dist()),
        final(dist).spec_start() == old(dist).spec_start(),
        forall|v: int| 0 <= v < graph.spec_len() && #[trigger] old(dist).spec_dist()[v] is None
            && final(dist).spec_dist()[v] is Some ==> final(dist).spec_dist()[v] == Some((d + 1) as usize),
        forall|v: int| 0 <= v < graph.spec_len() && #[trigger] final(dist).spec_dist()[v] is Some
            ==> final(dist).spec_dist()[v].unwrap() <= d + 1,
        parents_ok(graph.spec_cells(), final(dist).spec_dist()),
        forall|v: int| 0 <= v < graph.spec_len() ==> (#[trigger] final(dist).spec_dist()[v] == Some((d + 1) as usize)
            <==> final(frontier)@.contains(v as usize)),
        forall|j: int| 0 <= j < final(frontier)@.len() ==> #[trigger] final(frontier)@[j] < graph.spec_len(),
        is_max_of(final(dist).spec_dist(), *final(max)),
        *final(max) <= d + 1,
        some_ids(final(dist).spec_dist()).len() + old(frontier)@.len() == some_ids(old(dist).spec_dist()).len()
            + final(frontier)@.len(),
        some_ids(final(dist).spec_dist()).len() <= graph.spec_len(),
        closed_at(graph.spec_cells(), final(dist).spec_dist(), cell as int),
{
    let ghost g = graph.spec_cells();
    let ghost n = graph.spec_len();
    let ghost d0 = dist.spec_dist();
    let ghost f0 = frontier@;
    let ghost start0 = dist.spec_start();
    let node = graph.node(cell);
    let m = node.max_neighbors();
    let mut i: usize = 0;
    while i < m
        invariant
            graph.wf(),
            g == graph.spec_cells(),
            n == g.len(),
            *node == g[cell as int],
            cell < n,
            d < n,
            m == node.slots().len(),
            i <= m,
            dist.spec_dist()[cell as int] == Some(d),
            dist.spec_start() == start0,
            dist.spec_dist().len() == n,
            grows(d0, dist.spec_dist()),
            forall|v: int| 0 <= v < n && #[trigger] d0[v] is None && dist.spec_dist()[v] is Some
                ==> dist.spec_dist()[v] == Some((d + 1) as usize),
            forall|v: int| 0 <= v < n && #[trigger] dist.spec_dist()[v] is Some ==> dist.spec_dist()[v].unwrap() <= d + 1,
            parents_ok(g, dist.spec_dist()),
            forall|v: int| 0 <= v < n ==> (#[trigger] dist.spec_dist()[v] == Some((d + 1) as usize)
                <==> frontier@.contains(v as usize)),
            forall|j: int| 0 <= j < frontier@.len() ==> #[trigger] frontier@[j] < n,
            forall|j: int| 0 <= j < i && #[trigger] node.link_slots()[j] is Some
                ==> dist.spec_dist()[node.slots()[j].unwrap() as int] is Some
                && dist.spec_dist()[node.slots()[j].unwrap() as int].unwrap() <= d + 1,
            is_max_of(dist.spec_dist(), *max),
            *max <= d + 1,
            some_ids(dist.spec_dist()).len() + f0.len() == some_ids(d0).len() + frontier@.len(),
            some_ids(dist.spec_dist()).len() <= n,
        decreases m - i,
    {
        proof {
            assert(crate::graphs::orth::cell_ok(g, cell as int));
            assert(crate::graphs::orth::slot_ok(g, cell as int, i as int));
        }
        let ghost before = dist.spec_dist();
        let ghost fb = frontier@;
        if node.linked_side(i) {
            if let Some(link) = node.neighbor(i) {
                proof {
                    lemma_slot_linked(g, cell as int, i as int);
                }
                let added = dist.add(link, d + 1);
                if added.added() {
                    proof {
                        lemma_some_ids_update(before, link as int, Some((d + 1) as usize));
                        lemma_some_ids_len(dist.spec_dist());
                        assert(linked(g, link as int, cell as int));
                    }
                    frontier.push(link);
                    proof {
                        assert forall|v: int| 0 <= v < n implies (#[trigger] dist.spec_dist()[v] == Some((d + 1) as usize)
                            <==> frontier@.contains(v as usize)) by {
                            if v == link as int {
                                assert(frontier@[frontier@.len() - 1] == link);
                            } else {
                                assert(dist.spec_dist()[v] == before[v]);
                                if fb.contains(v as usize) {
                                    let j = choose|j: int| 0 <= j < fb.len() && fb[j] == v as usize;
                                    assert(frontier@[j] == v as usize);
                                }
                                if frontier@.contains(v as usize) {
                                    let j = choose|j: int| 0 <= j < frontier@.len() && frontier@[j] == v as usize;
                                    assert(fb[j] == v as usize);
                                }
                            }
                        }
                    }
                    if d + 1 > *max {
                        *max = d + 1;
                    }
                }
                assert(dist.spec_dist()[link as int] is Some);
                assert(dist.spec_dist()[link as int].unwrap() <= d + 1);
            }
        }
        proof {
            assert forall|j: int| 0 <= j < i + 1 && #[trigger] node.link_slots()[j] is Some
                implies dist.spec_dist()[node.slots()[j].unwrap() as int] is Some
                && dist.spec_dist()[node.slots()[j].unwrap() as int].unwrap() <= d + 1 by {
                if j < i {
                    assert(crate::graphs::orth::slot_ok(g, cell as int, j));
                    assert(before[node.slots()[j].unwrap() as int] is Some);
                }
            }
        }
        i = i + 1;
    }
    proof {
        assert forall|v: int| #[trigger] linked(g, cell as int, v) implies dist.spec_dist()[v] is Some
            && dist.spec_dist()[v].unwrap() <= dist.spec_dist()[cell as int].unwrap() + 1 by {
            let s = lemma_linked_slot(g, cell as int, v);
            assert(node.link_slots()[s] is Some);
        }
    }
}

/// A map of `n` cells with no distance recorded.
spec fn unrecorded(n: int) -> Seq<Option<usize>> {
    Seq::new(n as nat, |i: int| None::<usize>)
}

} // verus!
