use crate::algo::dist::{is_distance_map, Dist};
use crate::error::Error;
use crate::graphs::orth::{cell_ok, lemma_linked_slot, lemma_slot_linked, linked, slot_ok, Orth};
use crate::graphs::Node;
use vstd::prelude::*;

verus! {

/// `u` is the neighbor that path reconstruction steps to from `v`: the first linked slot of
/// `v`, in slot order, whose neighbor lies one step nearer to the start.
pub open spec fn is_first_pred<C: Node>(g: Seq<C>, d: Seq<Option<usize>>, v: int, u: int) -> bool {
    0 <= v < g.len() && d[v] is Some && exists|i: int| {
        &&& 0 <= i < g[v].slots().len()
        &&& #[trigger] g[v].slots()[i] == Some(u as usize)
        &&& g[v].link_slots()[i] is Some
        &&& d[u] == Some((d[v].unwrap() - 1) as usize)
        &&& forall|j: int| 0 <= j < i && #[trigger] g[v].link_slots()[j] is Some
            ==> d[g[v].slots()[j].unwrap() as int] != Some((d[v].unwrap() - 1) as usize)
    }
}

/// An ordered list of cell ids with a reverse lookup from cell id to step number.
#[derive(Clone, Debug)]
pub struct Path {
    path: Vec<usize>,
    cells: Vec<Option<usize>>,
    max: Option<usize>,
}

impl Path {
    /// The cell ids, step by step.
    pub closed spec fn spec_path(&self) -> Seq<usize> {
        self.path@
    }

    /// The step number of each cell of the grid.
    pub closed spec fn spec_steps(&self) -> Seq<Option<usize>> {
        self.cells@
    }

    /// The step count used in place of the path's own when normalizing intensities.
    pub closed spec fn spec_max(&self) -> Option<usize> {
        self.max
    }

    /// The step lookup and the path agree: no cell appears twice.
    pub open spec fn wf(&self) -> bool {
        &&& forall|v: int| 0 <= v < self.spec_steps().len() && #[trigger] self.spec_steps()[v] is Some
            ==> self.spec_steps()[v].unwrap() < self.spec_path().len()
            && self.spec_path()[self.spec_steps()[v].unwrap() as int] == v
        &&& forall|k: int| 0 <= k < self.spec_path().len() ==> #[trigger] self.spec_path()[k] < self.spec_steps().len()
            && self.spec_steps()[self.spec_path()[k] as int] == Some(k as usize)
    }

    /// An empty path over a grid's cells.
    pub fn blank<C: Node>(graph: &Orth<C>) -> (r: Self)
        requires
            graph.wf(),
        ensures
            r.wf(),
            r.spec_path().len() == 0,
            r.spec_steps().len() == graph.spec_len(),
            r.spec_max() is None,
    {
        Self::empty(graph.len(), None)
    }

    pub(crate) fn with_capacity<C: Node>(graph: &Orth<C>, max: usize) -> (r: Self)
        requires
            graph.wf(),
        ensures
            r.wf(),
            r.spec_path().len() == 0,
            r.spec_steps().len() == graph.spec_len(),
            r.spec_max() == Some(max),
    {
        Self::empty(graph.len(), Some(max))
    }

    fn empty(n: usize, max: Option<usize>) -> (r: Self)
        ensures
            r.wf(),
            r.spec_path().len() == 0,
            r.spec_steps().len() == n,
            r.spec_max() == max,
    {
        let mut cells: Vec<Option<usize>> = Vec::new();
        let mut i: usize = 0;
        while i < n
            invariant
                i <= n,
                cells@.len() == i,
                forall|v: int| 0 <= v < i ==> #[trigger] cells@[v] is None,
            decreases n - i,
        {
            cells.push(None);
            i = i + 1;
        }
        Path { path: Vec::new(), cells, max }
    }

    /// The shortest path to `end` that `dist` describes over the links of `graph`.
    pub fn shortest_path<C: Node>(graph: &Orth<C>, dist: &Dist, end: usize) -> (r: Result<Self, Error>)
        requires
            graph.wf(),
            is_distance_map(graph.spec_cells(), dist.spec_dist(), dist.spec_start() as int),
        ensures
            shortest_path_spec(graph.spec_cells(), *dist, end, r),
    {
        shortest_path(graph, dist, end)
    }

    /// Appends `id` as the next step.
    pub fn add(&mut self, id: usize) -> (r: Result<(), Error>)
        requires
            old(self).wf(),
        ensures
            final(self).wf(),
            final(self).spec_max() == old(self).spec_max(),
            final(self).spec_steps().len() == old(self).spec_steps().len(),
            id >= old(self).spec_steps().len() ==> r == Err::<(), Error>(
                Error::InvalidId(id, old(self).spec_steps().len() as usize),
            ) && *final(self) == *old(self),
            id < old(self).spec_steps().len() && old(self).spec_steps()[id as int] is Some ==> r == Err::<(), Error>(
                Error::InvalidPathAdd(id),
            ) && *final(self) == *old(self),
            id < old(self).spec_steps().len() && old(self).spec_steps()[id as int] is None ==> r is Ok
                && final(self).spec_path() == old(self).spec_path().push(id)
                && final(self).spec_steps() == old(self).spec_steps().update(
                    id as int,
                    Some(old(self).spec_path().len() as usize),
                ),
    {
        if id >= self.cells.len() {
            return Err(Error::InvalidId(id, self.cells.len()));
        }
        if self.cells[id].is_none() {
            let k = self.path.len();
            self.cells.set(id, Some(k));
            self.path.push(id);
            Ok(())
        } else {
            Err(Error::InvalidPathAdd(id))
        }
    }

    /// The step number of cell `cell_id`, if the path passes through it.
    pub fn step_num(&self, cell_id: usize) -> (r: Option<usize>)
        ensures
            r == (if cell_id < self.spec_steps().len() { self.spec_steps()[cell_id as int] } else { None }),
    {
        if cell_id >= self.cells.len() {
            return None;
        }
        self.cells[cell_id]
    }

    /// The cell at step `step`.
    pub fn step(&self, step: usize) -> (r: usize)
        requires
            step < self.spec_path().len(),
        ensures
            r == self.spec_path()[step as int],
    {
        self.path[step]
    }

    /// The number of steps.
    pub fn len(&self) -> (r: usize)
        ensures
            r == self.spec_path().len(),
    {
        self.path.len()
    }

    pub fn is_empty(&self) -> (r: bool)
        ensures
            r == (self.spec_path().len() == 0),
    {
        self.path.len() == 0
    }

    pub fn max(&self) -> (r: Option<usize>)
        ensures
            r == self.spec_max(),
    {
        self.max
    }

    pub fn set_max(&mut self, max: Option<usize>)
        ensures
            final(self).spec_max() == max,
            final(self).spec_path() == old(self).spec_path(),
            final(self).spec_steps() == old(self).spec_steps(),
    {
        self.max = max;
    }

    /// Turns the path around, and each step number `s` into `m - s`, where `m` is the
    /// maximum override if there is one and the last step number otherwise.
    pub(crate) fn reverse(&mut self)
        requires
            old(self).spec_path().len() > 0 || old(self).spec_max() is Some,
            forall|v: int| 0 <= v < old(self).spec_steps().len() && #[trigger] old(self).spec_steps()[v] is Some
                ==> old(self).spec_steps()[v].unwrap() <= reverse_base(*old(self)),
        ensures
            final(self).spec_max() == old(self).spec_max(),
            final(self).spec_path().len() == old(self).spec_path().len(),
            forall|j: int| 0 <= j < old(self).spec_path().len() ==> #[trigger] final(self).spec_path()[j]
                == old(self).spec_path()[old(self).spec_path().len() - 1 - j],
            final(self).spec_steps().len() == old(self).spec_steps().len(),
            forall|v: int| 0 <= v < old(self).spec_steps().len() ==> #[trigger] final(self).spec_steps()[v] == match old(self).spec_steps()[v] {
                Some(s) => Some((reverse_base(*old(self)) - s) as usize),
                None => None,
            },
    {
        let ghost old_path = self.path@;
        let ghost old_cells = self.cells@;
        let mut rev: Vec<usize> = Vec::new();
        let n = self.path.len();
        let mut i: usize = n;
        while i > 0
            invariant
                i <= n,
                n == self.path@.len(),
                self.path@ == old_path,
                rev@.len() == n - i,
                forall|j: int| 0 <= j < n - i ==> #[trigger] rev@[j] == old_path[n - 1 - j],
            decreases i,
        {
            i = i - 1;
            rev.push(self.path[i]);
        }
        self.path = rev;
        let max = match self.max {
            Some(m) => m,
            None => n - 1,
        };
        let len = self.cells.len();
        let mut v: usize = 0;
        while v < len
            invariant
                v <= len,
                len == old_cells.len(),
                self.cells@.len() == len,
                self.path@.len() == old_path.len(),
                forall|j: int| 0 <= j < old_path.len() ==> #[trigger] self.path@[j] == old_path[old_path.len() - 1 - j],
                self.max == old(self).max,
                max == reverse_base(*old(self)),
                forall|w: int| 0 <= w < len && #[trigger] old_cells[w] is Some ==> old_cells[w].unwrap() <= max,
                forall|w: int| v <= w < len ==> #[trigger] self.cells@[w] == old_cells[w],
                forall|w: int| 0 <= w < v ==> #[trigger] self.cells@[w] == match old_cells[w] {
                    Some(s) => Some((max - s) as usize),
                    None => None,
                },
            decreases len - v,
        {
            if let Some(s) = self.cells[v] {
                self.cells.set(v, Some(max - s));
            }
            v = v + 1;
        }
    }
}

/// The last step number that `reverse` maps from.
pub open spec fn reverse_base(p: Path) -> int {
    match p.spec_max() {
        Some(m) => m as int,
        None => p.spec_path().len() - 1,
    }
}

/// What `shortest_path(graph, dist, end)` returns: `NoPathAvailable(end)` where `end` has no
/// distance, and otherwise the path from the start to `end` with one step per unit of
/// distance, each step stepping to the first linked neighbor one unit nearer.
pub open spec fn shortest_path_spec<C: Node>(g: Seq<C>, dist: Dist, end: usize, r: Result<Path, Error>) -> bool {
    let d = dist.spec_dist();
    if !(end < d.len() && d[end as int] is Some) {
        r == Err::<Path, Error>(Error::NoPathAvailable(end))
    } else {
        let k = d[end as int].unwrap();
        match r {
            Err(_) => false,
            Ok(p) => {
                let s = p.spec_path();
                &&& p.wf()
                &&& p.spec_steps().len() == g.len()
                &&& p.spec_max() == Some(k)
                &&& s.len() == k + 1
                &&& s[0] == dist.spec_start()
                &&& s[k as int] == end
                &&& forall|j: int| 0 <= j < s.len() ==> #[trigger] d[s[j] as int] == Some(j as usize)
                &&& forall|j: int| 0 <= j < k ==> #[trigger] linked(g, s[j] as int, s[j + 1] as int)
                    && linked(g, s[j + 1] as int, s[j] as int)
                &&& forall|j: int| 0 <= j < k ==> #[trigger] is_first_pred(g, d, s[j + 1] as int, s[j] as int)
            },
        }
    }
}

/// The neighbor that reconstruction steps to from `cell`: among the linked neighbors, the
/// first in slot order with the smallest distance.
fn prev_of<C: Node>(graph: &Orth<C>, dist: &Dist, cell: usize) -> (r: usize)
    requires
        graph.wf(),
        is_distance_map(graph.spec_cells(), dist.spec_dist(), dist.spec_start() as int),
        cell < graph.spec_len(),
        dist.spec_dist()[cell as int] is Some,
        dist.spec_dist()[cell as int].unwrap() > 0,
    ensures
        r < graph.spec_len(),
        is_first_pred(graph.spec_cells(), dist.spec_dist(), cell as int, r as int),
{
    let ghost g = graph.spec_cells();
    let ghost d = dist.spec_dist();
    let ghost k = d[cell as int].unwrap();
    let node = graph.node(cell);
    let m = node.max_neighbors();
    let mut best: Option<usize> = None;
    let mut best_d: usize = 0;
    let ghost mut best_slot: int = 0;
    proof {
        assert(cell_ok(g, cell as int));
        assert forall|j: int| 0 <= j < m && #[trigger] node.link_slots()[j] is Some implies {
            &&& node.slots()[j] is Some
            &&& node.slots()[j].unwrap() < g.len()
            &&& d[node.slots()[j].unwrap() as int] is Some
            &&& d[node.slots()[j].unwrap() as int].unwrap() + 1 >= k
        } by {
            assert(slot_ok(g, cell as int, j));
            lemma_slot_linked(g, cell as int, j);
            let n = node.slots()[j].unwrap() as int;
            assert(linked(g, cell as int, n));
            assert(linked(g, n, cell as int));
        }
    }
    let mut i: usize = 0;
    while i < m
        invariant
            graph.wf(),
            g == graph.spec_cells(),
            d == dist.spec_dist(),
            is_distance_map(g, d, dist.spec_start() as int),
            *node == g[cell as int],
            cell < g.len(),
            d[cell as int] == Some(k),
            k > 0,
            m == node.slots().len(),
            m == node.link_slots().len(),
            i <= m,
            best is None ==> forall|j: int| 0 <= j < i ==> !(#[trigger] node.link_slots()[j] is Some),
            best matches Some(b) ==> {
                &&& 0 <= best_slot < i
                &&& node.slots()[best_slot] == Some(b)
                &&& node.link_slots()[best_slot] is Some
                &&& b < g.len()
                &&& d[b as int] == Some(best_d)
                &&& forall|j: int| 0 <= j < i && #[trigger] node.link_slots()[j] is Some
                    ==> d[node.slots()[j].unwrap() as int].unwrap() >= best_d
                &&& forall|j: int| 0 <= j < best_slot && #[trigger] node.link_slots()[j] is Some
                    ==> d[node.slots()[j].unwrap() as int].unwrap() > best_d
            },
            forall|j: int| 0 <= j < m && #[trigger] node.link_slots()[j] is Some ==> {
                &&& node.slots()[j] is Some
                &&& node.slots()[j].unwrap() < g.len()
                &&& d[node.slots()[j].unwrap() as int] is Some
                &&& d[node.slots()[j].unwrap() as int].unwrap() + 1 >= k
            },
        decreases m - i,
    {
        if node.linked_side(i) {
            if let Some(n) = node.neighbor(i) {
                let dn = dist.dist(n).unwrap();
                match best {
                    None => {
                        best = Some(n);
                        best_d = dn;
                        proof {
                            best_slot = i as int;
                        }
                    },
                    Some(_) => {
                        if dn < best_d {
                            best = Some(n);
                            best_d = dn;
                            proof {
                                best_slot = i as int;
                            }
                        }
                    },
                }
            }
        }
        i = i + 1;
    }
    proof {
        let u = choose|u: int| #[trigger] linked(g, cell as int, u) && d[u] == Some((k - 1) as usize);
        let s = lemma_linked_slot(g, cell as int, u);
        assert(node.link_slots()[s] is Some);
    }
    let b = best.unwrap();
    proof {
        assert(g[cell as int].slots()[best_slot] == Some(b));
    }
    b
}

fn shortest_path<C: Node>(graph: &Orth<C>, dist: &Dist, end: usize) -> (r: Result<Path, Error>)
    requires
        graph.wf(),
        is_distance_map(graph.spec_cells(), dist.spec_dist(), dist.spec_start() as int),
    ensures
        shortest_path_spec(graph.spec_cells(), *dist, end, r),
{
    let ghost g = graph.spec_cells();
    let ghost dd = dist.spec_dist();
    let d = match dist.dist(end) {
        Some(d) => d,
        None => return Err(Error::NoPathAvailable(end)),
    };
    let mut path = Path::with_capacity(graph, d);
    let mut cell = end;
    let mut step: usize = 0;
    while step < d
        invariant
            graph.wf(),
            g == graph.spec_cells(),
            dd == dist.spec_dist(),
            is_distance_map(g, dd, dist.spec_start() as int),
            end < g.len(),
            dd[end as int] == Some(d),
            step <= d,
            cell < g.len(),
            dd[cell as int] == Some((d - step) as usize),
            path.wf(),
            path.spec_max() == Some(d),
            path.spec_steps().len() == g.len(),
            path.spec_path().len() == step,
            step == 0 ==> cell == end,
            step > 0 ==> path.spec_path()[0] == end,
            step > 0 ==> is_first_pred(g, dd, path.spec_path()[step - 1] as int, cell as int),
            forall|j: int| 0 <= j < step ==> #[trigger] dd[path.spec_path()[j] as int] == Some((d - j) as usize),
            forall|j: int| 0 <= j < step - 1 ==> #[trigger] is_first_pred(g, dd, path.spec_path()[j] as int, path.spec_path()[j + 1] as int),
        decreases d - step,
    {
        proof {
            if path.spec_steps()[cell as int] is Some {
                let j = path.spec_steps()[cell as int].unwrap() as int;
                assert(dd[path.spec_path()[j] as int] == Some((d - j) as usize));
            }
        }
        let added = path.add(cell);
        assert(added is Ok);
        let prev = prev_of(graph, dist, cell);
        cell = prev;
        step = step + 1;
    }
    proof {
        if path.spec_steps()[cell as int] is Some {
            let j = path.spec_steps()[cell as int].unwrap() as int;
            assert(dd[path.spec_path()[j] as int] == Some((d - j) as usize));
        }
        assert(dd[cell as int] == Some(0usize));
    }
    let added = path.add(cell);
    assert(added is Ok);
    let ghost before = path;
    proof {
        assert forall|v: int| 0 <= v < path.spec_steps().len() && #[trigger] path.spec_steps()[v] is Some
            implies path.spec_steps()[v].unwrap() <= reverse_base(path) by {
        }
    }
    path.reverse();
    proof {
        lemma_reversed(g, dd, before, path, d as int, dist.spec_start() as int, end as int);
    }
    Ok(path)
}

impl Dist {
    /// The shortest path from this map's start to `end` over the links of `graph`.
    pub fn shortest_path<C: Node>(&self, graph: &Orth<C>, end: usize) -> (r: Result<Path, Error>)
        requires
            graph.wf(),
            is_distance_map(graph.spec_cells(), self.spec_dist(), self.spec_start() as int),
        ensures
            shortest_path_spec(graph.spec_cells(), *self, end, r),
    {
        if let Some(_) = self.dist(end) {
            Path::shortest_path(graph, self, end)
        } else {
            Err(Error::NoPathAvailable(end))
        }
    }
}

impl<C: Node> Orth<C> {
    /// The breadth-first distances from `start` over the grid's links.
    pub fn dist(&self, start: usize) -> (r: Dist)
        requires
            self.wf(),
        ensures
            r.spec_start() == start,
            is_distance_map(self.spec_cells(), r.spec_dist(), start as int),
            crate::algo::dist::is_max_of(r.spec_dist(), r.spec_max()),
    {
        Dist::simple(self, start)
    }

    /// The shortest path to `end` that `dist` describes.
    pub fn shortest_path(&self, dist: &Dist, end: usize) -> (r: Result<Path, Error>)
        requires
            self.wf(),
            is_distance_map(self.spec_cells(), dist.spec_dist(), dist.spec_start() as int),
        ensures
            shortest_path_spec(self.spec_cells(), *dist, end, r),
    {
        dist.shortest_path(self, end)
    }

    /// The shortest path from `start` to `end`, every link counting as one step.
    pub fn shortest_path_simple(&self, start: usize, end: usize) -> (r: Result<Path, Error>)
        requires
            self.wf(),
        ensures
            exists|dist: Dist| {
                &&& dist.spec_start() == start
                &&& is_distance_map(self.spec_cells(), dist.spec_dist(), start as int)
                &&& shortest_path_spec(self.spec_cells(), dist, end, r)
            },
    {
        let dist = self.dist(start);
        let r = dist.shortest_path(self, end);
        assert(shortest_path_spec(self.spec_cells(), dist, end, r));
        r
    }
}

/// Shortest-path round trip: for a distance map from `start` and an `end` that it
/// reached, the reconstructed path begins at `start`, ends at `end`, has one more cell
/// than the distance of `end`, and each two consecutive cells are linked.
pub proof fn lemma_shortest_path_round_trip<C: Node>(
    graph: Orth<C>,
    dist: Dist,
    end: usize,
    r: Result<Path, Error>,
)
    requires
        graph.wf(),
        is_distance_map(graph.spec_cells(), dist.spec_dist(), dist.spec_start() as int),
        shortest_path_spec(graph.spec_cells(), dist, end, r),
        end < dist.spec_dist().len(),
        dist.spec_dist()[end as int] is Some,
    ensures
        r matches Ok(p) && {
            let s = p.spec_path();
            &&& s.len() == dist.spec_dist()[end as int].unwrap() + 1
            &&& s[0] == dist.spec_start()
            &&& s[s.len() - 1] == end
            &&& forall|j: int| 0 <= j < s.len() - 1 ==> #[trigger] graph.is_linked(s[j] as int, s[j + 1] as int)
        },
{
    if let Ok(p) = r {
        let s = p.spec_path();
        assert forall|j: int| 0 <= j < s.len() - 1 implies #[trigger] graph.is_linked(s[j] as int, s[j + 1] as int) by {
            assert(linked(graph.spec_cells(), s[j] as int, s[j + 1] as int));
        }
    }
}

#[verifier::rlimit(40)]
#[verifier::spinoff_prover]
proof fn lemma_reversed<C: Node>(
    g: Seq<C>,
    dd: Seq<Option<usize>>,
    before: Path,
    path: Path,
    d: int,
    start: int,
    end: int,
)
    requires
        crate::graphs::orth::cells_wf(g),
        g.len() <= usize::MAX,
        is_distance_map(g, dd, start),
        0 <= d <= usize::MAX,
        0 <= end < g.len(),
        dd[end] == Some(d as usize),
        before.wf(),
        before.spec_max() == Some(d as usize),
        before.spec_steps().len() == g.len(),
        before.spec_path().len() == d + 1,
        before.spec_path()[0] == end,
        forall|j: int| 0 <= j <= d ==> #[trigger] dd[before.spec_path()[j] as int] == Some((d - j) as usize),
        forall|j: int| 0 <= j < d ==> #[trigger] is_first_pred(g, dd, before.spec_path()[j] as int, before.spec_path()[j + 1] as int),
        path.spec_max() == before.spec_max(),
        path.spec_path().len() == d + 1,
        forall|j: int| 0 <= j <= d ==> #[trigger] path.spec_path()[j] == before.spec_path()[d - j],
        path.spec_steps().len() == before.spec_steps().len(),
        forall|v: int| 0 <= v < before.spec_steps().len() ==> #[trigger] path.spec_steps()[v] == match before.spec_steps()[v] {
            Some(s) => Some((d - s) as usize),
            None => None,
        },
    ensures
        path.wf(),
        path.spec_path()[0] == start,
        path.spec_path()[d] == end,
        forall|j: int| 0 <= j < path.spec_path().len() ==> #[trigger] dd[path.spec_path()[j] as int] == Some(j as usize),
        forall|j: int| 0 <= j < d ==> #[trigger] linked(g, path.spec_path()[j] as int, path.spec_path()[j + 1] as int)
            && linked(g, path.spec_path()[j + 1] as int, path.spec_path()[j] as int),
        forall|j: int| 0 <= j < d ==> #[trigger] is_first_pred(g, dd, path.spec_path()[j + 1] as int, path.spec_path()[j] as int),
{
    let s = path.spec_path();
    let t = before.spec_path();
    assert forall|j: int| 0 <= j < s.len() implies #[trigger] dd[s[j] as int] == Some(j as usize) by {
        assert(s[j] == t[d - j]);
        assert(dd[t[d - j] as int] == Some((d - (d - j)) as usize));
    }
    assert forall|j: int| 0 <= j < d implies #[trigger] is_first_pred(g, dd, s[j + 1] as int, s[j] as int) by {
        assert(s[j] == t[d - j]);
        assert(s[j + 1] == t[(d - j - 1)]);
        assert(is_first_pred(g, dd, t[d - j - 1] as int, t[(d - j - 1) + 1] as int));
    }
    assert forall|j: int| 0 <= j < d implies #[trigger] linked(g, s[j] as int, s[j + 1] as int)
        && linked(g, s[j + 1] as int, s[j] as int) by {
        let v = s[j + 1] as int;
        let u = s[j] as int;
        assert(is_first_pred(g, dd, v, u));
        let i = choose|i: int| {
            &&& 0 <= i < g[v].slots().len()
            &&& #[trigger] g[v].slots()[i] == Some(u as usize)
            &&& g[v].link_slots()[i] is Some
            &&& dd[u] == Some((dd[v].unwrap() - 1) as usize)
            &&& forall|jj: int| 0 <= jj < i && #[trigger] g[v].link_slots()[jj] is Some
                ==> dd[g[v].slots()[jj].unwrap() as int] != Some((dd[v].unwrap() - 1) as usize)
        };
        lemma_slot_linked(g, v, i);
    }
    assert(s[0] == t[d]);
    assert(dd[s[0] as int] == Some(0usize));
    assert(s[d] == t[0]);
    lemma_reversed_wf(before, path, d);
}

proof fn lemma_reversed_wf(before: Path, path: Path, d: int)
    requires
        0 <= d <= usize::MAX,
        before.wf(),
        before.spec_path().len() == d + 1,
        path.spec_path().len() == d + 1,
        forall|j: int| 0 <= j <= d ==> #[trigger] path.spec_path()[j] == before.spec_path()[d - j],
        path.spec_steps().len() == before.spec_steps().len(),
        forall|v: int| 0 <= v < before.spec_steps().len() ==> #[trigger] path.spec_steps()[v] == match before.spec_steps()[v] {
            Some(s) => Some((d - s) as usize),
            None => None,
        },
    ensures
        path.wf(),
{
    let s = path.spec_path();
    let t = before.spec_path();
    assert forall|v: int| 0 <= v < path.spec_steps().len() && #[trigger] path.spec_steps()[v] is Some
        implies path.spec_steps()[v].unwrap() < s.len() && s[path.spec_steps()[v].unwrap() as int] == v by {
        let k0 = before.spec_steps()[v].unwrap() as int;
        assert(before.spec_steps()[v] is Some);
        assert(k0 < t.len() && t[k0] == v);
        assert(path.spec_steps()[v] == Some((d - k0) as usize));
        assert(s[d - k0] == t[d - (d - k0)]);
    }
    assert forall|k: int| 0 <= k < s.len() implies #[trigger] s[k] < path.spec_steps().len()
        && path.spec_steps()[s[k] as int] == Some(k as usize) by {
        assert(s[k] == t[d - k]);
        assert(before.spec_steps()[t[d - k] as int] == Some((d - k) as usize));
    }
}

} // verus!
