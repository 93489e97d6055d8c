use crate::error::Error;
use crate::graphs::orth::{
    adjacent, cell_empty, count_empty, ids_where, in_maze, lemma_counts_bounded, lemma_ids_where,
    lemma_linked_symmetric, lemma_reach_step, lemma_reachable_grows, link_post, linked,
    links_reachable, reachable, walk, outside_maze, same_links, same_topology, sum_links, Orth,
};
use crate::graphs::rect::{is_rect, lemma_rect_slot, rect_slots};
use crate::graphs::{choose_from, lemma_slot_of, lemma_some_ids_len, Node};
use vstd::prelude::*;

verus! {

/// No cell without a link is adjacent to a cell with one.
pub open spec fn no_frontier<C: Node>(s: Seq<C>) -> bool {
    forall|x: int, y: int| #[trigger] adjacent(s, x, y) && cell_empty(s[x]) ==> cell_empty(s[y])
}

/// The cell has no neighbor at all.
pub open spec fn isolated<C: Node>(c: C) -> bool {
    forall|i: int| 0 <= i < c.slots().len() ==> #[trigger] c.slots()[i] is None
}

/// The state hunt-and-kill leaves behind on a grid that had no link: no unlinked cell
/// borders the carved part, and the carved part is a tree (one link fewer than its cells),
/// unless nothing could be carved because the start cell has no neighbor.
pub open spec fn carved<C: Node>(s: Seq<C>) -> bool {
    &&& no_frontier(s)
    &&& {
        ||| s.len() == 0
        ||| count_empty(s) + 2 <= s.len() && sum_links(s) == 2 * (s.len() - count_empty(s) - 1)
        ||| count_empty(s) == s.len() && sum_links(s) == 0 && exists|x: int| 0 <= x < s.len() && isolated(#[trigger] s[x])
    }
}

/// Every cell of the grid can be reached from `s` over links.
pub open spec fn reaches_all<C: Node>(g: Seq<C>, s: int) -> bool {
    forall|v: int| 0 <= v < g.len() ==> #[trigger] reachable(g, s, v)
}

/// Every cell of the grid has no link.
pub open spec fn all_empty<C: Node>(s: Seq<C>) -> bool {
    forall|x: int| 0 <= x < s.len() ==> #[trigger] cell_empty(s[x])
}

/// A cell with no link is linked to nothing.
proof fn lemma_empty_unlinked<C: Node>(g: Seq<C>, x: int, y: int)
    requires
        crate::graphs::orth::cells_wf(g),
        g.len() <= usize::MAX,
        0 <= x < g.len(),
        cell_empty(g[x]),
    ensures
        !linked(g, x, y),
        !linked(g, y, x),
{
    lemma_some_ids_len(g[x].link_slots());
    lemma_slot_of(g[x].slots(), y as usize);
    if linked(g, y, x) {
        lemma_linked_symmetric(g, y, x);
    }
}

/// A change made while carving: a cell was selected, or two cells were linked.
#[derive(Debug, Clone, Copy, PartialEq, Eq, Structural)]
pub enum Step {
    Select(usize),
    Link(usize, usize),
}

/// Every selected cell lies in the grid, and every reported pair is linked in it.
pub open spec fn steps_hold<C: Node>(g: Orth<C>, steps: Seq<Step>) -> bool {
    forall|i: int| 0 <= i < steps.len() ==> match #[trigger] steps[i] {
        Step::Select(x) => x < g.spec_len(),
        Step::Link(a, b) => g.is_linked(a as int, b as int) && g.is_linked(b as int, a as int),
    }
}

/// What hunt-and-kill leaves in `after` when run on `before`: a well-formed grid with the
/// same cells and neighbors; where `before` had no link, a carved maze in which every cell
/// with a link can be reached from one cell; where `before` had no cell, no change.
pub open spec fn carve_post<C: Node>(before: Orth<C>, after: Orth<C>) -> bool {
    &&& after.wf()
    &&& after.spec_len() == before.spec_len()
    &&& after.spec_height() == before.spec_height()
    &&& after.spec_width() == before.spec_width()
    &&& same_topology(before.spec_cells(), after.spec_cells())
    &&& all_empty(before.spec_cells()) ==> carved(after.spec_cells())
    &&& all_empty(before.spec_cells()) && before.spec_len() > 0 ==> exists|s: int| 0 <= s < before.spec_len()
        && #[trigger] links_reachable(after.spec_cells(), s)
    &&& before.spec_len() == 0 ==> same_links(before.spec_cells(), after.spec_cells())
}

proof fn lemma_steps_kept<C: Node>(before: Orth<C>, after: Orth<C>, steps: Seq<Step>)
    requires
        steps_hold(before, steps),
        after.spec_len() == before.spec_len(),
        forall|x: int, y: int| before.is_linked(x, y) ==> #[trigger] after.is_linked(x, y),
    ensures
        steps_hold(after, steps),
{
    assert forall|i: int| 0 <= i < steps.len() implies match #[trigger] steps[i] {
        Step::Select(x) => x < after.spec_len(),
        Step::Link(a, b) => after.is_linked(a as int, b as int) && after.is_linked(b as int, a as int),
    } by {
        if let Step::Link(a, b) = steps[i] {
            assert(before.is_linked(a as int, b as int));
            assert(before.is_linked(b as int, a as int));
        }
    }
}

/// Carves a perfect maze into `graph` by hunt-and-kill, drawing every random choice from
/// `rng`: a random walk through cells without links, then a scan in id order for the
/// first cell without links beside the carved part, which is linked to a random such
/// neighbor, until no such cell is left. On a grid without cells it does nothing.
pub fn huntkill<C: Node, R: rand::Rng>(graph: &mut Orth<C>, rng: &mut R) -> (r: Result<(), Error>)
    requires
        old(graph).wf(),
    ensures
        carve_post(*old(graph), *final(graph)),
        r is Ok,
{
    let mut steps: Vec<Step> = Vec::new();
    carve(graph, rng, &mut steps)
}

/// Hunt-and-kill as `huntkill` does it, reporting each step: on a grid without cells it
/// fails with `ZeroSizedGraph`, and otherwise returns, in order, every cell it selected and
/// every pair it linked, so that each change can be shown as it happens. For the same
/// random draws it links exactly what `huntkill` links.
pub fn animated_huntkill<C: Node, R: rand::Rng>(graph: &mut Orth<C>, rng: &mut R) -> (r: Result<Vec<Step>, Error>)
    requires
        old(graph).wf(),
    ensures
        old(graph).spec_len() == 0 ==> r == Err::<Vec<Step>, Error>(Error::ZeroSizedGraph) && *final(graph) == *old(graph),
        old(graph).spec_len() > 0 ==> r is Ok,
        carve_post(*old(graph), *final(graph)),
        r matches Ok(steps) ==> steps_hold(*final(graph), steps@),
{
    if graph.is_empty() {
        return Err(Error::ZeroSizedGraph);
    }
    let mut steps: Vec<Step> = Vec::new();
    let r = carve(graph, rng, &mut steps);
    match r {
        Ok(()) => Ok(steps),
        Err(e) => Err(e),
    }
}

fn carve<C: Node, R: rand::Rng>(graph: &mut Orth<C>, rng: &mut R, steps: &mut Vec<Step>) -> (r: Result<(), Error>)
    requires
        old(graph).wf(),
        old(steps)@.len() == 0,
    ensures
        r is Ok,
        final(graph).wf(),
        final(graph).spec_len() == old(graph).spec_len(),
        final(graph).spec_height() == old(graph).spec_height(),
        final(graph).spec_width() == old(graph).spec_width(),
        same_topology(old(graph).spec_cells(), final(graph).spec_cells()),
        all_empty(old(graph).spec_cells()) ==> carved(final(graph).spec_cells()),
        all_empty(old(graph).spec_cells()) && old(graph).spec_len() > 0 ==> exists|s: int| 0 <= s < old(graph).spec_len()
            && #[trigger] links_reachable(final(graph).spec_cells(), s),
        old(graph).spec_len() == 0 ==> same_links(old(graph).spec_cells(), final(graph).spec_cells()),
        steps_hold(*final(graph), final(steps)@),
{
    let ghost g0 = graph.spec_cells();
    let ghost started_empty = all_empty(g0);
    let mut node = match graph.random(rng) {
        Some(n) => n,
        None => return Ok(()),
    };
    steps.push(Step::Select(node));
    let ghost start = node as int;
    proof {
        lemma_counts_bounded(g0);
        assert(walk(g0, start, start, 0));
        if started_empty {
            assert forall|v: int, y: int| #[trigger] linked(g0, v, y) implies reachable(g0, start, v) by {
                lemma_empty_unlinked(g0, v, y);
            }
        }
    }
    let mut done = false;
    while !done
        invariant
            graph.wf(),
            graph.spec_len() == g0.len(),
            graph.spec_height() == old(graph).spec_height(),
            graph.spec_width() == old(graph).spec_width(),
            same_topology(g0, graph.spec_cells()),
            node < graph.spec_len(),
            started_empty == all_empty(g0),
            started_empty && !done ==> {
                ||| count_empty(graph.spec_cells()) + 2 <= g0.len() && sum_links(graph.spec_cells()) == 2 * (
                    g0.len() - count_empty(graph.spec_cells()) - 1) && !cell_empty(graph.spec_cells()[node as int])
                ||| count_empty(graph.spec_cells()) == g0.len() && sum_links(graph.spec_cells()) == 0
            },
            started_empty && done ==> carved(graph.spec_cells()),
            steps_hold(*graph, steps@),
            0 <= start < g0.len(),
            started_empty ==> reachable(graph.spec_cells(), start, node as int),
            started_empty ==> links_reachable(graph.spec_cells(), start),
        decreases count_empty(graph.spec_cells()) * 2 + if done { 0int } else { 1 },
    {
        let ghost s = graph.spec_cells();
        proof {
            lemma_counts_bounded(s);
        }
        let unlinked = graph.unlinked_neighbors(node);
        match choose_from(unlinked.as_slice(), rng) {
            Some(n) => {
                proof {
                    lemma_ids_where(s[node as int].slots(), outside_maze(s));
                    assert(ids_where(s[node as int].slots(), outside_maze(s)).contains(n));
                    lemma_empty_unlinked(s, n as int, node as int);
                    assert(adjacent(s, node as int, n as int));
                }
                steps.push(Step::Select(n));
                let ghost before = *graph;
                graph.link(node, n)?;
                proof {
                    lemma_counts_bounded(graph.spec_cells());
                    lemma_steps_kept(before, *graph, steps@);
                    if started_empty {
                        lemma_carve_reach(before, *graph, start, node as int, n as int);
                    }
                }
                steps.push(Step::Link(node, n));
                node = n;
            },
            None => {
                let ghost before = *graph;
                match hunt(graph, rng)? {
                    Some((cell, n)) => {
                        proof {
                            lemma_steps_kept(before, *graph, steps@);
                            if started_empty {
                                let y = crate::graphs::orth::lemma_nonempty_linked(s, n as int);
                                assert(reachable(s, start, n as int));
                                lemma_carve_reach(before, *graph, start, n as int, cell as int);
                            }
                            if count_empty(s) == g0.len() {
                                assert(cell_empty(s[n as int]));
                            }
                            lemma_counts_bounded(graph.spec_cells());
                        }
                        steps.push(Step::Select(cell));
                        steps.push(Step::Link(cell, n));
                        steps.push(Step::Select(n));
                        node = n;
                    },
                    None => {
                        proof {
                            if started_empty && count_empty(s) == g0.len() {
                                lemma_ids_where(s[node as int].slots(), outside_maze(s));
                                assert forall|i: int| 0 <= i < s[node as int].slots().len()
                                    implies #[trigger] s[node as int].slots()[i] is None by {
                                    if s[node as int].slots()[i] is Some {
                                        crate::graphs::orth::lemma_slot_linked(s, node as int, i);
                                        assert(cell_empty(s[s[node as int].slots()[i].unwrap() as int]));
                                    }
                                }
                                assert(isolated(s[node as int]));
                            }
                            crate::graphs::orth::lemma_counts_congruent(s, graph.spec_cells());
                            if started_empty {
                                lemma_reach_same_links(s, graph.spec_cells(), start);
                            }
                        }
                        done = true;
                        proof {
                            if started_empty && count_empty(s) == g0.len() {
                                let t = graph.spec_cells();
                                assert(t[node as int].slots() == s[node as int].slots());
                                assert(isolated(t[node as int]));
                            }
                        }
                    },
                }
            },
        }
    }
    proof {
        if started_empty {
            assert(links_reachable(graph.spec_cells(), start));
        }
    }
    Ok(())
}

/// Linking a reachable cell `a` to `b`, when nothing else changes, keeps every cell with a
/// link reachable, `b` included.
proof fn lemma_carve_reach<C: Node>(before: Orth<C>, after: Orth<C>, start: int, a: int, b: int)
    requires
        before.spec_cells().len() == after.spec_cells().len(),
        links_reachable(before.spec_cells(), start),
        reachable(before.spec_cells(), start, a),
        forall|x: int, y: int| #[trigger] after.is_linked(x, y) <==> (
            before.is_linked(x, y) || (x == a && y == b) || (x == b && y == a)),
    ensures
        links_reachable(after.spec_cells(), start),
        reachable(after.spec_cells(), start, a),
        reachable(after.spec_cells(), start, b),
{
    let s = before.spec_cells();
    let t = after.spec_cells();
    assert forall|x: int, y: int| #[trigger] linked(t, x, y) <==> (linked(s, x, y) || (x == a && y == b) || (x == b && y == a)) by {
        assert(after.is_linked(x, y) == linked(t, x, y));
        assert(before.is_linked(x, y) == linked(s, x, y));
    }
    assert forall|x: int, y: int| linked(s, x, y) implies #[trigger] linked(t, x, y) by {}
    lemma_reachable_grows(s, t, start);
    assert(linked(t, a, b));
    lemma_reach_step(t, start, a, b);
    assert forall|v: int, y: int| #[trigger] linked(t, v, y) implies reachable(t, start, v) by {
        if linked(s, v, y) {
            assert(reachable(s, start, v));
        }
    }
}

/// Two grids with the same link marks have the same links, so the same cells are reachable.
proof fn lemma_reach_same_links<C: Node>(s: Seq<C>, t: Seq<C>, start: int)
    requires
        same_topology(s, t),
        same_links(s, t),
        links_reachable(s, start),
    ensures
        links_reachable(t, start),
        forall|v: int| #[trigger] reachable(s, start, v) ==> reachable(t, start, v),
{
    assert forall|x: int, y: int| linked(s, x, y) implies #[trigger] linked(t, x, y) by {
        assert(s[x].slots() == t[x].slots());
        assert(s[x].link_slots() == t[x].link_slots());
    }
    lemma_reachable_grows(s, t, start);
    assert forall|v: int, y: int| #[trigger] linked(t, v, y) implies reachable(t, start, v) by {
        assert(s[v].slots() == t[v].slots());
        assert(s[v].link_slots() == t[v].link_slots());
        assert(linked(s, v, y));
    }
}

/// Scans the cells in id order for the first one without links that borders the carved
/// part, and links it to a neighbor of the carved part drawn from `rng`; returns that cell
/// and that neighbor, or `None` once no such cell is left.
fn hunt<C: Node, R: rand::Rng>(graph: &mut Orth<C>, rng: &mut R) -> (r: Result<Option<(usize, usize)>, Error>)
    requires
        old(graph).wf(),
    ensures
        r is Ok,
        final(graph).wf(),
        final(graph).spec_len() == old(graph).spec_len(),
        final(graph).spec_height() == old(graph).spec_height(),
        final(graph).spec_width() == old(graph).spec_width(),
        same_topology(old(graph).spec_cells(), final(graph).spec_cells()),
        r matches Ok(None) ==> same_links(old(graph).spec_cells(), final(graph).spec_cells())
            && no_frontier(final(graph).spec_cells()),
        r matches Ok(Some((c, n))) ==> {
            &&& c < old(graph).spec_len()
            &&& link_post(*old(graph), *final(graph), c, n, Ok(()))
            &&& n < old(graph).spec_len()
            &&& !cell_empty(old(graph).spec_cells()[n as int])
            &&& !cell_empty(final(graph).spec_cells()[n as int])
            &&& sum_links(final(graph).spec_cells()) == sum_links(old(graph).spec_cells()) + 2
            &&& count_empty(final(graph).spec_cells()) + 1 == count_empty(old(graph).spec_cells())
        },
{
    let ghost s = graph.spec_cells();
    let ids = graph.node_ids();
    let mut i: usize = 0;
    while i < ids.len()
        invariant
            graph.wf(),
            *graph == *old(graph),
            graph.spec_cells() == s,
            ids@.len() == s.len(),
            forall|k: int| 0 <= k < ids@.len() ==> ids@[k] == k,
            i <= ids@.len(),
            forall|x: int, y: int| 0 <= x < i && #[trigger] adjacent(s, x, y) && cell_empty(s[x]) ==> cell_empty(s[y]),
        decreases ids@.len() - i,
    {
        let node = ids[i];
        if graph.node(node).is_empty() {
            let lk = graph.linked_neighbors(node);
            proof {
                lemma_ids_where(s[node as int].slots(), in_maze(s));
            }
            match choose_from(lk.as_slice(), rng) {
                Some(n) => {
                    proof {
                        assert(ids_where(s[node as int].slots(), in_maze(s)).contains(n));
                        lemma_empty_unlinked(s, node as int, n as int);
                        assert(adjacent(s, node as int, n as int));
                    }
                    match graph.link(node, n) {
                        Ok(()) => return Ok(Some((node, n))),
                        Err(e) => return Err(e),
                    }
                },
                None => {
                    proof {
                        assert forall|y: int| #[trigger] adjacent(s, node as int, y) implies cell_empty(s[y]) by {
                            let k = choose|k: int| 0 <= k < s[node as int].slots().len()
                                && s[node as int].slots()[k] == Some(y as usize);
                            assert(!(s[node as int].slots()[k] is Some && in_maze(s)(s[node as int].slots()[k].unwrap())));
                        }
                    }
                },
            }
        }
        i = i + 1;
    }
    Ok(None)
}

/// In a rectangular lattice, each cell has the same link state as cell 0 when no cell
/// without a link borders one with a link.
proof fn lemma_rect_uniform<C: Node>(s: Seq<C>, height: int, width: int, id: int)
    requires
        is_rect(s, height, width),
        s.len() <= usize::MAX,
        no_frontier(s),
        0 <= id < s.len(),
    ensures
        cell_empty(s[id]) == cell_empty(s[0]),
    decreases id,
{
    let len = s.len() as int;
    if id > 0 {
        assert(width > 0) by (nonlinear_arith)
            requires len == height * width, height >= 0, width >= 0, 0 < id < len;
        lemma_rect_slot(id, width, len, height);
        let prev = if id % width != 0 { id - 1 } else { id - width };
        if id % width == 0 {
            if id < width {
                vstd::arithmetic::div_mod::lemma_small_mod(id as nat, width as nat);
            }
        }
        assert(s[id].slots() == rect_slots(id, width, len));
        assert(s[prev].slots() == rect_slots(prev, width, len));
        lemma_rect_slot(prev, width, len, height);
        assert(s[id].slots()[if id % width != 0 { 3int } else { 0int }] == Some(prev as usize));
        assert(s[prev].slots()[if id % width != 0 { 1int } else { 2int }] == Some(id as usize));
        assert(adjacent(s, id, prev));
        assert(adjacent(s, prev, id));
        lemma_rect_uniform(s, height, width, prev);
    }
}

/// Hunt-and-kill on a rectangular grid of at least two cells that had no link carves a
/// spanning tree: every cell ends with at least one link, every cell can be reached from
/// one cell over links, and the links number one fewer than the cells (the link marks, two
/// per link, number twice that).
pub proof fn lemma_huntkill_spanning<C: Node>(grid: Orth<C>, carved_grid: Orth<C>, height: int, width: int)
    requires
        grid.wf(),
        is_rect(grid.spec_cells(), height, width),
        all_empty(grid.spec_cells()),
        height * width >= 2,
        carve_post(grid, carved_grid),
    ensures
        forall|x: int| 0 <= x < carved_grid.spec_len() ==> !#[trigger] cell_empty(carved_grid.spec_cells()[x]),
        count_empty(carved_grid.spec_cells()) == 0,
        sum_links(carved_grid.spec_cells()) == 2 * (height * width - 1),
        exists|s: int| 0 <= s < carved_grid.spec_len() && #[trigger] reaches_all(carved_grid.spec_cells(), s),
{
    let before = grid.spec_cells();
    let after = carved_grid.spec_cells();
    let len = before.len() as int;
    assert(is_rect(after, height, width)) by {
        assert forall|id: int| 0 <= id < after.len() implies #[trigger] after[id].slots() == rect_slots(id, width, len) by {
            assert(before[id].slots() == after[id].slots());
        }
        assert forall|id: int| 0 <= id < after.len() implies #[trigger] after[id].spec_id() == id by {
            assert(before[id].spec_id() == after[id].spec_id());
        }
    }
    assert(width > 0 && height > 0) by (nonlinear_arith)
        requires height * width >= 2, height >= 0, width >= 0;
    assert forall|x: int| 0 <= x < len implies !isolated(#[trigger] after[x]) by {
        lemma_rect_slot(x, width, len, height);
        assert(after[x].slots() == rect_slots(x, width, len));
        if width == 1 {
            assert(len == height);
            if x == 0 {
                assert(after[x].slots()[2] is Some);
            } else {
                assert(after[x].slots()[0] is Some);
            }
        } else {
            if x % width == 0 {
                assert(after[x].slots()[1] is Some);
            } else {
                assert(after[x].slots()[3] is Some);
            }
        }
    }
    lemma_counts_bounded(after);
    assert forall|x: int| 0 <= x < len implies #[trigger] cell_empty(after[x]) == cell_empty(after[0]) by {
        lemma_rect_uniform(after, height, width, x);
    }
    if cell_empty(after[0]) {
        assert forall|x: int| 0 <= x < len implies #[trigger] cell_empty(after[x]) by {
            assert(cell_empty(after[x]) == cell_empty(after[0]));
        }
    } else {
        assert forall|x: int| 0 <= x < len implies !#[trigger] cell_empty(after[x]) by {
            assert(cell_empty(after[x]) == cell_empty(after[0]));
        }
    }
    let s = choose|s: int| 0 <= s < len && #[trigger] links_reachable(after, s);
    assert forall|v: int| 0 <= v < len implies #[trigger] reachable(after, s, v) by {
        assert(!cell_empty(after[v]));
        let y = crate::graphs::orth::lemma_nonempty_linked(after, v);
    }
    assert(reaches_all(after, s));
}

} // verus!
