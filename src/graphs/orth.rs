use crate::error::Error;
use crate::graphs::{
    choose_from, has_slot, ids_new, is_first_slot, ids_push, linked_via, neighbor_ids_of, slot_of, some_ids,
    NeighborIds, Node,
};
use vstd::prelude::*;

verus! {

/// The cell has no link.
pub open spec fn cell_empty<C: Node>(c: C) -> bool {
    some_ids(c.link_slots()).len() == 0
}

/// The ids held by the slots of `s`, in slot order, kept only where `keep` holds.
pub open spec fn ids_where(s: Seq<Option<usize>>, keep: spec_fn(usize) -> bool) -> Seq<usize>
    decreases s.len(),
{
    if s.len() == 0 {
        Seq::empty()
    } else {
        let rest = ids_where(s.drop_last(), keep);
        match s.last() {
            Some(x) => if keep(x) { rest.push(x) } else { rest },
            None => rest,
        }
    }
}

pub proof fn lemma_ids_where(s: Seq<Option<usize>>, keep: spec_fn(usize) -> bool)
    ensures
        forall|x: usize| #[trigger] ids_where(s, keep).contains(x) <==> (keep(x) && has_slot(s, x)),
        ids_where(s, keep).len() == 0 <==> (forall|i: int|
            0 <= i < s.len() ==> !(#[trigger] s[i] is Some && keep(s[i].unwrap()))),
    decreases s.len(),
{
    if s.len() > 0 {
        let t = s.drop_last();
        lemma_ids_where(t, keep);
        assert forall|x: usize| #[trigger] ids_where(s, keep).contains(x) <==> (keep(x) && has_slot(s, x)) by {
            if keep(x) && has_slot(s, x) {
                let i = choose|i: int| 0 <= i < s.len() && s[i] == Some(x);
                if i < s.len() - 1 {
                    assert(t[i] == s[i]);
                    assert(ids_where(t, keep).contains(x));
                    let k = choose|k: int| 0 <= k < ids_where(t, keep).len() && ids_where(t, keep)[k] == x;
                    if s.last() matches Some(y) && keep(y) {
                        assert(ids_where(s, keep)[k] == x);
                    }
                } else {
                    assert(ids_where(s, keep).last() == x);
                }
            }
            if ids_where(s, keep).contains(x) {
                let k = choose|k: int| 0 <= k < ids_where(s, keep).len() && ids_where(s, keep)[k] == x;
                if k < ids_where(t, keep).len() {
                    assert(ids_where(t, keep)[k] == x);
                    assert(ids_where(t, keep).contains(x));
                    let i = choose|i: int| 0 <= i < t.len() && t[i] == Some(x);
                    assert(s[i] == Some(x));
                } else {
                    assert(s[s.len() - 1] == Some(x));
                }
            }
        }
        if ids_where(s, keep).len() == 0 {
            assert forall|i: int| 0 <= i < s.len() implies !(#[trigger] s[i] is Some && keep(s[i].unwrap())) by {
                if s[i] is Some && keep(s[i].unwrap()) {
                    assert(has_slot(s, s[i].unwrap()));
                    assert(ids_where(s, keep).contains(s[i].unwrap()));
                }
            }
        }
        if forall|i: int| 0 <= i < s.len() ==> !(#[trigger] s[i] is Some && keep(s[i].unwrap())) {
            assert forall|i: int| 0 <= i < t.len() implies !(#[trigger] t[i] is Some && keep(t[i].unwrap())) by {
                assert(t[i] == s[i]);
            }
            assert(!(s[s.len() - 1] is Some && keep(s[s.len() - 1].unwrap())));
        }
    }
}

/// The ids of the cells that have at least one link.
pub open spec fn in_maze<C: Node>(cells: Seq<C>) -> spec_fn(usize) -> bool {
    |x: usize| x < cells.len() && !cell_empty(cells[x as int])
}

/// The ids of the cells that have no link.
pub open spec fn outside_maze<C: Node>(cells: Seq<C>) -> spec_fn(usize) -> bool {
    |x: usize| x < cells.len() && cell_empty(cells[x as int])
}

/// Slot `i` of cell `a` respects the grid's invariants: a neighbor is a different cell
/// of the grid that has a slot back, appears in no other slot of `a`, and the link mark
/// agrees with the mark on the neighbor's side.
pub open spec fn slot_ok<C: Node>(cells: Seq<C>, a: int, i: int) -> bool {
    let c = cells[a];
    match c.slots()[i] {
        Some(b) => {
            &&& b < cells.len()
            &&& b != a
            &&& has_slot(cells[b as int].slots(), a as usize)
            &&& (c.link_slots()[i] is Some <==> linked_via(
                cells[b as int].slots(),
                cells[b as int].link_slots(),
                a as usize,
            ))
            &&& (c.link_slots()[i] is Some ==> c.link_slots()[i] == Some(b))
            &&& forall|j: int| 0 <= j < c.slots().len() && j != i ==> c.slots()[j] != Some(b)
        },
        None => c.link_slots()[i] is None,
    }
}

/// Cell `a` carries its own index as id, and every one of its slots respects the invariants.
pub open spec fn cell_ok<C: Node>(cells: Seq<C>, a: int) -> bool {
    &&& cells[a].spec_id() == a
    &&& cells[a].link_slots().len() == cells[a].slots().len()
    &&& cells[a].slots().len() <= usize::MAX
    &&& forall|i: int| 0 <= i < cells[a].slots().len() ==> #[trigger] slot_ok(cells, a, i)
}

pub open spec fn cells_wf<C: Node>(cells: Seq<C>) -> bool {
    forall|a: int| 0 <= a < cells.len() ==> #[trigger] cell_ok(cells, a)
}

/// `b` is a topological neighbor of `a`.
pub open spec fn adjacent<C: Node>(cells: Seq<C>, a: int, b: int) -> bool {
    0 <= a < cells.len() && 0 <= b < cells.len() && has_slot(cells[a].slots(), b as usize)
}

/// `a` is linked to `b`.
pub open spec fn linked<C: Node>(cells: Seq<C>, a: int, b: int) -> bool {
    0 <= a < cells.len() && 0 <= b < cells.len() && linked_via(
        cells[a].slots(),
        cells[a].link_slots(),
        b as usize,
    )
}

/// The two grids have the same cells with the same ids and neighbor slots.
pub open spec fn same_topology<C: Node>(x: Seq<C>, y: Seq<C>) -> bool {
    &&& x.len() == y.len()
    &&& forall|a: int| 0 <= a < x.len() ==> #[trigger] x[a].spec_id() == y[a].spec_id()
    &&& forall|a: int| 0 <= a < x.len() ==> #[trigger] x[a].slots() == y[a].slots()
}

/// The two grids have the same link marks.
pub open spec fn same_links<C: Node>(x: Seq<C>, y: Seq<C>) -> bool {
    forall|a: int| 0 <= a < x.len() ==> #[trigger] x[a].link_slots() == y[a].link_slots()
}

/// `t` is `s` with the marks of slot `i` of `a` and slot `j` of `b`, which hold each other,
/// set to `on`, and every other mark kept.
pub open spec fn pair_set<C: Node>(s: Seq<C>, t: Seq<C>, a: int, b: int, i: int, j: int, on: bool) -> bool {
    &&& same_topology(s, t)
    &&& 0 <= a < s.len()
    &&& 0 <= b < s.len()
    &&& a != b
    &&& 0 <= i < s[a].slots().len()
    &&& 0 <= j < s[b].slots().len()
    &&& s[a].link_slots().len() == s[a].slots().len()
    &&& s[b].link_slots().len() == s[b].slots().len()
    &&& s[a].slots()[i] == Some(b as usize)
    &&& s[b].slots()[j] == Some(a as usize)
    &&& s[a].link_slots()[i] is Some != on
    &&& s[b].link_slots()[j] is Some != on
    &&& t[a].link_slots() == s[a].link_slots().update(i, if on { Some(b as usize) } else { None })
    &&& t[b].link_slots() == s[b].link_slots().update(j, if on { Some(a as usize) } else { None })
    &&& forall|x: int| 0 <= x < s.len() && x != a && x != b ==> #[trigger] t[x].link_slots() == s[x].link_slots()
}

/// The number of link marks over all cells: twice the number of links.
pub open spec fn sum_links<C: Node>(s: Seq<C>) -> nat
    decreases s.len(),
{
    if s.len() == 0 {
        0
    } else {
        sum_links(s.drop_last()) + some_ids(s.last().link_slots()).len()
    }
}

/// The number of cells without a link.
pub open spec fn count_empty<C: Node>(s: Seq<C>) -> nat
    decreases s.len(),
{
    if s.len() == 0 {
        0
    } else {
        count_empty(s.drop_last()) + if cell_empty(s.last()) { 1nat } else { 0 }
    }
}

pub proof fn lemma_counts_bounded<C: Node>(s: Seq<C>)
    ensures
        count_empty(s) <= s.len(),
        count_empty(s) == s.len() <==> forall|x: int| 0 <= x < s.len() ==> #[trigger] cell_empty(s[x]),
        count_empty(s) == 0 <==> forall|x: int| 0 <= x < s.len() ==> !#[trigger] cell_empty(s[x]),
        (forall|x: int| 0 <= x < s.len() ==> #[trigger] cell_empty(s[x])) ==> sum_links(s) == 0,
    decreases s.len(),
{
    if s.len() > 0 {
        let r = s.drop_last();
        lemma_counts_bounded(r);
        assert forall|x: int| 0 <= x < r.len() implies #[trigger] r[x] == s[x] by {}
        if forall|x: int| 0 <= x < s.len() ==> #[trigger] cell_empty(s[x]) {
            assert(cell_empty(s[s.len() - 1]));
        }
        if forall|x: int| 0 <= x < s.len() ==> !#[trigger] cell_empty(s[x]) {
            assert(!cell_empty(s[s.len() - 1]));
        }
        if count_empty(s) == s.len() {
            assert forall|x: int| 0 <= x < s.len() implies #[trigger] cell_empty(s[x]) by {
                if x < r.len() {
                    assert(cell_empty(r[x]));
                }
            }
        }
        if count_empty(s) == 0 {
            assert forall|x: int| 0 <= x < s.len() implies !#[trigger] cell_empty(s[x]) by {
                if x < r.len() {
                    assert(!cell_empty(r[x]));
                }
            }
        }
    }
}

/// Replacing one cell changes the two counts by what that cell contributes.
pub proof fn lemma_counts_update<C: Node>(s: Seq<C>, x: int, c: C)
    requires
        0 <= x < s.len(),
    ensures
        sum_links(s.update(x, c)) + some_ids(s[x].link_slots()).len() == sum_links(s) + some_ids(c.link_slots()).len(),
        count_empty(s.update(x, c)) + (if cell_empty(s[x]) { 1nat } else { 0 }) == count_empty(s) + (if cell_empty(c) { 1nat } else { 0 }),
    decreases s.len(),
{
    let t = s.update(x, c);
    if x == s.len() - 1 {
        assert(t.drop_last() =~= s.drop_last());
    } else {
        assert(t.drop_last() =~= s.drop_last().update(x, c));
        lemma_counts_update(s.drop_last(), x, c);
    }
}

/// Marking one unlinked pair adds two marks, and takes each of the two cells that had no
/// link out of the count of such cells.
pub proof fn lemma_pair_counts<C: Node>(s: Seq<C>, t: Seq<C>, a: int, b: int, i: int, j: int)
    requires
        pair_set(s, t, a, b, i, j, true),
    ensures
        sum_links(t) == sum_links(s) + 2,
        count_empty(t) + (if cell_empty(s[a]) { 1nat } else { 0 }) + (if cell_empty(s[b]) { 1nat } else { 0 }) == count_empty(s),
        !cell_empty(t[a]),
        !cell_empty(t[b]),
{
    crate::graphs::lemma_some_ids_update(s[a].link_slots(), i, Some(b as usize));
    crate::graphs::lemma_some_ids_update(s[b].link_slots(), j, Some(a as usize));
    let m = s.update(a, t[a]);
    lemma_counts_update(s, a, t[a]);
    lemma_counts_update(m, b, t[b]);
    let m2 = m.update(b, t[b]);
    assert forall|x: int| 0 <= x < t.len() implies #[trigger] m2[x].link_slots() == t[x].link_slots() by {
        if x != a && x != b {
            assert(t[x].link_slots() == s[x].link_slots());
        }
    }
    lemma_counts_congruent(m2, t);
}

/// The two counts depend on the link marks alone.
pub proof fn lemma_counts_congruent<C: Node>(s: Seq<C>, t: Seq<C>)
    requires
        s.len() == t.len(),
        forall|x: int| 0 <= x < s.len() ==> #[trigger] s[x].link_slots() == t[x].link_slots(),
    ensures
        sum_links(s) == sum_links(t),
        count_empty(s) == count_empty(t),
    decreases s.len(),
{
    if s.len() > 0 {
        let (r, q) = (s.drop_last(), t.drop_last());
        assert forall|x: int| 0 <= x < r.len() implies #[trigger] r[x].link_slots() == q[x].link_slots() by {
            assert(s[x].link_slots() == t[x].link_slots());
        }
        lemma_counts_congruent(r, q);
        assert(s.last().link_slots() == t.last().link_slots());
    }
}

/// Setting the link marks on both sides of one adjacent pair, to the same state, keeps the
/// grid's invariant and changes the link relation on that pair alone.
pub proof fn lemma_set_pair<C: Node>(s: Seq<C>, t: Seq<C>, a: int, b: int, i: int, j: int, on: bool)
    requires
        cells_wf(s),
        s.len() <= usize::MAX,
        same_topology(s, t),
        0 <= a < s.len(),
        0 <= b < s.len(),
        a != b,
        0 <= i < s[a].slots().len(),
        0 <= j < s[b].slots().len(),
        s[a].slots()[i] == Some(b as usize),
        s[b].slots()[j] == Some(a as usize),
        t[a].link_slots() == s[a].link_slots().update(i, if on { Some(b as usize) } else { None }),
        t[b].link_slots() == s[b].link_slots().update(j, if on { Some(a as usize) } else { None }),
        forall|x: int| 0 <= x < s.len() && x != a && x != b ==> #[trigger] t[x].link_slots() == s[x].link_slots(),
    ensures
        cells_wf(t),
        forall|x: int, y: int| #[trigger] linked(t, x, y) <==> (if (x == a && y == b) || (x == b && y == a) {
            on
        } else {
            linked(s, x, y)
        }),
{
    assert(cell_ok(s, a));
    assert(cell_ok(s, b));
    assert(slot_ok(s, a, i));
    assert(slot_ok(s, b, j));
    assert(is_first_slot(s[a].slots(), b as usize, i));
    assert(is_first_slot(s[b].slots(), a as usize, j));
    crate::graphs::lemma_first_slot_unique(s[a].slots(), b as usize, i);
    crate::graphs::lemma_first_slot_unique(s[b].slots(), a as usize, j);
    assert forall|x: int, y: int| #[trigger] linked(t, x, y) <==> (if (x == a && y == b) || (x == b && y == a) {
        on
    } else {
        linked(s, x, y)
    }) by {
        if 0 <= x < s.len() && 0 <= y < s.len() {
            assert(t[x].slots() == s[x].slots());
            crate::graphs::lemma_slot_of(s[x].slots(), y as usize);
            if x == a && y == b {
                assert(t[a].link_slots()[i] is Some == on);
            } else if x == b && y == a {
                assert(t[b].link_slots()[j] is Some == on);
            } else if x == a {
                if let Some(m) = slot_of(s[a].slots(), y as usize) {
                    assert(m != i);
                    assert(t[a].link_slots()[m] == s[a].link_slots()[m]);
                }
            } else if x == b {
                if let Some(m) = slot_of(s[b].slots(), y as usize) {
                    assert(m != j);
                    assert(t[b].link_slots()[m] == s[b].link_slots()[m]);
                }
            } else {
                assert(t[x].link_slots() == s[x].link_slots());
            }
        }
    }
    assert forall|x: int| 0 <= x < t.len() implies #[trigger] cell_ok(t, x) by {
        assert(cell_ok(s, x));
        assert(t[x].slots() == s[x].slots());
        assert(t[x].spec_id() == s[x].spec_id());
        assert forall|k: int| 0 <= k < t[x].slots().len() implies #[trigger] slot_ok(t, x, k) by {
            assert(slot_ok(s, x, k));
            if let Some(y) = s[x].slots()[k] {
                let y = y as int;
                assert(t[y].slots() == s[y].slots());
                assert(linked(t, x, y) <==> (if (x == a && y == b) || (x == b && y == a) {
                    on
                } else {
                    linked(s, x, y)
                }));
                if x == a && y == b {
                    assert(k == i);
                } else if x == b && y == a {
                    assert(k == j);
                } else if x == a {
                    assert(k != i);
                } else if x == b {
                    assert(k != j);
                }
            } else {
                if x == a {
                    assert(k != i);
                } else if x == b {
                    assert(k != j);
                }
            }
        }
    }
}

/// In a well-formed grid, slot `i` of cell `a` is the slot through which `a` reaches the
/// neighbor it holds, and its mark says whether the two are linked.
pub proof fn lemma_slot_linked<C: Node>(g: Seq<C>, a: int, i: int)
    requires
        cells_wf(g),
        0 <= a < g.len(),
        0 <= i < g[a].slots().len(),
        g[a].slots()[i] is Some,
    ensures
        slot_of(g[a].slots(), g[a].slots()[i].unwrap()) == Some(i),
        g[a].slots()[i].unwrap() < g.len(),
        adjacent(g, a, g[a].slots()[i].unwrap() as int),
        linked(g, a, g[a].slots()[i].unwrap() as int) <==> g[a].link_slots()[i] is Some,
        linked(g, a, g[a].slots()[i].unwrap() as int) <==> linked(g, g[a].slots()[i].unwrap() as int, a),
{
    assert(cell_ok(g, a));
    assert(slot_ok(g, a, i));
    let b = g[a].slots()[i].unwrap();
    assert(is_first_slot(g[a].slots(), b, i));
    crate::graphs::lemma_first_slot_unique(g[a].slots(), b, i);
}

/// In a well-formed grid, a link from `a` to `b` goes through a linked slot of `a` that
/// holds `b`.
pub proof fn lemma_linked_slot<C: Node>(g: Seq<C>, a: int, b: int) -> (i: int)
    requires
        cells_wf(g),
        linked(g, a, b),
    ensures
        0 <= i < g[a].slots().len(),
        g[a].slots()[i] == Some(b as usize),
        g[a].link_slots()[i] is Some,
{
    crate::graphs::lemma_slot_of(g[a].slots(), b as usize);
    slot_of(g[a].slots(), b as usize).unwrap()
}

/// In a well-formed grid the link relation is symmetric.
pub proof fn lemma_linked_symmetric<C: Node>(g: Seq<C>, a: int, b: int)
    requires
        cells_wf(g),
        g.len() <= usize::MAX,
        linked(g, a, b),
    ensures
        linked(g, b, a),
{
    let i = lemma_linked_slot(g, a, b);
    lemma_slot_linked(g, a, i);
    assert(g[a].slots()[i].unwrap() as int == b);
}

/// Cell `v` is reached from `start` by following at most `n` links of `g`.
pub open spec fn walk<C: Node>(g: Seq<C>, start: int, v: int, n: nat) -> bool
    decreases n,
{
    if n == 0 {
        v == start && 0 <= v < g.len()
    } else {
        walk(g, start, v, (n - 1) as nat) || exists|u: int| #[trigger] linked(g, u, v) && walk(g, start, u, (n - 1) as nat)
    }
}

/// Cell `v` can be reached from `start` over links.
pub open spec fn reachable<C: Node>(g: Seq<C>, start: int, v: int) -> bool {
    exists|n: nat| #[trigger] walk(g, start, v, n)
}

/// Every cell that has a link can be reached from `start` over links.
pub open spec fn links_reachable<C: Node>(g: Seq<C>, start: int) -> bool {
    forall|v: int, y: int| #[trigger] linked(g, v, y) ==> reachable(g, start, v)
}

/// Adding links keeps every walk.
pub proof fn lemma_walk_grows<C: Node>(g1: Seq<C>, g2: Seq<C>, start: int, v: int, n: nat)
    requires
        g1.len() == g2.len(),
        forall|x: int, y: int| linked(g1, x, y) ==> #[trigger] linked(g2, x, y),
        walk(g1, start, v, n),
    ensures
        walk(g2, start, v, n),
    decreases n,
{
    if n > 0 {
        if walk(g1, start, v, (n - 1) as nat) {
            lemma_walk_grows(g1, g2, start, v, (n - 1) as nat);
        } else {
            let u = choose|u: int| #[trigger] linked(g1, u, v) && walk(g1, start, u, (n - 1) as nat);
            lemma_walk_grows(g1, g2, start, u, (n - 1) as nat);
            assert(linked(g2, u, v));
        }
    }
}

/// Adding links keeps every cell reachable that was.
pub proof fn lemma_reachable_grows<C: Node>(g1: Seq<C>, g2: Seq<C>, start: int)
    requires
        g1.len() == g2.len(),
        forall|x: int, y: int| linked(g1, x, y) ==> #[trigger] linked(g2, x, y),
    ensures
        forall|v: int| #[trigger] reachable(g1, start, v) ==> reachable(g2, start, v),
{
    assert forall|v: int| #[trigger] reachable(g1, start, v) implies reachable(g2, start, v) by {
        let n = choose|n: nat| #[trigger] walk(g1, start, v, n);
        lemma_walk_grows(g1, g2, start, v, n);
    }
}

/// One more link from a reachable cell reaches its other end.
pub proof fn lemma_reach_step<C: Node>(g: Seq<C>, start: int, u: int, v: int)
    requires
        reachable(g, start, u),
        linked(g, u, v),
    ensures
        reachable(g, start, v),
{
    let n = choose|n: nat| #[trigger] walk(g, start, u, n);
    assert(walk(g, start, v, n + 1));
}

/// In a well-formed grid, a cell with a link mark is linked to some cell.
pub proof fn lemma_nonempty_linked<C: Node>(g: Seq<C>, x: int) -> (y: int)
    requires
        cells_wf(g),
        0 <= x < g.len(),
        !cell_empty(g[x]),
    ensures
        linked(g, x, y),
{
    crate::graphs::lemma_some_ids_len(g[x].link_slots());
    let k = choose|k: int| 0 <= k < g[x].link_slots().len() && g[x].link_slots()[k] is Some;
    assert(cell_ok(g, x));
    assert(slot_ok(g, x, k));
    lemma_slot_linked(g, x, k);
    g[x].slots()[k].unwrap() as int
}

/// What `link(a, b)` may leave behind in `new`, returning `r`, when called on `old`.
pub open spec fn link_post<C: Node>(old: Orth<C>, new: Orth<C>, a: usize, b: usize, r: Result<(), Error>) -> bool {
    &&& new.wf()
    &&& new.spec_len() == old.spec_len()
    &&& new.spec_height() == old.spec_height()
    &&& new.spec_width() == old.spec_width()
    &&& same_topology(old.spec_cells(), new.spec_cells())
    &&& r == old.link_outcome(a, b)
    &&& r is Err ==> same_links(old.spec_cells(), new.spec_cells())
    &&& r is Ok ==> forall|x: int, y: int| #[trigger] new.is_linked(x, y) <==> (
        old.is_linked(x, y) || (x == a && y == b) || (x == b && y == a))
    &&& r is Ok ==> sum_links(new.spec_cells()) == sum_links(old.spec_cells()) + 2
    &&& r is Ok ==> count_empty(new.spec_cells())
        + (if cell_empty(old.spec_cells()[a as int]) { 1nat } else { 0 })
        + (if cell_empty(old.spec_cells()[b as int]) { 1nat } else { 0 })
        == count_empty(old.spec_cells())
    &&& r is Ok ==> !cell_empty(new.spec_cells()[a as int]) && !cell_empty(new.spec_cells()[b as int])
}

/// What `unlink(a, b)` may leave behind in `new`, returning `r`, when called on `old`.
pub open spec fn unlink_post<C: Node>(old: Orth<C>, new: Orth<C>, a: usize, b: usize, r: Result<(), Error>) -> bool {
    &&& new.wf()
    &&& new.spec_len() == old.spec_len()
    &&& new.spec_height() == old.spec_height()
    &&& new.spec_width() == old.spec_width()
    &&& same_topology(old.spec_cells(), new.spec_cells())
    &&& r == old.unlink_outcome(a, b)
    &&& r is Err ==> same_links(old.spec_cells(), new.spec_cells())
    &&& r is Ok ==> forall|x: int, y: int| #[trigger] new.is_linked(x, y) <==> (
        old.is_linked(x, y) && !(x == a && y == b) && !(x == b && y == a))
}

/// A grid of cells, stored in ascending id order, created at a fixed size.
pub struct Orth<C: Node> {
    len: usize,
    height: usize,
    width: usize,
    cells: Vec<C>,
}

/// The cells of a grid in ascending id order, handed out one at a time.
pub struct Iter<'a, C: Node> {
    slice: &'a [C],
    pos: usize,
}

impl<'a, C: Node> Iter<'a, C> {
    /// The cells still to come.
    pub closed spec fn rest(&self) -> Seq<C> {
        if self.pos <= self.slice@.len() {
            self.slice@.subrange(self.pos as int, self.slice@.len() as int)
        } else {
            Seq::empty()
        }
    }

    pub fn new(grid: &'a Orth<C>) -> (r: Self)
        ensures
            r.rest() == grid.spec_cells(),
    {
        let r = Iter { slice: grid.cells.as_slice(), pos: 0 };
        assert(r.slice@.subrange(0, r.slice@.len() as int) =~= r.slice@);
        r
    }

    pub fn next(&mut self) -> (r: Option<&'a C>)
        ensures
            old(self).rest().len() == 0 ==> r is None && final(self).rest().len() == 0,
            old(self).rest().len() > 0 ==> r == Some(&old(self).rest()[0])
                && final(self).rest() == old(self).rest().drop_first(),
    {
        if self.pos >= self.slice.len() {
            None
        } else {
            let ghost s = self.slice@.subrange(self.pos as int, self.slice@.len() as int);
            assert(s.drop_first() =~= self.slice@.subrange(self.pos + 1, self.slice@.len() as int));
            let c = &self.slice[self.pos];
            self.pos = self.pos + 1;
            Some(c)
        }
    }
}

impl<C: Node> Orth<C> {
    pub closed spec fn spec_cells(&self) -> Seq<C> {
        self.cells@
    }

    pub closed spec fn spec_len(&self) -> usize {
        self.len
    }

    pub closed spec fn spec_height(&self) -> usize {
        self.height
    }

    pub closed spec fn spec_width(&self) -> usize {
        self.width
    }

    /// The grid's invariant: its length is the number of cells, each cell is well formed,
    /// and the neighbor relation and the link relation are symmetric.
    pub open spec fn wf(&self) -> bool {
        &&& self.spec_len() == self.spec_cells().len()
        &&& cells_wf(self.spec_cells())
    }

    pub open spec fn is_linked(&self, a: int, b: int) -> bool {
        linked(self.spec_cells(), a, b)
    }

    pub open spec fn is_adjacent(&self, a: int, b: int) -> bool {
        adjacent(self.spec_cells(), a, b)
    }

    /// What `link(a, b)` returns: the first failing check, in this order, or success.
    pub open spec fn link_outcome(&self, a: usize, b: usize) -> Result<(), Error> {
        if a >= self.spec_len() {
            Err(Error::InvalidCell(a, self.spec_len()))
        } else if b >= self.spec_len() {
            Err(Error::InvalidCell(b, self.spec_len()))
        } else if !self.is_adjacent(a as int, b as int) {
            Err(Error::InvalidNeighbor(a, b))
        } else if self.is_linked(a as int, b as int) {
            Err(Error::AlreadyLinked(a, b))
        } else {
            Ok(())
        }
    }

    /// What `unlink(a, b)` returns: the first failing check, in this order, or success.
    pub open spec fn unlink_outcome(&self, a: usize, b: usize) -> Result<(), Error> {
        if a >= self.spec_len() {
            Err(Error::InvalidCell(a, self.spec_len()))
        } else if b >= self.spec_len() {
            Err(Error::InvalidCell(b, self.spec_len()))
        } else if !self.is_adjacent(a as int, b as int) {
            Err(Error::InvalidNeighbor(a, b))
        } else if !self.is_linked(a as int, b as int) {
            Err(Error::AlreadyUnlinked(a, b))
        } else {
            Ok(())
        }
    }

    /// Links two adjacent cells on both sides. Both sides are checked before either is
    /// marked, so a failure leaves the grid as it was.
    pub fn link(&mut self, a: usize, b: usize) -> (r: Result<(), Error>)
        requires
            old(self).wf(),
        ensures
            link_post(*old(self), *final(self), a, b, r),
    {
        let ghost s = self.spec_cells();
        let r = self.set_pair(a, b, true);
        proof {
            if r is Ok {
                let t = self.spec_cells();
                let (i, j) = choose|i: int, j: int| pair_set(s, t, a as int, b as int, i, j, true);
                lemma_pair_counts(s, t, a as int, b as int, i, j);
            }
        }
        r
    }

    /// Unlinks two linked cells on both sides. Both sides are checked before either is
    /// cleared, so a failure leaves the grid as it was.
    pub fn unlink(&mut self, a: usize, b: usize) -> (r: Result<(), Error>)
        requires
            old(self).wf(),
        ensures
            unlink_post(*old(self), *final(self), a, b, r),
    {
        self.set_pair(a, b, false)
    }

    #[verifier::spinoff_prover]
    #[verifier::rlimit(50)]
    fn set_pair(&mut self, a: usize, b: usize, on: bool) -> (r: Result<(), Error>)
        requires
            old(self).wf(),
        ensures
            final(self).wf(),
            final(self).spec_len() == old(self).spec_len(),
            final(self).spec_height() == old(self).spec_height(),
            final(self).spec_width() == old(self).spec_width(),
            same_topology(old(self).spec_cells(), final(self).spec_cells()),
            r == (if on { old(self).link_outcome(a, b) } else { old(self).unlink_outcome(a, b) }),
            r is Err ==> same_links(old(self).spec_cells(), final(self).spec_cells()),
            r is Ok ==> forall|x: int, y: int| #[trigger] final(self).is_linked(x, y) <==> (
                if (x == a && y == b) || (x == b && y == a) { on } else { old(self).is_linked(x, y) }),
            r is Ok ==> exists|i: int, j: int| pair_set(old(self).spec_cells(), final(self).spec_cells(), a as int, b as int, i, j, on),
    {
        if a >= self.len {
            return Err(Error::InvalidCell(a, self.len));
        }
        if b >= self.len {
            return Err(Error::InvalidCell(b, self.len));
        }
        let ghost s = self.cells@;
        let i = match self.cells[a].neighbor_id(b) {
            None => {
                proof {
                    if self.is_adjacent(a as int, b as int) {
                        let k = choose|k: int| 0 <= k < s[a as int].slots().len() && s[a as int].slots()[k] == Some(b);
                        assert(cell_ok(s, a as int));
                        assert(slot_ok(s, a as int, k));
                        assert(is_first_slot(s[a as int].slots(), b, k));
                    }
                }
                return Err(Error::InvalidNeighbor(a, b));
            },
            Some(i) => i,
        };
        proof {
            crate::graphs::lemma_slot_of(s[a as int].slots(), b);
            assert(is_first_slot(s[a as int].slots(), b, i as int));
            assert(cell_ok(s, a as int));
            assert(slot_ok(s, a as int, i as int));
        }
        assert(self.is_adjacent(a as int, b as int));
        if self.cells[a].linked_side(i) == on {
            if on {
                return Err(Error::AlreadyLinked(a, b));
            } else {
                return Err(Error::AlreadyUnlinked(a, b));
            }
        }
        let ghost j = slot_of(s[b as int].slots(), a).unwrap();
        proof {
            let k = choose|k: int| 0 <= k < s[b as int].slots().len() && s[b as int].slots()[k] == Some(a);
            assert(cell_ok(s, b as int));
            assert(slot_ok(s, b as int, k));
            assert(is_first_slot(s[b as int].slots(), a, k));
            crate::graphs::lemma_first_slot_unique(s[b as int].slots(), a, k);
        }
        let ra = if on { self.cells[a].link(b) } else { self.cells[a].unlink(b) };
        let rb = if on { self.cells[b].link(a) } else { self.cells[b].unlink(a) };
        proof {
            let t = self.cells@;
            assert(ra is Ok);
            assert(rb is Ok);
            assert(same_topology(s, t));
            lemma_set_pair(s, t, a as int, b as int, i as int, j, on);
            assert(cell_ok(s, b as int));
            assert(s[a as int].link_slots()[i as int] is Some != on);
            assert(linked_via(s[b as int].slots(), s[b as int].link_slots(), a) == s[b as int].link_slots()[j] is Some);
            assert(s[b as int].link_slots()[j] is Some != on);
            assert(pair_set(s, t, a as int, b as int, i as int, j, on));
        }
        Ok(())
    }

    /// The cell with id `id`, which must exist.
    pub(crate) fn node(&self, id: usize) -> (r: &C)
        requires
            self.wf(),
            id < self.spec_len(),
        ensures
            *r == self.spec_cells()[id as int],
    {
        &self.cells[id]
    }

    pub(crate) fn from_parts(len: usize, height: usize, width: usize, cells: Vec<C>) -> (r: Self)
        ensures
            r.spec_len() == len,
            r.spec_height() == height,
            r.spec_width() == width,
            r.spec_cells() == cells@,
    {
        Orth { len, height, width, cells }
    }

    fn check_id(&self, cell: usize) -> (r: Result<(), Error>)
        ensures
            r == (if cell >= self.spec_len() {
                Err::<(), Error>(Error::InvalidCell(cell, self.spec_len()))
            } else {
                Ok(())
            }),
    {
        if cell >= self.len {
            Err(Error::InvalidCell(cell, self.len))
        } else {
            Ok(())
        }
    }

    pub fn len(&self) -> (r: usize)
        ensures
            r == self.spec_len(),
    {
        self.len
    }

    pub fn is_empty(&self) -> (r: bool)
        ensures
            r == (self.spec_len() == 0),
    {
        self.len == 0
    }

    pub fn height(&self) -> (r: usize)
        ensures
            r == self.spec_height(),
    {
        self.height
    }

    pub fn width(&self) -> (r: usize)
        ensures
            r == self.spec_width(),
    {
        self.width
    }

    /// The cell with id `id`.
    pub fn cell(&self, id: usize) -> (r: Result<&C, Error>)
        requires
            self.wf(),
        ensures
            id < self.spec_len() ==> r == Ok::<&C, Error>(&self.spec_cells()[id as int]),
            id >= self.spec_len() ==> r == Err::<&C, Error>(Error::InvalidCell(id, self.spec_len())),
    {
        if id >= self.len {
            Err(Error::InvalidCell(id, self.len))
        } else {
            Ok(&self.cells[id])
        }
    }

    /// All cells, in ascending id order.
    pub fn cells(&self) -> (r: Iter<'_, C>)
        ensures
            r.rest() == self.spec_cells(),
    {
        Iter::new(self)
    }

    /// The ids of all cells, ascending.
    pub fn node_ids(&self) -> (r: Vec<usize>)
        requires
            self.wf(),
        ensures
            r@.len() == self.spec_len(),
            forall|i: int| 0 <= i < r@.len() ==> r@[i] == i,
    {
        let mut r: Vec<usize> = Vec::new();
        let mut i: usize = 0;
        while i < self.len
            invariant
                i <= self.len,
                r@.len() == i,
                forall|k: int| 0 <= k < i ==> r@[k] == k,
            decreases self.len - i,
        {
            r.push(i);
            i = i + 1;
        }
        r
    }

    /// A cell id drawn from `rng`; `None` on an empty grid.
    pub fn random<R: rand::Rng>(&self, rng: &mut R) -> (r: Option<usize>)
        requires
            self.wf(),
        ensures
            r is None <==> self.spec_len() == 0,
            r matches Some(x) ==> x < self.spec_len(),
    {
        let ids = self.node_ids();
        let r = choose_from(ids.as_slice(), rng);
        proof {
            if let Some(x) = r {
                let k = choose|k: int| 0 <= k < ids@.len() && ids@[k] == x;
            }
        }
        r
    }

    /// The neighbors of `node` that have at least one link (that belong to the carved
    /// maze), in slot order; none for an id outside the grid.
    pub fn linked_neighbors(&self, node: usize) -> (r: NeighborIds)
        requires
            self.wf(),
        ensures
            node >= self.spec_len() ==> neighbor_ids_of(r).len() == 0,
            node < self.spec_len() ==> neighbor_ids_of(r) == ids_where(
                self.spec_cells()[node as int].slots(),
                in_maze(self.spec_cells()),
            ),
    {
        self.filtered_neighbors(node, false)
    }

    /// The neighbors of `node` that have no link yet, in slot order; none for an id
    /// outside the grid.
    pub fn unlinked_neighbors(&self, node: usize) -> (r: NeighborIds)
        requires
            self.wf(),
        ensures
            node >= self.spec_len() ==> neighbor_ids_of(r).len() == 0,
            node < self.spec_len() ==> neighbor_ids_of(r) == ids_where(
                self.spec_cells()[node as int].slots(),
                outside_maze(self.spec_cells()),
            ),
    {
        self.filtered_neighbors(node, true)
    }

    fn filtered_neighbors(&self, node: usize, want_empty: bool) -> (r: NeighborIds)
        requires
            self.wf(),
        ensures
            node >= self.spec_len() ==> neighbor_ids_of(r).len() == 0,
            node < self.spec_len() ==> neighbor_ids_of(r) == ids_where(
                self.spec_cells()[node as int].slots(),
                if want_empty { outside_maze(self.spec_cells()) } else { in_maze(self.spec_cells()) },
            ),
    {
        let mut r = ids_new();
        if node >= self.len {
            return r;
        }
        let ghost keep = if want_empty {
            outside_maze(self.spec_cells())
        } else {
            in_maze(self.spec_cells())
        };
        let cell = &self.cells[node];
        let slots = cell.all_neighbors();
        let mut i: usize = 0;
        while i < slots.len()
            invariant
                i <= slots@.len(),
                node < self.spec_len(),
                slots@ == self.spec_cells()[node as int].slots(),
                self.spec_len() == self.cells@.len(),
                keep == (if want_empty {
                    outside_maze(self.spec_cells())
                } else {
                    in_maze(self.spec_cells())
                }),
                neighbor_ids_of(r) == ids_where(slots@.subrange(0, i as int), keep),
            decreases slots.len() - i,
        {
            assert(slots@.subrange(0, i + 1).drop_last() =~= slots@.subrange(0, i as int));
            assert(slots@.subrange(0, i + 1).last() == slots@[i as int]);
            if let Some(n) = slots[i] {
                if n < self.len {
                    let e = self.cells[n].is_empty();
                    assert(keep(n) == (e == want_empty));
                    if e == want_empty {
                        ids_push(&mut r, n);
                    }
                } else {
                    assert(!keep(n));
                }
            }
            i = i + 1;
        }
        assert(slots@.subrange(0, slots@.len() as int) =~= slots@);
        r
    }
}

/// Symmetry of linking: when `link(a, b)` succeeds, each of the two cells is linked to the
/// other afterwards; when `unlink(a, b)` succeeds, neither is.
pub proof fn lemma_link_symmetric<C: Node>(
    before: Orth<C>,
    linked_grid: Orth<C>,
    unlinked_grid: Orth<C>,
    a: usize,
    b: usize,
)
    requires
        before.wf(),
        link_post(before, linked_grid, a, b, Ok(())),
        unlink_post(linked_grid, unlinked_grid, a, b, Ok(())),
    ensures
        linked_grid.is_linked(a as int, b as int),
        linked_grid.is_linked(b as int, a as int),
        !unlinked_grid.is_linked(a as int, b as int),
        !unlinked_grid.is_linked(b as int, a as int),
{
    assert(linked_grid.is_linked(a as int, b as int));
    assert(linked_grid.is_linked(b as int, a as int));
    assert(!unlinked_grid.is_linked(a as int, b as int));
    assert(!unlinked_grid.is_linked(b as int, a as int));
}

/// Linking twice: after `link(a, b)` succeeded, a second `link(a, b)` fails with
/// `AlreadyLinked(a, b)` and leaves every link as it was.
pub proof fn lemma_link_twice<C: Node>(g0: Orth<C>, g1: Orth<C>, g2: Orth<C>, a: usize, b: usize, r: Result<(), Error>)
    requires
        g0.wf(),
        link_post(g0, g1, a, b, Ok(())),
        link_post(g1, g2, a, b, r),
    ensures
        r == Err::<(), Error>(Error::AlreadyLinked(a, b)),
        same_links(g1.spec_cells(), g2.spec_cells()),
{
    assert(g1.is_linked(a as int, b as int));
    assert(g1.is_adjacent(a as int, b as int)) by {
        assert(g0.spec_cells()[a as int].slots() == g1.spec_cells()[a as int].slots());
    }
}

} // verus!
