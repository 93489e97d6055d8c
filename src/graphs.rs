pub mod orth;
pub mod rect;
pub mod weight;

use crate::error::Error;
use rand::seq::SliceRandom;
use vstd::prelude::*;

verus! {

/// The ids held by a slot array, in slot order, with the empty slots left out.
pub open spec fn some_ids(s: Seq<Option<usize>>) -> Seq<usize>
    decreases s.len(),
{
    if s.len() == 0 {
        Seq::empty()
    } else {
        let rest = some_ids(s.drop_first());
        match s[0] {
            Some(x) => seq![x] + rest,
            None => rest,
        }
    }
}

/// Slot `i` is the first slot of `s` that holds `x`.
pub open spec fn is_first_slot(s: Seq<Option<usize>>, x: usize, i: int) -> bool {
    &&& 0 <= i < s.len()
    &&& s[i] == Some(x)
    &&& forall|j: int| 0 <= j < i ==> s[j] != Some(x)
}

/// The first slot of `s` that holds `x`, if any does.
pub open spec fn slot_of(s: Seq<Option<usize>>, x: usize) -> Option<int> {
    if exists|i: int| is_first_slot(s, x, i) {
        Some(choose|i: int| is_first_slot(s, x, i))
    } else {
        None
    }
}

/// Some slot of `s` holds `x`.
pub open spec fn has_slot(s: Seq<Option<usize>>, x: usize) -> bool {
    exists|i: int| 0 <= i < s.len() && s[i] == Some(x)
}

/// The slot through which a cell reaches `x` is linked.
pub open spec fn linked_via(slots: Seq<Option<usize>>, links: Seq<Option<usize>>, x: usize) -> bool {
    match slot_of(slots, x) {
        Some(i) => i < links.len() && links[i] is Some,
        None => false,
    }
}

pub proof fn lemma_first_slot_unique(s: Seq<Option<usize>>, x: usize, i: int)
    requires
        is_first_slot(s, x, i),
    ensures
        slot_of(s, x) == Some(i),
{
    let k = choose|k: int| is_first_slot(s, x, k);
    assert(is_first_slot(s, x, k));
    if k < i {
        assert(s[k] != Some(x));
    } else if i < k {
        assert(s[i] != Some(x));
    }
}

/// `slot_of` names the first slot holding `x`, and is `None` only where no slot holds it.
pub proof fn lemma_slot_of(s: Seq<Option<usize>>, x: usize)
    ensures
        slot_of(s, x) matches Some(i) ==> is_first_slot(s, x, i),
        slot_of(s, x) is None ==> forall|j: int| 0 <= j < s.len() ==> s[j] != Some(x),
{
    if slot_of(s, x) is None {
        assert forall|j: int| 0 <= j < s.len() implies s[j] != Some(x) by {
            if s[j] == Some(x) {
                lemma_first_exists(s, x, j, j + 1);
            }
        }
    }
}

proof fn lemma_first_exists(s: Seq<Option<usize>>, x: usize, j: int, n: int)
    requires
        0 <= j < n <= s.len(),
        s[j] == Some(x),
    ensures
        exists|i: int| is_first_slot(s, x, i),
    decreases n,
{
    if exists|k: int| 0 <= k < j && s[k] == Some(x) {
        let k = choose|k: int| 0 <= k < j && s[k] == Some(x);
        lemma_first_exists(s, x, k, j);
    } else {
        assert(is_first_slot(s, x, j));
    }
}

pub proof fn lemma_some_ids_len(s: Seq<Option<usize>>)
    ensures
        some_ids(s).len() <= s.len(),
        (some_ids(s).len() == 0) <==> (forall|i: int| 0 <= i < s.len() ==> s[i] is None),
    decreases s.len(),
{
    if s.len() > 0 {
        lemma_some_ids_len(s.drop_first());
        if forall|i: int| 0 <= i < s.len() ==> s[i] is None {
            assert forall|i: int| 0 <= i < s.drop_first().len() implies s.drop_first()[i] is None by {
                assert(s.drop_first()[i] == s[i + 1]);
            }
        }
        if some_ids(s).len() == 0 {
            assert forall|i: int| 0 <= i < s.len() implies s[i] is None by {
                if i > 0 {
                    assert(s.drop_first()[i - 1] == s[i]);
                }
            }
        }
    }
}

pub proof fn lemma_some_ids_update(s: Seq<Option<usize>>, i: int, v: Option<usize>)
    requires
        0 <= i < s.len(),
    ensures
        s[i] is None && v is Some ==> some_ids(s.update(i, v)).len() == some_ids(s).len() + 1,
        s[i] is Some && v is None ==> some_ids(s.update(i, v)).len() + 1 == some_ids(s).len(),
        (s[i] is Some) == (v is Some) ==> some_ids(s.update(i, v)).len() == some_ids(s).len(),
    decreases s.len(),
{
    if i > 0 {
        assert(s.update(i, v).drop_first() =~= s.drop_first().update(i - 1, v));
        lemma_some_ids_update(s.drop_first(), i - 1, v);
    } else {
        assert(s.update(i, v).drop_first() =~= s.drop_first());
    }
}

/// The existing neighbor ids of a slot array, handed out one at a time in slot order.
pub struct Neighbors<'a> {
    slice: &'a [Option<usize>],
    pos: usize,
}

impl<'a> Neighbors<'a> {
    /// The ids still to come.
    pub closed spec fn rest(&self) -> Seq<usize> {
        if self.pos <= self.slice@.len() {
            some_ids(self.slice@.subrange(self.pos as int, self.slice@.len() as int))
        } else {
            Seq::empty()
        }
    }

    pub fn new(slice: &'a [Option<usize>]) -> (r: Self)
        ensures
            r.rest() == some_ids(slice@),
    {
        let r = Neighbors { slice, pos: 0 };
        assert(slice@.subrange(0, slice@.len() as int) =~= slice@);
        r
    }

    /// The next id, or `None` once every id has been handed out.
    pub fn next(&mut self) -> (r: Option<usize>)
        ensures
            old(self).rest().len() == 0 ==> r is None && final(self).rest().len() == 0,
            old(self).rest().len() > 0 ==> r == Some(old(self).rest()[0])
                && final(self).rest() == old(self).rest().drop_first(),
    {
        let len = self.slice.len();
        if self.pos > len {
            return None;
        }
        while self.pos < len && self.slice[self.pos].is_none()
            invariant
                self.pos <= len,
                len == self.slice@.len(),
                self.slice == old(self).slice,
                self.rest() == old(self).rest(),
            decreases len - self.pos,
        {
            let ghost s = self.slice@.subrange(self.pos as int, len as int);
            assert(s.drop_first() =~= self.slice@.subrange(self.pos + 1, len as int));
            self.pos = self.pos + 1;
        }
        if self.pos == len {
            assert(self.slice@.subrange(len as int, len as int).len() == 0);
            None
        } else {
            let ghost s = self.slice@.subrange(self.pos as int, len as int);
            assert(s.drop_first() =~= self.slice@.subrange(self.pos + 1, len as int));
            let x = self.slice[self.pos];
            self.pos = self.pos + 1;
            x
        }
    }
}

/// The cell type of a grid: an id and a fixed number of neighbor slots, each empty or
/// holding a neighbor's id, with a parallel array that marks the linked slots
/// (a linked slot holds the neighbor's id, an unlinked one holds nothing).
pub trait Node: Sized {
    /// The cell's id.
    spec fn spec_id(&self) -> usize;

    /// The neighbor slots, in the cell's fixed slot order.
    spec fn slots(&self) -> Seq<Option<usize>>;

    /// The link marks, parallel to the slots.
    spec fn link_slots(&self) -> Seq<Option<usize>>;

    fn id(&self) -> (r: usize)
        ensures
            r == self.spec_id(),
    ;

    fn all_neighbors(&self) -> (r: &[Option<usize>])
        ensures
            r@ == self.slots(),
    ;

    fn neighbors(&self) -> (r: Neighbors<'_>)
        ensures
            r.rest() == some_ids(self.slots()),
    ;

    fn num_neighbors(&self) -> (r: usize)
        ensures
            r == some_ids(self.slots()).len(),
    ;

    fn max_neighbors(&self) -> (r: usize)
        ensures
            r == self.slots().len(),
    ;

    /// The neighbor in slot `n`; `None` for an empty slot or one past the arity.
    fn neighbor(&self, n: usize) -> (r: Option<usize>)
        ensures
            r == (if n < self.slots().len() { self.slots()[n as int] } else { None }),
    ;

    /// The slot through which this cell reaches `cell`.
    fn neighbor_id(&self, cell: usize) -> (r: Option<usize>)
        ensures
            r is None <==> slot_of(self.slots(), cell) is None,
            r matches Some(i) ==> slot_of(self.slots(), cell) == Some(i as int),
    ;

    fn links(&self) -> (r: Neighbors<'_>)
        ensures
            r.rest() == some_ids(self.link_slots()),
    ;

    fn linked_to(&self, id: usize) -> (r: bool)
        ensures
            r == linked_via(self.slots(), self.link_slots(), id),
    ;

    fn linked_side(&self, n: usize) -> (r: bool)
        ensures
            r == (n < self.link_slots().len() && self.link_slots()[n as int] is Some),
    ;

    fn num_links(&self) -> (r: usize)
        ensures
            r == some_ids(self.link_slots()).len(),
    ;

    /// The cell has no link.
    fn is_empty(&self) -> (r: bool)
        ensures
            r == (some_ids(self.link_slots()).len() == 0),
    ;

    /// Marks the slot that reaches `cell` as linked.
    fn link(&mut self, cell: usize) -> (r: Result<(), Error>)
        ensures
            final(self).spec_id() == old(self).spec_id(),
            final(self).slots() == old(self).slots(),
            match slot_of(old(self).slots(), cell) {
                None => r == Err::<(), Error>(Error::InvalidNeighbor(old(self).spec_id(), cell))
                    && final(self).link_slots() == old(self).link_slots(),
                Some(i) => if i < old(self).link_slots().len() && old(self).link_slots()[i] is None {
                    r is Ok && final(self).link_slots() == old(self).link_slots().update(i, Some(cell))
                } else {
                    r == Err::<(), Error>(Error::AlreadyLinked(old(self).spec_id(), cell))
                        && final(self).link_slots() == old(self).link_slots()
                },
            },
    ;

    /// Clears the link mark of the slot that reaches `cell`.
    fn unlink(&mut self, cell: usize) -> (r: Result<(), Error>)
        ensures
            final(self).spec_id() == old(self).spec_id(),
            final(self).slots() == old(self).slots(),
            match slot_of(old(self).slots(), cell) {
                None => r == Err::<(), Error>(Error::InvalidNeighbor(old(self).spec_id(), cell))
                    && final(self).link_slots() == old(self).link_slots(),
                Some(i) => if i < old(self).link_slots().len() && old(self).link_slots()[i] is Some {
                    r is Ok && final(self).link_slots() == old(self).link_slots().update(i, None)
                } else {
                    r == Err::<(), Error>(Error::AlreadyUnlinked(old(self).spec_id(), cell))
                        && final(self).link_slots() == old(self).link_slots()
                },
            },
    ;
}

/// A cell's drawable region; the grid logic asks nothing of it.
pub trait Block {}

/// A small list of neighbor ids, kept inline.
#[verifier::external_body]
#[derive(Debug)]
pub struct NeighborIds {
    items: smallvec::SmallVec<[usize; 6]>,
}

/// What a `NeighborIds` holds, in order.
pub uninterp spec fn neighbor_ids_of(v: NeighborIds) -> Seq<usize>;

/// Relies on smallvec's `SmallVec::new`: a new vector is empty.
#[verifier::external_body]
pub(crate) fn ids_new() -> (r: NeighborIds)
    ensures
        neighbor_ids_of(r) == Seq::<usize>::empty(),
{
    NeighborIds { items: smallvec::SmallVec::new() }
}

/// Relies on smallvec's `SmallVec::push`: the value goes at the end.
#[verifier::external_body]
pub(crate) fn ids_push(v: &mut NeighborIds, x: usize)
    ensures
        neighbor_ids_of(*final(v)) == neighbor_ids_of(*old(v)).push(x),
{
    v.items.push(x)
}

/// Relies on smallvec's `SmallVec::as_slice`: the items in order.
#[verifier::external_body]
pub(crate) fn ids_slice(v: &NeighborIds) -> (r: &[usize])
    ensures
        r@ == neighbor_ids_of(*v),
{
    v.items.as_slice()
}

impl NeighborIds {
    pub fn as_slice(&self) -> (r: &[usize])
        ensures
            r@ == neighbor_ids_of(*self),
    {
        ids_slice(self)
    }

    pub fn len(&self) -> (r: usize)
        ensures
            r == neighbor_ids_of(*self).len(),
    {
        ids_slice(self).len()
    }
}

/// The edge ids of one cell's slots, kept inline.
#[verifier::external_body]
#[derive(Debug)]
pub struct SlotEdges {
    items: smallvec::SmallVec<[Option<usize>; 6]>,
}

/// What a `SlotEdges` holds, in slot order.
pub uninterp spec fn slot_edges_of(v: SlotEdges) -> Seq<Option<usize>>;

/// Relies on smallvec's `SmallVec::new`: a new vector is empty.
#[verifier::external_body]
pub(crate) fn slot_edges_new() -> (r: SlotEdges)
    ensures
        slot_edges_of(r) == Seq::<Option<usize>>::empty(),
{
    SlotEdges { items: smallvec::SmallVec::new() }
}

/// Relies on smallvec's `SmallVec::push`: the value goes at the end.
#[verifier::external_body]
pub(crate) fn slot_edges_push(v: &mut SlotEdges, x: Option<usize>)
    ensures
        slot_edges_of(*final(v)) == slot_edges_of(*old(v)).push(x),
{
    v.items.push(x)
}

/// Relies on smallvec's `SmallVec::as_slice`: the items in order.
#[verifier::external_body]
pub(crate) fn slot_edges_slice(v: &SlotEdges) -> (r: &[Option<usize>])
    ensures
        r@ == slot_edges_of(*v),
{
    v.items.as_slice()
}

/// Relies on rand's `SliceRandom::choose`: `None` for an empty slice, else one of its items.
#[verifier::external_body]
pub(crate) fn choose_from<R: rand::Rng>(items: &[usize], rng: &mut R) -> (r: Option<usize>)
    ensures
        r is None <==> items@.len() == 0,
        r matches Some(x) ==> items@.contains(x),
{
    items.choose(rng).copied()
}

} // verus!
