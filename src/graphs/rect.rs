use crate::error::Error;
use crate::graphs::orth::{cell_ok, cells_wf, slot_ok, Orth};
use crate::graphs::{
    has_slot, is_first_slot, lemma_first_slot_unique, linked_via, some_ids,
    Neighbors, Node,
};
use vstd::arithmetic::div_mod::lemma_fundamental_div_mod_converse;
use vstd::prelude::*;

verus! {

/// The cell above `id` in a row-major grid of the given width.
pub open spec fn above_of(id: int, width: int) -> Option<usize> {
    if id < width { None } else { Some((id - width) as usize) }
}

/// The cell below `id`.
pub open spec fn below_of(id: int, width: int, len: int) -> Option<usize> {
    if id >= len - width { None } else { Some((id + width) as usize) }
}

/// The cell left of `id`.
pub open spec fn left_of(id: int, width: int) -> Option<usize> {
    if id % width == 0 { None } else { Some((id - 1) as usize) }
}

/// The cell right of `id`.
pub open spec fn right_of(id: int, width: int) -> Option<usize> {
    if id % width == width - 1 { None } else { Some((id + 1) as usize) }
}

/// The neighbor slots of cell `id` in north, east, south, west order.
pub open spec fn rect_slots(id: int, width: int, len: int) -> Seq<Option<usize>> {
    seq![above_of(id, width), right_of(id, width), below_of(id, width, len), left_of(id, width)]
}

/// The cells form a `height` by `width` lattice in row-major order.
pub open spec fn is_rect<C: Node>(cells: Seq<C>, height: int, width: int) -> bool {
    &&& height >= 0
    &&& width >= 0
    &&& cells.len() == height * width
    &&& forall|id: int| 0 <= id < cells.len() ==> #[trigger] cells[id].slots() == rect_slots(id, width, cells.len() as int)
    &&& forall|id: int| 0 <= id < cells.len() ==> #[trigger] cells[id].spec_id() == id
}

/// One cell of a rectangular grid: four slots in north, east, south, west order.
#[derive(Clone, Debug)]
pub struct RectCell {
    id: usize,
    n: [Option<usize>; 4],
    links: [Option<usize>; 4],
}

fn count_some(s: &[Option<usize>; 4]) -> (r: usize)
    ensures
        r == some_ids(s@).len(),
{
    let mut i: usize = 4;
    let mut r: usize = 0;
    assert(s@.subrange(4, 4).len() == 0);
    while i > 0
        invariant
            i <= 4,
            r <= 4 - i,
            r == some_ids(s@.subrange(i as int, 4)).len(),
        decreases i,
    {
        assert(s@.subrange(i - 1, 4).drop_first() =~= s@.subrange(i as int, 4));
        i = i - 1;
        if s[i].is_some() {
            r = r + 1;
        }
    }
    assert(s@.subrange(0, 4) =~= s@);
    r
}

impl Node for RectCell {
    closed spec fn spec_id(&self) -> usize {
        self.id
    }

    closed spec fn slots(&self) -> Seq<Option<usize>> {
        self.n@
    }

    closed spec fn link_slots(&self) -> Seq<Option<usize>> {
        self.links@
    }

    fn id(&self) -> (r: usize) {
        self.id
    }

    fn all_neighbors(&self) -> (r: &[Option<usize>]) {
        self.n.as_slice()
    }

    fn neighbors(&self) -> (r: Neighbors<'_>) {
        Neighbors::new(self.n.as_slice())
    }

    fn num_neighbors(&self) -> (r: usize) {
        count_some(&self.n)
    }

    fn max_neighbors(&self) -> (r: usize) {
        4
    }

    fn neighbor(&self, n: usize) -> (r: Option<usize>) {
        if n < 4 {
            self.n[n]
        } else {
            None
        }
    }

    fn neighbor_id(&self, cell: usize) -> (r: Option<usize>) {
        let mut i: usize = 0;
        while i < 4
            invariant
                i <= 4,
                forall|j: int| 0 <= j < i ==> self.n@[j] != Some(cell),
            decreases 4 - i,
        {
            if self.n[i] == Some(cell) {
                proof {
                    assert(is_first_slot(self.n@, cell, i as int));
                    lemma_first_slot_unique(self.n@, cell, i as int);
                }
                return Some(i);
            }
            i = i + 1;
        }
        None
    }

    fn links(&self) -> (r: Neighbors<'_>) {
        Neighbors::new(self.links.as_slice())
    }

    fn linked_to(&self, id: usize) -> (r: bool) {
        match self.neighbor_id(id) {
            Some(n) => self.links[n].is_some(),
            None => false,
        }
    }

    fn linked_side(&self, n: usize) -> (r: bool) {
        n < 4 && self.links[n].is_some()
    }

    fn num_links(&self) -> (r: usize) {
        count_some(&self.links)
    }

    fn is_empty(&self) -> (r: bool) {
        count_some(&self.links) == 0
    }

    fn link(&mut self, cell: usize) -> (r: Result<(), Error>) {
        match self.neighbor_id(cell) {
            None => Err(Error::InvalidNeighbor(self.id, cell)),
            Some(n) => {
                if self.links[n].is_none() {
                    self.links[n] = Some(cell);
                    Ok(())
                } else {
                    Err(Error::AlreadyLinked(self.id, cell))
                }
            },
        }
    }

    fn unlink(&mut self, cell: usize) -> (r: Result<(), Error>) {
        match self.neighbor_id(cell) {
            None => Err(Error::InvalidNeighbor(self.id, cell)),
            Some(n) => {
                if self.links[n].is_some() {
                    self.links[n] = None;
                    Ok(())
                } else {
                    Err(Error::AlreadyUnlinked(self.id, cell))
                }
            },
        }
    }
}

pub proof fn lemma_rect_slot(id: int, width: int, len: int, height: int)
    requires
        width > 0,
        height >= 0,
        len == height * width,
        len <= usize::MAX,
        0 <= id < len,
    ensures
        above_of(id, width) matches Some(b) ==> 0 <= b < len && below_of(b as int, width, len) == Some(id as usize),
        below_of(id, width, len) matches Some(b) ==> 0 <= b < len && above_of(b as int, width) == Some(id as usize),
        left_of(id, width) matches Some(b) ==> 0 <= b < len && right_of(b as int, width) == Some(id as usize),
        right_of(id, width) matches Some(b) ==> 0 <= b < len && left_of(b as int, width) == Some(id as usize),
        width == 1 ==> left_of(id, width) is None && right_of(id, width) is None,
{
    let q = id / width;
    let r = id % width;
    vstd::arithmetic::div_mod::lemma_fundamental_div_mod(id, width);
    assert(0 <= r < width) by {
        vstd::arithmetic::div_mod::lemma_mod_bound(id, width);
    }
    assert(0 <= q < height) by (nonlinear_arith)
        requires id == width * q + r, 0 <= r < width, 0 <= id < len, len == height * width, width > 0;
    if r != width - 1 {
        lemma_fundamental_div_mod_converse(id + 1, width, q, r + 1);
        assert(id + 1 < len) by (nonlinear_arith)
            requires id == width * q + r, r + 1 < width, q < height, len == height * width, width > 0, q >= 0;
    }
    if r != 0 {
        lemma_fundamental_div_mod_converse(id - 1, width, q, r - 1);
    }
    if width == 1 {
        assert(r == 0);
    }
}

/// A rectangular lattice of cells is well formed when no slot is linked, or when every
/// existing neighbor is.
proof fn lemma_rect_wf(cells: Seq<RectCell>, height: int, width: int, linked: bool)
    requires
        is_rect(cells, height, width),
        cells.len() <= usize::MAX,
        forall|id: int| 0 <= id < cells.len() ==> #[trigger] cells[id].link_slots() == (if linked {
            cells[id].slots()
        } else {
            seq![None, None, None, None]
        }),
    ensures
        cells_wf(cells),
{
    let len = cells.len() as int;
    assert forall|a: int| 0 <= a < len implies #[trigger] cell_ok(cells, a) by {
        assert(cells[a].slots() == rect_slots(a, width, len));
        assert(cells[a].link_slots().len() == 4);
        assert(width > 0) by (nonlinear_arith)
            requires len == height * width, height >= 0, width >= 0, 0 <= a < len;
        lemma_rect_slot(a, width, len, height);
        assert forall|i: int| 0 <= i < cells[a].slots().len() implies #[trigger] slot_ok(cells, a, i) by {
            if let Some(b) = cells[a].slots()[i] {
                let b = b as int;
                assert(0 <= b < len);
                lemma_rect_slot(b, width, len, height);
                let j = if i == 0 { 2 } else if i == 1 { 3 } else if i == 2 { 0 } else { 1int };
                assert(cells[b].slots() == rect_slots(b, width, len));
                assert(cells[b].slots()[j] == Some(a as usize));
                assert(has_slot(cells[b].slots(), a as usize));
                assert forall|k: int| 0 <= k < 4 && k != j implies cells[b].slots()[k] != Some(a as usize) by {
                }
                assert(is_first_slot(cells[b].slots(), a as usize, j));
                lemma_first_slot_unique(cells[b].slots(), a as usize, j);
                assert(linked_via(cells[b].slots(), cells[b].link_slots(), a as usize) == linked);
            }
        }
    }
}

/// The border of a rectangular grid: it has `height * width` cells, and a slot of a cell
/// is empty exactly where the cell lies on that side's border (north on the first row,
/// east on the last column, south on the last row, west on the first column).
pub proof fn lemma_rect_border<C: Node>(cells: Seq<C>, height: int, width: int, id: int)
    requires
        is_rect(cells, height, width),
        0 <= id < cells.len(),
    ensures
        cells.len() == height * width,
        cells[id].slots().len() == 4,
        cells[id].slots()[0] is None <==> id < width,
        cells[id].slots()[1] is None <==> id % width == width - 1,
        cells[id].slots()[2] is None <==> id >= cells.len() - width,
        cells[id].slots()[3] is None <==> id % width == 0,
{
    assert(cells[id].slots() == rect_slots(id, width, cells.len() as int));
}

impl Orth<RectCell> {
    /// A `height` by `width` grid with no link between any cells.
    pub fn new(height: usize, width: usize) -> (r: Self)
        requires
            height * width <= usize::MAX,
        ensures
            r.wf(),
            r.spec_len() == height * width,
            r.spec_height() == height,
            r.spec_width() == width,
            is_rect(r.spec_cells(), height as int, width as int),
            forall|id: int| 0 <= id < r.spec_len() ==> #[trigger] r.spec_cells()[id].link_slots()
                == seq![None::<usize>, None, None, None],
    {
        Self::build(height, width, false)
    }

    /// A `height` by `width` grid in which every cell is linked to all its neighbors.
    pub fn new_linked(height: usize, width: usize) -> (r: Self)
        requires
            height * width <= usize::MAX,
        ensures
            r.wf(),
            r.spec_len() == height * width,
            r.spec_height() == height,
            r.spec_width() == width,
            is_rect(r.spec_cells(), height as int, width as int),
            forall|id: int| 0 <= id < r.spec_len() ==> #[trigger] r.spec_cells()[id].link_slots()
                == r.spec_cells()[id].slots(),
    {
        Self::build(height, width, true)
    }

    fn build(height: usize, width: usize, linked: bool) -> (r: Self)
        requires
            height * width <= usize::MAX,
        ensures
            r.wf(),
            r.spec_len() == height * width,
            r.spec_height() == height,
            r.spec_width() == width,
            is_rect(r.spec_cells(), height as int, width as int),
            forall|id: int| 0 <= id < r.spec_len() ==> #[trigger] r.spec_cells()[id].link_slots() == (
                if linked { r.spec_cells()[id].slots() } else { seq![None, None, None, None] }),
    {
        let len = height * width;
        let mut cells: Vec<RectCell> = Vec::new();
        let mut id: usize = 0;
        while id < len
            invariant
                id <= len,
                len == height * width,
                cells@.len() == id,
                forall|k: int| 0 <= k < id ==> #[trigger] cells@[k].slots() == rect_slots(k, width as int, len as int),
                forall|k: int| 0 <= k < id ==> #[trigger] cells@[k].spec_id() == k,
                forall|k: int| 0 <= k < id ==> #[trigger] cells@[k].link_slots() == (if linked {
                    cells@[k].slots()
                } else {
                    seq![None, None, None, None]
                }),
            decreases len - id,
        {
            assert(0 < width <= len) by (nonlinear_arith)
                requires id < len, len == height * width;
            let c = if linked { Self::new_cell_linked(id, width, len) } else { Self::new_cell(id, width, len) };
            cells.push(c);
            id = id + 1;
        }
        proof {
            lemma_rect_wf(cells@, height as int, width as int, linked);
        }
        Orth::from_parts(len, height, width, cells)
    }

    fn above(id: usize, width: usize) -> (r: Option<usize>)
        ensures
            r == above_of(id as int, width as int),
    {
        if id < width {
            None
        } else {
            Some(id - width)
        }
    }

    fn below(id: usize, width: usize, len: usize) -> (r: Option<usize>)
        requires
            id < len,
            width <= len,
        ensures
            r == below_of(id as int, width as int, len as int),
    {
        if id >= len - width {
            None
        } else {
            Some(id + width)
        }
    }

    fn left(id: usize, width: usize) -> (r: Option<usize>)
        requires
            width > 0,
        ensures
            r == left_of(id as int, width as int),
    {
        proof {
            vstd::arithmetic::div_mod::lemma_small_mod(0, width as nat);
        }
        if id % width == 0 {
            None
        } else {
            Some(id - 1)
        }
    }

    fn right(id: usize, width: usize) -> (r: Option<usize>)
        requires
            width > 0,
            id < usize::MAX,
        ensures
            r == right_of(id as int, width as int),
    {
        if id % width == width - 1 {
            None
        } else {
            Some(id + 1)
        }
    }

    fn new_cell(id: usize, width: usize, len: usize) -> (r: RectCell)
        requires
            id < len,
            0 < width <= len,
        ensures
            r.spec_id() == id,
            r.slots() == rect_slots(id as int, width as int, len as int),
            r.link_slots() == seq![None::<usize>, None, None, None],
    {
        let r = RectCell {
            id,
            n: [Self::above(id, width), Self::right(id, width), Self::below(id, width, len), Self::left(id, width)],
            links: [None; 4],
        };
        assert(r.n@ =~= rect_slots(id as int, width as int, len as int));
        assert(r.links@ =~= seq![None::<usize>, None, None, None]);
        r
    }

    fn new_cell_linked(id: usize, width: usize, len: usize) -> (r: RectCell)
        requires
            id < len,
            0 < width <= len,
        ensures
            r.spec_id() == id,
            r.slots() == rect_slots(id as int, width as int, len as int),
            r.link_slots() == r.slots(),
    {
        let n = [Self::above(id, width), Self::right(id, width), Self::below(id, width, len), Self::left(id, width)];
        let r = RectCell { id, n, links: n };
        assert(r.n@ =~= rect_slots(id as int, width as int, len as int));
        r
    }
}

} // verus!
