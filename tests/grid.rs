use mazegrid::{Error, Node, Orth, RectCell};

fn slots(grid: &Orth<RectCell>, id: usize) -> Vec<Option<usize>> {
    grid.cell(id).unwrap().all_neighbors().to_vec()
}

#[test]
fn it_works() {
    let result = 2 + 2;
    assert_eq!(result, 4);
}

#[test]
fn arc() {}

#[test]
fn test_rect_grid_neighbors() {
    let grid: Orth<RectCell> = Orth::new(3, 3);
    let mut it = grid.cells();
    let mut i = 0;
    while let Some(cell) = it.next() {
        assert_eq!(i, cell.id());
        i += 1;
    }
    assert_eq!(i, 9);
    assert_eq!(slots(&grid, 0), [None, Some(1), Some(3), None]);
    assert_eq!(slots(&grid, 1), [None, Some(2), Some(4), Some(0)]);
    assert_eq!(slots(&grid, 2), [None, None, Some(5), Some(1)]);
    assert_eq!(slots(&grid, 3), [Some(0), Some(4), Some(6), None]);
    assert_eq!(slots(&grid, 4), [Some(1), Some(5), Some(7), Some(3)]);
    assert_eq!(slots(&grid, 5), [Some(2), None, Some(8), Some(4)]);
    assert_eq!(slots(&grid, 6), [Some(3), Some(7), None, None]);
    assert_eq!(slots(&grid, 7), [Some(4), Some(8), None, Some(6)]);
    assert_eq!(slots(&grid, 8), [Some(5), None, None, Some(7)]);
}

#[test]
fn new_grid_shape_and_border() {
    let grid: Orth<RectCell> = Orth::new(3, 4);
    assert_eq!(grid.len(), 12);
    assert_eq!(grid.height(), 3);
    assert_eq!(grid.width(), 4);
    for id in 0..12 {
        let s = slots(&grid, id);
        assert_eq!(s[0].is_none(), id < 4);
        assert_eq!(s[1].is_none(), id % 4 == 3);
        assert_eq!(s[2].is_none(), id >= 8);
        assert_eq!(s[3].is_none(), id % 4 == 0);
        assert!(grid.cell(id).unwrap().is_empty());
    }
    assert_eq!(slots(&grid, 5), [Some(1), Some(6), Some(9), Some(4)]);
}

#[test]
fn new_linked_links_every_neighbor() {
    let grid: Orth<RectCell> = Orth::new_linked(2, 2);
    for id in 0..4 {
        let cell = grid.cell(id).unwrap();
        assert_eq!(cell.num_links(), 2);
        assert_eq!(cell.num_neighbors(), 2);
    }
    assert!(grid.cell(0).unwrap().linked_to(1));
    assert!(grid.cell(3).unwrap().linked_to(2));
    assert!(!grid.cell(0).unwrap().linked_to(3));
}

#[test]
fn empty_grid() {
    let grid: Orth<RectCell> = Orth::new(0, 5);
    assert!(grid.is_empty());
    assert_eq!(grid.cell(0).err(), Some(Error::InvalidCell(0, 0)));
}

#[test]
fn link_is_symmetric_and_unlink_reverses() {
    let mut grid: Orth<RectCell> = Orth::new(3, 3);
    assert_eq!(grid.link(4, 5), Ok(()));
    assert!(grid.cell(4).unwrap().linked_to(5));
    assert!(grid.cell(5).unwrap().linked_to(4));
    assert!(grid.cell(4).unwrap().linked_side(1));
    assert!(grid.cell(5).unwrap().linked_side(3));
    assert_eq!(grid.unlink(5, 4), Ok(()));
    assert!(!grid.cell(4).unwrap().linked_to(5));
    assert!(!grid.cell(5).unwrap().linked_to(4));
    assert!(grid.cell(4).unwrap().is_empty());
}

#[test]
fn link_twice_is_already_linked() {
    let mut grid: Orth<RectCell> = Orth::new(2, 2);
    assert_eq!(grid.link(0, 2), Ok(()));
    assert_eq!(grid.link(0, 2), Err(Error::AlreadyLinked(0, 2)));
    assert_eq!(grid.link(2, 0), Err(Error::AlreadyLinked(2, 0)));
    assert_eq!(grid.cell(0).unwrap().num_links(), 1);
    assert_eq!(grid.cell(2).unwrap().num_links(), 1);
    assert_eq!(grid.cell(1).unwrap().num_links(), 0);
}

#[test]
fn link_errors() {
    let mut grid: Orth<RectCell> = Orth::new(2, 2);
    assert_eq!(grid.link(4, 0), Err(Error::InvalidCell(4, 4)));
    assert_eq!(grid.link(0, 7), Err(Error::InvalidCell(7, 4)));
    assert_eq!(grid.link(0, 3), Err(Error::InvalidNeighbor(0, 3)));
    assert_eq!(grid.unlink(0, 1), Err(Error::AlreadyUnlinked(0, 1)));
    assert_eq!(grid.unlink(1, 2), Err(Error::InvalidNeighbor(1, 2)));
    for id in 0..4 {
        assert!(grid.cell(id).unwrap().is_empty());
    }
}

#[test]
fn cell_level_link() {
    let grid: Orth<RectCell> = Orth::new(2, 2);
    let mut cell = grid.cell(0).unwrap().clone();
    assert_eq!(cell.neighbor_id(2), Some(2));
    assert_eq!(cell.neighbor_id(3), None);
    assert_eq!(cell.neighbor(1), Some(1));
    assert_eq!(cell.neighbor(0), None);
    assert_eq!(cell.neighbor(9), None);
    assert_eq!(cell.max_neighbors(), 4);
    assert_eq!(cell.link(3), Err(Error::InvalidNeighbor(0, 3)));
    assert_eq!(cell.link(1), Ok(()));
    assert_eq!(cell.link(1), Err(Error::AlreadyLinked(0, 1)));
    assert_eq!(cell.unlink(1), Ok(()));
    assert_eq!(cell.unlink(1), Err(Error::AlreadyUnlinked(0, 1)));
}

#[test]
fn neighbors_and_links_in_slot_order() {
    let mut grid: Orth<RectCell> = Orth::new(3, 3);
    grid.link(4, 7).unwrap();
    grid.link(4, 1).unwrap();
    let cell = grid.cell(4).unwrap();
    let mut n = cell.neighbors();
    let mut all = Vec::new();
    while let Some(x) = n.next() {
        all.push(x);
    }
    assert_eq!(all, vec![1, 5, 7, 3]);
    let mut l = cell.links();
    let mut linked = Vec::new();
    while let Some(x) = l.next() {
        linked.push(x);
    }
    assert_eq!(linked, vec![1, 7]);
    assert_eq!(l.next(), None);
}

#[test]
fn linked_and_unlinked_neighbors() {
    let mut grid: Orth<RectCell> = Orth::new(3, 3);
    grid.link(1, 2).unwrap();
    grid.link(3, 6).unwrap();
    // neighbors of 4 are 1, 5, 7, 3 in slot order; 1 and 3 have links
    assert_eq!(grid.linked_neighbors(4).as_slice(), &[1, 3]);
    assert_eq!(grid.unlinked_neighbors(4).as_slice(), &[5, 7]);
    assert_eq!(grid.linked_neighbors(4).len(), 2);
    assert_eq!(grid.linked_neighbors(40).len(), 0);
}

#[test]
fn node_ids_ascending() {
    let grid: Orth<RectCell> = Orth::new(2, 3);
    assert_eq!(grid.node_ids(), vec![0, 1, 2, 3, 4, 5]);
}
