use mazegrid::{animated_huntkill, huntkill, Dist, Error, Node, Orth, Path, RectCell, Step};
use rand::SeedableRng;
use rand_xoshiro::SplitMix64;

fn rect() -> Orth<RectCell> {
    let mut grid: Orth<RectCell> = Orth::new(4, 4);
    grid.link(0, 1).unwrap();
    grid.link(0, 4).unwrap();
    grid.link(4, 8).unwrap();
    grid.link(8, 12).unwrap();
    grid.link(1, 2).unwrap();
    grid.link(2, 3).unwrap();
    grid.link(1, 5).unwrap();
    grid.link(5, 6).unwrap();
    grid.link(6, 7).unwrap();
    grid.link(7, 11).unwrap();
    grid.link(11, 10).unwrap();
    grid.link(10, 9).unwrap();
    grid.link(9, 13).unwrap();
    grid.link(13, 14).unwrap();
    grid.link(14, 15).unwrap();
    grid
}

fn path_cells(path: &Path) -> Vec<usize> {
    (0..path.len()).map(|i| path.step(i)).collect()
}

#[test]
fn rect_dist() {
    let grid = rect();
    let dist = Dist::simple(&grid, 0);
    let expected = [0, 1, 2, 3, 1, 2, 3, 4, 2, 7, 6, 5, 3, 8, 9, 10];
    for (id, d) in expected.iter().enumerate() {
        assert_eq!(dist.dist(id), Some(*d));
    }
    assert_eq!(dist.max(), 10);
    assert_eq!(dist.source(), 0);
    assert_eq!(dist.dist(16), None);
}

#[test]
fn dist_leaves_unreachable_cells_out() {
    let mut grid = rect();
    grid.unlink(9, 13).unwrap();
    let dist = grid.dist(0);
    assert_eq!(dist.dist(9), Some(7));
    for id in [13, 14, 15] {
        assert_eq!(dist.dist(id), None);
    }
    assert_eq!(dist.max(), 7);
    let from_13 = grid.dist(13);
    assert_eq!(from_13.dist(15), Some(2));
    assert_eq!(from_13.dist(0), None);
}

#[test]
fn dist_on_fully_linked_grid() {
    let grid: Orth<RectCell> = Orth::new_linked(3, 3);
    let dist = grid.dist(4);
    let expected = [2, 1, 2, 1, 0, 1, 2, 1, 2];
    for (id, d) in expected.iter().enumerate() {
        assert_eq!(dist.dist(id), Some(*d));
    }
    assert_eq!(dist.max(), 2);
}

#[test]
fn dist_from_outside_the_grid() {
    let grid = rect();
    let dist = grid.dist(99);
    for id in 0..16 {
        assert_eq!(dist.dist(id), None);
    }
    assert_eq!(dist.max(), 0);
}

#[test]
fn set_max_changes_only_max() {
    let grid = rect();
    let mut dist = grid.dist(0);
    dist.set_max(3);
    assert_eq!(dist.max(), 3);
    assert_eq!(dist.dist(15), Some(10));
}

#[test]
fn rect_path() {
    let grid = rect();
    let dist = Dist::simple(&grid, 0);
    let path = dist.shortest_path(&grid, 15).unwrap();
    assert_eq!(path_cells(&path), vec![0, 1, 5, 6, 7, 11, 10, 9, 13, 14, 15]);
    assert_eq!(path.step_num(0), Some(0));
    assert_eq!(path.step_num(9), Some(7));
    assert_eq!(path.step_num(15), Some(10));
    assert_eq!(path.step_num(2), None);
    assert_eq!(path.step_num(99), None);
    assert_eq!(path.max(), Some(10));
}

#[test]
fn shortest_path_round_trip() {
    let grid = rect();
    for start in [0, 6, 12] {
        let dist = grid.dist(start);
        for end in 0..16 {
            let path = grid.shortest_path(&dist, end).unwrap();
            let cells = path_cells(&path);
            assert_eq!(cells.len(), dist.dist(end).unwrap() + 1);
            assert_eq!(cells[0], start);
            assert_eq!(*cells.last().unwrap(), end);
            for w in cells.windows(2) {
                assert!(grid.cell(w[0]).unwrap().linked_to(w[1]));
                assert!(grid.cell(w[1]).unwrap().linked_to(w[0]));
            }
        }
    }
}

#[test]
fn shortest_path_ties_take_first_slot() {
    // in a fully linked 2x2 grid both 1 and 2 are one step from 0; from 3 the first
    // linked slot (north, cell 1) wins
    let grid: Orth<RectCell> = Orth::new_linked(2, 2);
    let path = grid.shortest_path_simple(0, 3).unwrap();
    assert_eq!(path_cells(&path), vec![0, 1, 3]);
}

#[test]
fn shortest_path_to_unreached_cell() {
    let mut grid = rect();
    grid.unlink(9, 13).unwrap();
    let dist = grid.dist(0);
    assert_eq!(grid.shortest_path(&dist, 14).err(), Some(Error::NoPathAvailable(14)));
    assert_eq!(grid.shortest_path(&dist, 40).err(), Some(Error::NoPathAvailable(40)));
    assert_eq!(grid.shortest_path_simple(0, 15).err(), Some(Error::NoPathAvailable(15)));
    assert_eq!(Path::shortest_path(&grid, &dist, 13).err(), Some(Error::NoPathAvailable(13)));
}

#[test]
fn path_add_rejects_repeats() {
    let grid = rect();
    let mut path = Path::blank(&grid);
    assert!(path.is_empty());
    assert_eq!(path.add(3), Ok(()));
    assert_eq!(path.add(7), Ok(()));
    assert_eq!(path.add(3), Err(Error::InvalidPathAdd(3)));
    assert_eq!(path.add(16), Err(Error::InvalidId(16, 16)));
    assert_eq!(path.len(), 2);
    assert_eq!(path.step(1), 7);
    assert_eq!(path.step_num(7), Some(1));
    path.set_max(Some(9));
    assert_eq!(path.max(), Some(9));
}

fn total_links(grid: &Orth<RectCell>) -> usize {
    (0..grid.len()).map(|id| grid.cell(id).unwrap().num_links()).sum()
}

fn link_marks(grid: &Orth<RectCell>) -> Vec<Vec<bool>> {
    (0..grid.len())
        .map(|id| {
            let cell = grid.cell(id).unwrap();
            (0..4).map(|n| cell.linked_side(n)).collect()
        })
        .collect()
}

#[test]
fn algo_huntkill() {
    let rng = &mut SplitMix64::seed_from_u64(13131313131313131313);
    let mut graph: Orth<RectCell> = Orth::new(8, 8);
    huntkill(&mut graph, rng).unwrap();
    assert_eq!(total_links(&graph), 2 * (64 - 1));
    for id in 0..64 {
        assert!(!graph.cell(id).unwrap().is_empty());
    }
    let dist = graph.dist(0);
    for id in 0..64 {
        assert!(dist.dist(id).is_some());
    }
}

#[test]
fn huntkill_is_deterministic() {
    let mut a: Orth<RectCell> = Orth::new(6, 5);
    let mut b: Orth<RectCell> = Orth::new(6, 5);
    huntkill(&mut a, &mut SplitMix64::seed_from_u64(42)).unwrap();
    huntkill(&mut b, &mut SplitMix64::seed_from_u64(42)).unwrap();
    assert_eq!(link_marks(&a), link_marks(&b));
    assert_eq!(total_links(&a), 2 * (30 - 1));
}

#[test]
fn huntkill_small_grids() {
    let mut empty: Orth<RectCell> = Orth::new(0, 0);
    assert_eq!(huntkill(&mut empty, &mut SplitMix64::seed_from_u64(1)), Ok(()));
    let mut one: Orth<RectCell> = Orth::new(1, 1);
    assert_eq!(huntkill(&mut one, &mut SplitMix64::seed_from_u64(1)), Ok(()));
    assert!(one.cell(0).unwrap().is_empty());
    let mut line: Orth<RectCell> = Orth::new(1, 7);
    huntkill(&mut line, &mut SplitMix64::seed_from_u64(7)).unwrap();
    assert_eq!(total_links(&line), 12);
}

#[test]
fn random_cell_is_in_grid() {
    let grid: Orth<RectCell> = Orth::new(3, 3);
    let rng = &mut SplitMix64::seed_from_u64(5);
    for _ in 0..20 {
        assert!(grid.random(rng).unwrap() < 9);
    }
    let empty: Orth<RectCell> = Orth::new(0, 3);
    assert_eq!(empty.random(rng), None);
}

#[test]
fn anim_huntkill() {
    let mut plain: Orth<RectCell> = Orth::new(8, 8);
    let mut animated: Orth<RectCell> = Orth::new(8, 8);
    huntkill(&mut plain, &mut SplitMix64::seed_from_u64(13131313131313131313)).unwrap();
    let steps = animated_huntkill(&mut animated, &mut SplitMix64::seed_from_u64(13131313131313131313)).unwrap();
    assert_eq!(link_marks(&plain), link_marks(&animated));
    let links: Vec<(usize, usize)> = steps
        .iter()
        .filter_map(|s| match s {
            Step::Link(a, b) => Some((*a, *b)),
            Step::Select(_) => None,
        })
        .collect();
    assert_eq!(links.len(), 63);
    for (a, b) in links {
        assert!(animated.cell(a).unwrap().linked_to(b));
    }
    assert!(matches!(steps[0], Step::Select(_)));
}

#[test]
fn anim_huntkill_empty_grid() {
    let mut grid: Orth<RectCell> = Orth::new(0, 4);
    let r = animated_huntkill(&mut grid, &mut SplitMix64::seed_from_u64(3));
    assert_eq!(r.err(), Some(Error::ZeroSizedGraph));
}
