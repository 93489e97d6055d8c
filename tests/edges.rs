use mazegrid::edges::{Conn, Undirected};
use mazegrid::{Error, Orth, Pt, RectCell, Uniform};
use rand::{Rng, SeedableRng};
use rand_xoshiro::SplitMix64;

#[test]
fn uniform_weights() {
    let rng = &mut SplitMix64::seed_from_u64(13131313131313131313);
    let grid: Orth<RectCell> = Orth::new(4, 4);
    let mut w = [[0; 4]; 16];
    for id in w.iter_mut() {
        for n in id.iter_mut() {
            *n = rng.gen_range(1..=40);
        }
    }
    let weights = Uniform::from_slice(&grid, &w).unwrap();
    // the edge 0-1 takes cell 0's entry from both sides
    assert_eq!(weights.weight(0, 1), Ok(w[0][1]));
    assert_eq!(weights.weight(1, 3), Ok(w[0][1]));
    // the edge 5-9 takes cell 5's entry
    assert_eq!(weights.weight(9, 0), Ok(w[5][2]));
    assert_eq!(weights.weight(0, 0), Err(Error::InvalidEdge(0, 0)));
    assert_eq!(weights.weight(16, 0), Err(Error::InvalidId(16, 16)));
    assert_eq!(weights.weight(3, 4), Err(Error::InvalidNeighborId(4, 4)));
}

#[test]
fn uniform_weights_wrong_size() {
    let grid: Orth<RectCell> = Orth::new(2, 2);
    let w = [[1usize; 4]; 3];
    assert_eq!(Uniform::from_slice(&grid, &w).err(), Some(Error::MismatchedListSize(3, 4)));
}

#[test]
fn edge_index_dedup() {
    let grid: Orth<RectCell> = Orth::new(3, 3);
    let mut idx: Undirected<u32> = Undirected::new(&grid, 7, 1);
    // 3x3 grid: 12 interior edges, 12 boundary sides
    assert_eq!(idx.edges().len(), 12);
    assert_eq!(idx.outer().len(), 12);
    assert_eq!(idx.edge_value(4, 1), Ok(&7));
    assert_eq!(idx.edge_value(5, 3), Ok(&7));
    idx.set_edge_value(4, 1, 99).unwrap();
    assert_eq!(idx.edge_value(5, 3), Ok(&99));
    assert_eq!(idx.edge_value(4, 1), Ok(&99));
    assert_eq!(idx.edge_value(4, 2), Ok(&7));
    assert_eq!(idx.edge_value(0, 0), Err(Error::InvalidEdge(0, 0)));
    assert_eq!(idx.set_edge_value(9, 0, 1), Err(Error::InvalidId(9, 9)));
    assert_eq!(idx.set_edge_value(0, 5, 1), Err(Error::InvalidNeighborId(5, 4)));
    assert_eq!(idx.set_edge_value(2, 1, 1), Err(Error::InvalidEdge(2, 1)));
}

#[test]
fn edge_index_records() {
    let grid: Orth<RectCell> = Orth::new(2, 2);
    let idx: Undirected<usize> = Undirected::new_with(&grid, |_, id, n| id * 10 + n, |_, id, n| 100 + id * 10 + n);
    let edges = idx.edges();
    assert_eq!(edges.len(), 4);
    assert_eq!(*edges[0].a(), Conn::new(0, 1));
    assert_eq!(*edges[0].b(), Conn::new(1, 3));
    assert_eq!(*edges[0].value(), 1);
    assert_eq!(*edges[1].a(), Conn::new(0, 2));
    assert_eq!(*edges[1].b(), Conn::new(2, 0));
    assert_eq!(*edges[2].a(), Conn::new(1, 2));
    assert_eq!(*edges[3].a(), Conn::new(2, 1));
    assert!(edges[3].has_id(3));
    assert!(!edges[3].has_id(0));
    let outer = idx.outer();
    assert_eq!(outer.len(), 8);
    assert_eq!(outer[0].0, Conn::new(0, 0));
    assert_eq!(outer[0].1, 100);
    assert_eq!(outer[1].0, Conn::new(0, 3));
    assert_eq!(outer[1].1, 103);
}

#[test]
fn edge_index_map() {
    let grid: Orth<RectCell> = Orth::new(2, 2);
    let idx: Undirected<u8> = Undirected::new(&grid, 1, 2);
    let named = idx.map(&grid, &String::from("in"), &String::from("out"));
    assert_eq!(named.edge_value(0, 1).map(|s| s.as_str()), Ok("in"));
    assert_eq!(named.outer()[0].1, "out");
    let side_number = |_: &Orth<RectCell>, c: &Conn| c.id() * 4 + c.side();
    let sides = idx.map_with(&grid, side_number, side_number);
    assert_eq!(sides.edge_value(3, 0), Ok(&6));
    assert_eq!(sides.outer()[2].1, 4);
}

#[test]
fn point_coordinates() {
    let p = Pt::new(3i32, -4);
    assert_eq!(p.x(), 3);
    assert_eq!(p.y(), -4);
}
