use force_sim::bound::Bound;
use force_sim::node::Node;
use force_sim::tree::{GenericTree, TreeError};
use force_sim::tree_data::TreeData;
use force_sim::two_power;
use rand::rngs::StdRng;
use rand::{Rng, SeedableRng};

struct Data;

impl TreeData for Data {
    type PointData = usize;
    type RegionData = usize;
}

fn square_bounds(min: i64, max: i64) -> Vec<Bound> {
    vec![Bound { min, max }, Bound { min, max }]
}

fn dist2_to(node: &Node<Data>, q: &[i64]) -> i128 {
    let c = node.coord();
    let mut l: i128 = 0;
    for j in 0..q.len() {
        let d = (c[j] as i128) - (q[j] as i128);
        l += d * d;
    }
    l
}

#[test]
fn test_add() {
    let mut tree: GenericTree<Data> = GenericTree::new(square_bounds(-10, 101), 1, 3);

    for i in 0..100i64 {
        for j in 0..100i64 {
            tree.add(vec![i, j], (i * 100 + j) as usize).unwrap();
        }
    }
    tree.check().unwrap();

    for i in 0..100i64 {
        for j in 0..100i64 {
            let temp = tree.find_closest(&vec![i, j]).unwrap();
            assert_eq!(temp.data(), &((i * 100 + j) as usize));
        }
    }
}

#[test]
fn test_from_nodes() {
    let mut nodes = vec![];
    for i in 0..100i64 {
        for j in 0..100i64 {
            nodes.push(Node::new_point(vec![i, j], (i * 100 + j) as usize));
        }
    }

    let tree = GenericTree::<Data>::from_nodes(nodes, 1, 3);
    tree.check().unwrap();
    for i in 0..100i64 {
        for j in 0..100i64 {
            assert_eq!(
                *tree
                    .find_closest_with_max_dist(&vec![i, j], 2)
                    .unwrap()
                    .data(),
                (i * 100 + j) as usize
            );
        }
    }
}

#[test]
fn test_parallel_inserts() {
    let mut nodes = vec![];
    for i in 0..100i64 {
        for j in 0..100i64 {
            nodes.push(Node::new_point(vec![i, j], (i * 100 + j) as usize));
        }
    }

    let tree = GenericTree::<Data>::new_in_par(nodes, 1, 3);
    tree.check().unwrap();
    for i in 0..100i64 {
        for j in 0..100i64 {
            assert_eq!(
                *tree
                    .find_closest_with_max_dist(&vec![i, j], 2)
                    .unwrap()
                    .data(),
                (i * 100 + j) as usize
            );
        }
    }
}

// A 100 x 100 grid scaled by 1000: a query between four grid points finds
// one of them, within the asked radius.
#[test]
fn sparse_tree_query() {
    let mut tree: GenericTree<Data> = GenericTree::new(square_bounds(-10_000, 101_000), 1, 3);
    for i in 0..100i64 {
        for j in 0..100i64 {
            tree.add(vec![i * 1000, j * 1000], (i * 100 + j) as usize)
                .unwrap();
        }
    }

    let q = vec![50_500i64, 50_500i64];
    let found = tree.find_closest_with_max_dist(&q, 800).unwrap();
    let d2 = dist2_to(found, &q);
    assert!(d2 <= 708 * 708);
    let data = *found.data();
    assert!(data == 5050 || data == 5051 || data == 5150 || data == 5151);

    // nothing lies within 0.7 grid-millis of the query
    assert!(tree.find_closest_with_max_dist(&q, 700).is_none());
}

// Bulk construction and one-by-one insertion agree on every query's
// distance.
#[test]
fn bulk_vs_incremental() {
    let mut rng = StdRng::seed_from_u64(7);
    let n = 20_000usize;
    let mut pts: Vec<(i64, i64)> = Vec::with_capacity(n);
    for _ in 0..n {
        pts.push((rng.gen_range(0..=1000_000i64), rng.gen_range(0..=1000_000i64)));
    }

    let nodes: Vec<Node<Data>> = pts
        .iter()
        .enumerate()
        .map(|(k, &(x, y))| Node::new_point(vec![x, y], k))
        .collect();
    let bulk = GenericTree::<Data>::from_nodes(nodes, 1, 3);
    bulk.check().unwrap();

    let mut incr: GenericTree<Data> =
        GenericTree::new(square_bounds(-1, 1000_001), 1, 3);
    for (k, &(x, y)) in pts.iter().enumerate() {
        incr.add(vec![x, y], k).unwrap();
    }
    incr.check().unwrap();
    assert_eq!(bulk.num, incr.num);

    for _ in 0..1000 {
        let q = vec![
            rng.gen_range(0..=1000_000i64),
            rng.gen_range(0..=1000_000i64),
        ];
        let a = bulk.find_closest(&q).unwrap();
        let b = incr.find_closest(&q).unwrap();
        assert_eq!(dist2_to(a, &q), dist2_to(b, &q));
    }
}

// The parallel and the sequential bulk build agree on every query's
// distance; seeded random points.
#[test]
fn parallel_vs_sequential_build() {
    let mut rng = StdRng::seed_from_u64(42);
    let n = 250_000usize;
    let scale = 1000i64;
    let mut pts: Vec<(i64, i64)> = Vec::with_capacity(n);
    for _ in 0..n {
        pts.push((
            rng.gen_range(0..=1000 * scale),
            rng.gen_range(0..=1000 * scale),
        ));
    }

    let seq_nodes: Vec<Node<Data>> = pts
        .iter()
        .enumerate()
        .map(|(k, &(x, y))| Node::new_point(vec![x, y], k))
        .collect();
    let par_nodes: Vec<Node<Data>> = pts
        .iter()
        .enumerate()
        .map(|(k, &(x, y))| Node::new_point(vec![x, y], k))
        .collect();

    let seq_tree = GenericTree::<Data>::from_nodes(seq_nodes, 1, 3);
    let par_tree = GenericTree::<Data>::new_in_par(par_nodes, 1, 3);
    assert_eq!(seq_tree.num, par_tree.num);

    for _ in 0..1000 {
        let q = vec![rng.gen_range(0..=1000 * scale), rng.gen_range(0..=1000 * scale)];
        let a = seq_tree.find_closest(&q).unwrap();
        let b = par_tree.find_closest(&q).unwrap();
        assert_eq!(dist2_to(a, &q), dist2_to(b, &q));
    }
}

#[test]
fn add_out_of_bounds() {
    let mut tree: GenericTree<Data> = GenericTree::new(square_bounds(0, 10), 1, 3);
    tree.add(vec![5, 5], 0).unwrap();
    assert_eq!(tree.add(vec![11, 5], 1), Err(TreeError::OutOfBounds));
    assert_eq!(tree.add(vec![5, -1], 2), Err(TreeError::OutOfBounds));
    // a failed insert does not bump the count
    assert_eq!(tree.num, 1);
}

#[test]
fn find_closest_empty() {
    let tree: GenericTree<Data> = GenericTree::new(square_bounds(0, 10), 1, 3);
    assert!(tree.find_closest(&vec![1, 1]).is_none());
}

// Coincident points are accepted and do not split the tree forever.
#[test]
fn coincident_points() {
    let mut tree: GenericTree<Data> = GenericTree::new(square_bounds(0, 16), 1, 1);
    for k in 0..10 {
        tree.add(vec![3, 3], k).unwrap();
    }
    tree.check().unwrap();
    assert_eq!(tree.num, 10);
    let found = tree.find_closest(&vec![3, 3]).unwrap();
    assert_eq!(dist2_to(found, &[3, 3]), 0);
}

#[test]
fn two_power_values() {
    assert_eq!(two_power(0), 1);
    assert_eq!(two_power(1), 2);
    assert_eq!(two_power(2), 4);
    assert_eq!(two_power(3), 8);
    assert_eq!(two_power(10), 1024);
}

// Three dimensions: the nearest lattice point is found.
#[test]
fn three_dimensional_tree() {
    let mut tree: GenericTree<Data> = GenericTree::new(
        vec![
            Bound { min: -1, max: 11 },
            Bound { min: -1, max: 11 },
            Bound { min: -1, max: 11 },
        ],
        1,
        7,
    );
    let mut id = 0usize;
    for x in 0..10i64 {
        for y in 0..10i64 {
            for z in 0..10i64 {
                tree.add(vec![x, y, z], id).unwrap();
                id += 1;
            }
        }
    }
    tree.check().unwrap();
    let found = tree.find_closest(&vec![4, 5, 6]).unwrap();
    assert_eq!(*found.data(), (4 * 100 + 5 * 10 + 6) as usize);
}
