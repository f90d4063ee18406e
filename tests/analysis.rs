use rust_analysis::analysis::{bond_vectors, find_nns, OrderParamError};
use rust_analysis::structs::{Atom, Box, NNs, Position, System};

fn ids(nn: &NNs) -> Vec<u32> {
    nn.neighbours.iter().map(|a| a.id).collect()
}

#[test]
fn neighbours_across_the_boundary() {
    // A box of side 10 on a grid of 0.1: particles at 0 and 9.5, cutoff 1.0.
    let atoms = vec![
        Atom::new(1, None, 1, Position::new(0, 0, 0)),
        Atom::new(2, None, 1, Position::new(95, 0, 0)),
    ];
    let nns = find_nns(&System::new(atoms, Box::new(100, 100, 100)).unwrap(), 10);
    assert_eq!(nns.len(), 2);
    assert_eq!(ids(&nns[0]), vec![2]);
    assert_eq!(ids(&nns[1]), vec![1]);
}

#[test]
fn neighbours_cutoff_is_inclusive_and_self_excluded() {
    let atoms = vec![
        Atom::new(1, None, 1, Position::new(0, 0, 0)),
        Atom::new(2, None, 1, Position::new(3, 4, 0)),
        Atom::new(3, None, 1, Position::new(0, 0, 6)),
        Atom::new(4, None, 1, Position::new(50, 50, 50)),
    ];
    let nns = find_nns(&System::new(atoms, Box::new(100, 100, 100)).unwrap(), 5);
    assert_eq!(ids(&nns[0]), vec![2]);
    assert_eq!(ids(&nns[1]), vec![1]);
    assert_eq!(ids(&nns[2]), Vec::<u32>::new());
    assert_eq!(ids(&nns[3]), Vec::<u32>::new());
    for (i, nn) in nns.iter().enumerate() {
        assert_eq!(nn.central.id as usize, i + 1);
        assert!(nn.neighbours.iter().all(|q| q.id != nn.central.id));
    }
}

#[test]
fn neighbours_match_brute_force() {
    let box_ = Box::new(37, 41, 43);
    let mut atoms = Vec::new();
    let mut seed: u64 = 12345;
    for id in 0..40u32 {
        let mut next = || {
            seed = seed.wrapping_mul(6364136223846793005).wrapping_add(1442695040888963407);
            (seed >> 33) as i32
        };
        let p = Position::new(next() % 37, next() % 41, next() % 43);
        atoms.push(Atom::new(id, None, 1, p));
    }
    let cutoff: u32 = 9;
    let nns = find_nns(&System::new(atoms.clone(), box_).unwrap(), cutoff);
    for (i, c) in atoms.iter().enumerate() {
        let expected: Vec<u32> = atoms
            .iter()
            .filter(|q| {
                let (dx, dy, dz) = c.distance_to_atom(q, &box_);
                let d = ((dx * dx + dy * dy + dz * dz) as f64).sqrt();
                q.id != c.id && d <= cutoff as f64
            })
            .map(|q| q.id)
            .collect();
        assert_eq!(ids(&nns[i]), expected);
    }
}

#[test]
fn bond_vectors_raw_and_periodic() {
    let box_ = Box::new(10, 10, 10);
    let c = Atom::new(1, None, 1, Position::new(1, 5, 5));
    let q = Atom::new(2, None, 1, Position::new(9, 3, 5));
    let nn = NNs::new(c, vec![q]);
    assert_eq!(bond_vectors(&nn, &box_, false), Ok(vec![(8, -2, 0)]));
    assert_eq!(bond_vectors(&nn, &box_, true), Ok(vec![(-2, -2, 0)]));
}

#[test]
fn bond_vectors_of_empty_shell_is_an_error() {
    let c = Atom::new(1, None, 1, Position::new(1, 5, 5));
    let nn = NNs::new(c, vec![]);
    assert_eq!(
        bond_vectors(&nn, &Box::new(10, 10, 10), false),
        Err(OrderParamError::EmptyNeighborhood)
    );
}
