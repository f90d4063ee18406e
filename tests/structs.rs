use rust_analysis::structs::{Atom, Box, GeometryError, Position, System};

#[test]
fn distance_no_pbcs() {
    let box_ = Box::new(100, 100, 100);
    let atom1 = Atom::new(1, Some(1), 1, Position::new(0, 0, 0));
    let atom2 = Atom::new(2, Some(2), 1, Position::new(10, 10, 10));

    assert_eq!(atom1.distance_to_atom(&atom2, &box_), (10, 10, 10))
}

#[test]
fn distance_pbcs() {
    let box_ = Box::new(10, 10, 10);
    let atom1 = Atom::new(1, Some(1), 1, Position::new(0, 0, 0));
    let atom2 = Atom::new(2, Some(2), 1, Position::new(9, 9, 9));

    assert_eq!(atom1.distance_to_atom(&atom2, &box_), (1, 1, 1))
}

#[test]
fn distance_mix_pbcs() {
    let box_ = Box::new(10, 10, 10);
    let atom1 = Atom::new(1, Some(1), 1, Position::new(0, 0, 0));
    let atom2 = Atom::new(2, Some(2), 1, Position::new(7, 2, 9));

    assert_eq!(atom1.distance_to_atom(&atom2, &box_), (3, 2, 1))
}

#[test]
fn distance_is_symmetric_and_at_most_half_box() {
    let box_ = Box::new(10, 20, 30);
    let a = Atom::new(1, None, 1, Position::new(1, 19, 0));
    let b = Atom::new(2, None, 1, Position::new(8, 2, 15));
    let ab = a.distance_to_atom(&b, &box_);
    assert_eq!(ab, b.distance_to_atom(&a, &box_));
    assert_eq!(ab, (3, 3, 15));
    assert!(2 * ab.0 <= 10 && 2 * ab.1 <= 20 && 2 * ab.2 <= 30);
}

#[test]
fn distance_exactly_half_box_is_kept() {
    let box_ = Box::new(10, 10, 10);
    let a = Atom::new(1, None, 1, Position::new(0, 0, 0));
    let b = Atom::new(2, None, 1, Position::new(5, 6, 4));
    assert_eq!(a.distance_to_atom(&b, &box_), (5, 4, 4));
}

#[test]
fn squared_distance_wraps_around() {
    let box_ = Box::new(100, 100, 100);
    let a = Atom::new(1, None, 1, Position::new(0, 0, 0));
    let b = Atom::new(2, None, 1, Position::new(95, 3, 0));
    assert_eq!(a.sq_distance_to_atom(&b, &box_), 25 + 9);
}

#[test]
fn box_volume_and_checked() {
    assert_eq!(Box::new(2, 3, 4).vol(), 24);
    assert_eq!(Box::new(u32::MAX, u32::MAX, 2).vol(), (u32::MAX as u128) * (u32::MAX as u128) * 2);
    assert_eq!(Box::checked(1, 2, 3), Ok(Box::new(1, 2, 3)));
    assert_eq!(Box::checked(1, 0, 3), Err(GeometryError::ZeroLength));
}

fn sample_system() -> System {
    let atoms = vec![
        Atom::new(1, None, 1, Position::new(0, 0, 5)),
        Atom::new(2, None, 3, Position::new(0, 0, 50)),
        Atom::new(3, None, 4, Position::new(0, 0, 95)),
        Atom::new(4, None, 1, Position::new(0, 0, 90)),
    ];
    System::new(atoms, Box::new(100, 100, 100)).unwrap()
}

#[test]
fn filter_z_keeps_inclusive_range_in_order() {
    let s = sample_system();
    let f = s.filter_z(5, 90);
    let ids: Vec<u32> = f.atoms.iter().map(|a| a.id).collect();
    assert_eq!(ids, vec![1, 2, 4]);
    assert_eq!(f.box_, s.box_);
}

#[test]
fn filter_type_keeps_listed_types() {
    let s = sample_system();
    let f = s.filter_type(&[3, 4]);
    let ids: Vec<u32> = f.atoms.iter().map(|a| a.id).collect();
    assert_eq!(ids, vec![2, 3]);
    assert!(s.filter_type(&[]).atoms.is_empty());
}

#[test]
fn filter_type_is_idempotent() {
    let s = sample_system();
    let once = s.filter_type(&[1, 3]);
    let twice = once.filter_type(&[1, 3]);
    assert_eq!(once.atoms, twice.atoms);
    let all = s.filter_type(&[1, 3, 4]);
    assert_eq!(all.atoms, s.atoms);
}

#[test]
fn frame_with_zero_length_box_is_refused() {
    let atoms = vec![Atom::new(1, None, 1, Position::new(0, 0, 0))];
    assert_eq!(System::new(atoms.clone(), Box::new(0, 1, 1)).err(), Some(GeometryError::ZeroLength));
    assert_eq!(System::new(atoms.clone(), Box::new(1, 1, 0)).err(), Some(GeometryError::ZeroLength));
    let s = System::new(atoms.clone(), Box::new(1, 2, 3)).unwrap();
    assert_eq!(s.atoms, atoms);
    assert_eq!(s.box_, Box::new(1, 2, 3));
}
