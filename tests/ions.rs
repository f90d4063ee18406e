use rust_analysis::ions::{classify_ions, classify_shell, IonRule, Shell};
use rust_analysis::structs::{Atom, NNs, Position};

fn at(id: u32, t: u32) -> Atom {
    Atom::new(id, None, t, Position::new(id as i32, 0, 0))
}

fn rules() -> Vec<IonRule> {
    vec![
        IonRule { species: 3, partner: 4, solvent: 1, full_count: 6, solvent_limit: 4, partial_species: 2 },
        IonRule { species: 4, partner: 3, solvent: 1, full_count: 6, solvent_limit: 4, partial_species: 1 },
    ]
}

#[test]
fn full_partial_and_dropped_ions() {
    let full = NNs::new(at(1, 3), (10..16).map(|i| at(i, 4)).collect());
    let partial = NNs::new(at(2, 3), vec![at(20, 1), at(21, 1), at(22, 4)]);
    let dropped = NNs::new(at(3, 3), (30..35).map(|i| at(i, 1)).collect());
    let water = NNs::new(at(4, 1), vec![]);
    let anion = NNs::new(at(5, 4), vec![at(40, 1)]);
    let out = classify_ions(&vec![full, partial, dropped, water, anion], &rules());
    assert_eq!(out.full, 1);
    assert_eq!(out.partial, 2);
    assert_eq!(out.atoms, vec![at(1, 3), Atom { atom_type: 2, ..at(2, 3) }, Atom { atom_type: 1, ..at(5, 4) }]);
}

#[test]
fn shell_needs_exactly_the_full_count() {
    let r = rules()[0];
    let seven = NNs::new(at(1, 3), (10..17).map(|i| at(i, 4)).collect());
    assert_eq!(classify_shell(&seven, &r), Shell::Partial);
    let mut crowd: Vec<Atom> = (10..17).map(|i| at(i, 4)).collect();
    crowd.extend((20..24).map(|i| at(i, 1)));
    assert_eq!(classify_shell(&NNs::new(at(1, 3), crowd), &r), Shell::Unmarked);
    let six = NNs::new(at(1, 3), (10..16).map(|i| at(i, 4)).chain((20..30).map(|i| at(i, 1))).collect());
    assert_eq!(classify_shell(&six, &r), Shell::Full);
}
