use rust_analysis::analysis::find_nns;
use rust_analysis::cluster::{is_well_formed, label_clusters, largest_cluster, ClusterSummary, DisjointSets};
use rust_analysis::structs::{Atom, Box, NNs, Position, System};

fn line(xs: &[i32], t: u32) -> Vec<Atom> {
    xs.iter()
        .enumerate()
        .map(|(i, &x)| Atom::new(i as u32 + 1, None, t, Position::new(x, 0, 0)))
        .collect()
}

#[test]
fn chain_is_one_cluster() {
    let nns = find_nns(&System::new(line(&[0, 3, 6, 9], 2), Box::new(100, 100, 100)).unwrap(), 3);
    assert!(is_well_formed(&nns));
    let lab = label_clusters(&nns);
    assert_eq!(lab.atom_ids, vec![1, 2, 3, 4]);
    assert_eq!(lab.cluster_ids, vec![1, 1, 1, 1]);
    assert_eq!(lab.n_clusters, 1);
}

#[test]
fn disjoint_pairs_are_two_clusters() {
    let nns = find_nns(&System::new(line(&[0, 3, 20, 23], 2), Box::new(100, 100, 100)).unwrap(), 3);
    let lab = label_clusters(&nns);
    assert_eq!(lab.cluster_ids, vec![1, 1, 2, 2]);
    assert_eq!(lab.n_clusters, 2);
}

#[test]
fn clusters_numbered_by_first_appearance() {
    // Chain 1-3-5 and chain 2-4, interleaved in the list, plus a loner.
    let nns = find_nns(
        &System::new(line(&[0, 40, 3, 43, 6, 80], 2), Box::new(200, 200, 200)).unwrap(),
        3,
    );
    let lab = label_clusters(&nns);
    assert_eq!(lab.cluster_ids, vec![1, 2, 1, 2, 1, 3]);
    assert_eq!(lab.n_clusters, 3);
    assert_eq!(lab.cluster_of(5), Some(1));
    assert_eq!(lab.cluster_of(6), Some(3));
    assert_eq!(lab.cluster_of(99), None);
}

#[test]
fn empty_list_has_no_clusters() {
    let lab = label_clusters(&Vec::new());
    assert_eq!(lab.n_clusters, 0);
    assert!(lab.cluster_ids.is_empty());
}

#[test]
fn ill_formed_lists_are_detected() {
    let a = Atom::new(1, None, 2, Position::new(0, 0, 0));
    let b = Atom::new(2, None, 2, Position::new(1, 0, 0));
    let dangling = vec![NNs::new(a, vec![b])];
    assert!(!is_well_formed(&dangling));
    let duplicate = vec![NNs::new(a, vec![]), NNs::new(a, vec![])];
    assert!(!is_well_formed(&duplicate));
}

#[test]
fn largest_cluster_counts_volume_and_surface() {
    let box_ = Box::new(200, 200, 200);
    let mut atoms = line(&[0, 3, 6, 100], 2);
    atoms.push(Atom::new(5, None, 1, Position::new(9, 0, 0)));
    let dense: Vec<Atom> = atoms.iter().filter(|a| a.atom_type == 2).cloned().collect();
    let lab = label_clusters(&find_nns(&System::new(dense, box_).unwrap(), 3));
    assert_eq!(lab.cluster_ids, vec![1, 1, 1, 2]);
    let wide = find_nns(&System::new(atoms, box_).unwrap(), 4);
    let best = largest_cluster(&lab, &wide, 1);
    assert_eq!(best, ClusterSummary { cluster_id: 1, volume: 3, surface: 1 });
}

#[test]
fn largest_cluster_ties_go_to_lower_id_and_empty_is_zero() {
    let box_ = Box::new(200, 200, 200);
    let atoms = line(&[0, 3, 50, 53], 2);
    let lab = label_clusters(&find_nns(&System::new(atoms.clone(), box_).unwrap(), 3));
    let wide = find_nns(&System::new(atoms, box_).unwrap(), 4);
    let best = largest_cluster(&lab, &wide, 1);
    assert_eq!(best, ClusterSummary { cluster_id: 1, volume: 2, surface: 0 });
    let none = largest_cluster(&lab, &Vec::new(), 1);
    assert_eq!(none, ClusterSummary { cluster_id: 0, volume: 0, surface: 0 });
}

#[test]
fn disjoint_sets_join_under_smallest_root() {
    let mut sets = DisjointSets::new(5);
    assert_eq!(sets.find(3), 3);
    sets.union(4, 2);
    sets.union(3, 4);
    assert_eq!(sets.find(3), 2);
    assert_eq!(sets.find(4), 2);
    sets.union(1, 3);
    assert_eq!((sets.find(1), sets.find(2), sets.find(3), sets.find(4)), (1, 1, 1, 1));
    assert_eq!(sets.find(0), 0);
}
