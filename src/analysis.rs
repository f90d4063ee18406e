use vstd::prelude::*;
use crate::structs::{Atom, Box, NNs, System, lemma_filter_step, sq_distance};
use crate::cluster::well_formed;

verus! {

/// Whether `q` counts as a neighbour of `c`: another atom (by id) whose
/// periodic distance from `c` is at most `cutoff`.
pub open spec fn is_neighbour(c: Atom, q: Atom, box_: Box, cutoff: int) -> bool {
    c.id != q.id && sq_distance(c, q, box_) <= cutoff * cutoff
}

/// The neighbours of `c` among `atoms`, in the order of `atoms`.
pub open spec fn neighbours_of(atoms: Seq<Atom>, c: Atom, box_: Box, cutoff: int) -> Seq<Atom> {
    atoms.filter(|q: Atom| is_neighbour(c, q, box_, cutoff))
}

/// Whether `nns` is, entry for entry, the neighbour list of `atoms`.
pub open spec fn is_neighbour_list(nns: Seq<NNs>, atoms: Seq<Atom>, box_: Box, cutoff: int) -> bool {
    &&& nns.len() == atoms.len()
    &&& forall|i: int|
        0 <= i < atoms.len() ==> {
            &&& (#[trigger] nns[i]).central == atoms[i]
            &&& nns[i].neighbours@ == neighbours_of(atoms, atoms[i], box_, cutoff)
        }
}

/// The atoms of `atoms` around `center`, within `cutoff` of it.
fn neighbours_within(atoms: &Vec<Atom>, center: &Atom, box_: &Box, cutoff: u32) -> (r: Vec<Atom>)
    ensures
        r@ == neighbours_of(atoms@, *center, *box_, cutoff as int),
{
    let ghost pred = |q: Atom| is_neighbour(*center, q, *box_, cutoff as int);
    let cut: u128 = cutoff as u128;
    proof {
        assert(cut * cut <= 0xffff_ffff * 0xffff_ffff) by (nonlinear_arith)
            requires cut <= 0xffff_ffff;
    }
    let limit: u128 = cut * cut;
    let mut found: Vec<Atom> = Vec::new();
    let mut j: usize = 0;
    while j < atoms.len()
        invariant
            j <= atoms@.len(),
            limit == cutoff * cutoff,
            pred == (|q: Atom| is_neighbour(*center, q, *box_, cutoff as int)),
            found@ == atoms@.subrange(0, j as int).filter(pred),
        decreases atoms@.len() - j,
    {
        let other = atoms[j];
        proof {
            lemma_filter_step(atoms@, j as int, pred);
        }
        let keep = center.id != other.id && center.sq_distance_to_atom(&other, box_) <= limit;
        assert(keep == pred(atoms@[j as int]));
        if keep {
            found.push(other);
        }
        j = j + 1;
    }
    proof {
        assert(atoms@.subrange(0, j as int) =~= atoms@);
    }
    found
}

/// For every atom of `system`, the other atoms within `cutoff` of it under
/// periodic distance.
pub fn find_nns(system: &System, cutoff: u32) -> (r: Vec<NNs>)
    ensures
        is_neighbour_list(r@, system.atoms@, system.box_, cutoff as int),
{
    let atoms = &system.atoms;
    let mut neigh_list: Vec<NNs> = Vec::new();
    let mut i: usize = 0;
    while i < atoms.len()
        invariant
            i <= atoms@.len(),
            neigh_list@.len() == i,
            forall|k: int|
                0 <= k < i ==> {
                    &&& (#[trigger] neigh_list@[k]).central == atoms@[k]
                    &&& neigh_list@[k].neighbours@ == neighbours_of(
                        atoms@,
                        atoms@[k],
                        system.box_,
                        cutoff as int,
                    )
                },
        decreases atoms@.len() - i,
    {
        let center = atoms[i];
        let found = neighbours_within(atoms, &center, &system.box_, cutoff);
        neigh_list.push(NNs::new(center, found));
        i = i + 1;
    }
    neigh_list
}

/// A neighbour list never holds the central atom itself, and an atom of the
/// system is listed exactly when it lies within the cutoff of the centre.
pub proof fn lemma_neighbour_membership(
    atoms: Seq<Atom>,
    c: Atom,
    box_: Box,
    cutoff: int,
    q: Atom,
)
    ensures
        neighbours_of(atoms, c, box_, cutoff).contains(q) <==> (atoms.contains(q)
            && q.id != c.id && sq_distance(c, q, box_) <= cutoff * cutoff),
        forall|k: int|
            0 <= k < neighbours_of(atoms, c, box_, cutoff).len() ==> (#[trigger] neighbours_of(
                atoms,
                c,
                box_,
                cutoff,
            )[k]).id != c.id,
{
    broadcast use vstd::seq_lib::group_filter_ensures;

    let pred = |a: Atom| is_neighbour(c, a, box_, cutoff);
    if neighbours_of(atoms, c, box_, cutoff).contains(q) {
        atoms.lemma_filter_contains_rev(pred, q);
    }
}

/// A neighbour list built over atoms with distinct ids has distinct centres,
/// and each neighbour is one of the centres: it can be labelled into clusters.
pub proof fn lemma_neighbour_list_well_formed(
    nns: Seq<NNs>,
    atoms: Seq<Atom>,
    box_: Box,
    cutoff: int,
)
    requires
        is_neighbour_list(nns, atoms, box_, cutoff),
        forall|i: int, j: int|
            0 <= i < atoms.len() && 0 <= j < atoms.len() && (#[trigger] atoms[i]).id == (
            #[trigger] atoms[j]).id ==> i == j,
    ensures
        well_formed(nns),
{
    broadcast use vstd::seq_lib::group_filter_ensures;

    assert forall|i: int, j: int|
        0 <= i < nns.len() && 0 <= j < nns.len() && (#[trigger] nns[i]).central.id == (
        #[trigger] nns[j]).central.id implies i == j by {
        assert(atoms[i].id == atoms[j].id);
    }
    assert forall|i: int, k: int|
        0 <= i < nns.len() && 0 <= k < nns[i].neighbours@.len() implies exists|j: int|
        0 <= j < nns.len() && (#[trigger] nns[j]).central.id == (
        #[trigger] nns[i].neighbours@[k]).id by {
        let q = nns[i].neighbours@[k];
        let pred = |a: Atom| is_neighbour(atoms[i], a, box_, cutoff);
        assert(nns[i].neighbours@ == atoms.filter(pred));
        assert(atoms.filter(pred).contains(q));
        atoms.lemma_filter_contains_rev(pred, q);
        let j = choose|j: int| 0 <= j < atoms.len() && atoms[j] == q;
        assert(nns[j].central == atoms[j]);
    }
}

/// Why an order parameter cannot be computed.
#[derive(Clone, Copy, Debug, PartialEq, Eq, Structural)]
pub enum OrderParamError {
    /// The central atom has no neighbours to average over.
    EmptyNeighborhood,
}

/// Signed displacement from `a` to `b` on an axis of length `len`; when
/// `periodic` holds it is brought to the nearest periodic image.
pub open spec fn signed_offset(a: int, b: int, len: int, periodic: bool) -> int {
    let d = b - a;
    if periodic && 2 * d > len {
        d - len
    } else if periodic && 2 * d < -len {
        d + len
    } else {
        d
    }
}

/// Displacement vector from `c` to `q`.
pub open spec fn bond_vector(c: Atom, q: Atom, box_: Box, periodic: bool) -> (int, int, int) {
    (
        signed_offset(c.position.x as int, q.position.x as int, box_.lx as int, periodic),
        signed_offset(c.position.y as int, q.position.y as int, box_.ly as int, periodic),
        signed_offset(c.position.z as int, q.position.z as int, box_.lz as int, periodic),
    )
}

fn axis_offset(a: i32, b: i32, len: u32, periodic: bool) -> (r: i64)
    ensures
        r == signed_offset(a as int, b as int, len as int, periodic),
{
    let d: i64 = b as i64 - a as i64;
    let l: i64 = len as i64;
    if periodic && 2 * d > l {
        d - l
    } else if periodic && 2 * d < -l {
        d + l
    } else {
        d
    }
}

/// The displacement vectors from the central atom to each of its neighbours,
/// in the order of the neighbours: the input to a bond-orientational order
/// parameter. With `periodic` each displacement is taken to the nearest
/// periodic image; without it the raw coordinate difference is used.
pub fn bond_vectors(nns: &NNs, box_: &Box, periodic: bool) -> (r: Result<
    Vec<(i64, i64, i64)>,
    OrderParamError,
>)
    ensures
        nns.neighbours@.len() == 0 <==> r is Err,
        r is Err ==> r == Err::<Vec<(i64, i64, i64)>, OrderParamError>(
            OrderParamError::EmptyNeighborhood,
        ),
        r is Ok ==> {
            let v = r->Ok_0@;
            &&& v.len() == nns.neighbours@.len()
            &&& forall|k: int|
                0 <= k < v.len() ==> (#[trigger] v[k].0 as int, v[k].1 as int, v[k].2 as int)
                    == bond_vector(nns.central, nns.neighbours@[k], *box_, periodic)
        },
{
    if nns.neighbours.len() == 0 {
        return Err(OrderParamError::EmptyNeighborhood);
    }
    let c = nns.central.position;
    let mut out: Vec<(i64, i64, i64)> = Vec::new();
    let mut k: usize = 0;
    while k < nns.neighbours.len()
        invariant
            k <= nns.neighbours@.len(),
            c == nns.central.position,
            out@.len() == k,
            forall|j: int|
                0 <= j < k ==> (#[trigger] out@[j].0 as int, out@[j].1 as int, out@[j].2 as int)
                    == bond_vector(nns.central, nns.neighbours@[j], *box_, periodic),
        decreases nns.neighbours@.len() - k,
    {
        let p = nns.neighbours[k].position;
        let v = (
            axis_offset(c.x, p.x, box_.lx, periodic),
            axis_offset(c.y, p.y, box_.ly, periodic),
            axis_offset(c.z, p.z, box_.lz, periodic),
        );
        out.push(v);
        k = k + 1;
    }
    Ok(out)
}

} // verus!
