use vstd::prelude::*;

verus! {

/// Absolute difference of two integers.
pub open spec fn abs_diff(a: int, b: int) -> int {
    if a >= b {
        a - b
    } else {
        b - a
    }
}

/// Minimum-image separation along one axis of length `len`: the raw
/// separation, or its complement when it exceeds half the box.
pub open spec fn axis_distance(a: int, b: int, len: int) -> int {
    let d = abs_diff(a, b);
    if 2 * d > len {
        abs_diff(len, d)
    } else {
        d
    }
}

/// A point on the fixed-point grid.
#[derive(Clone, Copy, Debug, PartialEq, Eq, Structural)]
pub struct Position {
    pub x: i32,
    pub y: i32,
    pub z: i32,
}

impl Position {
    pub fn new(x: i32, y: i32, z: i32) -> (r: Position)
        ensures
            r == (Position { x, y, z }),
    {
        Position { x, y, z }
    }
}

/// A named per-atom value carried alongside a snapshot.
pub struct Property<T> {
    name: String,
    value: T,
}

#[derive(Clone, Copy, Debug, PartialEq, Eq, Structural)]
pub struct Atom {
    pub id: u32,
    pub molecule_id: Option<u32>,
    pub atom_type: u32,
    pub position: Position,
}

/// Per-axis minimum-image separations of two atoms.
pub open spec fn offsets(a: Atom, b: Atom, box_: Box) -> (int, int, int) {
    (
        axis_distance(a.position.x as int, b.position.x as int, box_.lx as int),
        axis_distance(a.position.y as int, b.position.y as int, box_.ly as int),
        axis_distance(a.position.z as int, b.position.z as int, box_.lz as int),
    )
}

/// Squared periodic distance of two atoms.
pub open spec fn sq_distance(a: Atom, b: Atom, box_: Box) -> int {
    let (dx, dy, dz) = offsets(a, b, box_);
    dx * dx + dy * dy + dz * dz
}

/// Whether a position lies in the closed box `[0, lx] x [0, ly] x [0, lz]`.
pub open spec fn in_box(p: Position, box_: Box) -> bool {
    0 <= p.x <= box_.lx && 0 <= p.y <= box_.ly && 0 <= p.z <= box_.lz
}

fn axis_gap(a: i32, b: i32, len: u32) -> (r: u32)
    ensures
        r == axis_distance(a as int, b as int, len as int),
{
    let d: u32 = if a >= b {
        (a as i64 - b as i64) as u32
    } else {
        (b as i64 - a as i64) as u32
    };
    if 2 * (d as u64) > len as u64 {
        if len >= d {
            len - d
        } else {
            d - len
        }
    } else {
        d
    }
}

impl Atom {
    pub fn new(id: u32, molecule_id: Option<u32>, atom_type: u32, position: Position) -> (r: Atom)
        ensures
            r == (Atom { id, molecule_id, atom_type, position }),
    {
        Atom { id, molecule_id, atom_type, position }
    }

    /// Distance between `self` and `other` along each axis, taking the box
    /// periodicity into account.
    pub fn distance_to_atom(&self, other: &Atom, box_: &Box) -> (r: (u32, u32, u32))
        ensures
            (r.0 as int, r.1 as int, r.2 as int) == offsets(*self, *other, *box_),
    {
        let dx = axis_gap(self.position.x, other.position.x, box_.lx);
        let dy = axis_gap(self.position.y, other.position.y, box_.ly);
        let dz = axis_gap(self.position.z, other.position.z, box_.lz);
        (dx, dy, dz)
    }

    /// Squared periodic distance between `self` and `other`.
    pub fn sq_distance_to_atom(&self, other: &Atom, box_: &Box) -> (r: u128)
        ensures
            r == sq_distance(*self, *other, *box_),
    {
        let (dx, dy, dz) = self.distance_to_atom(other, box_);
        let (x, y, z) = (dx as u128, dy as u128, dz as u128);
        proof {
            assert(x * x <= 0xffff_ffff * 0xffff_ffff) by (nonlinear_arith)
                requires x <= 0xffff_ffff;
            assert(y * y <= 0xffff_ffff * 0xffff_ffff) by (nonlinear_arith)
                requires y <= 0xffff_ffff;
            assert(z * z <= 0xffff_ffff * 0xffff_ffff) by (nonlinear_arith)
                requires z <= 0xffff_ffff;
        }
        x * x + y * y + z * z
    }
}

/// Periodic separation does not depend on the order of the two atoms.
pub proof fn lemma_periodic_distance_symmetric(a: Atom, b: Atom, box_: Box)
    ensures
        offsets(a, b, box_) == offsets(b, a, box_),
        sq_distance(a, b, box_) == sq_distance(b, a, box_),
{
}

/// Along each axis the periodic separation of two points inside the box is
/// never negative and at most half the box length.
pub proof fn lemma_periodic_distance_bounded(a: Atom, b: Atom, box_: Box)
    requires
        in_box(a.position, box_),
        in_box(b.position, box_),
    ensures
        0 <= offsets(a, b, box_).0 && 2 * offsets(a, b, box_).0 <= box_.lx,
        0 <= offsets(a, b, box_).1 && 2 * offsets(a, b, box_).1 <= box_.ly,
        0 <= offsets(a, b, box_).2 && 2 * offsets(a, b, box_).2 <= box_.lz,
{
}

/// An orthorhombic periodic cell with its origin at zero.
#[derive(Clone, Copy, Debug, PartialEq, Eq, Structural)]
pub struct Box {
    pub lx: u32,
    pub ly: u32,
    pub lz: u32,
}

/// Why a box cannot be used.
#[derive(Clone, Copy, Debug, PartialEq, Eq, Structural)]
pub enum GeometryError {
    /// One of the edge lengths is zero.
    ZeroLength,
}

impl Box {
    pub fn new(lx: u32, ly: u32, lz: u32) -> (r: Box)
        ensures
            r == (Box { lx, ly, lz }),
    {
        Box { lx, ly, lz }
    }

    /// A box whose edge lengths are all positive.
    pub fn checked(lx: u32, ly: u32, lz: u32) -> (r: Result<Box, GeometryError>)
        ensures
            lx > 0 && ly > 0 && lz > 0 <==> r.is_ok(),
            r.is_ok() ==> r == Ok::<Box, GeometryError>(Box { lx, ly, lz }),
            r.is_err() ==> r == Err::<Box, GeometryError>(GeometryError::ZeroLength),
    {
        if lx == 0 || ly == 0 || lz == 0 {
            Err(GeometryError::ZeroLength)
        } else {
            Ok(Box { lx, ly, lz })
        }
    }

    pub fn vol(&self) -> (r: u128)
        ensures
            r == self.lx * self.ly * self.lz,
    {
        let (x, y, z) = (self.lx as u128, self.ly as u128, self.lz as u128);
        proof {
            assert(x * y <= 0xffff_ffff * 0xffff_ffff) by (nonlinear_arith)
                requires x <= 0xffff_ffff, y <= 0xffff_ffff;
            assert(x * y * z <= 0xffff_ffff * 0xffff_ffff * 0xffff_ffff) by (nonlinear_arith)
                requires x * y <= 0xffff_ffff * 0xffff_ffff, z <= 0xffff_ffff;
        }
        x * y * z
    }
}

/// Whether an atom's height lies in `[zlo, zhi]`.
pub open spec fn z_within(a: Atom, zlo: int, zhi: int) -> bool {
    zlo <= a.position.z <= zhi
}

/// Whether an atom's type is one of `types`.
pub open spec fn type_in(a: Atom, types: Seq<u32>) -> bool {
    types.contains(a.atom_type)
}

/// One snapshot: the atoms, in order, and the box that holds them.
pub struct System {
    pub atoms: Vec<Atom>,
    pub box_: Box,
}

impl System {
    /// A frame of `atoms` in `box_`; a box with an edge of zero length is
    /// refused.
    pub fn new(atoms: Vec<Atom>, box_: Box) -> (r: Result<System, GeometryError>)
        ensures
            r is Err <==> (box_.lx == 0 || box_.ly == 0 || box_.lz == 0),
            r is Err ==> r == Err::<System, GeometryError>(GeometryError::ZeroLength),
            r is Ok ==> r->Ok_0.atoms@ == atoms@ && r->Ok_0.box_ == box_,
    {
        if box_.lx == 0 || box_.ly == 0 || box_.lz == 0 {
            Err(GeometryError::ZeroLength)
        } else {
            Ok(System { atoms, box_ })
        }
    }

    /// The atoms whose height lies in `[zlo, zhi]`, in their order.
    pub fn filter_z(&self, zlo: i32, zhi: i32) -> (r: System)
        ensures
            r.atoms@ == self.atoms@.filter(|a: Atom| z_within(a, zlo as int, zhi as int)),
            r.box_ == self.box_,
    {
        let ghost pred = |a: Atom| z_within(a, zlo as int, zhi as int);
        let mut new_atoms: Vec<Atom> = Vec::new();
        let mut i: usize = 0;
        while i < self.atoms.len()
            invariant
                i <= self.atoms@.len(),
                pred == (|a: Atom| z_within(a, zlo as int, zhi as int)),
                new_atoms@ == self.atoms@.subrange(0, i as int).filter(pred),
            decreases self.atoms@.len() - i,
        {
            let atom = self.atoms[i];
            proof {
                lemma_filter_step(self.atoms@, i as int, pred);
            }
            let keep = zlo <= atom.position.z && atom.position.z <= zhi;
            assert(keep == pred(self.atoms@[i as int]));
            if keep {
                new_atoms.push(atom);
            }
            i = i + 1;
        }
        proof {
            assert(self.atoms@.subrange(0, i as int) =~= self.atoms@);
        }
        System { atoms: new_atoms, box_: self.box_ }
    }

    /// The atoms whose type is one of `atom_type`, in their order.
    pub fn filter_type(&self, atom_type: &[u32]) -> (r: System)
        ensures
            r.atoms@ == self.atoms@.filter(|a: Atom| type_in(a, atom_type@)),
            r.box_ == self.box_,
    {
        let ghost pred = |a: Atom| type_in(a, atom_type@);
        let mut new_atoms: Vec<Atom> = Vec::new();
        let mut i: usize = 0;
        while i < self.atoms.len()
            invariant
                i <= self.atoms@.len(),
                pred == (|a: Atom| type_in(a, atom_type@)),
                new_atoms@ == self.atoms@.subrange(0, i as int).filter(pred),
            decreases self.atoms@.len() - i,
        {
            let atom = self.atoms[i];
            proof {
                lemma_filter_step(self.atoms@, i as int, pred);
            }
            let keep = slice_contains(atom_type, atom.atom_type);
            assert(keep == pred(self.atoms@[i as int]));
            if keep {
                new_atoms.push(atom);
            }
            i = i + 1;
        }
        proof {
            assert(self.atoms@.subrange(0, i as int) =~= self.atoms@);
        }
        System { atoms: new_atoms, box_: self.box_ }
    }
}

fn slice_contains(s: &[u32], v: u32) -> (r: bool)
    ensures
        r == s@.contains(v),
{
    let mut i: usize = 0;
    while i < s.len()
        invariant
            i <= s@.len(),
            forall|j: int| 0 <= j < i ==> s@[j] != v,
        decreases s@.len() - i,
    {
        if s[i] == v {
            return true;
        }
        i = i + 1;
    }
    false
}

/// Filtering a prefix one element longer adds that element when it passes.
pub proof fn lemma_filter_step<A>(s: Seq<A>, i: int, pred: spec_fn(A) -> bool)
    requires
        0 <= i < s.len(),
    ensures
        s.subrange(0, i + 1).filter(pred) == if pred(s[i]) {
            s.subrange(0, i).filter(pred).push(s[i])
        } else {
            s.subrange(0, i).filter(pred)
        },
{
    reveal(Seq::filter);
    assert(s.subrange(0, i + 1).drop_last() =~= s.subrange(0, i));
}

/// Filtering keeps a sequence whole when every element passes.
proof fn lemma_filter_all<A>(s: Seq<A>, pred: spec_fn(A) -> bool)
    requires
        forall|j: int| 0 <= j < s.len() ==> pred(s[j]),
    ensures
        s.filter(pred) == s,
    decreases s.len(),
{
    reveal(Seq::filter);
    if s.len() > 0 {
        lemma_filter_all(s.drop_last(), pred);
        assert(s.drop_last().push(s.last()) =~= s);
    }
}

/// Filtering by a set of types that every atom already has leaves the atoms
/// unchanged, in content and order.
pub proof fn lemma_filter_type_idempotent(atoms: Seq<Atom>, types: Seq<u32>)
    requires
        forall|j: int| 0 <= j < atoms.len() ==> types.contains(#[trigger] atoms[j].atom_type),
    ensures
        atoms.filter(|a: Atom| type_in(a, types)) == atoms,
{
    lemma_filter_all(atoms, |a: Atom| type_in(a, types));
}

/// Filtering by a set of types a second time changes nothing.
pub proof fn lemma_filter_type_twice(atoms: Seq<Atom>, types: Seq<u32>)
    ensures
        atoms.filter(|a: Atom| type_in(a, types)).filter(|a: Atom| type_in(a, types))
            == atoms.filter(|a: Atom| type_in(a, types)),
{
    broadcast use vstd::seq_lib::group_filter_ensures;

    let once = atoms.filter(|a: Atom| type_in(a, types));
    assert forall|j: int| 0 <= j < once.len() implies types.contains(#[trigger] once[j].atom_type) by {
        assert(type_in(once[j], types));
    }
    lemma_filter_type_idempotent(once, types);
}

/// One snapshot of a trajectory with its timestep.
pub struct TrajSnapshot {
    pub system: System,
    pub step: u32,
}

impl TrajSnapshot {
    pub fn new(system: System, step: u32) -> (r: TrajSnapshot)
        ensures
            r.system == system,
            r.step == step,
    {
        TrajSnapshot { system, step }
    }
}

/// A central atom with the atoms found around it.
pub struct NNs {
    pub central: Atom,
    pub neighbours: Vec<Atom>,
}

impl NNs {
    pub fn new(central: Atom, neighbours: Vec<Atom>) -> (r: NNs)
        ensures
            r.central == central,
            r.neighbours@ == neighbours@,
    {
        NNs { central, neighbours }
    }
}

} // verus!
