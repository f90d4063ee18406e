use vstd::prelude::*;
use crate::structs::{Atom, NNs, lemma_filter_step};

verus! {

/// How one ion species is classified by the species around it.
#[derive(Clone, Copy, Debug, PartialEq, Eq, Structural)]
pub struct IonRule {
    /// The species of the central ions this rule applies to.
    pub species: u32,
    /// The complementary species that forms a full shell.
    pub partner: u32,
    /// The solvent species.
    pub solvent: u32,
    /// The exact number of partners in a full shell.
    pub full_count: u32,
    /// Below this number of solvent neighbours a shell counts as partial.
    pub solvent_limit: u32,
    /// The species written for an ion with a partial shell.
    pub partial_species: u32,
}

/// The coordination state of one central ion.
#[derive(Clone, Copy, Debug, PartialEq, Eq, Structural)]
pub enum Shell {
    Full,
    Partial,
    Unmarked,
}

/// How many of `atoms` are partners under `rule`.
pub open spec fn partner_count(atoms: Seq<Atom>, rule: IonRule) -> int {
    atoms.filter(|a: Atom| a.atom_type == rule.partner).len() as int
}

/// How many of `atoms` are solvent under `rule` (and not partners).
pub open spec fn solvent_count(atoms: Seq<Atom>, rule: IonRule) -> int {
    atoms.filter(|a: Atom| a.atom_type == rule.solvent && a.atom_type != rule.partner).len() as int
}

/// The shell of `nn` under `rule`: full with exactly `full_count` partners,
/// else partial with fewer than `solvent_limit` solvent neighbours.
pub open spec fn shell_of(nn: NNs, rule: IonRule) -> Shell {
    if partner_count(nn.neighbours@, rule) == rule.full_count {
        Shell::Full
    } else if solvent_count(nn.neighbours@, rule) < rule.solvent_limit {
        Shell::Partial
    } else {
        Shell::Unmarked
    }
}

/// The first rule for species `t`.
pub open spec fn rule_for(rules: Seq<IonRule>, t: u32) -> Option<IonRule>
    decreases rules.len(),
{
    if rules.len() == 0 {
        None
    } else if rules[0].species == t {
        Some(rules[0])
    } else {
        rule_for(rules.drop_first(), t)
    }
}

/// The shell of `nn` under the rule for its central species, if any.
pub open spec fn shell_under(nn: NNs, rules: Seq<IonRule>) -> Option<Shell> {
    match rule_for(rules, nn.central.atom_type) {
        Some(rule) => Some(shell_of(nn, rule)),
        None => None,
    }
}

/// What `nn` contributes to the classified frame: the central ion when its
/// shell is full, the ion recoded to `partial_species` when partial, and
/// nothing otherwise.
pub open spec fn outcome(nn: NNs, rules: Seq<IonRule>) -> Option<Atom> {
    match rule_for(rules, nn.central.atom_type) {
        Some(rule) => match shell_of(nn, rule) {
            Shell::Full => Some(nn.central),
            Shell::Partial => Some(Atom { atom_type: rule.partial_species, ..nn.central }),
            Shell::Unmarked => None,
        },
        None => None,
    }
}

/// The atoms kept by classifying every centre of `nns`, in order.
pub open spec fn classified(nns: Seq<NNs>, rules: Seq<IonRule>) -> Seq<Atom> {
    nns.filter_map(|nn: NNs| outcome(nn, rules))
}

/// The classified frame and how many ions had full and partial shells.
pub struct IonShells {
    pub atoms: Vec<Atom>,
    pub full: usize,
    pub partial: usize,
}

fn find_rule(rules: &Vec<IonRule>, t: u32) -> (r: Option<IonRule>)
    ensures
        r == rule_for(rules@, t),
{
    proof {
        assert(rules@.subrange(0, rules@.len() as int) =~= rules@);
    }
    let mut i: usize = 0;
    while i < rules.len()
        invariant
            i <= rules@.len(),
            rule_for(rules@, t) == rule_for(rules@.subrange(i as int, rules@.len() as int), t),
        decreases rules@.len() - i,
    {
        proof {
            assert(rules@.subrange(i as int, rules@.len() as int).drop_first() =~= rules@.subrange(
                i + 1,
                rules@.len() as int,
            ));
        }
        if rules[i].species == t {
            return Some(rules[i]);
        }
        i = i + 1;
    }
    None
}

/// The shell of `nn` under `rule`.
pub fn classify_shell(nn: &NNs, rule: &IonRule) -> (r: Shell)
    ensures
        r == shell_of(*nn, *rule),
{
    let ghost is_partner = |a: Atom| a.atom_type == rule.partner;
    let ghost is_solvent = |a: Atom| a.atom_type == rule.solvent && a.atom_type != rule.partner;
    let row = &nn.neighbours;
    let mut count: usize = 0;
    let mut water: usize = 0;
    let mut k: usize = 0;
    while k < row.len()
        invariant
            k <= row@.len(),
            is_partner == (|a: Atom| a.atom_type == rule.partner),
            is_solvent == (|a: Atom| a.atom_type == rule.solvent && a.atom_type != rule.partner),
            count == row@.subrange(0, k as int).filter(is_partner).len(),
            water == row@.subrange(0, k as int).filter(is_solvent).len(),
            count + water <= k,
        decreases row@.len() - k,
    {
        proof {
            lemma_filter_step(row@, k as int, is_partner);
            lemma_filter_step(row@, k as int, is_solvent);
        }
        let t = row[k].atom_type;
        if t == rule.partner {
            count = count + 1;
        } else if t == rule.solvent {
            water = water + 1;
        }
        k = k + 1;
    }
    proof {
        assert(row@.subrange(0, k as int) =~= row@);
    }
    if count as u64 == rule.full_count as u64 {
        Shell::Full
    } else if (water as u64) < rule.solvent_limit as u64 {
        Shell::Partial
    } else {
        Shell::Unmarked
    }
}

/// Classifies every central ion of `nns` under the first rule for its
/// species. Ions with a full shell are kept, ions with a partial shell are
/// kept under their rule's `partial_species`, and every other atom is
/// dropped; the order of `nns` is kept.
pub fn classify_ions(nns: &Vec<NNs>, rules: &Vec<IonRule>) -> (r: IonShells)
    ensures
        r.atoms@ == nns@.filter_map(|nn: NNs| outcome(nn, rules@)),
        r.full == nns@.filter(|nn: NNs| shell_under(nn, rules@) == Some(Shell::Full)).len(),
        r.partial == nns@.filter(|nn: NNs| shell_under(nn, rules@) == Some(Shell::Partial)).len(),
{
    let ghost pick = |nn: NNs| outcome(nn, rules@);
    let ghost is_full = |nn: NNs| shell_under(nn, rules@) == Some(Shell::Full);
    let ghost is_partial = |nn: NNs| shell_under(nn, rules@) == Some(Shell::Partial);
    let mut atoms: Vec<Atom> = Vec::new();
    let mut full: usize = 0;
    let mut partial: usize = 0;
    let mut i: usize = 0;
    while i < nns.len()
        invariant
            i <= nns@.len(),
            pick == (|nn: NNs| outcome(nn, rules@)),
            is_full == (|nn: NNs| shell_under(nn, rules@) == Some(Shell::Full)),
            is_partial == (|nn: NNs| shell_under(nn, rules@) == Some(Shell::Partial)),
            atoms@ == nns@.subrange(0, i as int).filter_map(pick),
            full == nns@.subrange(0, i as int).filter(is_full).len(),
            partial == nns@.subrange(0, i as int).filter(is_partial).len(),
            full + partial <= i,
        decreases nns@.len() - i,
    {
        let nn = &nns[i];
        proof {
            lemma_filter_step(nns@, i as int, is_full);
            lemma_filter_step(nns@, i as int, is_partial);
            assert(nns@.subrange(0, i + 1).drop_last() =~= nns@.subrange(0, i as int));
        }
        match find_rule(rules, nn.central.atom_type) {
            Some(rule) => {
                let shell = classify_shell(nn, &rule);
                match shell {
                    Shell::Full => {
                        atoms.push(nn.central);
                        full = full + 1;
                    },
                    Shell::Partial => {
                        atoms.push(Atom { atom_type: rule.partial_species, ..nn.central });
                        partial = partial + 1;
                    },
                    Shell::Unmarked => {},
                }
            },
            None => {},
        }
        proof {
            assert(atoms@ =~= nns@.subrange(0, i + 1).filter_map(pick));
        }
        i = i + 1;
    }
    proof {
        assert(nns@.subrange(0, i as int) =~= nns@);
    }
    IonShells { atoms, full, partial }
}

/// An ion under a rule is kept when its shell holds exactly the full number
/// of partners; otherwise it is kept under the partial species when it has
/// fewer solvent neighbours than the limit; otherwise it is dropped.
pub proof fn lemma_ion_outcome(nn: NNs, rules: Seq<IonRule>, rule: IonRule)
    requires
        rule_for(rules, nn.central.atom_type) == Some(rule),
    ensures
        partner_count(nn.neighbours@, rule) == rule.full_count ==> outcome(nn, rules) == Some(
            nn.central,
        ),
        partner_count(nn.neighbours@, rule) != rule.full_count && solvent_count(
            nn.neighbours@,
            rule,
        ) < rule.solvent_limit ==> outcome(nn, rules) == Some(
            Atom { atom_type: rule.partial_species, ..nn.central },
        ),
        partner_count(nn.neighbours@, rule) != rule.full_count && solvent_count(
            nn.neighbours@,
            rule,
        ) >= rule.solvent_limit ==> outcome(nn, rules) is None,
{
}

/// Every atom that classification keeps carries the id of a centre that
/// was kept.
pub proof fn lemma_kept_ids(nns: Seq<NNs>, rules: Seq<IonRule>)
    ensures
        forall|m: int|
            0 <= m < classified(nns, rules).len() ==> exists|j: int|
                0 <= j < nns.len() && outcome(nns[j], rules) is Some && (#[trigger] classified(nns, rules)[m]).id == nns[j].central.id,
    decreases nns.len(),
{
    let f = |nn: NNs| outcome(nn, rules);
    if nns.len() > 0 {
        let rest = nns.drop_last();
        lemma_kept_ids(rest, rules);
        let out = nns.filter_map(f);
        assert(out == classified(nns, rules));
        assert(rest.filter_map(f) == classified(rest, rules));
        assert forall|m: int| 0 <= m < out.len() implies exists|j: int|
            0 <= j < nns.len() && outcome(nns[j], rules) is Some && (#[trigger] out[m]).id
                == nns[j].central.id by {
            if m < rest.filter_map(f).len() {
                assert(out[m] == rest.filter_map(f)[m]);
                let j = choose|j: int|
                    0 <= j < rest.len() && outcome(rest[j], rules) is Some && classified(rest, rules)[m].id
                        == rest[j].central.id;
                assert(rest[j] == nns[j]);
            } else {
                let j = nns.len() - 1;
                assert(nns[j] == nns.last());
                assert(outcome(nns[j], rules) is Some);
                assert(out[m] == outcome(nns[j], rules)->Some_0);
            }
        }
    }
}

/// When the centres have distinct ids, an ion whose shell is neither full
/// nor partial (or that no rule covers) leaves no atom with its id in the
/// classified frame.
pub proof fn lemma_dropped_ion_absent(nns: Seq<NNs>, rules: Seq<IonRule>, i: int)
    requires
        0 <= i < nns.len(),
        outcome(nns[i], rules) is None,
        forall|a: int, b: int|
            0 <= a < nns.len() && 0 <= b < nns.len() && (#[trigger] nns[a]).central.id == (
            #[trigger] nns[b]).central.id ==> a == b,
    ensures
        forall|m: int|
            0 <= m < classified(nns, rules).len() ==> (
            #[trigger] classified(nns, rules)[m]).id != nns[i].central.id,
{
    lemma_kept_ids(nns, rules);
    let out = classified(nns, rules);
    assert forall|m: int| 0 <= m < out.len() implies (#[trigger] out[m]).id != nns[i].central.id by {
        let j = choose|j: int|
            0 <= j < nns.len() && outcome(nns[j], rules) is Some && out[m].id == nns[j].central.id;
        if out[m].id == nns[i].central.id {
            assert(nns[j].central.id == nns[i].central.id);
        }
    }
}

} // verus!
