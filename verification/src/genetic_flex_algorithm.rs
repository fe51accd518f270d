//! One generation under the policy that replaces a member when its life
//! time runs out.
//!
//! The fitness range of the population is cut into four equal bands. A
//! member of the best band keeps its life time and is not mutated; every
//! other member loses a generation of life and is mutated the harder the
//! worse its band is. A member whose life time reaches zero is replaced by a
//! child of two selected parents.

use vstd::prelude::*;
use crate::chromosome::Chromosome;
use crate::crossover::{CrossoverMethod, is_offspring};
use crate::individual::FlexIndividual;
use crate::random::draw_within;

verus! {

/// The quarter of the fitness range in which a member lies, counted from
/// the lowest fitness.
#[derive(Clone, Copy, Debug, PartialEq, Eq)]
pub enum FitnessBand {
    Bottom,
    Second,
    Third,
    Top,
}

/// How many steps of a simulated generation stand for one generation of
/// life.
pub const STEPS_PER_LIFE: usize = 500;

/// The force with which a member of `band` is mutated: three is weights and
/// layers, two is weights and neurons, one is weights only, zero is nothing.
pub open spec fn force_of(band: FitnessBand) -> usize {
    match band {
        FitnessBand::Bottom => 3,
        FitnessBand::Second => 2,
        FitnessBand::Third => 1,
        FitnessBand::Top => 0,
    }
}

/// The life time that a member of `band` has left after this generation.
pub open spec fn aged(band: FitnessBand, life_time: usize) -> int {
    match band {
        FitnessBand::Top => life_time as int,
        _ => life_time - 1,
    }
}

/// Whether a member is replaced in this generation.
pub open spec fn expires(band: FitnessBand, life_time: usize) -> bool {
    aged(band, life_time) == 0
}

/// What becomes of a member in this generation.
#[derive(Clone, Copy, Debug, PartialEq, Eq)]
pub enum Fate {
    /// Its life time ran out: a child takes its place and is mutated with
    /// the force of the member's band.
    Replace { mut_force: usize },
    /// It stays, with the life time that is left and the force of its band.
    Keep { life_time: usize, mut_force: usize },
}

/// What becomes of a member of `band` with the life time `life_time`.
pub open spec fn fate_of(band: FitnessBand, life_time: usize) -> Fate {
    if expires(band, life_time) {
        Fate::Replace { mut_force: force_of(band) }
    } else {
        Fate::Keep { life_time: aged(band, life_time) as usize, mut_force: force_of(band) }
    }
}

/// A member that enters its last generation below the best band is
/// replaced.
pub proof fn lemma_last_generation_expires(band: FitnessBand, life_time: usize)
    requires
        life_time == 1,
        band != FitnessBand::Top,
    ensures
        expires(band, life_time),
{
}

/// The policy, with the length of a simulated generation and the operators.
pub struct GeneticFlexAlgorithm<C> {
    sim_generation_length: usize,
    crossover_method: C,
}

impl<C: CrossoverMethod> GeneticFlexAlgorithm<C> {
    /// The length of a simulated generation in steps.
    pub closed spec fn generation_length(&self) -> usize {
        self.sim_generation_length
    }

    /// The longest life that a new member can be given.
    pub open spec fn longest_life(&self) -> int {
        self.generation_length() as int / STEPS_PER_LIFE as int
    }

    pub fn new(sim_generation_length: usize, crossover_method: C) -> (made: Self)
        ensures
            made.generation_length() == sim_generation_length,
    {
        Self { sim_generation_length, crossover_method }
    }

    pub fn sim_generation_length(&self) -> (length: usize)
        ensures
            length == self.generation_length(),
    {
        self.sim_generation_length
    }

    /// The life time that a member of `band` has left after this generation
    /// and the force with which it is mutated. A member below the best band
    /// must have a generation to lose.
    pub fn age(&self, band: FitnessBand, life_time: usize) -> (next: (usize, usize))
        requires
            band != FitnessBand::Top ==> life_time >= 1,
        ensures
            next.0 == aged(band, life_time),
            next.1 == force_of(band),
    {
        match band {
            FitnessBand::Bottom => (life_time - 1, 3),
            FitnessBand::Second => (life_time - 1, 2),
            FitnessBand::Third => (life_time - 1, 1),
            FitnessBand::Top => (life_time, 0),
        }
    }

    /// What becomes of a member of `band`: it is replaced where its life time
    /// runs out in this generation, and stays otherwise. A member below the
    /// best band must have a generation to lose.
    pub fn decide(&self, band: FitnessBand, life_time: usize) -> (fate: Fate)
        requires
            band != FitnessBand::Top ==> life_time >= 1,
        ensures
            fate == fate_of(band, life_time),
    {
        let (left, mut_force) = self.age(band, life_time);
        if left == 0 {
            Fate::Replace { mut_force }
        } else {
            Fate::Keep { life_time: left, mut_force }
        }
    }

    /// The member that takes the place of one whose life time ran out: the
    /// child of the two parents, with a life time drawn from one to the
    /// longest life, marked as a replacement.
    pub fn renew(
        &self,
        rng: &mut rand_chacha::ChaCha8Rng,
        parent_a: &Chromosome,
        parent_b: &Chromosome,
        mut_force: usize,
    ) -> (child: FlexIndividual)
        requires
            self.longest_life() >= 1,
        ensures
            is_offspring(child.genes(), parent_a@, parent_b@) || is_offspring(
                child.genes(),
                parent_b@,
                parent_a@,
            ),
            1 <= child.life() <= self.longest_life(),
            child.replaced(),
            child.force() == mut_force,
            child.measured() == 0,
    {
        let chromosome = self.crossover_method.crossover(rng, parent_a, parent_b);
        let life_time = draw_within(rng, 1, self.sim_generation_length / STEPS_PER_LIFE);
        FlexIndividual::create(chromosome, life_time, true, mut_force)
    }

    /// The member that stays in its place: its genome, with the life time
    /// and the force that this generation left it, not marked as a
    /// replacement.
    pub fn carry(&self, chromosome: &Chromosome, life_time: usize, mut_force: usize) -> (kept:
        FlexIndividual)
        ensures
            kept.genes() == chromosome@,
            kept.life() == life_time,
            !kept.replaced(),
            kept.force() == mut_force,
            kept.measured() == 0,
    {
        FlexIndividual::create(chromosome.copy(), life_time, false, mut_force)
    }
}

/// How many of the members replaced another.
pub open spec fn replacements(members: Seq<FlexIndividual>) -> nat
    decreases members.len(),
{
    if members.len() == 0 {
        0
    } else {
        replacements(members.drop_last()) + if members.last().replaced() {
            1nat
        } else {
            0nat
        }
    }
}

/// There are no more replacements than members.
pub proof fn lemma_replacements_bound(members: Seq<FlexIndividual>)
    ensures
        replacements(members) <= members.len(),
    decreases members.len(),
{
    if members.len() > 0 {
        lemma_replacements_bound(members.drop_last());
    }
}

/// The population of the next generation while it is filled place by place,
/// with the count of the members that replaced another.
pub struct Generation {
    members: Vec<FlexIndividual>,
    changed: usize,
}

impl Generation {
    #[verifier::type_invariant]
    spec fn counted(&self) -> bool {
        self.changed == replacements(self.members@)
    }

    /// The members that were placed so far.
    pub closed spec fn members(&self) -> Seq<FlexIndividual> {
        self.members@
    }

    /// A generation without a member yet.
    pub fn new() -> (generation: Self)
        ensures
            generation.members().len() == 0,
    {
        Self { members: Vec::new(), changed: 0 }
    }

    /// How many members were placed so far.
    pub fn len(&self) -> (count: usize)
        ensures
            count == self.members().len(),
    {
        self.members.len()
    }

    /// How many of the members placed so far replaced another.
    pub fn changed_count(&self) -> (count: usize)
        ensures
            count == replacements(self.members()),
    {
        proof {
            use_type_invariant(self);
        }
        self.changed
    }

    /// Fills the next place with the child of the two parents, as `renew`
    /// makes it.
    pub fn replace<C: CrossoverMethod>(
        self,
        policy: &GeneticFlexAlgorithm<C>,
        rng: &mut rand_chacha::ChaCha8Rng,
        parent_a: &Chromosome,
        parent_b: &Chromosome,
        mut_force: usize,
    ) -> (next: Self)
        requires
            policy.longest_life() >= 1,
        ensures
            next.members().len() == self.members().len() + 1,
            next.members().drop_last() == self.members(),
            is_offspring(next.members().last().genes(), parent_a@, parent_b@) || is_offspring(
                next.members().last().genes(),
                parent_b@,
                parent_a@,
            ),
            1 <= next.members().last().life() <= policy.longest_life(),
            next.members().last().replaced(),
            next.members().last().force() == mut_force,
    {
        proof {
            use_type_invariant(&self);
            lemma_replacements_bound(self.members@);
        }
        let child = policy.renew(rng, parent_a, parent_b, mut_force);
        let mut members = self.members;
        let changed = self.changed;
        members.push(child);
        let placed = members.len();
        proof {
            assert(members@.drop_last() =~= self.members@);
        }
        Self { members, changed: changed + 1 }
    }

    /// Fills the next place with the member that stays, as `carry` makes
    /// it.
    pub fn keep<C: CrossoverMethod>(
        self,
        policy: &GeneticFlexAlgorithm<C>,
        chromosome: &Chromosome,
        life_time: usize,
        mut_force: usize,
    ) -> (next: Self)
        ensures
            next.members().len() == self.members().len() + 1,
            next.members().drop_last() == self.members(),
            next.members().last().genes() == chromosome@,
            next.members().last().life() == life_time,
            !next.members().last().replaced(),
            next.members().last().force() == mut_force,
    {
        proof {
            use_type_invariant(&self);
        }
        let kept = policy.carry(chromosome, life_time, mut_force);
        let mut members = self.members;
        let changed = self.changed;
        members.push(kept);
        proof {
            assert(members@.drop_last() =~= self.members@);
        }
        Self { members, changed }
    }

    /// The population and how many of its members replaced another.
    pub fn finish(self) -> (done: (Vec<FlexIndividual>, usize))
        ensures
            done.0@ == self.members(),
            done.1 == replacements(self.members()),
    {
        proof {
            use_type_invariant(&self);
        }
        (self.members, self.changed)
    }
}

} // verus!
