//! A member of a population whose genome may change its topology.

use vstd::prelude::*;
use crate::chromosome::{Chromosome, Gene};

verus! {

/// A genome with what the evolution keeps beside it.
#[derive(Clone, Debug)]
pub struct FlexIndividual {
    /// The bit pattern of the fitness that the simulation measured.
    pub fitness: u32,
    chromosome: Chromosome,
    life_time: usize,
    changed: bool,
    mut_force: usize,
}

impl FlexIndividual {
    /// The genes of the member.
    pub closed spec fn genes(&self) -> Seq<Gene> {
        self.chromosome@
    }

    /// The generations that the member has left.
    pub closed spec fn life(&self) -> usize {
        self.life_time
    }

    /// Whether the member took the place of another in this generation.
    pub closed spec fn replaced(&self) -> bool {
        self.changed
    }

    /// How hard the member is to be mutated, from zero to three.
    pub closed spec fn force(&self) -> usize {
        self.mut_force
    }

    /// The bit pattern of the fitness.
    pub closed spec fn measured(&self) -> u32 {
        self.fitness
    }

    /// A member with the given genome and state, and a fitness of zero.
    pub fn create(chromosome: Chromosome, life_time: usize, changed: bool, mut_force: usize) -> (made:
        Self)
        ensures
            made.genes() == chromosome@,
            made.life() == life_time,
            made.replaced() == changed,
            made.force() == mut_force,
            made.measured() == 0,
    {
        Self { fitness: 0, chromosome, life_time, changed, mut_force }
    }

    /// A member with the given genome that has no generation left, did not
    /// replace another and is mutated in its weights only.
    pub fn with_chromosome(chromosome: Chromosome) -> (made: Self)
        ensures
            made.genes() == chromosome@,
            made.life() == 0,
            !made.replaced(),
            made.force() == 1,
            made.measured() == 0,
    {
        Self { fitness: 0, chromosome, life_time: 0, changed: false, mut_force: 1 }
    }

    pub fn chromosome(&self) -> (chromosome: &Chromosome)
        ensures
            chromosome@ == self.genes(),
    {
        &self.chromosome
    }

    pub fn chromosome_mut(&mut self) -> (chromosome: &mut Chromosome)
        ensures
            chromosome@ == old(self).genes(),
            final(self).genes() == final(chromosome)@,
            final(self).life() == old(self).life(),
            final(self).replaced() == old(self).replaced(),
            final(self).force() == old(self).force(),
            final(self).measured() == old(self).measured(),
    {
        &mut self.chromosome
    }

    /// The bit pattern of the fitness.
    pub fn fitness(&self) -> (fitness: u32)
        ensures
            fitness == self.measured(),
    {
        self.fitness
    }

    pub fn life_time(&self) -> (life_time: usize)
        ensures
            life_time == self.life(),
    {
        self.life_time
    }

    pub fn changed(&self) -> (changed: bool)
        ensures
            changed == self.replaced(),
    {
        self.changed
    }

    pub fn mut_force(&self) -> (mut_force: usize)
        ensures
            mut_force == self.force(),
    {
        self.mut_force
    }
}

/// The genomes of a population, member by member.
pub open spec fn genomes(population: Seq<FlexIndividual>) -> Seq<Seq<Gene>> {
    Seq::new(population.len(), |i: int| population[i].genes())
}

} // verus!
