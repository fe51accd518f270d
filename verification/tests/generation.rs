use neuro_evolution::chromosome::{Chromosome, Gene};
use neuro_evolution::crossover::UniformCrossover;
use neuro_evolution::genetic_flex_algorithm::{Fate, FitnessBand, Generation, GeneticFlexAlgorithm};
use neuro_evolution::individual::FlexIndividual;
use neuro_evolution::mutation::{
    apply_layer_edit, apply_neuron_edit, layer_edit_weights, neuron_edit_weights, survey,
    Flex1Mutation, LayerEdit, NeuronEdit,
};
use neuro_evolution::network::ModelFault;
use neuro_evolution::statistics::{FitnessSummary, Statistics};
use rand::distributions::WeightedIndex;
use rand::prelude::Distribution;
use rand::{Rng, SeedableRng};
use rand_chacha::ChaCha8Rng;

fn gene(weight: f32, layer: usize, neuron_out: usize, neuron_in: usize) -> Gene {
    (weight.to_bits(), layer, neuron_out, neuron_in)
}

fn small_net() -> Vec<Gene> {
    vec![
        gene(0.0, 1, 1, 0),
        gene(1.0, 1, 1, 1),
        gene(0.0, 1, 2, 0),
        gene(1.0, 1, 2, 2),
        gene(0.1, 2, 3, 0),
        gene(0.2, 2, 3, 1),
        gene(0.3, 2, 3, 2),
        gene(0.4, 3, 4, 0),
        gene(0.5, 3, 4, 3),
    ]
}

fn flex_individual(genes: &[Gene], life_time: usize, fitness: f32, mut_force: usize) -> FlexIndividual {
    let mut ind = FlexIndividual::create(Chromosome::new(genes.to_vec()), life_time, false, mut_force);
    ind.fitness = fitness.to_bits();
    ind
}

fn band_of(fitness: f32, min: f32, max: f32) -> FitnessBand {
    let range = max - min;
    let q1 = min + range / 4.0;
    let q2 = min + 2.0 * range / 4.0;
    let q3 = min + 3.0 * range / 4.0;
    if fitness < q1 {
        FitnessBand::Bottom
    } else if fitness < q2 {
        FitnessBand::Second
    } else if fitness < q3 {
        FitnessBand::Third
    } else {
        FitnessBand::Top
    }
}

fn draw_weights(rng: &mut ChaCha8Rng, count: usize) -> Vec<u32> {
    (0..count).map(|_| rng.gen_range(-1.0f32..=1.0).to_bits()).collect()
}

fn evolve(
    ga: &GeneticFlexAlgorithm<UniformCrossover>,
    mutation: &Flex1Mutation,
    rng: &mut ChaCha8Rng,
    population: &[FlexIndividual],
) -> (Vec<FlexIndividual>, Statistics) {
    assert!(!population.is_empty());
    let fitness: Vec<f32> = population.iter().map(|i| f32::from_bits(i.fitness())).collect();
    let min = fitness.iter().cloned().fold(f32::INFINITY, f32::min);
    let max = fitness.iter().cloned().fold(f32::NEG_INFINITY, f32::max);
    let avg = fitness.iter().sum::<f32>() / fitness.len() as f32;
    let genomes: Vec<Chromosome> = population.iter().map(|i| i.chromosome().copy()).collect();
    let mut statistic = Statistics::new(
        FitnessSummary { min: min.to_bits(), max: max.to_bits(), avg: avg.to_bits(), median: avg.to_bits() },
        &genomes,
    );
    let weights = WeightedIndex::new(fitness.iter().map(|f| f.max(0.00001))).unwrap();
    let mut generation = Generation::new();
    for (j, parent) in population.iter().enumerate() {
        let band = band_of(fitness[j], min, max);
        assert!(band == FitnessBand::Top || parent.life_time() >= 1);
        match ga.decide(band, parent.life_time()) {
            Fate::Replace { mut_force } => {
                let a = weights.sample(rng);
                let b = weights.sample(rng);
                generation = generation.replace(
                    ga,
                    rng,
                    population[a].chromosome(),
                    population[b].chromosome(),
                    mut_force,
                );
            }
            Fate::Keep { life_time, mut_force } => {
                generation = generation.keep(ga, parent.chromosome(), life_time, mut_force);
            }
        }
        assert_eq!(generation.len(), j + 1);
    }
    let (mut next, changed) = generation.finish();
    let mut numbering = survey(&next);
    mutation.toggle_inputs(rng, &mut next, 0, 1);
    for individual in next.iter_mut() {
        let edit = mutation.plan_neuron_edit(rng, individual);
        assert!(numbering.max_id() < usize::MAX);
        let fresh = draw_weights(rng, neuron_edit_weights(individual, &numbering, edit));
        apply_neuron_edit(individual, &mut numbering, edit, &fresh).unwrap();
    }
    for individual in next.iter_mut() {
        let edit = mutation.plan_layer_edit(rng, individual);
        let fresh = draw_weights(rng, layer_edit_weights(individual, edit).unwrap());
        apply_layer_edit(individual, &mut numbering, edit, &fresh);
    }
    statistic.set_changed_count(changed);
    (next, statistic)
}

#[test]
fn test_flex1() {
    let mut rng = ChaCha8Rng::from_seed(Default::default());

    let ga = GeneticFlexAlgorithm::new(2500, UniformCrossover);
    let mutation = Flex1Mutation::new(0.5f32.to_bits(), 0.5f32.to_bits(), 9);

    let mut population = vec![
        flex_individual(&small_net(), 5, 10.0f32, 1),
        flex_individual(&small_net(), 1, 9.0f32, 2),
        flex_individual(&small_net(), 1, 8.0f32, 3),
    ];
    population = evolve(&ga, &mutation, &mut rng, &population).0;

    Some(population.len());
}

#[test]
fn a_generation_replaces_who_ran_out_of_life() {
    let ga = GeneticFlexAlgorithm::new(2500, UniformCrossover);
    let mutation = Flex1Mutation::new(0.5f32.to_bits(), 0.5f32.to_bits(), 9);
    for seed in 0..30u64 {
        let mut rng = ChaCha8Rng::seed_from_u64(seed);
        let population = vec![
            flex_individual(&small_net(), 5, 10.0f32, 1),
            flex_individual(&small_net(), 1, 9.0f32, 2),
            flex_individual(&small_net(), 1, 8.0f32, 3),
            flex_individual(&small_net(), 4, 8.6f32, 0),
        ];
        let (next, statistic) = evolve(&ga, &mutation, &mut rng, &population);
        assert_eq!(next.len(), 4);
        assert_eq!(statistic.changed_count(), 2);
        assert_eq!(statistic.neurons_by_layer(), vec!["2.1.1.".to_string()]);
        assert_eq!(statistic.max_neuron_num(), 4);

        assert!(!next[0].changed());
        assert_eq!(next[0].life_time(), 5);
        assert_eq!(next[0].mut_force(), 0);
        assert_eq!(next[0].chromosome().iter(), small_net());

        assert!(next[1].changed());
        assert!(1 <= next[1].life_time() && next[1].life_time() <= 5);
        assert_eq!(next[1].mut_force(), 1);
        assert_eq!(next[1].chromosome().iter(), small_net());

        assert!(next[2].changed());
        assert!(1 <= next[2].life_time() && next[2].life_time() <= 5);
        assert_eq!(next[2].mut_force(), 3);
        assert!(next[2].chromosome().layers() == 4 || next[2].chromosome().layers() == 3);

        assert!(!next[3].changed());
        assert_eq!(next[3].life_time(), 3);
        assert_eq!(next[3].mut_force(), 2);
        assert_eq!(next[3].chromosome().iter(), small_net());
    }
}

#[test]
fn a_generation_counts_its_replacements() {
    let ga = GeneticFlexAlgorithm::new(2500, UniformCrossover);
    let mut rng = ChaCha8Rng::seed_from_u64(3);
    let genome = Chromosome::new(small_net());
    let generation = Generation::new();
    assert_eq!(generation.len(), 0);
    let generation = generation.keep(&ga, &genome, 4, 1);
    let generation = generation.replace(&ga, &mut rng, &genome, &genome, 3);
    let generation = generation.replace(&ga, &mut rng, &genome, &genome, 2);
    assert_eq!(generation.changed_count(), 2);
    let generation = generation.keep(&ga, &genome, 2, 0);
    assert_eq!(generation.changed_count(), 2);
    let (members, changed) = generation.finish();
    assert_eq!(changed, 2);
    let flags: Vec<bool> = members.iter().map(|m| m.changed()).collect();
    assert_eq!(flags, vec![false, true, true, false]);
    let forces: Vec<usize> = members.iter().map(|m| m.mut_force()).collect();
    assert_eq!(forces, vec![1, 3, 2, 0]);
    let (none, zero) = Generation::new().finish();
    assert!(none.is_empty());
    assert_eq!(zero, 0);
}

#[test]
fn planned_edits_are_applied() {
    let mut individual = FlexIndividual::create(Chromosome::new(small_net()), 3, true, 2);
    let mut numbering = survey(&vec![FlexIndividual::create(Chromosome::new(small_net()), 3, true, 2)]);

    assert_eq!(neuron_edit_weights(&individual, &numbering, NeuronEdit::Skip), 0);
    assert_eq!(neuron_edit_weights(&individual, &numbering, NeuronEdit::Shrink { layer: 2 }), 0);
    assert_eq!(neuron_edit_weights(&individual, &numbering, NeuronEdit::Grow { layer: 2 }), 1);
    assert_eq!(apply_neuron_edit(&mut individual, &mut numbering, NeuronEdit::Skip, &Vec::new()), Ok(()));
    assert_eq!(individual.chromosome().iter(), small_net());
    let fresh = vec![0.5f32.to_bits()];
    assert_eq!(
        apply_neuron_edit(&mut individual, &mut numbering, NeuronEdit::Grow { layer: 2 }, &fresh),
        Ok(())
    );
    assert_eq!(individual.chromosome().len(), 13);
    assert_eq!(numbering.max_id(), 5);
    assert_eq!(
        apply_neuron_edit(&mut individual, &mut numbering, NeuronEdit::Shrink { layer: 2 }, &Vec::new()),
        Ok(())
    );
    assert_eq!(individual.chromosome().iter(), small_net());
    assert_eq!(individual.life_time(), 3);
    assert!(individual.changed());

    assert_eq!(layer_edit_weights(&individual, LayerEdit::Skip), Some(0));
    assert_eq!(layer_edit_weights(&individual, LayerEdit::Collapse), Some(0));
    assert_eq!(layer_edit_weights(&individual, LayerEdit::Append), Some(2));
    apply_layer_edit(&mut individual, &mut numbering, LayerEdit::Collapse, &Vec::new());
    assert_eq!(individual.chromosome().iter(), small_net());
    let fresh = vec![0.25f32.to_bits(), 0.75f32.to_bits()];
    apply_layer_edit(&mut individual, &mut numbering, LayerEdit::Append, &fresh);
    assert_eq!(individual.chromosome().layers(), 4);
    assert_eq!(individual.chromosome()[9], gene(0.25, 4, 6, 0));
    assert_eq!(individual.chromosome()[10], gene(0.75, 4, 6, 4));
    assert_eq!(layer_edit_weights(&individual, LayerEdit::Collapse), Some(5));
    let fresh: Vec<u32> = (1..=5).map(|n| (n as f32).to_bits()).collect();
    apply_layer_edit(&mut individual, &mut numbering, LayerEdit::Collapse, &fresh);
    assert_eq!(individual.chromosome().layers(), 3);

    let shared = vec![
        gene(0.1, 1, 1, 1),
        gene(0.2, 2, 2, 1),
        gene(0.3, 2, 3, 1),
        gene(0.4, 3, 3, 2),
    ];
    let mut broken = FlexIndividual::create(Chromosome::new(shared.clone()), 3, true, 2);
    assert_eq!(
        apply_neuron_edit(&mut broken, &mut numbering, NeuronEdit::Shrink { layer: 2 }, &Vec::new()),
        Err(ModelFault::NeuronInTwoLayers)
    );
    assert_eq!(broken.chromosome().iter(), shared);
}

#[test]
fn decide_replaces_who_runs_out_of_life() {
    let ga = GeneticFlexAlgorithm::new(2500, UniformCrossover);
    assert_eq!(ga.decide(FitnessBand::Bottom, 1), Fate::Replace { mut_force: 3 });
    assert_eq!(ga.decide(FitnessBand::Second, 1), Fate::Replace { mut_force: 2 });
    assert_eq!(ga.decide(FitnessBand::Third, 1), Fate::Replace { mut_force: 1 });
    assert_eq!(ga.decide(FitnessBand::Top, 1), Fate::Keep { life_time: 1, mut_force: 0 });
    assert_eq!(ga.decide(FitnessBand::Top, 0), Fate::Replace { mut_force: 0 });
    assert_eq!(ga.decide(FitnessBand::Bottom, 5), Fate::Keep { life_time: 4, mut_force: 3 });
    assert_eq!(ga.decide(FitnessBand::Second, 2), Fate::Keep { life_time: 1, mut_force: 2 });
    assert_eq!(ga.decide(FitnessBand::Third, 9), Fate::Keep { life_time: 8, mut_force: 1 });
    assert_eq!(ga.decide(FitnessBand::Top, 7), Fate::Keep { life_time: 7, mut_force: 0 });
}

#[test]
fn age_follows_the_band() {
    let ga = GeneticFlexAlgorithm::new(2500, UniformCrossover);
    assert_eq!(ga.sim_generation_length(), 2500);
    assert_eq!(ga.age(FitnessBand::Bottom, 4), (3, 3));
    assert_eq!(ga.age(FitnessBand::Second, 4), (3, 2));
    assert_eq!(ga.age(FitnessBand::Third, 4), (3, 1));
    assert_eq!(ga.age(FitnessBand::Top, 4), (4, 0));
    assert_eq!(ga.age(FitnessBand::Bottom, 1), (0, 3));
    assert_eq!(ga.age(FitnessBand::Second, 1), (0, 2));
    assert_eq!(ga.age(FitnessBand::Third, 1), (0, 1));
    assert_eq!(ga.age(FitnessBand::Top, 1), (1, 0));
    assert_eq!(ga.age(FitnessBand::Top, 0), (0, 0));
}

#[test]
fn renew_gives_a_child_with_a_life_within_the_range() {
    let ga = GeneticFlexAlgorithm::new(1000, UniformCrossover);
    let parent_a = Chromosome::new(small_net());
    let parent_b = Chromosome::new(vec![gene(9.0, 1, 1, 0), gene(8.0, 2, 3, 0)]);
    let mut lives = [0usize; 3];
    for seed in 0..100u64 {
        let mut rng = ChaCha8Rng::seed_from_u64(seed);
        let child = ga.renew(&mut rng, &parent_a, &parent_b, 2);
        assert!(child.changed());
        assert_eq!(child.mut_force(), 2);
        assert_eq!(child.fitness(), 0);
        assert!(1 <= child.life_time() && child.life_time() <= 2);
        lives[child.life_time()] += 1;
        assert!(child.chromosome().len() == 9 || child.chromosome().len() == 2);
    }
    assert!(lives[1] > 20 && lives[2] > 20);
}

#[test]
fn carry_keeps_the_genome() {
    let ga = GeneticFlexAlgorithm::new(2500, UniformCrossover);
    let individual = flex_individual(&small_net(), 5, 7.0, 1);
    let kept = ga.carry(individual.chromosome(), 4, 2);
    assert_eq!(kept.chromosome().iter(), small_net());
    assert_eq!(kept.life_time(), 4);
    assert_eq!(kept.mut_force(), 2);
    assert!(!kept.changed());
    assert_eq!(kept.fitness(), 0);
}

#[test]
fn a_member_made_from_a_genome_alone() {
    let made = FlexIndividual::with_chromosome(Chromosome::new(small_net()));
    assert_eq!(made.life_time(), 0);
    assert!(!made.changed());
    assert_eq!(made.mut_force(), 1);
    assert_eq!(made.fitness(), 0);
    assert_eq!(made.chromosome().iter(), small_net());
}
