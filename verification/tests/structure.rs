use neuro_evolution::chromosome::{Chromosome, Gene};
use neuro_evolution::individual::FlexIndividual;
use neuro_evolution::mutation::{
    add_layer, add_neuron, append_weights_needed, chance_is_valid, collapse_weights_needed,
    count_weights,
    decide_layer_edit, decide_neuron_edit, grow_weights, remove_layer, remove_neuron, survey,
    switch_gene, Flex1Mutation, LayerEdit, NeuronEdit, INPUT_OFF, INPUT_ON,
};
use neuro_evolution::network::ModelFault;
use neuro_evolution::numbering::NeuronNumbering;
use rand::{Rng, SeedableRng};
use rand_chacha::ChaCha8Rng;

fn gene(weight: f32, layer: usize, neuron_out: usize, neuron_in: usize) -> Gene {
    (weight.to_bits(), layer, neuron_out, neuron_in)
}

fn small_net() -> Vec<Gene> {
    vec![
        gene(0.0, 1, 1, 0),
        gene(1.0, 1, 1, 1),
        gene(0.0, 1, 2, 0),
        gene(1.0, 1, 2, 2),
        gene(0.1, 2, 3, 0),
        gene(0.2, 2, 3, 1),
        gene(0.3, 2, 3, 2),
        gene(0.4, 3, 4, 0),
        gene(0.5, 3, 4, 3),
    ]
}

fn deep_net() -> Vec<Gene> {
    let mut genes = small_net();
    genes.push(gene(0.6, 4, 5, 0));
    genes.push(gene(0.7, 4, 5, 4));
    genes
}

fn member(genes: Vec<Gene>, changed: bool, mut_force: usize) -> FlexIndividual {
    FlexIndividual::create(Chromosome::new(genes), 3, changed, mut_force)
}

fn surveyed(genes: Vec<Gene>) -> NeuronNumbering {
    survey(&vec![member(genes, false, 0)])
}

#[test]
fn survey_records_every_place_beyond_the_first_layer() {
    let numbering = surveyed(small_net());
    assert_eq!(numbering.get(1, 1), None);
    assert_eq!(numbering.get(1, 2), None);
    assert_eq!(numbering.get(2, 1), Some(3));
    assert_eq!(numbering.get(2, 2), None);
    assert_eq!(numbering.get(3, 1), Some(4));
    assert_eq!(numbering.max_id(), 4);
}

#[test]
fn survey_lets_the_later_genome_decide() {
    let first = vec![gene(0.1, 1, 1, 1), gene(0.1, 2, 8, 1), gene(0.1, 2, 9, 1)];
    let second = vec![gene(0.1, 1, 1, 1), gene(0.1, 2, 6, 1)];
    let numbering = survey(&vec![member(first, false, 0), member(second, false, 0)]);
    assert_eq!(numbering.get(2, 1), Some(6));
    assert_eq!(numbering.get(2, 2), Some(9));
    assert_eq!(numbering.max_id(), 9);
    assert_eq!(survey(&Vec::new()).max_id(), 0);
}

#[test]
fn numbering_mints_above_the_highest_id() {
    let mut numbering = NeuronNumbering::new();
    numbering.note(7);
    numbering.note(3);
    assert_eq!(numbering.max_id(), 7);
    assert_eq!(numbering.assign(2, 1), 8);
    assert_eq!(numbering.assign(2, 1), 8);
    assert_eq!(numbering.assign(2, 2), 9);
    assert_eq!(numbering.assign(3, 1), 10);
    assert_eq!(numbering.max_id(), 10);
    numbering.insert(3, 1, 4);
    assert_eq!(numbering.lookup_or_mint(3, 1), 4);
    assert_eq!(numbering.lookup_or_mint(3, 2), 11);
    assert_eq!(numbering.get(3, 2), None);
    assert_eq!(numbering.max_id(), 11);
}

#[test]
fn numbering_keeps_places_of_large_numbers_apart() {
    let mut numbering = NeuronNumbering::new();
    numbering.insert(1, 0, 10);
    numbering.insert(0, 1, 20);
    numbering.insert(usize::MAX, usize::MAX, 30);
    numbering.insert(usize::MAX, 0, 40);
    assert_eq!(numbering.get(1, 0), Some(10));
    assert_eq!(numbering.get(0, 1), Some(20));
    assert_eq!(numbering.get(usize::MAX, usize::MAX), Some(30));
    assert_eq!(numbering.get(usize::MAX, 0), Some(40));
    assert_eq!(numbering.get(0, usize::MAX), None);
}

#[test]
fn add_neuron_copies_a_sibling_and_wires_the_next_layer() {
    let mut numbering = surveyed(small_net());
    let mut chromosome = Chromosome::new(small_net());
    assert_eq!(grow_weights(&chromosome, &numbering, 2), 1);
    let fresh = vec![0.75f32.to_bits()];
    assert!(add_neuron(&mut chromosome, &mut numbering, 2, &fresh));
    assert_eq!(
        chromosome.iter(),
        vec![
            gene(0.0, 1, 1, 0),
            gene(1.0, 1, 1, 1),
            gene(0.0, 1, 2, 0),
            gene(1.0, 1, 2, 2),
            gene(0.1, 2, 3, 0),
            gene(0.2, 2, 3, 1),
            gene(0.3, 2, 3, 2),
            gene(0.1, 2, 5, 0),
            gene(0.2, 2, 5, 1),
            gene(0.3, 2, 5, 2),
            gene(0.4, 3, 4, 0),
            gene(0.5, 3, 4, 3),
            gene(0.75, 3, 4, 5),
        ]
    );
    assert_eq!(numbering.get(2, 2), Some(5));
    assert_eq!(numbering.max_id(), 5);
}

#[test]
fn two_genomes_that_grow_in_the_same_place_get_the_same_id() {
    let population = vec![member(small_net(), true, 2), member(small_net(), true, 2)];
    let mut numbering = survey(&population);
    let mut first = Chromosome::new(small_net());
    let mut second = Chromosome::new(small_net());
    assert!(add_neuron(&mut first, &mut numbering, 2, &vec![0.25f32.to_bits()]));
    assert!(add_neuron(&mut second, &mut numbering, 2, &vec![0.5f32.to_bits()]));
    let new_in = |c: &Chromosome| -> Vec<usize> {
        c.iter().iter().filter(|g| g.1 == 2 && g.2 != 3).map(|g| g.2).collect()
    };
    assert_eq!(new_in(&first), vec![5, 5, 5]);
    assert_eq!(new_in(&second), vec![5, 5, 5]);
    assert_eq!(numbering.max_id(), 5);
    assert!(add_neuron(&mut first, &mut numbering, 2, &vec![0.25f32.to_bits()]));
    assert_eq!(numbering.get(2, 3), Some(6));
    assert!(add_neuron(&mut second, &mut numbering, 2, &vec![0.5f32.to_bits()]));
    assert_eq!(first.iter().iter().filter(|g| g.2 == 6).count(), 3);
    assert_eq!(second.iter().iter().filter(|g| g.2 == 6).count(), 3);
    assert_eq!(numbering.max_id(), 6);
}

#[test]
fn add_neuron_leaves_a_layer_that_holds_the_id() {
    let mut numbering = surveyed(small_net());
    numbering.insert(2, 2, 3);
    let mut chromosome = Chromosome::new(small_net());
    assert_eq!(grow_weights(&chromosome, &numbering, 2), 0);
    assert!(!add_neuron(&mut chromosome, &mut numbering, 2, &Vec::new()));
    assert_eq!(chromosome.iter(), small_net());
    assert_eq!(numbering.max_id(), 4);
}

#[test]
fn add_neuron_leaves_an_empty_layer() {
    let genes = vec![gene(0.1, 1, 1, 1), gene(0.2, 3, 5, 1)];
    let mut numbering = surveyed(genes.clone());
    let mut chromosome = Chromosome::new(genes.clone());
    assert_eq!(grow_weights(&chromosome, &numbering, 2), 0);
    assert!(!add_neuron(&mut chromosome, &mut numbering, 2, &Vec::new()));
    assert_eq!(chromosome.iter(), genes);
    assert_eq!(numbering.max_id(), 5);
}

#[test]
fn remove_neuron_from_a_layer_of_one_changes_nothing() {
    let shuffled = vec![
        gene(0.4, 3, 4, 0),
        gene(0.1, 2, 3, 0),
        gene(1.0, 1, 1, 1),
        gene(0.5, 3, 4, 3),
        gene(0.0, 1, 1, 0),
    ];
    let mut chromosome = Chromosome::new(shuffled.clone());
    assert_eq!(remove_neuron(&mut chromosome, 2), Ok(false));
    assert_eq!(chromosome.iter(), shuffled);
}

#[test]
fn remove_neuron_undoes_add_neuron() {
    let mut numbering = surveyed(small_net());
    let mut chromosome = Chromosome::new(small_net());
    assert!(add_neuron(&mut chromosome, &mut numbering, 2, &vec![0.75f32.to_bits()]));
    assert_eq!(chromosome.len(), 13);
    assert_eq!(remove_neuron(&mut chromosome, 2), Ok(true));
    assert_eq!(chromosome.iter(), small_net());
}

#[test]
fn remove_neuron_strips_the_first_link_only() {
    let genes = vec![
        gene(0.1, 1, 1, 1),
        gene(0.2, 2, 2, 1),
        gene(0.3, 2, 3, 1),
        gene(0.4, 3, 4, 0),
        gene(0.5, 3, 4, 3),
        gene(0.6, 3, 4, 2),
        gene(0.7, 3, 4, 3),
    ];
    let mut chromosome = Chromosome::new(genes);
    assert_eq!(remove_neuron(&mut chromosome, 2), Ok(true));
    assert_eq!(
        chromosome.iter(),
        vec![
            gene(0.1, 1, 1, 1),
            gene(0.2, 2, 2, 1),
            gene(0.4, 3, 4, 0),
            gene(0.6, 3, 4, 2),
            gene(0.7, 3, 4, 3),
        ]
    );
}

#[test]
fn remove_neuron_reports_a_neuron_in_two_layers() {
    let genes = vec![
        gene(0.1, 1, 1, 1),
        gene(0.2, 2, 2, 1),
        gene(0.3, 2, 3, 1),
        gene(0.4, 3, 3, 2),
    ];
    let mut chromosome = Chromosome::new(genes.clone());
    assert_eq!(remove_neuron(&mut chromosome, 2), Err(ModelFault::NeuronInTwoLayers));
    assert_eq!(chromosome.iter(), genes);
}

#[test]
fn add_layer_takes_the_shape_of_the_last_layer() {
    let mut numbering = surveyed(small_net());
    let mut chromosome = Chromosome::new(small_net());
    assert_eq!(append_weights_needed(&chromosome), Some(2));
    let fresh = vec![0.25f32.to_bits(), (-0.5f32).to_bits()];
    assert!(add_layer(&mut chromosome, &mut numbering, &fresh));
    let mut expected = small_net();
    expected.push(gene(0.25, 4, 5, 0));
    expected.push(gene(-0.5, 4, 5, 4));
    assert_eq!(chromosome.iter(), expected);
    assert_eq!(numbering.get(4, 1), Some(5));
    assert_eq!(numbering.max_id(), 5);
}

#[test]
fn add_layer_numbers_by_place_and_sorts_the_layer() {
    let genes = vec![gene(0.1, 1, 1, 1), gene(0.2, 2, 2, 1), gene(0.3, 2, 3, 1)];
    let mut numbering = surveyed(genes.clone());
    numbering.insert(3, 1, 9);
    numbering.insert(3, 2, 6);
    let mut chromosome = Chromosome::new(genes.clone());
    assert_eq!(append_weights_needed(&chromosome), Some(6));
    let fresh: Vec<u32> = (1..=6).map(|n| (n as f32).to_bits()).collect();
    assert!(add_layer(&mut chromosome, &mut numbering, &fresh));
    let mut expected = genes;
    expected.extend(vec![
        gene(4.0, 3, 6, 0),
        gene(5.0, 3, 6, 2),
        gene(6.0, 3, 6, 3),
        gene(1.0, 3, 9, 0),
        gene(2.0, 3, 9, 2),
        gene(3.0, 3, 9, 3),
    ]);
    assert_eq!(chromosome.iter(), expected);
    assert_eq!(numbering.max_id(), 3);
}

#[test]
fn add_layer_leaves_an_empty_genome() {
    let mut numbering = NeuronNumbering::new();
    let mut chromosome = Chromosome::new(Vec::new());
    assert_eq!(append_weights_needed(&chromosome), Some(0));
    assert!(!add_layer(&mut chromosome, &mut numbering, &Vec::new()));
    assert!(chromosome.is_empty());
}

#[test]
fn remove_layer_of_a_genome_of_three_layers_changes_nothing() {
    let shuffled = vec![
        gene(0.4, 3, 4, 0),
        gene(0.1, 2, 3, 0),
        gene(1.0, 1, 1, 1),
        gene(0.5, 3, 4, 3),
    ];
    let mut numbering = surveyed(shuffled.clone());
    let mut chromosome = Chromosome::new(shuffled.clone());
    assert_eq!(collapse_weights_needed(&chromosome), Some(0));
    assert!(!remove_layer(&mut chromosome, &mut numbering, &Vec::new()));
    assert_eq!(chromosome.iter(), shuffled);
    assert_eq!(numbering.max_id(), 4);
}

#[test]
fn remove_layer_rebuilds_what_follows() {
    let mut numbering = surveyed(deep_net());
    let mut chromosome = Chromosome::new(deep_net());
    assert_eq!(collapse_weights_needed(&chromosome), Some(5));
    let fresh: Vec<u32> = (1..=5).map(|n| (n as f32).to_bits()).collect();
    assert!(remove_layer(&mut chromosome, &mut numbering, &fresh));
    assert_eq!(
        chromosome.iter(),
        vec![
            gene(0.0, 1, 1, 0),
            gene(1.0, 1, 1, 1),
            gene(0.0, 1, 2, 0),
            gene(1.0, 1, 2, 2),
            gene(1.0, 2, 3, 0),
            gene(2.0, 2, 3, 1),
            gene(3.0, 2, 3, 2),
            gene(4.0, 3, 4, 0),
            gene(5.0, 3, 4, 3),
        ]
    );
    assert_eq!(numbering.max_id(), 5);
}

#[test]
fn remove_layer_gives_up_the_slimmest_inner_layer() {
    // layers of 1, 2, 1, 3, 1 neurons: the third layer is the slimmest inside
    let genes = vec![
        gene(0.1, 1, 1, 1),
        gene(0.1, 2, 2, 1),
        gene(0.1, 2, 3, 1),
        gene(0.1, 3, 4, 2),
        gene(0.1, 4, 5, 4),
        gene(0.1, 4, 6, 4),
        gene(0.1, 4, 7, 4),
        gene(0.1, 5, 8, 5),
    ];
    let mut numbering = surveyed(genes.clone());
    let mut chromosome = Chromosome::new(genes);
    // layer 3 takes the shape of layer 4 (three neurons, two senders each),
    // layer 4 that of layer 5 (one neuron, three senders)
    assert_eq!(collapse_weights_needed(&chromosome), Some(3 * 3 + 4));
    let fresh: Vec<u32> = (1..=13).map(|n| (n as f32).to_bits()).collect();
    assert!(remove_layer(&mut chromosome, &mut numbering, &fresh));
    let (links, layers) = chromosome.decode();
    assert_eq!(layers, vec![vec![1], vec![2, 3], vec![4, 9, 10], vec![5]]);
    assert_eq!(links[&4], vec![(0, 1.0f32.to_bits()), (2, 2.0f32.to_bits()), (3, 3.0f32.to_bits())]);
    assert_eq!(
        links[&5],
        vec![
            (0, 10.0f32.to_bits()),
            (4, 11.0f32.to_bits()),
            (9, 12.0f32.to_bits()),
            (10, 13.0f32.to_bits())
        ]
    );
    assert_eq!(numbering.get(3, 2), Some(9));
    assert_eq!(numbering.get(3, 3), Some(10));
    assert_eq!(numbering.max_id(), 10);
}

#[test]
fn count_weights_is_a_product() {
    assert_eq!(count_weights(0, 5), Some(0));
    assert_eq!(count_weights(3, 0), Some(3));
    assert_eq!(count_weights(3, 2), Some(9));
    assert_eq!(count_weights(2, usize::MAX), None);
    assert_eq!(count_weights(3, usize::MAX / 2), None);
}

#[test]
fn decisions_follow_force_and_size() {
    let grower = member(small_net(), true, 2);
    assert_eq!(decide_neuron_edit(&grower, 2, true), NeuronEdit::Grow { layer: 2 });
    assert_eq!(decide_neuron_edit(&grower, 2, false), NeuronEdit::Shrink { layer: 2 });
    assert_eq!(decide_neuron_edit(&grower, 1, true), NeuronEdit::Skip);
    assert_eq!(decide_neuron_edit(&grower, 3, true), NeuronEdit::Skip);
    assert_eq!(decide_neuron_edit(&member(small_net(), false, 2), 2, true), NeuronEdit::Skip);
    assert_eq!(decide_neuron_edit(&member(small_net(), true, 3), 2, true), NeuronEdit::Skip);

    let stacker = member(small_net(), true, 3);
    assert_eq!(decide_layer_edit(&stacker, true), LayerEdit::Append);
    assert_eq!(decide_layer_edit(&stacker, false), LayerEdit::Skip);
    assert_eq!(decide_layer_edit(&member(deep_net(), true, 3), false), LayerEdit::Collapse);
    assert_eq!(decide_layer_edit(&member(Vec::new(), true, 3), true), LayerEdit::Skip);
    assert_eq!(decide_layer_edit(&member(deep_net(), false, 3), true), LayerEdit::Skip);
    assert_eq!(decide_layer_edit(&member(deep_net(), true, 2), true), LayerEdit::Skip);
}

#[test]
fn plans_stay_within_the_inner_layers() {
    let mutation = Flex1Mutation::new(0.5f32.to_bits(), 0.5f32.to_bits(), 9);
    let grower = member(deep_net(), true, 2);
    let mut grows = 0;
    let mut shrinks = 0;
    let mut seen = [false; 5];
    for seed in 0..200u64 {
        let mut rng = ChaCha8Rng::seed_from_u64(seed);
        match mutation.plan_neuron_edit(&mut rng, &grower) {
            NeuronEdit::Grow { layer } => {
                assert!(2 <= layer && layer < 4);
                seen[layer] = true;
                grows += 1;
            }
            NeuronEdit::Shrink { layer } => {
                assert!(2 <= layer && layer < 4);
                seen[layer] = true;
                shrinks += 1;
            }
            NeuronEdit::Skip => panic!("a member of force two is edited"),
        }
    }
    assert!(seen[2] && seen[3]);
    assert!(grows > shrinks);
    assert!(shrinks > 20);

    let mut rng = ChaCha8Rng::seed_from_u64(1);
    assert_eq!(
        mutation.plan_neuron_edit(&mut rng, &member(deep_net(), false, 2)),
        NeuronEdit::Skip
    );
    let two_layers = vec![gene(0.1, 1, 1, 1), gene(0.2, 2, 2, 1)];
    assert_eq!(
        mutation.plan_neuron_edit(&mut rng, &member(two_layers, true, 2)),
        NeuronEdit::Skip
    );
    assert_eq!(
        mutation.plan_layer_edit(&mut rng, &member(deep_net(), true, 2)),
        LayerEdit::Skip
    );
    let mut appends = 0;
    let mut collapses = 0;
    for seed in 0..200u64 {
        let mut rng = ChaCha8Rng::seed_from_u64(seed);
        match mutation.plan_layer_edit(&mut rng, &member(deep_net(), true, 3)) {
            LayerEdit::Append => appends += 1,
            LayerEdit::Collapse => collapses += 1,
            LayerEdit::Skip => panic!("a member of force three is edited"),
        }
    }
    assert!(appends > collapses);
    assert!(collapses > 20);
}

#[test]
fn switch_gene_touches_the_chosen_input_only() {
    assert_eq!(switch_gene(gene(0.3, 1, 2, 2), 2, true), (INPUT_ON, 1, 2, 2));
    assert_eq!(switch_gene(gene(0.3, 1, 2, 2), 2, false), (INPUT_OFF, 1, 2, 2));
    assert_eq!(switch_gene(gene(0.3, 1, 1, 2), 2, true), gene(0.3, 1, 1, 2));
    assert_eq!(switch_gene(gene(0.3, 2, 2, 2), 2, true), gene(0.3, 2, 2, 2));
    assert_eq!(f32::from_bits(INPUT_ON), 1.0);
    assert_eq!(f32::from_bits(INPUT_OFF), 0.0);
}

#[test]
fn toggle_input_switches_one_input() {
    let mutation = Flex1Mutation::new(0.5f32.to_bits(), 0.5f32.to_bits(), 1);
    let mut switched_some = false;
    for seed in 0..50u64 {
        let mut rng = ChaCha8Rng::seed_from_u64(seed);
        let mut individual = member(small_net(), true, 2);
        mutation.toggle_input(&mut rng, &mut individual, 1, 1);
        let after = individual.chromosome().iter();
        let before = small_net();
        let touched: Vec<usize> = (0..before.len()).filter(|&i| after[i] != before[i]).collect();
        for &i in &touched {
            assert_eq!(before[i].1, 1);
            assert!(after[i].0 == INPUT_ON || after[i].0 == INPUT_OFF);
            assert_eq!((after[i].1, after[i].2, after[i].3), (before[i].1, before[i].2, before[i].3));
            assert_eq!(before[i].2, before[touched[0]].2);
        }
        switched_some = switched_some || !touched.is_empty();
        assert_eq!(individual.life_time(), 3);
        assert!(individual.changed());
        assert_eq!(individual.mut_force(), 2);
    }
    assert!(switched_some);
}

#[test]
fn toggle_input_with_a_certain_chance_switches_an_input() {
    let mutation = Flex1Mutation::new(0.5f32.to_bits(), 0.5f32.to_bits(), 1);
    let genes = vec![
        gene(0.5, 1, 1, 0),
        gene(0.5, 1, 1, 1),
        gene(0.5, 1, 2, 2),
        gene(0.5, 2, 3, 1),
    ];
    let mut eyes = [0usize; 3];
    for seed in 0..60u64 {
        let mut rng = ChaCha8Rng::seed_from_u64(seed);
        let mut individual = member(genes.clone(), true, 2);
        mutation.toggle_input(&mut rng, &mut individual, 3, 3);
        let after = individual.chromosome().iter();
        let touched: Vec<usize> = (0..genes.len()).filter(|&i| after[i] != genes[i]).collect();
        assert!(touched == vec![0, 1] || touched == vec![2]);
        eyes[genes[touched[0]].2] += 1;
        for &i in &touched {
            assert!(after[i].0 == INPUT_ON || after[i].0 == INPUT_OFF);
        }
        assert_eq!(after[3], genes[3]);

        let mut population = vec![member(genes.clone(), true, 2), member(genes.clone(), true, 2)];
        mutation.toggle_inputs(&mut rng, &mut population, 1, 1);
        assert!(population.iter().all(|m| m.chromosome().iter() != genes));
    }
    assert!(eyes[1] > 10 && eyes[2] > 10);

    let blind = Flex1Mutation::new(0.5f32.to_bits(), 0.5f32.to_bits(), 0);
    let mut rng = ChaCha8Rng::seed_from_u64(1);
    let mut individual = member(genes.clone(), true, 2);
    blind.toggle_input(&mut rng, &mut individual, 1, 1);
    assert_eq!(individual.chromosome().iter(), genes);
}

#[test]
fn toggle_input_with_no_chance_changes_nothing() {
    let mutation = Flex1Mutation::new(0.5f32.to_bits(), 0.5f32.to_bits(), 9);
    for seed in 0..50u64 {
        let mut rng = ChaCha8Rng::seed_from_u64(seed);
        let mut individual = member(small_net(), true, 2);
        mutation.toggle_input(&mut rng, &mut individual, 0, 1);
        assert_eq!(individual.chromosome().iter(), small_net());
        let mut other = member(small_net(), false, 2);
        mutation.toggle_input(&mut rng, &mut other, 1, 1);
        assert_eq!(other.chromosome().iter(), small_net());
    }
}

#[test]
fn toggle_inputs_goes_through_the_population() {
    let mutation = Flex1Mutation::new(0.5f32.to_bits(), 0.5f32.to_bits(), 1);
    let mut switched = [0usize; 3];
    for seed in 0..50u64 {
        let mut rng = ChaCha8Rng::seed_from_u64(seed);
        let mut population = vec![
            member(small_net(), true, 2),
            member(small_net(), false, 2),
            member(small_net(), true, 2),
        ];
        mutation.toggle_inputs(&mut rng, &mut population, 1, 1);
        assert_eq!(population.len(), 3);
        for (k, individual) in population.iter().enumerate() {
            if individual.chromosome().iter() != small_net() {
                switched[k] += 1;
            }
            assert_eq!(individual.chromosome().len(), 9);
            assert_eq!(individual.mut_force(), 2);
        }
    }
    assert!(switched[0] > 0);
    assert_eq!(switched[1], 0);
    assert!(switched[2] > 0);
}

#[test]
fn a_chance_lies_between_zero_and_one() {
    let samples = [
        0.0f32,
        -0.0,
        1.0,
        0.5,
        f32::MIN_POSITIVE,
        1.0e-40,
        0.99999994,
        1.0000001,
        2.0,
        -1.0e-40,
        -0.5,
        -1.0,
        f32::INFINITY,
        f32::NEG_INFINITY,
        f32::NAN,
        -f32::NAN,
        f32::MAX,
    ];
    for value in samples {
        assert_eq!(chance_is_valid(value.to_bits()), (0.0..=1.0).contains(&value));
    }
}

#[test]
fn mutation_keeps_its_settings() {
    let mutation = Flex1Mutation::new(0.5f32.to_bits(), 0.25f32.to_bits(), 9);
    assert_eq!(f32::from_bits(mutation.chance()), 0.5);
    assert_eq!(f32::from_bits(mutation.coeff()), 0.25);
    assert_eq!(mutation.eye_cells(), 9);
    let individual = member(small_net(), true, 1);
    assert!(mutation.perturbs(&individual, gene(0.1, 2, 3, 0)));
    assert!(!mutation.perturbs(&individual, gene(0.1, 1, 1, 0)));
    assert!(!mutation.perturbs(&member(small_net(), true, 0), gene(0.1, 2, 3, 0)));
}

fn draw_weights(rng: &mut ChaCha8Rng, count: usize) -> Vec<u32> {
    (0..count).map(|_| rng.gen_range(-1.0f32..=1.0).to_bits()).collect()
}

#[test]
fn a_whole_pass_keeps_every_genome_a_layered_network() {
    let mutation = Flex1Mutation::new(0.5f32.to_bits(), 0.5f32.to_bits(), 9);
    for seed in 0..40u64 {
        let mut rng = ChaCha8Rng::seed_from_u64(seed);
        let mut population = vec![
            member(deep_net(), false, 1),
            member(deep_net(), true, 2),
            member(small_net(), true, 2),
            member(deep_net(), true, 3),
            member(small_net(), true, 3),
        ];
        let mut numbering = survey(&population);
        for individual in population.iter_mut() {
            mutation.toggle_input(&mut rng, individual, 0, 1);
        }
        for individual in population.iter_mut() {
            match mutation.plan_neuron_edit(&mut rng, individual) {
                NeuronEdit::Grow { layer } => {
                    assert!(numbering.max_id() < usize::MAX);
                    let needed = grow_weights(individual.chromosome(), &numbering, layer);
                    let fresh = draw_weights(&mut rng, needed);
                    add_neuron(individual.chromosome_mut(), &mut numbering, layer, &fresh);
                }
                NeuronEdit::Shrink { layer } => {
                    remove_neuron(individual.chromosome_mut(), layer).unwrap();
                }
                NeuronEdit::Skip => {}
            }
        }
        for individual in population.iter_mut() {
            match mutation.plan_layer_edit(&mut rng, individual) {
                LayerEdit::Append => {
                    let needed = append_weights_needed(individual.chromosome()).unwrap();
                    let fresh = draw_weights(&mut rng, needed);
                    assert!(add_layer(individual.chromosome_mut(), &mut numbering, &fresh));
                }
                LayerEdit::Collapse => {
                    let needed = collapse_weights_needed(individual.chromosome()).unwrap();
                    let fresh = draw_weights(&mut rng, needed);
                    assert!(remove_layer(individual.chromosome_mut(), &mut numbering, &fresh));
                }
                LayerEdit::Skip => {}
            }
        }
        assert_eq!(population[0].chromosome().iter(), deep_net());
        for individual in &population {
            assert!(individual.chromosome().is_layered());
            let mut twin = individual.chromosome().copy();
            let (links, layers) = twin.decode();
            twin.update_genes(links, layers);
            assert_eq!(twin.iter(), individual.chromosome().iter());
        }
    }
}
