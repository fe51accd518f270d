use neuro_evolution::chromosome::{Chromosome, Gene};

fn gene(weight: f32, layer: usize, neuron_out: usize, neuron_in: usize) -> Gene {
    (weight.to_bits(), layer, neuron_out, neuron_in)
}

fn weight_of(gene: &Gene) -> f32 {
    f32::from_bits(gene.0)
}

fn chromosome() -> Chromosome {
    Chromosome::new(vec![gene(3.0, 0, 0, 0), gene(1.0, 0, 0, 0), gene(2.0, 0, 0, 0)])
}

#[test]
fn len() {
    assert_eq!(chromosome().len(), 3);
}

#[test]
fn iter() {
    let chromosome = chromosome();
    let genes: Vec<_> = chromosome.iter().into_iter().collect();

    assert_eq!(genes.len(), 3);
    assert_eq!(genes[0], gene(3.0, 0, 0, 0));
    assert_eq!(genes[1], gene(1.0, 0, 0, 0));
    assert_eq!(genes[2], gene(2.0, 0, 0, 0));
}

#[test]
fn iter_mut() {
    let mut chromosome = chromosome();

    chromosome.iter_mut().iter_mut().for_each(|(gene, _, _, _)| {
        *gene = (f32::from_bits(*gene) * 10.0).to_bits();
    });

    let genes: Vec<_> = chromosome.iter().into_iter().collect();

    assert_eq!(genes.len(), 3);
    assert_eq!(genes[0], gene(30.0, 0, 0, 0));
    assert_eq!(genes[1], gene(10.0, 0, 0, 0));
    assert_eq!(genes[2], gene(20.0, 0, 0, 0));
}

#[test]
fn index() {
    let chromosome = chromosome();

    assert_eq!(chromosome[0], gene(3.0, 0, 0, 0));
    assert_eq!(chromosome[1], gene(1.0, 0, 0, 0));
    assert_eq!(chromosome[2], gene(2.0, 0, 0, 0));
}

#[test]
fn from_iterator() {
    let chromosome: Chromosome = chromosome().iter().into_iter().collect();

    assert_eq!(chromosome[0], gene(3.0, 0, 0, 0));
    assert_eq!(chromosome[1], gene(1.0, 0, 0, 0));
    assert_eq!(chromosome[2], gene(2.0, 0, 0, 0));
}

#[test]
fn is_empty_tells_an_empty_genome() {
    assert!(Chromosome::new(Vec::new()).is_empty());
    assert!(!chromosome().is_empty());
    assert_eq!(weight_of(&chromosome()[1]), 1.0);
}
