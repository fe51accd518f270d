//! What a generation reports of its population.

use vstd::prelude::*;
use vstd::string::StringExecFns;
use crate::chromosome::{Chromosome, Gene, depth, layered, lemma_depth_bounds};

verus! {

/// The bit patterns of the lowest, the highest, the mean and the median
/// fitness of a population.
#[derive(Clone, Copy, Debug, PartialEq, Eq)]
pub struct FitnessSummary {
    pub min: u32,
    pub max: u32,
    pub avg: u32,
    pub median: u32,
}

/// Whether a bit pattern is that of a number above zero.
pub open spec fn is_positive(weight: u32) -> bool {
    0 < weight <= 0x7F80_0000
}

/// Whether a gene counts for the shape of a network: beyond the first layer
/// every gene does; in the first layer, which holds the inputs, a connection
/// with a weight above zero does, and neither a bias nor an input that is
/// switched off.
pub open spec fn counts(gene: Gene) -> bool {
    gene.1 >= 2 || (gene.1 == 1 && gene.3 != 0 && is_positive(gene.0))
}

/// The receivers of `layer` that count, each once, in the order in which
/// the genome first names them.
pub open spec fn roster(genes: Seq<Gene>, layer: int) -> Seq<usize>
    decreases genes.len(),
{
    if genes.len() == 0 {
        Seq::empty()
    } else {
        let before = roster(genes.drop_last(), layer);
        let gene = genes.last();
        if gene.1 == layer && counts(gene) && !before.contains(gene.2) {
            before.push(gene.2)
        } else {
            before
        }
    }
}

/// The shape of a network: how many neurons count in each layer.
pub open spec fn shape_of(genes: Seq<Gene>) -> Seq<usize> {
    Seq::new(depth(genes) as nat, |l: int| roster(genes, l + 1).len() as usize)
}

/// The highest id of a receiver in a genome, zero for an empty one.
pub open spec fn highest_receiver(genes: Seq<Gene>) -> usize
    decreases genes.len(),
{
    if genes.len() == 0 {
        0
    } else {
        let before = highest_receiver(genes.drop_last());
        if genes.last().2 > before {
            genes.last().2
        } else {
            before
        }
    }
}

/// The highest id of a receiver in a population.
pub open spec fn highest_of_all(genomes: Seq<Seq<Gene>>) -> usize
    decreases genomes.len(),
{
    if genomes.len() == 0 {
        0
    } else {
        let before = highest_of_all(genomes.drop_last());
        let own = highest_receiver(genomes.last());
        if own > before {
            own
        } else {
            before
        }
    }
}

/// The digits of a number to the base ten, the highest first.
pub open spec fn decimal(n: nat) -> Seq<char>
    decreases n,
{
    let last = if n % 10 == 0 {
        '0'
    } else if n % 10 == 1 {
        '1'
    } else if n % 10 == 2 {
        '2'
    } else if n % 10 == 3 {
        '3'
    } else if n % 10 == 4 {
        '4'
    } else if n % 10 == 5 {
        '5'
    } else if n % 10 == 6 {
        '6'
    } else if n % 10 == 7 {
        '7'
    } else if n % 10 == 8 {
        '8'
    } else {
        '9'
    };
    if n < 10 {
        seq![last]
    } else {
        decimal(n / 10).push(last)
    }
}

/// The signature of a shape: the number of neurons of each layer in turn,
/// each followed by a full stop.
pub open spec fn signature_of(shape: Seq<usize>) -> Seq<char>
    decreases shape.len(),
{
    if shape.len() == 0 {
        Seq::empty()
    } else {
        signature_of(shape.drop_last()) + decimal(shape.last() as nat) + seq!['.']
    }
}

/// The digits of a number.
///
/// Calls `to_string` of std on the number, which writes it to the base ten
/// without sign or leading zero.
#[verifier::external_body]
pub(crate) fn count_text(n: usize) -> (text: String)
    ensures
        text@ == decimal(n as nat),
{
    n.to_string()
}

/// The signature of a shape, such as `4.3.1.` for a network of four, three
/// and one neurons.
pub fn signature(shape: &Vec<usize>) -> (text: String)
    ensures
        text@ == signature_of(shape@),
{
    let mut text = String::new();
    let mut l: usize = 0;
    proof {
        assert(shape@.take(0) =~= Seq::<usize>::empty());
    }
    while l < shape.len()
        invariant
            l <= shape@.len(),
            text@ == signature_of(shape@.take(l as int)),
        decreases shape@.len() - l,
    {
        proof {
            assert(shape@.take(l + 1).drop_last() =~= shape@.take(l as int));
            assert(shape@.take(l + 1).last() == shape@[l as int]);
            reveal_strlit(".");
            assert("."@ =~= seq!['.']);
        }
        let digits = count_text(shape[l]);
        text.append(digits.as_str());
        text.append(".");
        l += 1;
    }
    proof {
        assert(shape@.take(shape@.len() as int) =~= shape@);
    }
    text
}

/// Whether two lists hold the same numbers in the same order.
pub fn same_counts(a: &Vec<usize>, b: &Vec<usize>) -> (same: bool)
    ensures
        same == (a@ == b@),
{
    if a.len() != b.len() {
        return false;
    }
    let mut i: usize = 0;
    while i < a.len()
        invariant
            i <= a@.len(),
            a@.len() == b@.len(),
            forall|k: int| 0 <= k < i ==> a@[k] == b@[k],
        decreases a@.len() - i,
    {
        if a[i] != b[i] {
            return false;
        }
        i += 1;
    }
    proof {
        assert(a@ =~= b@);
    }
    true
}

/// The shape of the network of a genome.
pub fn shape(chromosome: &Chromosome) -> (counts: Vec<usize>)
    requires
        layered(chromosome@),
    ensures
        counts@ == shape_of(chromosome@),
{
    let ghost genes = chromosome@;
    let mut rosters: Vec<Vec<usize>> = Vec::new();
    let mut i: usize = 0;
    proof {
        assert(genes.take(0) =~= Seq::<Gene>::empty());
    }
    while i < chromosome.len()
        invariant
            i <= genes.len(),
            genes == chromosome@,
            layered(genes),
            rosters@.len() == depth(genes.take(i as int)),
            forall|l: int|
                0 <= l < rosters@.len() ==> (#[trigger] rosters@[l])@ == roster(
                    genes.take(i as int),
                    l + 1,
                ),
        decreases genes.len() - i,
    {
        let gene = chromosome[i];
        let ghost before = genes.take(i as int);
        let ghost after = genes.take(i + 1);
        proof {
            assert(after.drop_last() =~= before);
            assert(after.last() == gene);
        }
        while rosters.len() < gene.1
            invariant
                depth(before) <= rosters@.len() <= depth(after),
                gene.1 <= depth(after),
                forall|l: int|
                    0 <= l < rosters@.len() ==> (#[trigger] rosters@[l])@ == roster(before, l + 1),
            decreases gene.1 - rosters@.len(),
        {
            let ghost added = rosters@.len() as int;
            rosters.push(Vec::new());
            proof {
                lemma_roster_beyond(before, added + 1);
            }
        }
        let counted = gene.1 >= 2 || (gene.3 != 0 && 0 < gene.0 && gene.0 <= 0x7F80_0000);
        if counted && !crate::chromosome::holds(&rosters[gene.1 - 1], gene.2) {
            rosters[gene.1 - 1].push(gene.2);
        }
        i += 1;
    }
    proof {
        assert(genes.take(genes.len() as int) =~= genes);
    }
    let mut counts: Vec<usize> = Vec::new();
    let mut l: usize = 0;
    while l < rosters.len()
        invariant
            l <= rosters@.len(),
            rosters@.len() == depth(genes),
            forall|k: int| 0 <= k < rosters@.len() ==> (#[trigger] rosters@[k])@ == roster(genes, k + 1),
            counts@.len() == l,
            forall|k: int| 0 <= k < l ==> #[trigger] counts@[k] == roster(genes, k + 1).len(),
        decreases rosters@.len() - l,
    {
        counts.push(rosters[l].len());
        l += 1;
    }
    proof {
        assert(counts@ =~= shape_of(genes));
    }
    counts
}

/// A layer beyond the depth of a genome has no receiver.
pub(crate) proof fn lemma_roster_beyond(genes: Seq<Gene>, layer: int)
    requires
        layer > depth(genes),
    ensures
        roster(genes, layer) == Seq::<usize>::empty(),
    decreases genes.len(),
{
    if genes.len() > 0 {
        lemma_depth_bounds(genes, genes.len() - 1);
        lemma_roster_beyond(genes.drop_last(), layer);
    }
}

/// The genomes of a population, member by member.
pub open spec fn genomes_of(population: Seq<Chromosome>) -> Seq<Seq<Gene>> {
    Seq::new(population.len(), |i: int| population[i]@)
}

/// The shapes that occur in a population, each once, in the order in which
/// they first occur.
pub open spec fn distinct_shapes(genomes: Seq<Seq<Gene>>) -> Seq<Seq<usize>>
    decreases genomes.len(),
{
    if genomes.len() == 0 {
        Seq::empty()
    } else {
        let before = distinct_shapes(genomes.drop_last());
        let own = shape_of(genomes.last());
        if before.contains(own) {
            before
        } else {
            before.push(own)
        }
    }
}

/// No shape occurs twice among the shapes of a population, and a shape is
/// among them just when some genome has it.
pub proof fn lemma_distinct_shapes(genomes: Seq<Seq<Gene>>)
    ensures
        distinct_shapes(genomes).no_duplicates(),
        forall|shape: Seq<usize>|
            distinct_shapes(genomes).contains(shape) <==> exists|i: int|
                0 <= i < genomes.len() && shape_of(#[trigger] genomes[i]) == shape,
    decreases genomes.len(),
{
    if genomes.len() > 0 {
        let rest = genomes.drop_last();
        let before = distinct_shapes(rest);
        let own = shape_of(genomes.last());
        let all = distinct_shapes(genomes);
        lemma_distinct_shapes(rest);
        if !before.contains(own) {
            assert(all == before.push(own));
            assert forall|a: int, b: int| 0 <= a < all.len() && 0 <= b < all.len() && a != b implies all[a]
                != all[b] by {
                if a < before.len() {
                    assert(before.contains(before[a]));
                }
                if b < before.len() {
                    assert(before.contains(before[b]));
                }
            }
        }
        assert forall|shape: Seq<usize>|
            all.contains(shape) <==> exists|i: int|
                0 <= i < genomes.len() && shape_of(#[trigger] genomes[i]) == shape by {
            if all.contains(shape) {
                let k = choose|k: int| 0 <= k < all.len() && all[k] == shape;
                if k < before.len() && all[k] == before[k] {
                    assert(before.contains(shape));
                    let i = choose|i: int| 0 <= i < rest.len() && shape_of(#[trigger] rest[i]) == shape;
                    assert(genomes[i] == rest[i]);
                } else {
                    assert(shape == own);
                    assert(shape_of(genomes[genomes.len() - 1]) == shape);
                }
            }
            if exists|i: int| 0 <= i < genomes.len() && shape_of(#[trigger] genomes[i]) == shape {
                let i = choose|i: int| 0 <= i < genomes.len() && shape_of(#[trigger] genomes[i]) == shape;
                if i < rest.len() {
                    assert(rest[i] == genomes[i]);
                    assert(before.contains(shape));
                    let k = choose|k: int| 0 <= k < before.len() && before[k] == shape;
                    assert(all[k] == shape);
                } else {
                    assert(shape == own);
                    if before.contains(own) {
                        let k = choose|k: int| 0 <= k < before.len() && before[k] == own;
                        assert(all[k] == shape);
                    } else {
                        assert(all[before.len() as int] == own);
                    }
                }
            }
        }
    } else {
        assert forall|shape: Seq<usize>| !distinct_shapes(genomes).contains(shape) by {}
    }
}

/// The highest id of a receiver in a genome.
pub fn highest(chromosome: &Chromosome) -> (id: usize)
    ensures
        id == highest_receiver(chromosome@),
{
    let mut id: usize = 0;
    let mut i: usize = 0;
    proof {
        assert(chromosome@.take(0) =~= Seq::<Gene>::empty());
    }
    while i < chromosome.len()
        invariant
            i <= chromosome@.len(),
            id == highest_receiver(chromosome@.take(i as int)),
        decreases chromosome@.len() - i,
    {
        proof {
            assert(chromosome@.take(i + 1).drop_last() =~= chromosome@.take(i as int));
        }
        if chromosome[i].2 > id {
            id = chromosome[i].2;
        }
        i += 1;
    }
    proof {
        assert(chromosome@.take(chromosome@.len() as int) =~= chromosome@);
    }
    id
}

/// The report of one generation.
#[derive(Clone, Debug)]
pub struct Statistics {
    min_fitness: u32,
    max_fitness: u32,
    avg_fitness: u32,
    median_fitness: u32,
    changed_count: usize,
    shapes: Vec<Vec<usize>>,
    max_neuron_num: usize,
}

impl Statistics {
    /// The fitness of the population in four numbers.
    pub closed spec fn summary(&self) -> FitnessSummary {
        FitnessSummary {
            min: self.min_fitness,
            max: self.max_fitness,
            avg: self.avg_fitness,
            median: self.median_fitness,
        }
    }

    /// How many members were replaced.
    pub closed spec fn replaced(&self) -> usize {
        self.changed_count
    }

    /// The shapes that occur in the population, each once.
    pub closed spec fn shapes(&self) -> Seq<Seq<usize>> {
        Seq::new(self.shapes@.len(), |i: int| self.shapes@[i]@)
    }

    /// The highest id of a neuron in the population.
    pub closed spec fn highest_id(&self) -> usize {
        self.max_neuron_num
    }

    /// The report of a population that is not empty: the fitness as it was
    /// summed up, no member replaced yet, the shapes of the networks and the
    /// highest id of a neuron.
    pub fn new(fitness: FitnessSummary, population: &Vec<Chromosome>) -> (report: Self)
        requires
            population@.len() > 0,
            forall|i: int| 0 <= i < population@.len() ==> layered((#[trigger] population@[i])@),
        ensures
            report.summary() == fitness,
            report.replaced() == 0,
            report.shapes() == distinct_shapes(genomes_of(population@)),
            report.shapes().no_duplicates(),
            report.highest_id() == highest_of_all(genomes_of(population@)),
    {
        proof {
            lemma_distinct_shapes(genomes_of(population@));
        }
        let ghost all = genomes_of(population@);
        let mut shapes: Vec<Vec<usize>> = Vec::new();
        let mut max_neuron_num: usize = 0;
        let mut i: usize = 0;
        proof {
            assert(all.take(0) =~= Seq::<Seq<Gene>>::empty());
        }
        while i < population.len()
            invariant
                i <= population@.len(),
                all == genomes_of(population@),
                forall|k: int| 0 <= k < population@.len() ==> layered((#[trigger] population@[k])@),
                Seq::new(shapes@.len(), |k: int| shapes@[k]@) == distinct_shapes(all.take(i as int)),
                max_neuron_num == highest_of_all(all.take(i as int)),
            decreases population@.len() - i,
        {
            proof {
                assert(all.take(i + 1).drop_last() =~= all.take(i as int));
                assert(all.take(i + 1).last() == population@[i as int]@);
            }
            let own = shape(&population[i]);
            let ghost known = Seq::new(shapes@.len(), |k: int| shapes@[k]@);
            let mut found = false;
            let mut j: usize = 0;
            while j < shapes.len() && !found
                invariant
                    j <= shapes@.len(),
                    known == Seq::new(shapes@.len(), |k: int| shapes@[k]@),
                    found ==> known.contains(own@),
                    !found ==> forall|k: int| 0 <= k < j ==> known[k] != own@,
                decreases shapes@.len() - j,
            {
                if same_counts(&shapes[j], &own) {
                    found = true;
                    proof {
                        assert(known[j as int] == own@);
                    }
                }
                j += 1;
            }
            if !found {
                shapes.push(own);
                proof {
                    assert(Seq::new(shapes@.len(), |k: int| shapes@[k]@) =~= known.push(own@));
                }
            }
            let id = highest(&population[i]);
            if id > max_neuron_num {
                max_neuron_num = id;
            }
            i += 1;
        }
        proof {
            assert(all.take(population@.len() as int) =~= all);
        }
        Self {
            min_fitness: fitness.min,
            max_fitness: fitness.max,
            avg_fitness: fitness.avg,
            median_fitness: fitness.median,
            changed_count: 0,
            shapes,
            max_neuron_num,
        }
    }

    /// The bit pattern of the lowest fitness.
    pub fn min_fitness(&self) -> (bits: u32)
        ensures
            bits == self.summary().min,
    {
        self.min_fitness
    }

    /// The bit pattern of the highest fitness.
    pub fn max_fitness(&self) -> (bits: u32)
        ensures
            bits == self.summary().max,
    {
        self.max_fitness
    }

    /// The bit pattern of the mean fitness.
    pub fn avg_fitness(&self) -> (bits: u32)
        ensures
            bits == self.summary().avg,
    {
        self.avg_fitness
    }

    /// The bit pattern of the median fitness.
    pub fn median_fitness(&self) -> (bits: u32)
        ensures
            bits == self.summary().median,
    {
        self.median_fitness
    }

    pub fn changed_count(&self) -> (count: usize)
        ensures
            count == self.replaced(),
    {
        self.changed_count
    }

    pub fn set_changed_count(&mut self, ch: usize)
        ensures
            final(self).replaced() == ch,
            final(self).summary() == old(self).summary(),
            final(self).shapes() == old(self).shapes(),
            final(self).highest_id() == old(self).highest_id(),
    {
        self.changed_count = ch;
    }

    /// The signatures of the shapes that occur in the population, each
    /// once.
    pub fn neurons_by_layer(&self) -> (signatures: Vec<String>)
        ensures
            signatures@.len() == self.shapes().len(),
            forall|i: int|
                0 <= i < signatures@.len() ==> (#[trigger] signatures@[i])@ == signature_of(
                    self.shapes()[i],
                ),
    {
        let mut signatures: Vec<String> = Vec::new();
        let mut i: usize = 0;
        while i < self.shapes.len()
            invariant
                i <= self.shapes@.len(),
                signatures@.len() == i,
                forall|k: int|
                    0 <= k < i ==> (#[trigger] signatures@[k])@ == signature_of(self.shapes@[k]@),
            decreases self.shapes@.len() - i,
        {
            signatures.push(signature(&self.shapes[i]));
            i += 1;
        }
        signatures
    }

    pub fn max_neuron_num(&self) -> (id: usize)
        ensures
            id == self.highest_id(),
    {
        self.max_neuron_num
    }
}

} // verus!
