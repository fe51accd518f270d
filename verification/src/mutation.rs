//! Mutation of the topology: the edits of one genome, and what a pass over a
//! population draws and decides.

use vstd::prelude::*;
use crate::chromosome::{
    Chromosome,
    Gene,
    decoded_links,
    depth,
    encoded,
    is_layering,
    layered,
    layering,
    layers_view,
    placed,
    sorted_layers,
    receives,
};
use crate::network::{
    ModelFault,
    Net,
    append_built,
    append_layer,
    append_weights,
    appended,
    can_append,
    collapse_layer,
    collapse_weights,
    collapsed,
    complete,
    grow_neuron,
    grown,
    grows,
    growth_weights,
    numbered_by_growth,
    lemma_rebuild_weights_grow,
    lemma_weights_for_grows,
    rebuild_weights,
    rebuilt,
    shrink_neuron,
    shrinks,
    shrunk,
    slimmest,
    slimmest_layer,
    weights_for,
};
use crate::individual::{FlexIndividual, genomes};
use crate::numbering::{NeuronNumbering, NumberingView};
use crate::random::{draw_ratio, draw_within};

verus! {

/// The network that a genome decodes to.
pub open spec fn decoded(genes: Seq<Gene>) -> Net {
    Net { links: decoded_links(genes), layers: layering(genes) }
}

/// The genome that a network is written as: layer after layer, and in each
/// layer neuron after neuron in ascending order of their ids.
pub open spec fn written(net: Net) -> Seq<Gene> {
    encoded(net.links, sorted_layers(net.layers))
}

/// A decoded network records links for every neuron of every layer.
pub(crate) proof fn lemma_decoded_complete(genes: Seq<Gene>)
    requires
        is_layering(layering(genes), genes),
    ensures
        complete(decoded(genes)),
{
    let net = decoded(genes);
    assert forall|l: int, k: int|
        0 <= l < net.layers.len() && 0 <= k < net.layers[l].len() implies net.links.contains_key(
        #[trigger] net.layers[l][k],
    ) by {
        let n = net.layers[l][k];
        assert(net.layers[l].contains(n));
        assert(placed(genes, l + 1, n));
        let i = choose|i: int| 0 <= i < genes.len() && (#[trigger] genes[i]).1 == l + 1 && genes[i].2 == n;
        assert(receives(genes, n));
    }
}

/// Whether a neuron whose last layer-mate is removed from `layer` also
/// stands in the next layer.
pub open spec fn shared_with_next(net: Net, layer: usize) -> bool {
    net.layers[layer as int].contains(net.layers[layer - 1].last())
}

/// Adds a neuron to the layer numbered `layer`, which lies between the first
/// and the last. The new neuron gets the id that the numbering gives for its
/// place, copies the links of the layer's first neuron, and sends to every
/// neuron of the next layer with the weights of `fresh`. A layer without a
/// neuron, or one that holds the id already, leaves the genome as it is.
pub fn add_neuron(
    chromosome: &mut Chromosome,
    numbering: &mut NeuronNumbering,
    layer: usize,
    fresh: &Vec<u32>,
) -> (changed: bool)
    requires
        layered(old(chromosome)@),
        2 <= layer < depth(old(chromosome)@),
        fresh@.len() == growth_weights(decoded(old(chromosome)@), old(numbering)@, layer),
        old(numbering)@.max_id < usize::MAX,
    ensures
        changed == grows(decoded(old(chromosome)@), old(numbering)@, layer),
        final(chromosome)@ == if changed {
            written(grown(decoded(old(chromosome)@), old(numbering)@, layer, fresh@))
        } else {
            old(chromosome)@
        },
        final(numbering)@ == numbered_by_growth(decoded(old(chromosome)@), old(numbering)@, layer),
        layered(final(chromosome)@),
{
    let (mut inp_links, mut neurons) = chromosome.decode();
    proof {
        lemma_decoded_complete(chromosome@);
        assert(layers_view(neurons)[layer as int] == neurons@[layer as int]@);
    }
    let changed = grow_neuron(&mut inp_links, &mut neurons, numbering, layer, fresh);
    if changed {
        chromosome.update_genes(inp_links, neurons);
    }
    changed
}

/// Removes the neuron with the highest id from the layer numbered `layer`,
/// which lies between the first and the last, together with its links and
/// the links that the next layer has from it. A layer with fewer than two
/// neurons leaves the genome as it is, and so does a neuron that also stands
/// in the next layer, which is reported.
pub fn remove_neuron(chromosome: &mut Chromosome, layer: usize) -> (changed: Result<bool, ModelFault>)
    requires
        layered(old(chromosome)@),
        2 <= layer < depth(old(chromosome)@),
    ensures
        changed is Err <==> shrinks(decoded(old(chromosome)@), layer) && shared_with_next(
            decoded(old(chromosome)@),
            layer,
        ),
        changed == Ok::<bool, ModelFault>(true) <==> shrinks(decoded(old(chromosome)@), layer)
            && !shared_with_next(decoded(old(chromosome)@), layer),
        final(chromosome)@ == if changed == Ok::<bool, ModelFault>(true) {
            written(shrunk(decoded(old(chromosome)@), layer))
        } else {
            old(chromosome)@
        },
        layered(final(chromosome)@),
{
    let (mut inp_links, mut neurons) = chromosome.decode();
    proof {
        lemma_decoded_complete(chromosome@);
        assert(layers_view(neurons)[layer as int] == neurons@[layer as int]@);
        assert(layers_view(neurons)[layer - 1] == neurons@[layer - 1]@);
    }
    let changed = shrink_neuron(&mut inp_links, &mut neurons, layer);
    match changed {
        Ok(true) => {
            chromosome.update_genes(inp_links, neurons);
        },
        _ => {},
    }
    changed
}

/// Appends a layer of the shape of the last one: as many neurons, numbered
/// for their places, each with a bias and a link from every neuron of the
/// old last layer, with the weights of `fresh`. An empty genome stays as it
/// is.
pub fn add_layer(chromosome: &mut Chromosome, numbering: &mut NeuronNumbering, fresh: &Vec<u32>) -> (changed:
    bool)
    requires
        layered(old(chromosome)@),
        can_append(decoded(old(chromosome)@)) ==> fresh@.len() == append_weights(
            decoded(old(chromosome)@),
        ) && old(numbering)@.max_id + layering(old(chromosome)@).last().len() <= usize::MAX,
    ensures
        changed == can_append(decoded(old(chromosome)@)),
        final(chromosome)@ == if changed {
            written(appended(decoded(old(chromosome)@), old(numbering)@, fresh@))
        } else {
            old(chromosome)@
        },
        final(numbering)@ == if changed {
            append_built(decoded(old(chromosome)@), old(numbering)@, fresh@).numbering
        } else {
            old(numbering)@
        },
        layered(final(chromosome)@),
{
    let (mut inp_links, mut neurons) = chromosome.decode();
    proof {
        if neurons@.len() > 0 {
            assert(layers_view(neurons).last() == neurons@.last()@);
        }
    }
    let changed = append_layer(&mut inp_links, &mut neurons, numbering, fresh);
    if changed {
        chromosome.update_genes(inp_links, neurons);
    }
    changed
}

/// The number of the layer that a genome gives up when it shrinks by a
/// layer: the slimmest between the first and the last, the first of them
/// where several are as slim.
pub open spec fn given_up(genes: Seq<Gene>) -> usize {
    (slimmest(layering(genes), depth(genes) - 1) + 1) as usize
}

/// Gives up a layer of a genome of four layers or more: the slimmest between
/// the first and the last. Every layer from there on is rebuilt in the shape
/// of the one after it, with new links from the layer before it and the
/// weights of `fresh`, and the last layer is dropped. A genome of fewer than
/// four layers stays as it is.
pub fn remove_layer(chromosome: &mut Chromosome, numbering: &mut NeuronNumbering, fresh: &Vec<u32>) -> (changed:
    bool)
    requires
        layered(old(chromosome)@),
        depth(old(chromosome)@) >= 4 ==> fresh@.len() == collapse_weights(
            decoded(old(chromosome)@),
            given_up(old(chromosome)@),
        ) && old(numbering)@.max_id + fresh@.len() <= usize::MAX,
    ensures
        changed == (depth(old(chromosome)@) >= 4),
        final(chromosome)@ == if changed {
            written(
                collapsed(
                    decoded(old(chromosome)@),
                    old(numbering)@,
                    fresh@,
                    given_up(old(chromosome)@),
                ),
            )
        } else {
            old(chromosome)@
        },
        final(numbering)@ == if changed {
            rebuilt(
                decoded(old(chromosome)@),
                old(numbering)@,
                fresh@,
                given_up(old(chromosome)@) - 1,
                depth(old(chromosome)@) - 1,
            ).numbering
        } else {
            old(numbering)@
        },
        layered(final(chromosome)@),
{
    let (mut inp_links, mut neurons) = chromosome.decode();
    if neurons.len() < 4 {
        return false;
    }
    let place = slimmest_layer(&neurons);
    collapse_layer(&mut inp_links, &mut neurons, numbering, place + 1, fresh);
    chromosome.update_genes(inp_links, neurons);
    true
}

/// The numbering once the neurons of one layer were noted: each id is
/// recorded for the layer and its position in it, counted from one, and the
/// highest id in use is raised to it.
pub open spec fn noted_layer(numbering: NumberingView, layer: usize, ids: Seq<usize>) -> NumberingView
    decreases ids.len(),
{
    if ids.len() == 0 {
        numbering
    } else {
        let before = noted_layer(numbering, layer, ids.drop_last());
        NumberingView {
            table: before.table.insert((layer, ids.len() as usize), ids.last()),
            max_id: if ids.last() > before.max_id {
                ids.last()
            } else {
                before.max_id
            },
        }
    }
}

/// The numbering once the layers of one network were noted, all but the
/// first, which holds the inputs.
pub open spec fn noted_net(numbering: NumberingView, layers: Seq<Seq<usize>>) -> NumberingView
    decreases layers.len(),
{
    if layers.len() <= 1 {
        numbering
    } else {
        noted_layer(noted_net(numbering, layers.drop_last()), layers.len() as usize, layers.last())
    }
}

/// The numbering that a pass starts from: the networks of all genomes
/// noted in turn, so that a later genome decides where two disagree.
pub open spec fn surveyed(genomes: Seq<Seq<Gene>>) -> NumberingView
    decreases genomes.len(),
{
    if genomes.len() == 0 {
        NumberingView { table: Map::empty(), max_id: 0 }
    } else {
        noted_net(surveyed(genomes.drop_last()), layering(genomes.last()))
    }
}

/// Notes the layers of one network in a numbering, all but the first.
pub(crate) fn note_layers(numbering: &mut NeuronNumbering, neurons: &Vec<Vec<usize>>)
    ensures
        final(numbering)@ == noted_net(old(numbering)@, layers_view(*neurons)),
{
    let ghost layers = layers_view(*neurons);
    let ghost start = numbering@;
    let layer_count = neurons.len();
    let mut l: usize = 0;
    proof {
        assert(layers.take(0) =~= Seq::<Seq<usize>>::empty());
    }
    while l < layer_count
        invariant
            l <= neurons@.len(),
            layer_count == neurons@.len(),
            layers == layers_view(*neurons),
            numbering@ == noted_net(start, layers.take(l as int)),
        decreases neurons@.len() - l,
    {
        proof {
            assert(layers.take(l + 1).drop_last() =~= layers.take(l as int));
            assert(layers.take(l + 1).last() == neurons@[l as int]@);
        }
        if l > 0 {
            let layer = &neurons[l];
            let ghost ids = layer@;
            let ghost before = numbering@;
            let mut i: usize = 0;
            proof {
                assert(ids.take(0) =~= Seq::<usize>::empty());
            }
            while i < layer.len()
                invariant
                    i <= layer@.len(),
                    l < layer_count,
                    ids == layer@,
                    numbering@ == noted_layer(before, (l + 1) as usize, ids.take(i as int)),
                decreases layer@.len() - i,
            {
                proof {
                    assert(ids.take(i + 1).drop_last() =~= ids.take(i as int));
                    assert(ids.take(i + 1).last() == layer@[i as int]);
                }
                numbering.insert(l + 1, i + 1, layer[i]);
                numbering.note(layer[i]);
                i += 1;
            }
            proof {
                assert(ids.take(layer@.len() as int) =~= ids);
            }
        } else {
            proof {
                assert(layers.take(1).len() == 1);
            }
        }
        l += 1;
    }
    proof {
        assert(layers.take(neurons@.len() as int) =~= layers);
    }
}

/// The numbering that a pass over `population` starts from.
pub fn survey(population: &Vec<FlexIndividual>) -> (numbering: NeuronNumbering)
    requires
        forall|i: int| 0 <= i < population@.len() ==> layered((#[trigger] population@[i]).genes()),
    ensures
        numbering@ == surveyed(genomes(population@)),
{
    let ghost all = genomes(population@);
    let mut numbering = NeuronNumbering::new();
    let mut i: usize = 0;
    proof {
        assert(all.take(0) =~= Seq::<Seq<Gene>>::empty());
    }
    while i < population.len()
        invariant
            i <= population@.len(),
            all == genomes(population@),
            forall|k: int| 0 <= k < population@.len() ==> layered((#[trigger] population@[k]).genes()),
            numbering@ == surveyed(all.take(i as int)),
        decreases population@.len() - i,
    {
        proof {
            assert(all.take(i + 1).drop_last() =~= all.take(i as int));
            assert(all.take(i + 1).last() == population@[i as int].genes());
        }
        let (_, neurons) = population[i].chromosome().decode();
        note_layers(&mut numbering, &neurons);
        i += 1;
    }
    proof {
        assert(all.take(population@.len() as int) =~= all);
    }
    numbering
}

/// How many weights `count` new neurons need that each have a bias and
/// receive from `senders` neurons, where the number can be held.
pub fn count_weights(count: usize, senders: usize) -> (needed: Option<usize>)
    ensures
        match needed {
            Some(n) => n == weights_for(count as nat, senders as nat),
            None => weights_for(count as nat, senders as nat) > usize::MAX,
        },
{
    let mut total: usize = 0;
    let mut i: usize = 0;
    while i < count
        invariant
            i <= count,
            total == weights_for(i as nat, senders as nat),
        decreases count - i,
    {
        proof {
            lemma_weights_for_grows((i + 1) as nat, count as nat, senders as nat);
        }
        if senders == usize::MAX || total > usize::MAX - (senders + 1) {
            return None;
        }
        total = total + senders + 1;
        i += 1;
    }
    Some(total)
}

/// How many weights `add_neuron` needs for the layer numbered `layer`: one
/// for each neuron of the next layer where the genome grows, none where the
/// layer has no neuron or holds the new neuron's id already.
pub fn grow_weights(chromosome: &Chromosome, numbering: &NeuronNumbering, layer: usize) -> (needed: usize)
    requires
        layered(chromosome@),
        2 <= layer < depth(chromosome@),
        numbering@.max_id < usize::MAX,
    ensures
        needed == growth_weights(decoded(chromosome@), numbering@, layer),
{
    let (_, neurons) = chromosome.decode();
    proof {
        assert(layers_view(neurons)[layer as int] == neurons@[layer as int]@);
        assert(layers_view(neurons)[layer - 1] == neurons@[layer - 1]@);
    }
    let size = neurons[layer - 1].len();
    if size == 0 || size == usize::MAX {
        return 0;
    }
    let id = match numbering.get(layer, size + 1) {
        Some(id) => id,
        None => numbering.max_id() + 1,
    };
    if crate::chromosome::holds(&neurons[layer - 1], id) {
        0
    } else {
        neurons[layer].len()
    }
}

/// How many weights `add_layer` needs, where the number can be held: none
/// for an empty genome.
pub fn append_weights_needed(chromosome: &Chromosome) -> (needed: Option<usize>)
    requires
        layered(chromosome@),
    ensures
        match needed {
            Some(n) => n == if depth(chromosome@) > 0 {
                append_weights(decoded(chromosome@))
            } else {
                0
            },
            None => depth(chromosome@) > 0 && append_weights(decoded(chromosome@)) > usize::MAX,
        },
{
    let (_, neurons) = chromosome.decode();
    let layer_count = neurons.len();
    if layer_count == 0 {
        return Some(0);
    }
    proof {
        assert(layers_view(neurons).last() == neurons@[layer_count - 1]@);
    }
    let size = neurons[layer_count - 1].len();
    count_weights(size, size)
}

/// How many weights `remove_layer` needs, where the number can be held: none
/// for a genome of fewer than four layers.
pub fn collapse_weights_needed(chromosome: &Chromosome) -> (needed: Option<usize>)
    requires
        layered(chromosome@),
    ensures
        match needed {
            Some(n) => n == if depth(chromosome@) >= 4 {
                collapse_weights(decoded(chromosome@), given_up(chromosome@))
            } else {
                0
            },
            None => depth(chromosome@) >= 4 && collapse_weights(
                decoded(chromosome@),
                given_up(chromosome@),
            ) > usize::MAX,
        },
{
    let (_, neurons) = chromosome.decode();
    let layer_count = neurons.len();
    if layer_count < 4 {
        return Some(0);
    }
    let ghost layers = layers_view(neurons);
    let from = slimmest_layer(&neurons);
    let mut total: usize = 0;
    let mut place: usize = from;
    while place < layer_count - 1
        invariant
            1 <= from <= place <= layer_count - 1,
            layer_count == neurons@.len(),
            layers == layers_view(neurons),
            layers == layering(chromosome@),
            layer_count == depth(chromosome@),
            layer_count >= 4,
            from == slimmest(layers, layer_count - 1),
            total == rebuild_weights(layers, from as int, place as int),
        decreases layer_count - place,
    {
        proof {
            assert(layers[place + 1] == neurons@[place + 1]@);
            assert(layers[place as int] == neurons@[place as int]@);
            assert(layers[place - 1] == neurons@[place - 1]@);
            lemma_rebuild_weights_grow(layers, from as int, place + 1, layer_count - 1);
            lemma_rebuild_weights_grow(layers, from as int, from as int, place as int);
            let width = if place == from {
                layers[place - 1].len()
            } else {
                layers[place as int].len()
            };
            assert(rebuild_weights(layers, from as int, place + 1) == rebuild_weights(
                layers,
                from as int,
                place as int,
            ) + weights_for(layers[place + 1].len(), width));
        }
        let senders = if place == from {
            neurons[place - 1].len()
        } else {
            neurons[place].len()
        };
        let step = match count_weights(neurons[place + 1].len(), senders) {
            Some(n) => n,
            None => {
                return None;
            },
        };
        if total > usize::MAX - step {
            return None;
        }
        total = total + step;
        place += 1;
    }
    Some(total)
}

/// The bit pattern of the weight of an input that is switched on: one.
pub const INPUT_ON: u32 = 0x3F80_0000;

/// The bit pattern of the weight of an input that is switched off: zero.
pub const INPUT_OFF: u32 = 0;

/// Out of how many mutated genomes `GROWTH_ODDS` grow rather than shrink.
pub const GROWTH_OUT_OF: u32 = 10;

/// How many of `GROWTH_OUT_OF` mutated genomes grow rather than shrink.
pub const GROWTH_ODDS: u32 = 7;

/// Whether a bit pattern is that of a number from zero to one, as a
/// probability must be: a pattern up to that of one, or that of minus zero.
pub open spec fn is_chance(bits: u32) -> bool {
    bits <= 0x3F80_0000 || bits == 0x8000_0000
}

/// Whether a bit pattern is that of a number from zero to one.
pub fn chance_is_valid(bits: u32) -> (valid: bool)
    ensures
        valid == is_chance(bits),
{
    bits <= 0x3F80_0000 || bits == 0x8000_0000
}

/// What a pass does to the neurons of one genome.
#[derive(Clone, Copy, Debug, PartialEq, Eq)]
pub enum NeuronEdit {
    /// Nothing.
    Skip,
    /// A neuron is added to the layer.
    Grow { layer: usize },
    /// A neuron is removed from the layer.
    Shrink { layer: usize },
}

/// What a pass does to the layers of one genome.
#[derive(Clone, Copy, Debug, PartialEq, Eq)]
pub enum LayerEdit {
    /// Nothing.
    Skip,
    /// A layer is appended.
    Append,
    /// A layer is given up.
    Collapse,
}

/// Whether a pass edits the neurons of a member: it is mutated with force
/// two, it replaced another in this generation, and it has a layer between
/// the first and the last.
pub open spec fn edits_neurons(individual: FlexIndividual) -> bool {
    individual.force() == 2 && individual.replaced() && depth(individual.genes()) >= 3
}

/// Whether a pass edits the layers of a member: it is mutated with force
/// three and it replaced another in this generation.
pub open spec fn edits_layers(individual: FlexIndividual) -> bool {
    individual.force() == 3 && individual.replaced()
}

/// The edit of the neurons of a member for a drawn layer and a drawn
/// direction.
pub open spec fn neuron_edit_for(individual: FlexIndividual, layer: usize, grow: bool) -> NeuronEdit {
    if edits_neurons(individual) && 2 <= layer < depth(individual.genes()) {
        if grow {
            NeuronEdit::Grow { layer }
        } else {
            NeuronEdit::Shrink { layer }
        }
    } else {
        NeuronEdit::Skip
    }
}

/// The edit of the layers of a member for a drawn direction: a genome
/// without a layer does not grow, one of fewer than four layers does not
/// shrink.
pub open spec fn layer_edit_for(individual: FlexIndividual, grow: bool) -> LayerEdit {
    if !edits_layers(individual) {
        LayerEdit::Skip
    } else if grow {
        if depth(individual.genes()) >= 1 {
            LayerEdit::Append
        } else {
            LayerEdit::Skip
        }
    } else if depth(individual.genes()) >= 4 {
        LayerEdit::Collapse
    } else {
        LayerEdit::Skip
    }
}

/// A gene once the input `eye` was switched: a gene of the first layer that
/// `eye` receives gets the weight of an input that is on or off, any other
/// gene stays.
pub open spec fn switched(gene: Gene, eye: usize, on: bool) -> Gene {
    if gene.1 == 1 && gene.2 == eye {
        (
            if on {
                INPUT_ON
            } else {
                INPUT_OFF
            },
            gene.1,
            gene.2,
            gene.3,
        )
    } else {
        gene
    }
}

/// Whether `after` is `before` with the input `eye` switched, gene by gene
/// on or off.
pub open spec fn is_switched(before: Seq<Gene>, after: Seq<Gene>, eye: usize) -> bool {
    &&& after.len() == before.len()
    &&& forall|i: int|
        0 <= i < before.len() ==> #[trigger] after[i] == switched(before[i], eye, true) || after[i]
            == switched(before[i], eye, false)
}

/// A gene once the input `eye` was switched on or off.
pub fn switch_gene(gene: Gene, eye: usize, on: bool) -> (result: Gene)
    ensures
        result == switched(gene, eye, on),
{
    if gene.1 == 1 && gene.2 == eye {
        (
            if on {
                INPUT_ON
            } else {
                INPUT_OFF
            },
            gene.1,
            gene.2,
            gene.3,
        )
    } else {
        gene
    }
}

/// The edit of the neurons of a member for a drawn layer and a drawn
/// direction.
pub fn decide_neuron_edit(individual: &FlexIndividual, layer: usize, grow: bool) -> (edit: NeuronEdit)
    ensures
        edit == neuron_edit_for(*individual, layer, grow),
{
    if individual.mut_force() == 2 && individual.changed() && layer >= 2
        && layer < individual.chromosome().layers() {
        if grow {
            NeuronEdit::Grow { layer }
        } else {
            NeuronEdit::Shrink { layer }
        }
    } else {
        NeuronEdit::Skip
    }
}

/// The edit of the layers of a member for a drawn direction.
pub fn decide_layer_edit(individual: &FlexIndividual, grow: bool) -> (edit: LayerEdit)
    ensures
        edit == layer_edit_for(*individual, grow),
{
    if !(individual.mut_force() == 3 && individual.changed()) {
        return LayerEdit::Skip;
    }
    let layer_count = individual.chromosome().layers();
    if grow {
        if layer_count >= 1 {
            LayerEdit::Append
        } else {
            LayerEdit::Skip
        }
    } else if layer_count >= 4 {
        LayerEdit::Collapse
    } else {
        LayerEdit::Skip
    }
}

/// Mutation of weights and topology over a whole population.
#[derive(Clone, Debug)]
pub struct Flex1Mutation {
    chance: u32,
    coeff: u32,
    eye_cells: usize,
}

impl Flex1Mutation {
    /// The bit pattern of the probability with which a weight changes.
    pub closed spec fn chance_bits(&self) -> u32 {
        self.chance
    }

    /// The bit pattern of the greatest change of a weight.
    pub closed spec fn coeff_bits(&self) -> u32 {
        self.coeff
    }

    /// The number of segments of sight; twice as many inputs can be switched.
    pub closed spec fn eyes(&self) -> usize {
        self.eye_cells
    }

    /// A mutation that changes a weight with the probability whose bit
    /// pattern is `chance`, by `coeff` at most, over `eye_cells` segments of
    /// sight.
    pub fn new(chance: u32, coeff: u32, eye_cells: usize) -> (made: Self)
        requires
            is_chance(chance),
        ensures
            made.chance_bits() == chance,
            made.coeff_bits() == coeff,
            made.eyes() == eye_cells,
    {
        Self { chance, coeff, eye_cells }
    }

    pub fn chance(&self) -> (chance: u32)
        ensures
            chance == self.chance_bits(),
    {
        self.chance
    }

    pub fn coeff(&self) -> (coeff: u32)
        ensures
            coeff == self.coeff_bits(),
    {
        self.coeff
    }

    pub fn eye_cells(&self) -> (eye_cells: usize)
        ensures
            eye_cells == self.eyes(),
    {
        self.eye_cells
    }

    /// Whether the weight of a gene of `individual` is open to change: the
    /// member is mutated at all, and the gene lies beyond the first layer,
    /// whose weights switch the inputs.
    pub fn perturbs(&self, individual: &FlexIndividual, gene: Gene) -> (open: bool)
        ensures
            open == (gene.1 > 1 && individual.force() > 0),
    {
        gene.1 > 1 && individual.mut_force() > 0
    }

    /// Draws what a pass does to the neurons of a member: for a member whose
    /// neurons are edited, a layer between the first and the last, and with
    /// seven chances in ten a neuron more rather than one less.
    pub fn plan_neuron_edit(&self, rng: &mut rand_chacha::ChaCha8Rng, individual: &FlexIndividual) -> (edit:
        NeuronEdit)
        ensures
            !edits_neurons(*individual) ==> edit == NeuronEdit::Skip,
            edits_neurons(*individual) ==> exists|layer: usize, grow: bool|
                2 <= layer < depth(individual.genes()) && edit == #[trigger] neuron_edit_for(
                    *individual,
                    layer,
                    grow,
                ),
    {
        if !(individual.mut_force() == 2 && individual.changed()) {
            return NeuronEdit::Skip;
        }
        let layer_count = individual.chromosome().layers();
        if layer_count < 3 {
            return NeuronEdit::Skip;
        }
        let layer = draw_within(rng, 2, layer_count - 1);
        let grow = draw_ratio(rng, GROWTH_ODDS, GROWTH_OUT_OF);
        decide_neuron_edit(individual, layer, grow)
    }

    /// Draws what a pass does to the layers of a member: for a member whose
    /// layers are edited, with seven chances in ten a layer more rather than
    /// one less.
    pub fn plan_layer_edit(&self, rng: &mut rand_chacha::ChaCha8Rng, individual: &FlexIndividual) -> (edit:
        LayerEdit)
        ensures
            !edits_layers(*individual) ==> edit == LayerEdit::Skip,
            edits_layers(*individual) ==> exists|grow: bool|
                edit == #[trigger] layer_edit_for(*individual, grow),
    {
        if !(individual.mut_force() == 3 && individual.changed()) {
            return LayerEdit::Skip;
        }
        let grow = draw_ratio(rng, GROWTH_ODDS, GROWTH_OUT_OF);
        decide_layer_edit(individual, grow)
    }

    /// Switches an input of every member that is open to it, member by
    /// member as `toggle_input` does.
    pub fn toggle_inputs(
        &self,
        rng: &mut rand_chacha::ChaCha8Rng,
        population: &mut Vec<FlexIndividual>,
        numerator: u32,
        denominator: u32,
    )
        requires
            numerator <= denominator,
            denominator > 0,
        ensures
            final(population)@.len() == old(population)@.len(),
            forall|i: int|
                0 <= i < old(population)@.len() ==> self.toggled(
                    old(population)@[i],
                    #[trigger] final(population)@[i],
                    numerator,
                    denominator,
                ),
    {
        let count = population.len();
        let mut i: usize = 0;
        while i < count
            invariant
                i <= count,
                count == population@.len(),
                population@.len() == old(population)@.len(),
                numerator <= denominator,
                denominator > 0,
                forall|k: int|
                    0 <= k < i ==> self.toggled(
                        old(population)@[k],
                        #[trigger] population@[k],
                        numerator,
                        denominator,
                    ),
                forall|k: int| i <= k < count ==> #[trigger] population@[k] == old(population)@[k],
            decreases count - i,
        {
            self.toggle_input(rng, &mut population[i], numerator, denominator);
            i += 1;
        }
    }

    /// Switches one input of a member on or off. With `numerator` chances in
    /// `denominator`, a member that is mutated with force two and replaced
    /// another has one of its inputs drawn, and every gene of the first
    /// layer that this input receives gets the weight of an input that is on
    /// or off, as a coin decides for each.
    pub fn toggle_input(
        &self,
        rng: &mut rand_chacha::ChaCha8Rng,
        individual: &mut FlexIndividual,
        numerator: u32,
        denominator: u32,
    )
        requires
            numerator <= denominator,
            denominator > 0,
        ensures
            self.toggled(*old(individual), *final(individual), numerator, denominator),
    {
        if !(individual.mut_force() == 2 && individual.changed()) {
            return ;
        }
        if !draw_ratio(rng, numerator, denominator) {
            return ;
        }
        if self.eye_cells == 0 || self.eye_cells > usize::MAX / 2 {
            return ;
        }
        let eye = draw_within(rng, 1, self.eye_cells * 2);
        let ghost before = individual.genes();
        let count = individual.chromosome().len();
        let mut i: usize = 0;
        while i < count
            invariant
                i <= count,
                count == before.len(),
                individual.genes().len() == before.len(),
                individual.life() == old(individual).life(),
                individual.replaced() == old(individual).replaced(),
                individual.force() == old(individual).force(),
                individual.measured() == old(individual).measured(),
                forall|k: int|
                    0 <= k < i ==> #[trigger] individual.genes()[k] == switched(before[k], eye, true)
                        || individual.genes()[k] == switched(before[k], eye, false),
                forall|k: int| i <= k < count ==> #[trigger] individual.genes()[k] == before[k],
            decreases count - i,
        {
            let gene = individual.chromosome()[i];
            if gene.1 == 1 && gene.2 == eye {
                let on = draw_ratio(rng, 1, 2);
                let next = switch_gene(gene, eye, on);
                individual.chromosome_mut().set_weight(i, next.0);
            }
            i += 1;
        }
        proof {
            assert(is_switched(before, individual.genes(), eye));
        }
    }

    /// Whether a member has an input to switch: it is mutated with force
    /// two, it replaced another, and there is a segment of sight whose
    /// inputs can be counted.
    pub open spec fn switches(&self, individual: FlexIndividual) -> bool {
        individual.force() == 2 && individual.replaced() && 1 <= self.eyes() && 2 * self.eyes()
            <= usize::MAX
    }

    /// What switching an input with `numerator` chances in `denominator`
    /// leaves of a member: its state, and its genes as they were or with one
    /// input switched. The genes stay as they were where the member has no
    /// input to switch or no chance; an input is switched where the member
    /// has one and the chance is certain.
    pub open spec fn toggled(
        &self,
        before: FlexIndividual,
        after: FlexIndividual,
        numerator: u32,
        denominator: u32,
    ) -> bool {
        &&& after.life() == before.life()
        &&& after.replaced() == before.replaced()
        &&& after.force() == before.force()
        &&& after.measured() == before.measured()
        &&& (after.genes() == before.genes() || exists|eye: usize|
            1 <= eye <= 2 * self.eyes() && is_switched(before.genes(), after.genes(), eye))
        &&& (!self.switches(before) || numerator == 0) ==> after.genes() == before.genes()
        &&& (self.switches(before) && numerator == denominator) ==> exists|eye: usize|
            1 <= eye <= 2 * self.eyes() && is_switched(before.genes(), after.genes(), eye)
    }
}

/// Whether an edit of the neurons fits a genome: it names a layer between
/// the first and the last.
pub open spec fn neuron_edit_fits(genes: Seq<Gene>, edit: NeuronEdit) -> bool {
    match edit {
        NeuronEdit::Skip => true,
        NeuronEdit::Grow { layer } => 2 <= layer < depth(genes),
        NeuronEdit::Shrink { layer } => 2 <= layer < depth(genes),
    }
}

/// How many weights an edit of the neurons needs under a numbering.
pub open spec fn neuron_edit_needs(genes: Seq<Gene>, numbering: NumberingView, edit: NeuronEdit) -> nat {
    match edit {
        NeuronEdit::Grow { layer } => growth_weights(decoded(genes), numbering, layer),
        _ => 0,
    }
}

/// The genome after an edit of its neurons.
pub open spec fn neurons_edited(
    genes: Seq<Gene>,
    numbering: NumberingView,
    edit: NeuronEdit,
    fresh: Seq<u32>,
) -> Seq<Gene> {
    match edit {
        NeuronEdit::Skip => genes,
        NeuronEdit::Grow { layer } => if grows(decoded(genes), numbering, layer) {
            written(grown(decoded(genes), numbering, layer, fresh))
        } else {
            genes
        },
        NeuronEdit::Shrink { layer } => if shrinks(decoded(genes), layer) && !shared_with_next(
            decoded(genes),
            layer,
        ) {
            written(shrunk(decoded(genes), layer))
        } else {
            genes
        },
    }
}

/// The numbering after an edit of the neurons of a genome.
pub open spec fn numbered_by_neuron_edit(
    genes: Seq<Gene>,
    numbering: NumberingView,
    edit: NeuronEdit,
) -> NumberingView {
    match edit {
        NeuronEdit::Grow { layer } => numbered_by_growth(decoded(genes), numbering, layer),
        _ => numbering,
    }
}

/// How many weights an edit of the neurons of a member needs.
pub fn neuron_edit_weights(individual: &FlexIndividual, numbering: &NeuronNumbering, edit: NeuronEdit) -> (needed:
    usize)
    requires
        layered(individual.genes()),
        neuron_edit_fits(individual.genes(), edit),
        edit is Grow ==> numbering@.max_id < usize::MAX,
    ensures
        needed == neuron_edit_needs(individual.genes(), numbering@, edit),
{
    match edit {
        NeuronEdit::Grow { layer } => grow_weights(individual.chromosome(), numbering, layer),
        _ => 0,
    }
}

/// Edits the neurons of a member as planned, with the weights of `fresh` for
/// the new connections. Reports a neuron that is to be removed and also
/// stands in the next layer; the member then stays as it is.
pub fn apply_neuron_edit(
    individual: &mut FlexIndividual,
    numbering: &mut NeuronNumbering,
    edit: NeuronEdit,
    fresh: &Vec<u32>,
) -> (done: Result<(), ModelFault>)
    requires
        layered(old(individual).genes()),
        neuron_edit_fits(old(individual).genes(), edit),
        fresh@.len() == neuron_edit_needs(old(individual).genes(), old(numbering)@, edit),
        edit is Grow ==> old(numbering)@.max_id < usize::MAX,
    ensures
        done is Err <==> match edit {
            NeuronEdit::Shrink { layer } => shrinks(decoded(old(individual).genes()), layer)
                && shared_with_next(decoded(old(individual).genes()), layer),
            _ => false,
        },
        final(individual).genes() == neurons_edited(
            old(individual).genes(),
            old(numbering)@,
            edit,
            fresh@,
        ),
        final(numbering)@ == numbered_by_neuron_edit(old(individual).genes(), old(numbering)@, edit),
        layered(final(individual).genes()),
        final(individual).life() == old(individual).life(),
        final(individual).replaced() == old(individual).replaced(),
        final(individual).force() == old(individual).force(),
        final(individual).measured() == old(individual).measured(),
{
    match edit {
        NeuronEdit::Skip => Ok(()),
        NeuronEdit::Grow { layer } => {
            add_neuron(individual.chromosome_mut(), numbering, layer, fresh);
            Ok(())
        },
        NeuronEdit::Shrink { layer } => {
            match remove_neuron(individual.chromosome_mut(), layer) {
                Ok(_) => Ok(()),
                Err(fault) => Err(fault),
            }
        },
    }
}

/// Whether the numbering has ids left for an edit of the layers that needs
/// `needed` weights: every new neuron takes a weight at least.
pub open spec fn ids_suffice(numbering: NumberingView, needed: nat) -> bool {
    numbering.max_id + needed <= usize::MAX
}

/// How many weights an edit of the layers needs.
pub open spec fn layer_edit_needs(genes: Seq<Gene>, edit: LayerEdit) -> int {
    match edit {
        LayerEdit::Skip => 0,
        LayerEdit::Append => if depth(genes) >= 1 {
            append_weights(decoded(genes))
        } else {
            0
        },
        LayerEdit::Collapse => if depth(genes) >= 4 {
            collapse_weights(decoded(genes), given_up(genes))
        } else {
            0
        },
    }
}

/// The genome after an edit of its layers.
pub open spec fn layers_edited(
    genes: Seq<Gene>,
    numbering: NumberingView,
    edit: LayerEdit,
    fresh: Seq<u32>,
) -> Seq<Gene> {
    match edit {
        LayerEdit::Skip => genes,
        LayerEdit::Append => if can_append(decoded(genes)) {
            written(appended(decoded(genes), numbering, fresh))
        } else {
            genes
        },
        LayerEdit::Collapse => if depth(genes) >= 4 {
            written(collapsed(decoded(genes), numbering, fresh, given_up(genes)))
        } else {
            genes
        },
    }
}

/// The numbering after an edit of the layers of a genome.
pub open spec fn numbered_by_layer_edit(
    genes: Seq<Gene>,
    numbering: NumberingView,
    edit: LayerEdit,
    fresh: Seq<u32>,
) -> NumberingView {
    match edit {
        LayerEdit::Skip => numbering,
        LayerEdit::Append => if can_append(decoded(genes)) {
            append_built(decoded(genes), numbering, fresh).numbering
        } else {
            numbering
        },
        LayerEdit::Collapse => if depth(genes) >= 4 {
            rebuilt(decoded(genes), numbering, fresh, given_up(genes) - 1, depth(genes) - 1).numbering
        } else {
            numbering
        },
    }
}

/// How many weights an edit of the layers of a member needs, where the
/// number can be held.
pub fn layer_edit_weights(individual: &FlexIndividual, edit: LayerEdit) -> (needed: Option<usize>)
    requires
        layered(individual.genes()),
    ensures
        match needed {
            Some(n) => n == layer_edit_needs(individual.genes(), edit),
            None => layer_edit_needs(individual.genes(), edit) > usize::MAX,
        },
{
    match edit {
        LayerEdit::Skip => Some(0),
        LayerEdit::Append => append_weights_needed(individual.chromosome()),
        LayerEdit::Collapse => collapse_weights_needed(individual.chromosome()),
    }
}

/// Edits the layers of a member as planned, with the weights of `fresh` for
/// the new connections.
pub fn apply_layer_edit(
    individual: &mut FlexIndividual,
    numbering: &mut NeuronNumbering,
    edit: LayerEdit,
    fresh: &Vec<u32>,
)
    requires
        layered(old(individual).genes()),
        fresh@.len() == layer_edit_needs(old(individual).genes(), edit),
        ids_suffice(old(numbering)@, fresh@.len()),
    ensures
        final(individual).genes() == layers_edited(
            old(individual).genes(),
            old(numbering)@,
            edit,
            fresh@,
        ),
        final(numbering)@ == numbered_by_layer_edit(
            old(individual).genes(),
            old(numbering)@,
            edit,
            fresh@,
        ),
        layered(final(individual).genes()),
        final(individual).life() == old(individual).life(),
        final(individual).replaced() == old(individual).replaced(),
        final(individual).force() == old(individual).force(),
        final(individual).measured() == old(individual).measured(),
{
    match edit {
        LayerEdit::Skip => {},
        LayerEdit::Append => {
            proof {
                let net = decoded(individual.genes());
                crate::canon::lemma_layering_exists(individual.genes());
                if can_append(net) {
                    crate::network::lemma_count_within_weights(
                        net.layers.last().len(),
                        net.layers.last().len(),
                    );
                }
            }
            add_layer(individual.chromosome_mut(), numbering, fresh);
        },
        LayerEdit::Collapse => {
            remove_layer(individual.chromosome_mut(), numbering, fresh);
        },
    }
}

} // verus!
