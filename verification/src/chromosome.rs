//! The genome and its reading as a layered network.

use vstd::prelude::*;
use vstd::relations::{sorted_by, total_ordering};
use std::collections::HashMap;

verus! {

/// One connection: the weight's bit pattern, the layer, the neuron that
/// receives and the neuron that sends. A sender of zero marks the bias of the
/// receiving neuron.
pub type Gene = (u32, usize, usize, usize);

/// What a neuron receives: the sender (zero for the bias) and the weight's
/// bit pattern.
pub type Link = (usize, u32);

/// The identity by which two genomes are aligned: layer, receiver, sender.
pub open spec fn gene_key(g: Gene) -> (usize, usize, usize) {
    (g.1, g.2, g.3)
}

/// Whether no two genes of a genome have the same key.
pub open spec fn unique_keys(genes: Seq<Gene>) -> bool {
    forall|i: int, j: int|
        0 <= i < j < genes.len() ==> gene_key(#[trigger] genes[i]) != gene_key(#[trigger] genes[j])
}

/// An ordered list of genes.
#[derive(Clone, Debug)]
pub struct Chromosome {
    genes: Vec<Gene>,
}

impl View for Chromosome {
    type V = Seq<Gene>;

    closed spec fn view(&self) -> Seq<Gene> {
        self.genes@
    }
}

impl Chromosome {
    pub fn new(genes: Vec<Gene>) -> (c: Self)
        ensures
            c@ == genes@,
    {
        Self { genes }
    }

    pub fn len(&self) -> (n: usize)
        ensures
            n == self@.len(),
    {
        self.genes.len()
    }

    pub fn is_empty(&self) -> (b: bool)
        ensures
            b == (self@.len() == 0),
    {
        self.len() == 0
    }

    /// The genes in order.
    pub fn iter(&self) -> (genes: Vec<Gene>)
        ensures
            genes@ == self@,
    {
        let mut genes: Vec<Gene> = Vec::new();
        let mut i: usize = 0;
        while i < self.genes.len()
            invariant
                i <= self.genes.len(),
                genes@ == self.genes@.take(i as int),
            decreases self.genes.len() - i,
        {
            genes.push(self.genes[i]);
            i += 1;
        }
        genes
    }

    /// The genes, open to change in place.
    pub fn iter_mut(&mut self) -> (genes: &mut Vec<Gene>)
        ensures
            genes@ == old(self)@,
            final(self)@ == final(genes)@,
    {
        &mut self.genes
    }
}

impl vstd::std_specs::core::IndexSpecImpl<usize> for Chromosome {
    open spec fn index_req(&self, index: &usize) -> bool {
        *index < self@.len()
    }
}

impl std::ops::Index<usize> for Chromosome {
    type Output = Gene;

    /// The gene at `index`, which must lie within the genome.
    fn index(&self, index: usize) -> (gene: &Gene)
        ensures
            *gene == self@[index as int],
    {
        &self.genes[index]
    }
}

impl std::iter::FromIterator<Gene> for Chromosome {
    /// The genome of the genes that an iterator yields.
    ///
    /// Calls `collect` of std's iterators, which gathers the items in the
    /// order in which they come. Nothing is claimed of the result here: an
    /// iterator of any kind has no model to state it over.
    #[verifier::external_body]
    fn from_iter<T: IntoIterator<Item = Gene>>(iter: T) -> (c: Self) {
        Self { genes: iter.into_iter().collect() }
    }
}

/// The links that a genome records for the neuron `n`: one for each gene that
/// `n` receives, in the genome's order.
pub open spec fn links_of(genes: Seq<Gene>, n: usize) -> Seq<Link>
    decreases genes.len(),
{
    if genes.len() == 0 {
        Seq::empty()
    } else {
        let rest = links_of(genes.drop_last(), n);
        let g = genes.last();
        if g.2 == n {
            rest.push((g.3, g.0))
        } else {
            rest
        }
    }
}

/// Whether some gene of the genome has `n` as its receiver.
pub open spec fn receives(genes: Seq<Gene>, n: usize) -> bool {
    exists|i: int| 0 <= i < genes.len() && (#[trigger] genes[i]).2 == n
}

/// Whether some gene of the genome places the receiver `n` in `layer`.
pub open spec fn placed(genes: Seq<Gene>, layer: int, n: usize) -> bool {
    exists|i: int| 0 <= i < genes.len() && (#[trigger] genes[i]).1 == layer && genes[i].2 == n
}

/// The highest layer that a gene of the genome names, zero for none.
pub open spec fn depth(genes: Seq<Gene>) -> int
    decreases genes.len(),
{
    if genes.len() == 0 {
        0
    } else {
        let rest = depth(genes.drop_last());
        if genes.last().1 > rest {
            genes.last().1 as int
        } else {
            rest
        }
    }
}

/// The link lists of a decoded genome, by receiving neuron.
pub open spec fn decoded_links(genes: Seq<Gene>) -> Map<usize, Seq<Link>> {
    Map::new(|n: usize| receives(genes, n), |n: usize| links_of(genes, n))
}

/// Ids in strictly ascending order.
pub open spec fn ascending(ids: Seq<usize>) -> bool {
    forall|i: int, j: int| 0 <= i < j < ids.len() ==> ids[i] < ids[j]
}

/// Ids in ascending order, equal ids allowed.
pub open spec fn ordered(ids: Seq<usize>) -> bool {
    forall|i: int, j: int| 0 <= i <= j < ids.len() ==> ids[i] <= ids[j]
}

/// Whether `layers` is the layering of the genome: one list for each layer up
/// to the deepest, each holding in ascending order, and once, the receivers
/// that the genome places there.
pub open spec fn is_layering(layers: Seq<Seq<usize>>, genes: Seq<Gene>) -> bool {
    &&& layers.len() == depth(genes)
    &&& forall|l: int| 0 <= l < layers.len() ==> ascending(#[trigger] layers[l])
    &&& forall|l: int, n: usize|
        0 <= l < layers.len() ==> (#[trigger] layers[l].contains(n) <==> placed(genes, l + 1, n))
}

/// The link lists held by a map, as sequences.
pub open spec fn links_view(links: HashMap<usize, Vec<Link>>) -> Map<usize, Seq<Link>> {
    links@.map_values(|v: Vec<Link>| v@)
}

/// The layers held by a vector, as sequences.
pub open spec fn layers_view(layers: Vec<Vec<usize>>) -> Seq<Seq<usize>> {
    layers@.map_values(|v: Vec<usize>| v@)
}

/// Sorts ids in ascending order.
///
/// Calls `sort` of std's slices, which reorders the items so that each is at
/// most the next and neither adds nor drops any.
#[verifier::external_body]
pub(crate) fn sort_ids(ids: &mut Vec<usize>)
    ensures
        ordered(final(ids)@),
        final(ids)@.to_multiset() == old(ids)@.to_multiset(),
{
    ids.sort()
}

/// Whether `n` is one of `ids`.
pub(crate) fn holds(ids: &Vec<usize>, n: usize) -> (found: bool)
    ensures
        found == ids@.contains(n),
{
    let mut i: usize = 0;
    while i < ids.len()
        invariant
            i <= ids.len(),
            !ids@.take(i as int).contains(n),
        decreases ids.len() - i,
    {
        if ids[i] == n {
            return true;
        }
        proof {
            let before = ids@.take(i as int);
            let after = ids@.take(i + 1);
            assert forall|k: int| 0 <= k < after.len() implies after[k] != n by {
                if k < i {
                    assert(before[k] == after[k]);
                    assert(before.contains(before[k]));
                }
            }
        }
        i += 1;
    }
    proof {
        assert(ids@.take(ids.len() as int) =~= ids@);
    }
    false
}

/// A copy of a link list.
pub(crate) fn copy_links(links: &Vec<Link>) -> (copy: Vec<Link>)
    ensures
        copy@ == links@,
{
    let mut copy: Vec<Link> = Vec::new();
    let mut i: usize = 0;
    while i < links.len()
        invariant
            i <= links.len(),
            copy@ == links@.take(i as int),
        decreases links.len() - i,
    {
        copy.push(links[i]);
        i += 1;
    }
    proof {
        assert(links@.take(links.len() as int) =~= links@);
    }
    copy
}

/// Adding a gene adds its receiver to those that receive.
pub(crate) proof fn lemma_receives_push(genes: Seq<Gene>, g: Gene, n: usize)
    ensures
        receives(genes.push(g), n) <==> (receives(genes, n) || g.2 == n),
{
    let more = genes.push(g);
    if receives(genes, n) {
        let i = choose|i: int| 0 <= i < genes.len() && (#[trigger] genes[i]).2 == n;
        assert(more[i] == genes[i]);
    }
    if g.2 == n {
        assert(more[genes.len() as int] == g);
    }
    if receives(more, n) {
        let i = choose|i: int| 0 <= i < more.len() && (#[trigger] more[i]).2 == n;
        if i < genes.len() {
            assert(more[i] == genes[i]);
        }
    }
}

/// Adding a gene places its receiver in its layer.
pub(crate) proof fn lemma_placed_push(genes: Seq<Gene>, g: Gene, layer: int, n: usize)
    ensures
        placed(genes.push(g), layer, n) <==> (placed(genes, layer, n) || (g.1 == layer && g.2 == n)),
{
    let more = genes.push(g);
    if placed(genes, layer, n) {
        let i = choose|i: int| 0 <= i < genes.len() && (#[trigger] genes[i]).1 == layer && genes[i].2 == n;
        assert(more[i] == genes[i]);
    }
    if g.1 == layer && g.2 == n {
        assert(more[genes.len() as int] == g);
    }
    if placed(more, layer, n) {
        let i = choose|i: int| 0 <= i < more.len() && (#[trigger] more[i]).1 == layer && more[i].2 == n;
        if i < genes.len() {
            assert(more[i] == genes[i]);
        }
    }
}

/// No gene names a layer beyond the genome's depth.
pub(crate) proof fn lemma_depth_bounds(genes: Seq<Gene>, i: int)
    requires
        0 <= i < genes.len(),
    ensures
        genes[i].1 <= depth(genes),
    decreases genes.len(),
{
    if i < genes.len() - 1 {
        lemma_depth_bounds(genes.drop_last(), i);
    }
}

/// Sorting a list without repeats gives a strictly ascending list of the
/// same ids.
pub(crate) proof fn lemma_sorted_distinct(before: Seq<usize>, after: Seq<usize>)
    requires
        before.no_duplicates(),
        ordered(after),
        after.to_multiset() == before.to_multiset(),
    ensures
        ascending(after),
        forall|n: usize| after.contains(n) <==> before.contains(n),
{
    broadcast use vstd::seq_lib::group_to_multiset_ensures;
    before.lemma_multiset_has_no_duplicates();
    after.lemma_multiset_has_no_duplicates_conv();
    assert forall|n: usize| after.contains(n) <==> before.contains(n) by {
        assert(after.contains(n) <==> after.to_multiset().count(n) > 0);
        assert(before.contains(n) <==> before.to_multiset().count(n) > 0);
    }
    assert forall|i: int, j: int| 0 <= i < j < after.len() implies after[i] < after[j] by {
        assert(after[i] <= after[j]);
        assert(after[i] != after[j]);
    }
}

impl Chromosome {
    /// Reads a gene list as a network: the link list of every receiving
    /// neuron, and the neurons of every layer in ascending order.
    ///
    /// Layers count from one, so no gene may name layer zero.
    pub fn from_weights_to_flex_net_view(weights: &Vec<Gene>) -> (view: (
        HashMap<usize, Vec<Link>>,
        Vec<Vec<usize>>,
    ))
        requires
            forall|i: int| 0 <= i < weights@.len() ==> (#[trigger] weights@[i]).1 >= 1,
        ensures
            links_view(view.0) == decoded_links(weights@),
            is_layering(layers_view(view.1), weights@),
            layers_view(view.1) == layering(weights@),
    {
        broadcast use vstd::std_specs::hash::group_hash_axioms;
        let mut inp_links: HashMap<usize, Vec<Link>> = HashMap::new();
        let mut neurons: Vec<Vec<usize>> = Vec::new();
        proof {
            assert(weights@.take(0) =~= Seq::<Gene>::empty());
            assert(links_view(inp_links) =~= decoded_links(weights@.take(0)));
        }
        let mut i: usize = 0;
        while i < weights.len()
            invariant
                i <= weights.len(),
                forall|k: int| 0 <= k < weights@.len() ==> (#[trigger] weights@[k]).1 >= 1,
                links_view(inp_links) == decoded_links(weights@.take(i as int)),
                neurons@.len() == depth(weights@.take(i as int)),
                forall|l: int| 0 <= l < neurons@.len() ==> (#[trigger] neurons@[l])@.no_duplicates(),
                forall|l: int, n: usize|
                    0 <= l < neurons@.len() ==> (#[trigger] neurons@[l]@.contains(n) <==> placed(
                        weights@.take(i as int),
                        l + 1,
                        n,
                    )),
            decreases weights.len() - i,
        {
            let (weight, layer_num, neuron_out, neuron_in) = weights[i];
            let ghost before = weights@.take(i as int);
            let ghost after = weights@.take(i + 1);
            let ghost old_links = links_view(inp_links);
            proof {
                assert(after.drop_last() =~= before);
                assert(after =~= before.push(weights@[i as int]));
            }
            let mut links: Vec<Link> = match inp_links.get(&neuron_out) {
                Some(known) => copy_links(known),
                None => Vec::new(),
            };
            proof {
                assert(old_links.contains_key(neuron_out) <==> receives(before, neuron_out));
                if receives(before, neuron_out) {
                    assert(old_links[neuron_out] == links_of(before, neuron_out));
                } else {
                    lemma_links_of_absent(before, neuron_out);
                }
                assert(links@ == links_of(before, neuron_out));
            }
            links.push((neuron_in, weight));
            inp_links.insert(neuron_out, links);
            proof {
                assert forall|n: usize| #[trigger]
                    links_view(inp_links).contains_key(n) <==> decoded_links(after).contains_key(
                        n,
                    ) by {
                    lemma_receives_push(before, weights@[i as int], n);
                    assert(old_links.contains_key(n) <==> receives(before, n));
                }
                assert forall|n: usize| #[trigger]
                    links_view(inp_links).contains_key(n) implies links_view(inp_links)[n]
                    == decoded_links(after)[n] by {
                    if n != neuron_out {
                        assert(old_links.contains_key(n));
                        assert(old_links[n] == links_of(before, n));
                    }
                }
                assert(links_view(inp_links) =~= decoded_links(after));
            }
            while neurons.len() < layer_num
                invariant
                    neurons@.len() >= depth(before),
                    neurons@.len() <= depth(after),
                    depth(after) == if layer_num > depth(before) {
                        layer_num as int
                    } else {
                        depth(before)
                    },
                    forall|l: int| 0 <= l < neurons@.len() ==> (#[trigger] neurons@[l])@.no_duplicates(),
                    forall|l: int, n: usize|
                        0 <= l < neurons@.len() ==> (#[trigger] neurons@[l]@.contains(n) <==> placed(
                            before,
                            l + 1,
                            n,
                        )),
                decreases layer_num - neurons.len(),
            {
                let ghost l_new = neurons@.len() as int;
                neurons.push(Vec::new());
                proof {
                    let lyr = l_new + 1;
                    assert forall|n: usize| !(#[trigger] placed(before, lyr, n)) by {
                        if placed(before, lyr, n) {
                            let k = choose|k: int|
                                0 <= k < before.len() && (#[trigger] before[k]).1 == lyr
                                    && before[k].2 == n;
                            lemma_depth_bounds(before, k);
                        }
                    }
                    assert forall|l: int, n: usize| 0 <= l < neurons@.len() implies (
                    #[trigger] neurons@[l]@.contains(n) <==> placed(before, l + 1, n)) by {
                        if l == l_new {
                            assert(neurons@[l]@ =~= Seq::<usize>::empty());
                        }
                    }
                }
            }
            let ghost prev = neurons@;
            let known = holds(&neurons[layer_num - 1], neuron_out);
            if !known {
                neurons[layer_num - 1].push(neuron_out);
                proof {
                    let grown = neurons@[layer_num - 1]@;
                    let was = prev[layer_num - 1]@;
                    assert(grown == was.push(neuron_out));
                    assert forall|n: usize| grown.contains(n) <==> (was.contains(n) || n
                        == neuron_out) by {
                        if was.contains(n) {
                            let k = choose|k: int| 0 <= k < was.len() && was[k] == n;
                            assert(grown[k] == n);
                        }
                        if n == neuron_out {
                            assert(grown[was.len() as int] == n);
                        }
                    }
                    assert forall|a: int, b: int|
                        0 <= a < grown.len() && 0 <= b < grown.len() && a != b implies grown[a]
                        != grown[b] by {
                        if a < was.len() {
                            assert(was.contains(was[a]));
                        }
                        if b < was.len() {
                            assert(was.contains(was[b]));
                        }
                    }
                }
            }
            proof {
                assert forall|l: int| 0 <= l < neurons@.len() implies (
                #[trigger] neurons@[l])@.no_duplicates() by {
                    if l != layer_num - 1 {
                        assert(neurons@[l] == prev[l]);
                    }
                }
                assert forall|l: int, n: usize| 0 <= l < neurons@.len() implies (
                #[trigger] neurons@[l]@.contains(n) <==> placed(after, l + 1, n)) by {
                    lemma_placed_push(before, weights@[i as int], l + 1, n);
                    assert(prev[l]@.contains(n) <==> placed(before, l + 1, n));
                    if l != layer_num - 1 {
                        assert(neurons@[l] == prev[l]);
                    }
                }
            }
            i += 1;
        }
        proof {
            assert(weights@.take(weights@.len() as int) =~= weights@);
        }
        let mut l: usize = 0;
        while l < neurons.len()
            invariant
                l <= neurons.len(),
                neurons@.len() == depth(weights@),
                forall|k: int| l <= k < neurons@.len() ==> (#[trigger] neurons@[k])@.no_duplicates(),
                forall|k: int| 0 <= k < l ==> ascending((#[trigger] neurons@[k])@),
                forall|k: int, n: usize|
                    0 <= k < neurons@.len() ==> (#[trigger] neurons@[k]@.contains(n) <==> placed(
                        weights@,
                        k + 1,
                        n,
                    )),
            decreases neurons.len() - l,
        {
            let ghost unsorted = neurons@[l as int]@;
            sort_ids(&mut neurons[l]);
            proof {
                lemma_sorted_distinct(unsorted, neurons@[l as int]@);
            }
            l += 1;
        }
        proof {
            let layers = layers_view(neurons);
            assert forall|k: int| 0 <= k < layers.len() implies ascending(#[trigger] layers[k]) by {
                assert(layers[k] == neurons@[k]@);
            }
            assert forall|k: int, n: usize| 0 <= k < layers.len() implies (
            #[trigger] layers[k].contains(n) <==> placed(weights@, k + 1, n)) by {
                assert(layers[k] == neurons@[k]@);
            }
            assert(is_layering(layers, weights@));
            lemma_layering_unique(layers, layering(weights@), weights@);
        }
        (inp_links, neurons)
    }
}

/// A neuron that receives nothing has no links.
pub(crate) proof fn lemma_links_of_absent(genes: Seq<Gene>, n: usize)
    requires
        !receives(genes, n),
    ensures
        links_of(genes, n) == Seq::<Link>::empty(),
    decreases genes.len(),
{
    if genes.len() > 0 {
        let rest = genes.drop_last();
        assert(genes[genes.len() - 1].2 != n);
        assert forall|i: int| 0 <= i < rest.len() implies (#[trigger] rest[i]).2 != n by {
            assert(rest[i] == genes[i]);
        }
        lemma_links_of_absent(rest, n);
    }
}

/// The order of ids.
pub open spec fn at_most() -> spec_fn(usize, usize) -> bool {
    |a: usize, b: usize| a <= b
}

/// The ids in ascending order.
pub open spec fn sorted_ids(ids: Seq<usize>) -> Seq<usize> {
    ids.sort_by(at_most())
}

/// An ordered list with the items of `before` is `before` sorted.
pub(crate) proof fn lemma_sort_result(before: Seq<usize>, after: Seq<usize>)
    requires
        ordered(after),
        after.to_multiset() == before.to_multiset(),
    ensures
        after == sorted_ids(before),
{
    let leq = at_most();
    assert(total_ordering(leq));
    before.lemma_sort_by_ensures(leq);
    assert(sorted_by(after, leq)) by {
        assert forall|i: int, j: int| 0 <= i < j < after.len() implies #[trigger] leq(
            after[i],
            after[j],
        ) by {
            assert(after[i] <= after[j]);
        }
    }
    vstd::seq_lib::lemma_sorted_unique(after, sorted_ids(before), leq);
}

/// The ids of a layer in ascending order.
pub(crate) fn sort_layer(ids: &mut Vec<usize>)
    ensures
        final(ids)@ == sorted_ids(old(ids)@),
{
    let ghost before = ids@;
    sort_ids(ids);
    proof {
        lemma_sort_result(before, ids@);
    }
}

/// Sorts the layer at `index`.
pub(crate) fn layer_sort(layers: &mut Vec<Vec<usize>>, index: usize)
    requires
        index < old(layers)@.len(),
    ensures
        layers_view(*final(layers)) == layers_view(*old(layers)).update(
            index as int,
            sorted_ids(layers_view(*old(layers))[index as int]),
        ),
        final(layers)@.len() == old(layers)@.len(),
{
    sort_layer(&mut layers[index]);
    proof {
        assert(layers_view(*layers) =~= layers_view(*old(layers)).update(
            index as int,
            sorted_ids(layers_view(*old(layers))[index as int]),
        ));
    }
}

/// Every layer in ascending order.
pub open spec fn sorted_layers(layers: Seq<Seq<usize>>) -> Seq<Seq<usize>> {
    Seq::new(layers.len(), |l: int| sorted_ids(layers[l]))
}

/// Sorts every layer.
pub fn sort_layers(neurons: &mut Vec<Vec<usize>>)
    ensures
        layers_view(*final(neurons)) == sorted_layers(layers_view(*old(neurons))),
{
    let ghost before = layers_view(*neurons);
    let mut l: usize = 0;
    while l < neurons.len()
        invariant
            l <= neurons@.len(),
            neurons@.len() == before.len(),
            forall|k: int| 0 <= k < l ==> #[trigger] layers_view(*neurons)[k] == sorted_ids(before[k]),
            forall|k: int| l <= k < before.len() ==> #[trigger] layers_view(*neurons)[k] == before[k],
        decreases neurons@.len() - l,
    {
        layer_sort(neurons, l);
        l += 1;
    }
    proof {
        assert(layers_view(*neurons) =~= sorted_layers(before));
    }
}

/// A copy of a list of ids.
pub(crate) fn copy_ids(ids: &Vec<usize>) -> (copy: Vec<usize>)
    ensures
        copy@ == ids@,
{
    let mut copy: Vec<usize> = Vec::new();
    let mut i: usize = 0;
    while i < ids.len()
        invariant
            i <= ids.len(),
            copy@ == ids@.take(i as int),
        decreases ids.len() - i,
    {
        copy.push(ids[i]);
        i += 1;
    }
    proof {
        assert(ids@.take(ids.len() as int) =~= ids@);
    }
    copy
}

/// The genes of one neuron of `layer`: one for each of its links, in order.
pub open spec fn neuron_genes(links: Seq<Link>, layer: usize, n: usize) -> Seq<Gene> {
    Seq::new(links.len(), |k: int| (links[k].1, layer, n, links[k].0))
}

/// The genes of what `links` records for `n`, none where it records nothing.
pub open spec fn recorded_genes(links: Map<usize, Seq<Link>>, layer: usize, n: usize) -> Seq<Gene> {
    if links.contains_key(n) {
        neuron_genes(links[n], layer, n)
    } else {
        Seq::empty()
    }
}

/// The genes of one layer: those of each of its neurons, in the order of
/// `ids`.
pub open spec fn layer_genes(links: Map<usize, Seq<Link>>, ids: Seq<usize>, layer: usize) -> Seq<Gene>
    decreases ids.len(),
{
    if ids.len() == 0 {
        Seq::empty()
    } else {
        layer_genes(links, ids.drop_last(), layer) + recorded_genes(links, layer, ids.last())
    }
}

/// The gene list of a network: layer after layer, counted from one, the
/// neurons of each layer in the order in which the layer holds them.
pub open spec fn encoded(links: Map<usize, Seq<Link>>, layers: Seq<Seq<usize>>) -> Seq<Gene>
    decreases layers.len(),
{
    if layers.len() == 0 {
        Seq::empty()
    } else {
        encoded(links, layers.drop_last()) + layer_genes(links, layers.last(), layers.len() as usize)
    }
}

/// Every gene of a written network names a layer of the network, counted
/// from one.
pub proof fn lemma_encoded_layered(links: Map<usize, Seq<Link>>, layers: Seq<Seq<usize>>)
    requires
        layers.len() <= usize::MAX,
    ensures
        layered(encoded(links, layers)),
        forall|i: int|
            0 <= i < encoded(links, layers).len() ==> (#[trigger] encoded(links, layers)[i]).1
                <= layers.len(),
    decreases layers.len(),
{
    if layers.len() > 0 {
        let before = encoded(links, layers.drop_last());
        let last = layer_genes(links, layers.last(), layers.len() as usize);
        lemma_encoded_layered(links, layers.drop_last());
        lemma_layer_genes_layer(links, layers.last(), layers.len() as usize);
        assert forall|i: int| 0 <= i < encoded(links, layers).len() implies 1 <= (
        #[trigger] encoded(links, layers)[i]).1 <= layers.len() by {
            if i < before.len() {
                assert(encoded(links, layers)[i] == before[i]);
            } else {
                assert(encoded(links, layers)[i] == last[i - before.len()]);
            }
        }
    }
}

/// Every gene written for a layer names that layer.
pub(crate) proof fn lemma_layer_genes_layer(links: Map<usize, Seq<Link>>, ids: Seq<usize>, layer: usize)
    ensures
        forall|i: int|
            0 <= i < layer_genes(links, ids, layer).len() ==> (#[trigger] layer_genes(
                links,
                ids,
                layer,
            )[i]).1 == layer,
    decreases ids.len(),
{
    if ids.len() > 0 {
        let before = layer_genes(links, ids.drop_last(), layer);
        let last = recorded_genes(links, layer, ids.last());
        lemma_layer_genes_layer(links, ids.drop_last(), layer);
        assert forall|i: int| 0 <= i < layer_genes(links, ids, layer).len() implies (
        #[trigger] layer_genes(links, ids, layer)[i]).1 == layer by {
            if i < before.len() {
                assert(layer_genes(links, ids, layer)[i] == before[i]);
            } else {
                assert(layer_genes(links, ids, layer)[i] == last[i - before.len()]);
            }
        }
    }
}

/// Whether the genes come layer after layer, and within a layer receiver
/// after receiver in ascending order of their ids.
pub open spec fn in_order(genes: Seq<Gene>) -> bool {
    forall|i: int, j: int|
        0 <= i < j < genes.len() ==> (#[trigger] genes[i]).1 <= (#[trigger] genes[j]).1 && (genes[i].1
            == genes[j].1 ==> genes[i].2 <= genes[j].2)
}

/// The genes written for a layer whose ids are in order have their
/// receivers in order, and every receiver is one of the layer.
pub(crate) proof fn lemma_layer_genes_order(links: Map<usize, Seq<Link>>, ids: Seq<usize>, layer: usize)
    requires
        ordered(ids),
    ensures
        forall|i: int|
            0 <= i < layer_genes(links, ids, layer).len() ==> ids.contains(
                (#[trigger] layer_genes(links, ids, layer)[i]).2,
            ),
        forall|i: int, j: int|
            0 <= i < j < layer_genes(links, ids, layer).len() ==> (#[trigger] layer_genes(
                links,
                ids,
                layer,
            )[i]).2 <= (#[trigger] layer_genes(links, ids, layer)[j]).2,
    decreases ids.len(),
{
    if ids.len() > 0 {
        let rest = ids.drop_last();
        let n = ids.last();
        let before = layer_genes(links, rest, layer);
        let last = recorded_genes(links, layer, n);
        let all = layer_genes(links, ids, layer);
        assert(ordered(rest)) by {
            assert forall|i: int, j: int| 0 <= i <= j < rest.len() implies rest[i] <= rest[j] by {
                assert(rest[i] == ids[i] && rest[j] == ids[j]);
            }
        }
        lemma_layer_genes_order(links, rest, layer);
        assert forall|i: int| 0 <= i < all.len() implies ids.contains((#[trigger] all[i]).2) && all[i].2
            <= n && (i >= before.len() ==> all[i].2 == n) by {
            if i < before.len() {
                assert(all[i] == before[i]);
                assert(rest.contains(before[i].2));
                let k = choose|k: int| 0 <= k < rest.len() && rest[k] == before[i].2;
                assert(ids[k] == before[i].2);
                assert(ids[k] <= ids[ids.len() - 1]);
            } else {
                assert(all[i] == last[i - before.len()]);
                assert(ids[ids.len() - 1] == n);
            }
        }
        assert forall|i: int, j: int| 0 <= i < j < all.len() implies (#[trigger] all[i]).2 <= (
        #[trigger] all[j]).2 by {
            if j < before.len() {
                assert(all[i] == before[i]);
                assert(all[j] == before[j]);
            } else {
                assert(all[j].2 == n);
                assert(all[i].2 <= n);
            }
        }
    }
}

/// A network whose layers hold their ids in order is written layer after
/// layer and receiver after receiver.
pub proof fn lemma_encoded_in_order(links: Map<usize, Seq<Link>>, layers: Seq<Seq<usize>>)
    requires
        layers.len() <= usize::MAX,
        forall|l: int| 0 <= l < layers.len() ==> ordered(#[trigger] layers[l]),
    ensures
        in_order(encoded(links, layers)),
    decreases layers.len(),
{
    if layers.len() > 0 {
        let rest = layers.drop_last();
        let before = encoded(links, rest);
        let last = layer_genes(links, layers.last(), layers.len() as usize);
        let all = encoded(links, layers);
        assert forall|l: int| 0 <= l < rest.len() implies ordered(#[trigger] rest[l]) by {
            assert(rest[l] == layers[l]);
        }
        lemma_encoded_in_order(links, rest);
        lemma_encoded_layered(links, rest);
        lemma_layer_genes_layer(links, layers.last(), layers.len() as usize);
        assert(ordered(layers[layers.len() - 1]));
        lemma_layer_genes_order(links, layers.last(), layers.len() as usize);
        assert forall|i: int, j: int| 0 <= i < j < all.len() implies (#[trigger] all[i]).1 <= (
        #[trigger] all[j]).1 && (all[i].1 == all[j].1 ==> all[i].2 <= all[j].2) by {
            if j < before.len() {
                assert(all[i] == before[i]);
                assert(all[j] == before[j]);
            } else if i < before.len() {
                assert(all[i] == before[i]);
                assert(all[j] == last[j - before.len()]);
                assert(before[i].1 <= rest.len());
            } else {
                assert(all[i] == last[i - before.len()]);
                assert(all[j] == last[j - before.len()]);
            }
        }
    }
}

/// Sorted layers hold their ids in order.
pub proof fn lemma_sorted_layers_in_order(layers: Seq<Seq<usize>>)
    ensures
        forall|l: int| 0 <= l < layers.len() ==> ordered(#[trigger] sorted_layers(layers)[l]),
{
    assert forall|l: int| 0 <= l < layers.len() implies ordered(#[trigger] sorted_layers(layers)[l]) by {
        let ids = layers[l];
        let sorted = sorted_ids(ids);
        ids.lemma_sort_by_ensures(at_most());
        assert forall|i: int, j: int| 0 <= i <= j < sorted.len() implies sorted[i] <= sorted[j] by {
            if i < j {
                assert(at_most()(sorted[i], sorted[j]));
            }
        }
    }
}

/// Sorting layers whose ids are in order changes nothing.
pub proof fn lemma_sorted_layers_ordered(layers: Seq<Seq<usize>>)
    requires
        forall|l: int| 0 <= l < layers.len() ==> ordered(#[trigger] layers[l]),
    ensures
        sorted_layers(layers) == layers,
{
    assert forall|l: int| 0 <= l < layers.len() implies sorted_ids(layers[l]) == layers[l] by {
        lemma_sort_result(layers[l], layers[l]);
    }
    assert(sorted_layers(layers) =~= layers);
}

/// Strictly ascending ids are in order.
pub proof fn lemma_ascending_ordered(ids: Seq<usize>)
    requires
        ascending(ids),
    ensures
        ordered(ids),
{
    assert forall|i: int, j: int| 0 <= i <= j < ids.len() implies ids[i] <= ids[j] by {
        if i < j {
            assert(ids[i] < ids[j]);
        }
    }
}

/// A copy of the layers of a network.
fn copy_layers(neurons: &Vec<Vec<usize>>) -> (copy: Vec<Vec<usize>>)
    ensures
        layers_view(copy) == layers_view(*neurons),
{
    let mut copy: Vec<Vec<usize>> = Vec::new();
    let mut l: usize = 0;
    while l < neurons.len()
        invariant
            l <= neurons@.len(),
            copy@.len() == l,
            forall|k: int| 0 <= k < l ==> (#[trigger] copy@[k])@ == neurons@[k]@,
        decreases neurons@.len() - l,
    {
        copy.push(copy_ids(&neurons[l]));
        l += 1;
    }
    proof {
        assert(layers_view(copy) =~= layers_view(*neurons));
    }
    copy
}

/// Writes a network as a gene list: for each layer in order, for each of its
/// neurons in ascending order of their ids, one gene for each link recorded
/// for that neuron. A neuron for which nothing is recorded gives no gene.
pub fn encode_view(inp_links: &HashMap<usize, Vec<Link>>, neurons: &Vec<Vec<usize>>) -> (genes: Vec<Gene>)
    ensures
        genes@ == encoded(links_view(*inp_links), sorted_layers(layers_view(*neurons))),
        layered(genes@),
        in_order(genes@),
{
    let mut sorted = copy_layers(neurons);
    sort_layers(&mut sorted);
    proof {
        lemma_sorted_layers_in_order(layers_view(*neurons));
        lemma_encoded_in_order(links_view(*inp_links), layers_view(sorted));
    }
    write_in_order(inp_links, &sorted)
}

/// Writes a network as a gene list, the neurons of each layer in the order
/// in which the layer holds them.
fn write_in_order(inp_links: &HashMap<usize, Vec<Link>>, neurons: &Vec<Vec<usize>>) -> (genes: Vec<Gene>)
    ensures
        genes@ == encoded(links_view(*inp_links), layers_view(*neurons)),
        layered(genes@),
{
    broadcast use vstd::std_specs::hash::group_hash_axioms;
    let ghost links = links_view(*inp_links);
    let ghost layers = layers_view(*neurons);
    let mut genes: Vec<Gene> = Vec::new();
    let mut l_num: usize = 0;
    proof {
        assert(layers.take(0) =~= Seq::<Seq<usize>>::empty());
    }
    while l_num < neurons.len()
        invariant
            l_num <= neurons.len(),
            links == links_view(*inp_links),
            layers == layers_view(*neurons),
            genes@ == encoded(links, layers.take(l_num as int)),
        decreases neurons.len() - l_num,
    {
        let layer = &neurons[l_num];
        let ghost done = genes@;
        let ghost ids = layer@;
        proof {
            assert(layers.take(l_num + 1).drop_last() =~= layers.take(l_num as int));
            assert(layers.take(l_num + 1).last() == ids);
            assert(ids.take(0) =~= Seq::<usize>::empty());
        }
        let mut j: usize = 0;
        while j < layer.len()
            invariant
                j <= layer.len(),
                l_num < neurons.len(),
                ids == layer@,
                links == links_view(*inp_links),
                genes@ == done + layer_genes(links, ids.take(j as int), (l_num + 1) as usize),
            decreases layer.len() - j,
        {
            let neuron_out = layer[j];
            let ghost so_far = genes@;
            proof {
                assert(ids.take(j + 1).drop_last() =~= ids.take(j as int));
                assert(ids.take(j + 1).last() == neuron_out);
            }
            match inp_links.get(&neuron_out) {
                Some(neurons_in) => {
                    let ghost recorded = neuron_genes(neurons_in@, (l_num + 1) as usize, neuron_out);
                    proof {
                        assert(links.contains_key(neuron_out));
                        assert(links[neuron_out] == neurons_in@);
                        assert(recorded.take(0) =~= Seq::<Gene>::empty());
                    }
                    let mut k: usize = 0;
                    while k < neurons_in.len()
                        invariant
                            k <= neurons_in.len(),
                            l_num < neurons.len(),
                            recorded == neuron_genes(
                                neurons_in@,
                                (l_num + 1) as usize,
                                neuron_out,
                            ),
                            genes@ == so_far + recorded.take(k as int),
                        decreases neurons_in.len() - k,
                    {
                        let (neuron_in, wt) = neurons_in[k];
                        genes.push((wt, l_num + 1, neuron_out, neuron_in));
                        proof {
                            assert(recorded.take(k + 1) =~= recorded.take(k as int).push(
                                recorded[k as int],
                            ));
                        }
                        k += 1;
                    }
                    proof {
                        assert(recorded.take(neurons_in.len() as int) =~= recorded);
                        assert(genes@ =~= done + layer_genes(
                            links,
                            ids.take(j + 1),
                            (l_num + 1) as usize,
                        ));
                    }
                },
                None => {
                    proof {
                        assert(!links.contains_key(neuron_out));
                        assert(genes@ =~= done + layer_genes(
                            links,
                            ids.take(j + 1),
                            (l_num + 1) as usize,
                        ));
                    }
                },
            }
            j += 1;
        }
        proof {
            assert(ids.take(layer.len() as int) =~= ids);
        }
        l_num += 1;
    }
    proof {
        assert(layers.take(neurons.len() as int) =~= layers);
        lemma_encoded_layered(links, layers);
    }
    genes
}

impl Chromosome {
    /// Replaces the genes by those of the given network: layer after layer,
    /// and in each layer neuron after neuron in ascending order of their
    /// ids.
    pub fn update_genes(&mut self, inp_links: HashMap<usize, Vec<Link>>, neurons: Vec<Vec<usize>>)
        ensures
            final(self)@ == encoded(links_view(inp_links), sorted_layers(layers_view(neurons))),
            layered(final(self)@),
            in_order(final(self)@),
    {
        self.genes = encode_view(&inp_links, &neurons);
    }
}

/// Dropping the last of a strictly ascending list drops exactly that id.
pub(crate) proof fn lemma_ascending_drop_last(ids: Seq<usize>)
    requires
        ascending(ids),
        ids.len() > 0,
    ensures
        ascending(ids.drop_last()),
        forall|n: usize| ids.drop_last().contains(n) <==> (ids.contains(n) && n != ids.last()),
{
    let rest = ids.drop_last();
    assert forall|n: usize| rest.contains(n) <==> (ids.contains(n) && n != ids.last()) by {
        if rest.contains(n) {
            let k = choose|k: int| 0 <= k < rest.len() && rest[k] == n;
            assert(ids[k] == n);
            assert(ids[k] < ids[ids.len() - 1]);
        }
        if ids.contains(n) && n != ids.last() {
            let k = choose|k: int| 0 <= k < ids.len() && ids[k] == n;
            assert(rest[k] == n);
        }
    }
}

/// Two strictly ascending lists of the same ids are the same list.
pub proof fn lemma_ascending_unique(a: Seq<usize>, b: Seq<usize>)
    requires
        ascending(a),
        ascending(b),
        forall|n: usize| a.contains(n) <==> b.contains(n),
    ensures
        a == b,
    decreases a.len(),
{
    if a.len() == 0 {
        if b.len() > 0 {
            assert(b.contains(b[0]));
            let k = choose|k: int| 0 <= k < a.len() && a[k] == b[0];
        }
        assert(a =~= b);
    } else {
        assert(a.contains(a.last()));
        let j = choose|j: int| 0 <= j < b.len() && b[j] == a.last();
        assert(b.contains(b.last()));
        let i = choose|i: int| 0 <= i < a.len() && a[i] == b.last();
        assert(a[i] <= a[a.len() - 1]) by {
            if i < a.len() - 1 {
                assert(a[i] < a[a.len() - 1]);
            }
        }
        assert(b[j] <= b[b.len() - 1]) by {
            if j < b.len() - 1 {
                assert(b[j] < b[b.len() - 1]);
            }
        }
        assert(a.last() == b.last());
        lemma_ascending_drop_last(a);
        lemma_ascending_drop_last(b);
        assert forall|n: usize| a.drop_last().contains(n) <==> b.drop_last().contains(n) by {
            assert(a.contains(n) <==> b.contains(n));
            assert(a.drop_last().contains(n) <==> (a.contains(n) && n != a.last()));
            assert(b.drop_last().contains(n) <==> (b.contains(n) && n != b.last()));
        }
        lemma_ascending_unique(a.drop_last(), b.drop_last());
        assert(a =~= a.drop_last().push(a.last()));
        assert(b =~= b.drop_last().push(b.last()));
    }
}

/// A genome has one layering only.
pub proof fn lemma_layering_unique(a: Seq<Seq<usize>>, b: Seq<Seq<usize>>, genes: Seq<Gene>)
    requires
        is_layering(a, genes),
        is_layering(b, genes),
    ensures
        a == b,
{
    assert forall|l: int| 0 <= l < a.len() implies a[l] == b[l] by {
        assert forall|n: usize| a[l].contains(n) <==> b[l].contains(n) by {
            assert(a[l].contains(n) <==> placed(genes, l + 1, n));
            assert(b[l].contains(n) <==> placed(genes, l + 1, n));
        }
        lemma_ascending_unique(a[l], b[l]);
    }
    assert(a =~= b);
}

/// The layering of a genome: for each layer up to the deepest, the receivers
/// placed there, in ascending order.
pub open spec fn layering(genes: Seq<Gene>) -> Seq<Seq<usize>> {
    choose|layers: Seq<Seq<usize>>| is_layering(layers, genes)
}

/// Whether every gene names a layer from one on.
pub open spec fn layered(genes: Seq<Gene>) -> bool {
    forall|i: int| 0 <= i < genes.len() ==> (#[trigger] genes[i]).1 >= 1
}

impl Chromosome {
    /// Whether every gene names a layer from one on, as a genome that is to
    /// be read as a network must.
    pub fn is_layered(&self) -> (ok: bool)
        ensures
            ok == layered(self@),
    {
        let mut i: usize = 0;
        while i < self.genes.len()
            invariant
                i <= self.genes.len(),
                forall|k: int| 0 <= k < i ==> (#[trigger] self.genes@[k]).1 >= 1,
            decreases self.genes.len() - i,
        {
            if self.genes[i].1 == 0 {
                return false;
            }
            i += 1;
        }
        true
    }

    /// The highest layer that a gene names, zero for an empty genome.
    pub fn layers(&self) -> (count: usize)
        ensures
            count == depth(self@),
    {
        let mut count: usize = 0;
        let mut i: usize = 0;
        proof {
            assert(self@.take(0) =~= Seq::<Gene>::empty());
        }
        while i < self.genes.len()
            invariant
                i <= self.genes.len(),
                count == depth(self@.take(i as int)),
            decreases self.genes.len() - i,
        {
            proof {
                assert(self@.take(i + 1).drop_last() =~= self@.take(i as int));
            }
            if self.genes[i].1 > count {
                count = self.genes[i].1;
            }
            i += 1;
        }
        proof {
            assert(self@.take(self.genes.len() as int) =~= self@);
        }
        count
    }

    /// A copy of the genome.
    pub fn copy(&self) -> (twin: Self)
        ensures
            twin@ == self@,
    {
        Self { genes: self.iter() }
    }

    /// Reads the genome as a network.
    pub fn decode(&self) -> (view: (HashMap<usize, Vec<Link>>, Vec<Vec<usize>>))
        requires
            layered(self@),
        ensures
            links_view(view.0) == decoded_links(self@),
            layers_view(view.1) == layering(self@),
            is_layering(layering(self@), self@),
            view.1@.len() == depth(self@),
    {
        let view = Self::from_weights_to_flex_net_view(&self.genes);
        proof {
            assert(layers_view(view.1).len() == view.1@.len());
        }
        view
    }

    /// Replaces the weight of the gene at `index`.
    pub fn set_weight(&mut self, index: usize, weight: u32)
        requires
            index < old(self)@.len(),
        ensures
            final(self)@ == old(self)@.update(
                index as int,
                (weight, old(self)@[index as int].1, old(self)@[index as int].2, old(self)@[index as int].3),
            ),
    {
        let gene = self.genes[index];
        self.genes[index] = (weight, gene.1, gene.2, gene.3);
    }
}

} // verus!
