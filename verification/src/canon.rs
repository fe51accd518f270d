//! What a genome keeps when it is read as a network and written back.

use vstd::prelude::*;
use vstd::seq_lib::lemma_multiset_commutative;
use crate::chromosome::{
    Chromosome,
    Gene,
    ascending,
    at_most,
    decoded_links,
    depth,
    encoded,
    is_layering,
    layer_genes,
    layering,
    lemma_ascending_ordered,
    lemma_placed_push,
    lemma_sorted_layers_ordered,
    lemma_sorted_distinct,
    ordered,
    layered,
    lemma_depth_bounds,
    links_of,
    neuron_genes,
    placed,
    receives,
    recorded_genes,
    sorted_ids,
};

verus! {

/// A strictly ascending list holds no id twice.
proof fn lemma_ascending_distinct(ids: Seq<usize>)
    requires
        ascending(ids),
    ensures
        ids.no_duplicates(),
{
    assert forall|i: int, j: int| 0 <= i < ids.len() && 0 <= j < ids.len() && i != j implies ids[i]
        != ids[j] by {
        if i < j {
            assert(ids[i] < ids[j]);
        } else {
            assert(ids[j] < ids[i]);
        }
    }
}

/// A strictly ascending list with one id more, sorted, is strictly ascending
/// and holds that id besides those it held.
proof fn lemma_place(ids: Seq<usize>, n: usize)
    requires
        ascending(ids),
        !ids.contains(n),
    ensures
        ascending(sorted_ids(ids.push(n))),
        forall|m: usize| sorted_ids(ids.push(n)).contains(m) <==> (ids.contains(m) || m == n),
{
    let more = ids.push(n);
    let sorted = sorted_ids(more);
    lemma_ascending_distinct(ids);
    assert(more.no_duplicates()) by {
        assert forall|i: int, j: int| 0 <= i < more.len() && 0 <= j < more.len() && i != j implies more[i]
            != more[j] by {
            if i < ids.len() {
                assert(ids.contains(ids[i]));
            }
            if j < ids.len() {
                assert(ids.contains(ids[j]));
            }
        }
    }
    more.lemma_sort_by_ensures(at_most());
    assert(ordered(sorted)) by {
        assert forall|i: int, j: int| 0 <= i <= j < sorted.len() implies sorted[i] <= sorted[j] by {
            if i < j {
                assert(at_most()(sorted[i], sorted[j]));
            }
        }
    }
    lemma_sorted_distinct(more, sorted);
    assert forall|m: usize| sorted.contains(m) <==> (ids.contains(m) || m == n) by {
        assert(sorted.contains(m) <==> more.contains(m));
        if ids.contains(m) {
            let k = choose|k: int| 0 <= k < ids.len() && ids[k] == m;
            assert(more[k] == m);
        }
        if m == n {
            assert(more[ids.len() as int] == n);
        }
        if more.contains(m) {
            let k = choose|k: int| 0 <= k < more.len() && more[k] == m;
            if k < ids.len() {
                assert(ids[k] == m);
            }
        }
    }
}

/// Every genome whose layers count from one has a layering.
pub proof fn lemma_layering_exists(genes: Seq<Gene>)
    requires
        layered(genes),
    ensures
        is_layering(layering(genes), genes),
    decreases genes.len(),
{
    if genes.len() == 0 {
        assert(is_layering(Seq::<Seq<usize>>::empty(), genes));
    } else {
        let rest = genes.drop_last();
        let g = genes.last();
        assert(genes =~= rest.push(g));
        assert(layered(rest)) by {
            assert forall|i: int| 0 <= i < rest.len() implies (#[trigger] rest[i]).1 >= 1 by {
                assert(rest[i] == genes[i]);
            }
        }
        lemma_layering_exists(rest);
        let known = layering(rest);
        assert(genes[genes.len() - 1].1 >= 1);
        let wide = Seq::new(
            depth(genes) as nat,
            |l: int|
                if l < known.len() {
                    known[l]
                } else {
                    Seq::<usize>::empty()
                },
        );
        let k = g.1 - 1;
        let ids = wide[k];
        let settled = if ids.contains(g.2) {
            ids
        } else {
            sorted_ids(ids.push(g.2))
        };
        let made = wide.update(k, settled);
        assert(ascending(ids)) by {
            if k < known.len() {
                assert(ascending(known[k]));
            }
        }
        if !ids.contains(g.2) {
            lemma_place(ids, g.2);
        }
        assert forall|l: int| 0 <= l < made.len() implies ascending(#[trigger] made[l]) by {
            if l != k && l < known.len() {
                assert(ascending(known[l]));
            }
        }
        assert forall|l: int, n: usize| 0 <= l < made.len() implies (#[trigger] made[l].contains(n)
            <==> placed(genes, l + 1, n)) by {
            lemma_placed_push(rest, g, l + 1, n);
            if l < known.len() {
                assert(known[l].contains(n) <==> placed(rest, l + 1, n));
            } else {
                assert(!wide[l].contains(n));
                if placed(rest, l + 1, n) {
                    let t = choose|t: int|
                        0 <= t < rest.len() && (#[trigger] rest[t]).1 == l + 1 && rest[t].2 == n;
                    lemma_depth_bounds(rest, t);
                }
            }
            if l == k {
                assert(made[l] == settled);
                if !ids.contains(g.2) {
                    assert(settled.contains(n) <==> (ids.contains(n) || n == g.2));
                }
            } else {
                assert(made[l] == wide[l]);
            }
        }
        assert(is_layering(made, genes));
    }
}

/// Whether every receiver stands in one layer only.
pub open spec fn one_layer_each(genes: Seq<Gene>) -> bool {
    forall|i: int, j: int|
        0 <= i < genes.len() && 0 <= j < genes.len() && (#[trigger] genes[i]).2 == (
        #[trigger] genes[j]).2 ==> genes[i].1 == genes[j].1
}

/// How often `x` occurs in `genes`.
pub open spec fn tally(genes: Seq<Gene>, x: Gene) -> nat {
    genes.to_multiset().count(x)
}

proof fn lemma_tally_push(genes: Seq<Gene>, g: Gene, x: Gene)
    ensures
        tally(genes.push(g), x) == tally(genes, x) + if g == x {
            1nat
        } else {
            0nat
        },
{
    broadcast use vstd::seq_lib::group_to_multiset_ensures;
    broadcast use vstd::multiset::group_multiset_axioms;

}

proof fn lemma_tally_concat(a: Seq<Gene>, b: Seq<Gene>, x: Gene)
    ensures
        tally(a + b, x) == tally(a, x) + tally(b, x),
{
    broadcast use vstd::multiset::group_multiset_axioms;

    lemma_multiset_commutative(a, b);
}

proof fn lemma_tally_empty(x: Gene)
    ensures
        tally(Seq::<Gene>::empty(), x) == 0,
{
    broadcast use vstd::seq_lib::group_to_multiset_ensures;

    assert(!Seq::<Gene>::empty().contains(x));
}

proof fn lemma_tally_positive(genes: Seq<Gene>, x: Gene)
    ensures
        tally(genes, x) > 0 <==> genes.contains(x),
{
    broadcast use vstd::seq_lib::group_to_multiset_ensures;

}

/// The genes written for a neuron whose genes all lie in `layer` are the
/// genes that the genome has for it.
proof fn lemma_neuron_tally(genes: Seq<Gene>, n: usize, layer: usize, x: Gene)
    requires
        forall|t: int| 0 <= t < genes.len() && (#[trigger] genes[t]).2 == n ==> genes[t].1 == layer,
    ensures
        tally(neuron_genes(links_of(genes, n), layer, n), x) == if x.2 == n {
            tally(genes, x)
        } else {
            0
        },
    decreases genes.len(),
{
    if genes.len() == 0 {
        assert(neuron_genes(links_of(genes, n), layer, n) =~= Seq::<Gene>::empty());
        assert(genes =~= Seq::<Gene>::empty());
        lemma_tally_empty(x);
    } else {
        let rest = genes.drop_last();
        let g = genes.last();
        assert(genes =~= rest.push(g));
        assert forall|t: int| 0 <= t < rest.len() && (#[trigger] rest[t]).2 == n implies rest[t].1
            == layer by {
            assert(rest[t] == genes[t]);
        }
        lemma_neuron_tally(rest, n, layer, x);
        lemma_tally_push(rest, g, x);
        if g.2 == n {
            assert(genes[genes.len() - 1].1 == layer);
            let written = (g.0, layer, n, g.3);
            assert(written == g);
            assert(neuron_genes(links_of(genes, n), layer, n) =~= neuron_genes(
                links_of(rest, n),
                layer,
                n,
            ).push(written));
            lemma_tally_push(neuron_genes(links_of(rest, n), layer, n), written, x);
        }
    }
}

/// A gene does not occur in a genome whose genes for the same receiver lie
/// in another layer.
proof fn lemma_other_layer(genes: Seq<Gene>, layer: int, x: Gene)
    requires
        one_layer_each(genes),
        placed(genes, layer, x.2),
        x.1 != layer,
    ensures
        tally(genes, x) == 0,
{
    lemma_tally_positive(genes, x);
    if genes.contains(x) {
        let t = choose|t: int| 0 <= t < genes.len() && genes[t] == x;
        let k = choose|k: int| 0 <= k < genes.len() && (#[trigger] genes[k]).1 == layer && genes[k].2 == x.2;
        assert(genes[t].1 == genes[k].1);
    }
}

/// The genes written for the neurons `ids` of `layer` are the genes that the
/// genome has for them.
proof fn lemma_layer_tally(genes: Seq<Gene>, ids: Seq<usize>, layer: usize, x: Gene)
    requires
        one_layer_each(genes),
        ascending(ids),
        forall|k: int| 0 <= k < ids.len() ==> placed(genes, layer as int, #[trigger] ids[k]),
    ensures
        tally(layer_genes(decoded_links(genes), ids, layer), x) == if ids.contains(x.2) && x.1
            == layer {
            tally(genes, x)
        } else {
            0
        },
    decreases ids.len(),
{
    let links = decoded_links(genes);
    if ids.len() == 0 {
        lemma_tally_empty(x);
    } else {
        let rest = ids.drop_last();
        let n = ids.last();
        crate::chromosome::lemma_ascending_drop_last(ids);
        assert forall|k: int| 0 <= k < rest.len() implies placed(genes, layer as int, #[trigger] rest[k]) by {
            assert(rest[k] == ids[k]);
        }
        lemma_layer_tally(genes, rest, layer, x);
        assert(placed(genes, layer as int, ids[ids.len() - 1]));
        let k = choose|k: int| 0 <= k < genes.len() && (#[trigger] genes[k]).1 == layer && genes[k].2 == n;
        assert(receives(genes, n));
        assert(links.contains_key(n));
        assert(recorded_genes(links, layer, n) == neuron_genes(links_of(genes, n), layer, n));
        assert forall|t: int| 0 <= t < genes.len() && (#[trigger] genes[t]).2 == n implies genes[t].1
            == layer by {
            assert(genes[t].1 == genes[k].1);
        }
        lemma_neuron_tally(genes, n, layer, x);
        lemma_tally_concat(layer_genes(links, rest, layer), recorded_genes(links, layer, n), x);
        assert(ids.contains(x.2) <==> (rest.contains(x.2) || x.2 == n)) by {
            assert(ids.contains(ids.last()));
        }
        if x.2 == n && x.1 != layer {
            lemma_other_layer(genes, layer as int, x);
        }
    }
}

/// The genes written for the first `upto` layers are the genes that the
/// genome has in them.
proof fn lemma_encoded_tally(genes: Seq<Gene>, layers: Seq<Seq<usize>>, upto: int, x: Gene)
    requires
        one_layer_each(genes),
        is_layering(layers, genes),
        0 <= upto <= layers.len(),
    ensures
        tally(encoded(decoded_links(genes), layers.take(upto)), x) == if 1 <= x.1 <= upto {
            tally(genes, x)
        } else {
            0
        },
    decreases upto,
{
    let links = decoded_links(genes);
    if upto == 0 {
        assert(layers.take(0) =~= Seq::<Seq<usize>>::empty());
        lemma_tally_empty(x);
    } else {
        let ids = layers[upto - 1];
        assert(layers.take(upto).drop_last() =~= layers.take(upto - 1));
        assert(layers.take(upto).last() == ids);
        lemma_encoded_tally(genes, layers, upto - 1, x);
        assert forall|k: int| 0 <= k < ids.len() implies placed(genes, upto, #[trigger] ids[k]) by {
            assert(layers[upto - 1].contains(ids[k]));
        }
        lemma_layer_tally(genes, ids, upto as usize, x);
        lemma_tally_concat(
            encoded(links, layers.take(upto - 1)),
            layer_genes(links, ids, upto as usize),
            x,
        );
        if x.1 == upto && !ids.contains(x.2) {
            lemma_tally_positive(genes, x);
            if genes.contains(x) {
                let t = choose|t: int| 0 <= t < genes.len() && genes[t] == x;
                assert(placed(genes, upto, x.2));
                assert(layers[upto - 1].contains(x.2));
            }
        }
    }
}

/// Reading a genome as a network and writing it back keeps every gene, as
/// often as it occurs, where every receiver stands in one layer only.
pub proof fn lemma_round_trip(genes: Seq<Gene>)
    requires
        layered(genes),
        one_layer_each(genes),
    ensures
        encoded(decoded_links(genes), layering(genes)).to_multiset() == genes.to_multiset(),
{
    lemma_layering_exists(genes);
    let layers = layering(genes);
    let written = encoded(decoded_links(genes), layers);
    assert(layers.take(layers.len() as int) =~= layers);
    assert forall|x: Gene| written.to_multiset().count(x) == genes.to_multiset().count(x) by {
        lemma_encoded_tally(genes, layers, layers.len() as int, x);
        if !(1 <= x.1 <= layers.len()) {
            lemma_tally_positive(genes, x);
            if genes.contains(x) {
                let t = choose|t: int| 0 <= t < genes.len() && genes[t] == x;
                lemma_depth_bounds(genes, t);
            }
        }
    }
    assert(written.to_multiset() =~= genes.to_multiset());
}

impl Chromosome {
    /// Whether every receiver stands in one layer only.
    pub fn is_one_layer_each(&self) -> (ok: bool)
        ensures
            ok == one_layer_each(self@),
    {
        let genes = self.iter();
        let mut i: usize = 0;
        while i < genes.len()
            invariant
                i <= genes@.len(),
                genes@ == self@,
                forall|a: int, b: int|
                    0 <= a < i && 0 <= b < genes@.len() && (#[trigger] genes@[a]).2 == (
                    #[trigger] genes@[b]).2 ==> genes@[a].1 == genes@[b].1,
            decreases genes@.len() - i,
        {
            let mut j: usize = 0;
            while j < genes.len()
                invariant
                    i < genes@.len(),
                    j <= genes@.len(),
                    genes@ == self@,
                    forall|b: int|
                        0 <= b < j && genes@[i as int].2 == (#[trigger] genes@[b]).2 ==> genes@[i as int].1
                            == genes@[b].1,
                decreases genes@.len() - j,
            {
                if genes[i].2 == genes[j].2 && genes[i].1 != genes[j].1 {
                    proof {
                        assert(self@[i as int].2 == self@[j as int].2);
                        assert(self@[i as int].1 != self@[j as int].1);
                    }
                    return false;
                }
                j += 1;
            }
            i += 1;
        }
        true
    }

    /// Brings the genes into the order of layers and neurons: the genome is
    /// read as a network and written back. Where every receiver stands in
    /// one layer only, no gene is lost or added.
    pub fn canonicalize(&mut self)
        requires
            layered(old(self)@),
        ensures
            final(self)@ == encoded(decoded_links(old(self)@), layering(old(self)@)),
            crate::chromosome::in_order(final(self)@),
            one_layer_each(old(self)@) ==> final(self)@.to_multiset() == old(self)@.to_multiset(),
    {
        let (inp_links, neurons) = self.decode();
        proof {
            if one_layer_each(self@) {
                lemma_round_trip(self@);
            }
            assert forall|l: int| 0 <= l < layering(self@).len() implies ordered(
                #[trigger] layering(self@)[l],
            ) by {
                lemma_ascending_ordered(layering(self@)[l]);
            }
            lemma_sorted_layers_ordered(layering(self@));
        }
        self.update_genes(inp_links, neurons);
    }
}

} // verus!
