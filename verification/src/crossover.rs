//! Recombination of two genomes that need not share a topology.

use vstd::prelude::*;
use crate::chromosome::{Chromosome, Gene, gene_key, unique_keys};
use crate::random::draw_ratio;

verus! {

/// The position of the last gene of `genes` that has the key `key`.
pub open spec fn last_match(genes: Seq<Gene>, key: (usize, usize, usize)) -> Option<int>
    decreases genes.len(),
{
    if genes.len() == 0 {
        None
    } else if gene_key(genes.last()) == key {
        Some(genes.len() - 1)
    } else {
        last_match(genes.drop_last(), key)
    }
}

/// What the child takes at the place of one gene of the base parent: the
/// partner's gene where there is one and the coin chose it, else the base
/// parent's own.
pub open spec fn inherited(base_gene: Gene, partner: Option<Gene>, take_partner: bool) -> Gene {
    match partner {
        Some(g) => if take_partner {
            g
        } else {
            base_gene
        },
        None => base_gene,
    }
}

/// The gene of `other` that answers to `base_gene`: the last one with the
/// same key.
pub open spec fn partner_of(base_gene: Gene, other: Seq<Gene>) -> Option<Gene> {
    match last_match(other, gene_key(base_gene)) {
        Some(j) => Some(other[j]),
        None => None,
    }
}

/// Whether `child` can come from `base` and `other` with `base` giving the
/// topology: gene by gene it holds the base parent's gene or the gene of the
/// other parent that answers to it.
pub open spec fn is_offspring(child: Seq<Gene>, base: Seq<Gene>, other: Seq<Gene>) -> bool {
    &&& child.len() == base.len()
    &&& forall|i: int|
        0 <= i < child.len() ==> #[trigger] child[i] == base[i] || Some(child[i]) == partner_of(
            base[i],
            other,
        )
}

/// The keys of a genome, gene by gene.
pub open spec fn keys_of(genes: Seq<Gene>) -> Seq<(usize, usize, usize)> {
    Seq::new(genes.len(), |i: int| gene_key(genes[i]))
}

/// A match lies within the list and has the key that was asked for.
pub(crate) proof fn lemma_last_match(genes: Seq<Gene>, key: (usize, usize, usize))
    ensures
        match last_match(genes, key) {
            Some(j) => 0 <= j < genes.len() && gene_key(genes[j]) == key && forall|k: int|
                j < k < genes.len() ==> gene_key(#[trigger] genes[k]) != key,
            None => forall|k: int| 0 <= k < genes.len() ==> gene_key(#[trigger] genes[k]) != key,
        },
    decreases genes.len(),
{
    if genes.len() > 0 && gene_key(genes.last()) != key {
        let rest = genes.drop_last();
        lemma_last_match(rest, key);
        match last_match(rest, key) {
            Some(j) => {
                assert forall|k: int| j < k < genes.len() implies gene_key(#[trigger] genes[k])
                    != key by {
                    if k < rest.len() {
                        assert(rest[k] == genes[k]);
                    }
                }
            },
            None => {
                assert forall|k: int| 0 <= k < genes.len() implies gene_key(#[trigger] genes[k])
                    != key by {
                    if k < rest.len() {
                        assert(rest[k] == genes[k]);
                    }
                }
            },
        }
    }
}

/// A child has the keys of the parent that gave the topology, in the same
/// places: recombination neither adds a connection nor drops one.
pub proof fn lemma_offspring_keeps_keys(child: Seq<Gene>, base: Seq<Gene>, other: Seq<Gene>)
    requires
        is_offspring(child, base, other),
    ensures
        keys_of(child) == keys_of(base),
        keys_of(child).to_set() == keys_of(base).to_set(),
{
    assert forall|i: int| 0 <= i < child.len() implies gene_key(child[i]) == gene_key(base[i]) by {
        lemma_last_match(other, gene_key(base[i]));
    }
    assert(keys_of(child) =~= keys_of(base));
}

/// A child of a parent without a repeated key has no repeated key.
pub proof fn lemma_offspring_keys_unique(child: Seq<Gene>, base: Seq<Gene>, other: Seq<Gene>)
    requires
        is_offspring(child, base, other),
        unique_keys(base),
    ensures
        unique_keys(child),
{
    lemma_offspring_keeps_keys(child, base, other);
    assert forall|i: int, j: int| 0 <= i < j < child.len() implies gene_key(#[trigger] child[i])
        != gene_key(#[trigger] child[j]) by {
        assert(keys_of(child)[i] == keys_of(base)[i]);
        assert(keys_of(child)[j] == keys_of(base)[j]);
    }
}

/// The gene of `other` that has the key of `base_gene`, the last one where
/// several have it.
pub fn find_partner(other: &Chromosome, base_gene: Gene) -> (partner: Option<Gene>)
    ensures
        partner == partner_of(base_gene, other@),
{
    let mut j: usize = other.len();
    proof {
        assert(other@.take(j as int) =~= other@);
    }
    while j > 0
        invariant
            j <= other@.len(),
            last_match(other@, gene_key(base_gene)) == last_match(
                other@.take(j as int),
                gene_key(base_gene),
            ),
        decreases j,
    {
        let g = other[j - 1];
        proof {
            assert(other@.take(j as int).last() == g);
            assert(other@.take(j as int).drop_last() =~= other@.take(j - 1));
        }
        if g.1 == base_gene.1 && g.2 == base_gene.2 && g.3 == base_gene.3 {
            proof {
                lemma_last_match(other@, gene_key(base_gene));
            }
            return Some(g);
        }
        j -= 1;
    }
    proof {
        assert(other@.take(0) =~= Seq::<Gene>::empty());
    }
    None
}

/// The gene that the child takes at the place of `base_gene`.
pub fn pick_gene(base_gene: Gene, partner: Option<Gene>, take_partner: bool) -> (gene: Gene)
    ensures
        gene == inherited(base_gene, partner, take_partner),
{
    match partner {
        Some(g) => if take_partner {
            g
        } else {
            base_gene
        },
        None => base_gene,
    }
}

/// The child of `base` and `other` for given coins: `coins[i]` says whether
/// the gene at place `i` comes from `other`, where `other` has an answer.
pub open spec fn recombined(base: Seq<Gene>, other: Seq<Gene>, coins: Seq<bool>) -> Seq<Gene> {
    Seq::new(base.len(), |i: int| inherited(base[i], partner_of(base[i], other), coins[i]))
}

/// A way to make the genome of a child from those of two parents.
pub trait CrossoverMethod {
    /// The genome of a child: one parent gives the topology, and gene by
    /// gene the child holds that parent's gene or the gene of the other
    /// parent that answers to it.
    fn crossover(
        &self,
        rng: &mut rand_chacha::ChaCha8Rng,
        parent_a: &Chromosome,
        parent_b: &Chromosome,
    ) -> (child: Chromosome)
        ensures
            is_offspring(child@, parent_a@, parent_b@) || is_offspring(
                child@,
                parent_b@,
                parent_a@,
            ),
    ;
}

/// Recombination in which every gene is taken from either parent with equal
/// chance, on the topology of one of them.
#[derive(Clone, Debug, Default)]
pub struct UniformCrossover;

impl UniformCrossover {
    /// Recombines `base` with `other` under the given coins.
    pub fn recombine(&self, base: &Chromosome, other: &Chromosome, coins: &Vec<bool>) -> (child:
        Chromosome)
        requires
            coins@.len() == base@.len(),
        ensures
            child@ == recombined(base@, other@, coins@),
            is_offspring(child@, base@, other@),
    {
        let mut genes: Vec<Gene> = Vec::new();
        let mut i: usize = 0;
        while i < base.len()
            invariant
                i <= base@.len(),
                coins@.len() == base@.len(),
                genes@ == recombined(base@, other@, coins@).take(i as int),
            decreases base@.len() - i,
        {
            let base_gene = base[i];
            let partner = find_partner(other, base_gene);
            genes.push(pick_gene(base_gene, partner, coins[i]));
            proof {
                let all = recombined(base@, other@, coins@);
                assert(all.take(i + 1) =~= all.take(i as int).push(all[i as int]));
            }
            i += 1;
        }
        proof {
            let all = recombined(base@, other@, coins@);
            assert(all.take(base@.len() as int) =~= all);
        }
        Chromosome::new(genes)
    }

    /// Recombines on the topology of `base`, with a coin for each gene for
    /// which `other` has an answer.
    pub fn cross_onto(
        &self,
        rng: &mut rand_chacha::ChaCha8Rng,
        base: &Chromosome,
        other: &Chromosome,
    ) -> (child: Chromosome)
        ensures
            is_offspring(child@, base@, other@),
    {
        let mut genes: Vec<Gene> = Vec::new();
        let mut i: usize = 0;
        while i < base.len()
            invariant
                i <= base@.len(),
                genes@.len() == i,
                forall|k: int|
                    0 <= k < i ==> #[trigger] genes@[k] == base@[k] || Some(genes@[k])
                        == partner_of(base@[k], other@),
            decreases base@.len() - i,
        {
            let base_gene = base[i];
            let partner = find_partner(other, base_gene);
            let take_partner = match partner {
                Some(_) => draw_ratio(rng, 1, 2),
                None => false,
            };
            genes.push(pick_gene(base_gene, partner, take_partner));
            i += 1;
        }
        Chromosome::new(genes)
    }
}

impl CrossoverMethod for UniformCrossover {
    /// Recombines two parents. A coin decides which parent gives the
    /// topology. For each gene of that parent for which the other one has an
    /// answer, a further coin decides which of the two the child takes.
    fn crossover(
        &self,
        rng: &mut rand_chacha::ChaCha8Rng,
        parent_a: &Chromosome,
        parent_b: &Chromosome,
    ) -> (child: Chromosome)
        ensures
            keys_of(child@) == keys_of(parent_a@) || keys_of(child@) == keys_of(parent_b@),
    {
        let child = if draw_ratio(rng, 1, 2) {
            self.cross_onto(rng, parent_a, parent_b)
        } else {
            self.cross_onto(rng, parent_b, parent_a)
        };
        proof {
            if is_offspring(child@, parent_a@, parent_b@) {
                lemma_offspring_keeps_keys(child@, parent_a@, parent_b@);
            } else {
                lemma_offspring_keeps_keys(child@, parent_b@, parent_a@);
            }
        }
        child
    }
}

} // verus!
