//! Edits of a decoded network: neurons and layers added and removed.
//!
//! Every edit works on the link lists and the layers that a genome decodes
//! to, and is described by a function of those alone. Weights for new
//! connections are supplied by the caller, as many as the edit needs.

use vstd::prelude::*;
use std::collections::HashMap;
use crate::chromosome::{
    Link,
    copy_ids,
    copy_links,
    layer_sort,
    layers_view,
    links_view,
    sort_layer,
    sort_layers,
    sorted_ids,
    sorted_layers,
};
use crate::numbering::{NeuronNumbering, NumberingView, assigned, id_for, max_after};

verus! {

/// A decoded network: the links of every receiving neuron, and the neurons
/// of every layer.
pub struct Net {
    pub links: Map<usize, Seq<Link>>,
    pub layers: Seq<Seq<usize>>,
}

/// The network that a map of link lists and a vector of layers hold.
pub open spec fn net_view(links: HashMap<usize, Vec<Link>>, layers: Vec<Vec<usize>>) -> Net {
    Net { links: links_view(links), layers: layers_view(layers) }
}

/// Whether links are recorded for every neuron of every layer.
pub open spec fn complete(net: Net) -> bool {
    forall|l: int, k: int|
        0 <= l < net.layers.len() && 0 <= k < net.layers[l].len() ==> net.links.contains_key(
            #[trigger] net.layers[l][k],
        )
}

/// A copy of the links recorded for `n`.
pub(crate) fn links_get(links: &HashMap<usize, Vec<Link>>, n: usize) -> (found: Option<Vec<Link>>)
    ensures
        match found {
            Some(list) => links_view(*links).contains_key(n) && list@ == links_view(*links)[n],
            None => !links_view(*links).contains_key(n),
        },
{
    broadcast use vstd::std_specs::hash::group_hash_axioms;
    match links.get(&n) {
        Some(list) => Some(copy_links(list)),
        None => None,
    }
}

/// Records `list` for `n`, in place of what was recorded.
pub(crate) fn links_put(links: &mut HashMap<usize, Vec<Link>>, n: usize, list: Vec<Link>)
    ensures
        links_view(*final(links)) == links_view(*old(links)).insert(n, list@),
{
    broadcast use vstd::std_specs::hash::group_hash_axioms;
    links.insert(n, list);
    proof {
        assert(links_view(*links) =~= links_view(*old(links)).insert(n, list@));
    }
}

/// Drops what is recorded for `n`.
pub(crate) fn links_drop(links: &mut HashMap<usize, Vec<Link>>, n: usize)
    ensures
        links_view(*final(links)) == links_view(*old(links)).remove(n),
{
    broadcast use vstd::std_specs::hash::group_hash_axioms;
    links.remove(&n);
    proof {
        assert(links_view(*links) =~= links_view(*old(links)).remove(n));
    }
}

/// Appends `id` to the layer at `index`.
pub(crate) fn layer_push(layers: &mut Vec<Vec<usize>>, index: usize, id: usize)
    requires
        index < old(layers)@.len(),
    ensures
        layers_view(*final(layers)) == layers_view(*old(layers)).update(
            index as int,
            layers_view(*old(layers))[index as int].push(id),
        ),
        final(layers)@.len() == old(layers)@.len(),
{
    layers[index].push(id);
    proof {
        assert(layers_view(*layers) =~= layers_view(*old(layers)).update(
            index as int,
            layers_view(*old(layers))[index as int].push(id),
        ));
    }
}

/// The links once every neuron of `receivers` got a link from `sender`,
/// the `k`-th with the weight `fresh[k]`.
pub open spec fn wired(
    links: Map<usize, Seq<Link>>,
    receivers: Seq<usize>,
    sender: usize,
    fresh: Seq<u32>,
) -> Map<usize, Seq<Link>>
    decreases receivers.len(),
{
    if receivers.len() == 0 {
        links
    } else {
        let before = wired(links, receivers.drop_last(), sender, fresh);
        let n = receivers.last();
        before.insert(n, before[n].push((sender, fresh[receivers.len() - 1])))
    }
}

/// The id that a neuron added to `layer` gets.
pub open spec fn growth_id(net: Net, numbering: NumberingView, layer: usize) -> usize {
    id_for(numbering, layer, (net.layers[layer - 1].len() + 1) as usize) as usize
}

/// Whether `layer` can take a further neuron: it has one to copy the links
/// from, and its size can still be counted.
pub open spec fn can_grow(net: Net, layer: usize) -> bool {
    0 < net.layers[layer - 1].len() < usize::MAX
}

/// Whether adding a neuron to `layer` changes the network: the layer can
/// grow and does not hold the new neuron's id yet.
pub open spec fn grows(net: Net, numbering: NumberingView, layer: usize) -> bool {
    can_grow(net, layer) && !net.layers[layer - 1].contains(growth_id(net, numbering, layer))
}

/// How many weights adding a neuron to `layer` needs: one for each neuron of
/// the next layer where the network grows, none where it stays as it is.
pub open spec fn growth_weights(net: Net, numbering: NumberingView, layer: usize) -> nat {
    if grows(net, numbering, layer) {
        net.layers[layer as int].len()
    } else {
        0
    }
}

/// The network once a neuron was added to `layer`: the new neuron joins the
/// layer, takes a copy of the links of the layer's first neuron, and sends to
/// every neuron of the next layer.
pub open spec fn grown(net: Net, numbering: NumberingView, layer: usize, fresh: Seq<u32>) -> Net {
    let ids = net.layers[layer - 1];
    let id = growth_id(net, numbering, layer);
    Net {
        links: wired(net.links.insert(id, net.links[ids[0]]), net.layers[layer as int], id, fresh),
        layers: net.layers.update(layer - 1, sorted_ids(ids.push(id))),
    }
}

/// The numbering once a neuron was added to `layer`. Where the layer cannot
/// grow nothing is numbered; where it holds the id already, the place is not
/// recorded.
pub open spec fn numbered_by_growth(net: Net, numbering: NumberingView, layer: usize) -> NumberingView {
    let position = (net.layers[layer - 1].len() + 1) as usize;
    if !can_grow(net, layer) {
        numbering
    } else if grows(net, numbering, layer) {
        assigned(numbering, layer, position)
    } else {
        NumberingView { table: numbering.table, max_id: max_after(numbering, layer, position) as usize }
    }
}

/// Two networks that grow in the same place get the same id: once a neuron
/// was added to a layer of one network, a neuron added to the same layer of
/// a network with as many neurons there is numbered alike.
pub proof fn lemma_growth_ids_agree(first: Net, second: Net, numbering: NumberingView, layer: usize)
    requires
        1 <= layer <= first.layers.len(),
        1 <= layer <= second.layers.len(),
        grows(first, numbering, layer),
        second.layers[layer - 1].len() == first.layers[layer - 1].len(),
    ensures
        growth_id(second, numbered_by_growth(first, numbering, layer), layer) == growth_id(
            first,
            numbering,
            layer,
        ),
{
}

/// Wiring keeps every neuron that had links.
pub(crate) proof fn lemma_wired_keys(links: Map<usize, Seq<Link>>, receivers: Seq<usize>, sender: usize, fresh: Seq<u32>)
    ensures
        forall|n: usize| links.contains_key(n) ==> #[trigger] wired(links, receivers, sender, fresh).contains_key(n),
    decreases receivers.len(),
{
    if receivers.len() > 0 {
        lemma_wired_keys(links, receivers.drop_last(), sender, fresh);
        let before = wired(links, receivers.drop_last(), sender, fresh);
        assert forall|n: usize| links.contains_key(n) implies #[trigger] wired(
            links,
            receivers,
            sender,
            fresh,
        ).contains_key(n) by {
            assert(before.contains_key(n));
        }
    }
}

/// Adds a neuron to `layer`, which is not the last one. `fresh` holds the
/// weight of the link to each neuron of the next layer. Says whether the
/// network changed.
pub fn grow_neuron(
    inp_links: &mut HashMap<usize, Vec<Link>>,
    neurons: &mut Vec<Vec<usize>>,
    numbering: &mut NeuronNumbering,
    layer: usize,
    fresh: &Vec<u32>,
) -> (changed: bool)
    requires
        1 <= layer < old(neurons)@.len(),
        complete(net_view(*old(inp_links), *old(neurons))),
        fresh@.len() == growth_weights(
            net_view(*old(inp_links), *old(neurons)),
            old(numbering)@,
            layer,
        ),
        old(numbering)@.max_id < usize::MAX,
    ensures
        changed == grows(net_view(*old(inp_links), *old(neurons)), old(numbering)@, layer),
        net_view(*final(inp_links), *final(neurons)) == if changed {
            grown(net_view(*old(inp_links), *old(neurons)), old(numbering)@, layer, fresh@)
        } else {
            net_view(*old(inp_links), *old(neurons))
        },
        final(numbering)@ == numbered_by_growth(
            net_view(*old(inp_links), *old(neurons)),
            old(numbering)@,
            layer,
        ),
{
    let ghost net = net_view(*inp_links, *neurons);
    let ghost ids = net.layers[layer - 1];
    let ghost next = net.layers[layer as int];
    let size = neurons[layer - 1].len();
    proof {
        assert(ids == neurons@[layer - 1]@);
        assert(next == neurons@[layer as int]@);
    }
    if size == 0 || size == usize::MAX {
        return false;
    }
    let position = size + 1;
    let id = numbering.lookup_or_mint(layer, position);
    if crate::chromosome::holds(&neurons[layer - 1], id) {
        return false;
    }
    proof {
        assert(grows(net, old(numbering)@, layer));
        assert(fresh@.len() == next.len());
    }
    layer_push(neurons, layer - 1, id);
    numbering.insert(layer, position, id);
    proof {
        assert(layers_view(*neurons)[layer - 1] == neurons@[layer - 1]@);
        assert(layers_view(*neurons)[layer as int] == neurons@[layer as int]@);
        assert(ids.push(id)[0] == ids[0]);
    }
    let sibling = neurons[layer - 1][0];
    proof {
        assert(sibling == ids[0]);
        assert(net.links.contains_key(net.layers[layer - 1][0]));
    }
    let copied = match links_get(inp_links, sibling) {
        Some(list) => list,
        None => Vec::new(),
    };
    links_put(inp_links, id, copied);
    let ghost seeded = links_view(*inp_links);
    proof {
        assert(seeded == net.links.insert(id, net.links[ids[0]]));
        assert(next.take(0) =~= Seq::<usize>::empty());
    }
    let mut j: usize = 0;
    while j < neurons[layer].len()
        invariant
            1 <= layer < neurons@.len(),
            j <= next.len(),
            fresh@.len() == next.len(),
            neurons@[layer as int]@ == next,
            layers_view(*neurons) == net.layers.update(layer - 1, ids.push(id)),
            forall|k: int| 0 <= k < next.len() ==> seeded.contains_key(#[trigger] next[k]),
            links_view(*inp_links) == wired(seeded, next.take(j as int), id, fresh@),
        decreases next.len() - j,
    {
        let n = neurons[layer][j];
        proof {
            assert(next.take(j + 1).drop_last() =~= next.take(j as int));
            assert(next.take(j + 1).last() == n);
            lemma_wired_keys(seeded, next.take(j as int), id, fresh@);
            assert(seeded.contains_key(next[j as int]));
        }
        let mut list = match links_get(inp_links, n) {
            Some(list) => list,
            None => Vec::new(),
        };
        list.push((id, fresh[j]));
        links_put(inp_links, n, list);
        j += 1;
    }
    proof {
        assert(next.take(next.len() as int) =~= next);
    }
    layer_sort(neurons, layer - 1);
    proof {
        let grown_net = grown(net, old(numbering)@, layer, fresh@);
        assert(layers_view(*neurons) =~= grown_net.layers);
    }
    true
}

/// A network that the edits cannot work on.
#[derive(Clone, Copy, Debug, PartialEq, Eq)]
pub enum ModelFault {
    /// A neuron that is to be removed also stands in the next layer, so that
    /// its links are gone when that layer is rewired.
    NeuronInTwoLayers,
}

/// The place of the first link at or after `from` that comes from `sender`,
/// the length of the list where there is none.
pub open spec fn first_from(links: Seq<Link>, sender: usize, from: int) -> int
    decreases links.len() - from,
{
    if from < 0 || from >= links.len() {
        links.len() as int
    } else if links[from].0 == sender {
        from
    } else {
        first_from(links, sender, from + 1)
    }
}

/// The links without the first one that comes from `sender`.
pub open spec fn stripped(links: Seq<Link>, sender: usize) -> Seq<Link> {
    let k = first_from(links, sender, 0);
    if k < links.len() {
        links.remove(k)
    } else {
        links
    }
}

/// The links once every neuron of `receivers` lost its first link from
/// `sender`.
pub open spec fn unwired(links: Map<usize, Seq<Link>>, receivers: Seq<usize>, sender: usize) -> Map<
    usize,
    Seq<Link>,
>
    decreases receivers.len(),
{
    if receivers.len() == 0 {
        links
    } else {
        let before = unwired(links, receivers.drop_last(), sender);
        let n = receivers.last();
        before.insert(n, stripped(before[n], sender))
    }
}

/// Whether `layer` has a neuron to spare.
pub open spec fn shrinks(net: Net, layer: usize) -> bool {
    net.layers[layer - 1].len() >= 2
}

/// The network once the last neuron of `layer` was removed: the neuron
/// leaves the layer, its links are dropped, and no neuron of the next layer
/// receives from it any more.
pub open spec fn shrunk(net: Net, layer: usize) -> Net {
    let ids = net.layers[layer - 1];
    let id = ids.last();
    Net {
        links: unwired(net.links.remove(id), net.layers[layer as int], id),
        layers: net.layers.update(layer - 1, ids.drop_last()),
    }
}

/// Unwiring keeps every neuron that had links.
pub(crate) proof fn lemma_unwired_keys(links: Map<usize, Seq<Link>>, receivers: Seq<usize>, sender: usize)
    ensures
        forall|n: usize| links.contains_key(n) ==> #[trigger] unwired(links, receivers, sender).contains_key(n),
    decreases receivers.len(),
{
    if receivers.len() > 0 {
        lemma_unwired_keys(links, receivers.drop_last(), sender);
        let before = unwired(links, receivers.drop_last(), sender);
        assert forall|n: usize| links.contains_key(n) implies #[trigger] unwired(
            links,
            receivers,
            sender,
        ).contains_key(n) by {
            assert(before.contains_key(n));
        }
    }
}

/// The links without the first one that comes from `sender`.
pub(crate) fn strip_link(list: &mut Vec<Link>, sender: usize)
    ensures
        final(list)@ == stripped(old(list)@, sender),
{
    let mut i: usize = 0;
    while i < list.len()
        invariant
            i <= list@.len(),
            list@ == old(list)@,
            first_from(list@, sender, 0) == first_from(list@, sender, i as int),
        decreases list@.len() - i,
    {
        if list[i].0 == sender {
            list.remove(i);
            return ;
        }
        i += 1;
    }
}

/// Removes the last neuron of `layer`, which is not the last layer, where
/// the layer has two neurons or more. Says whether the network changed. A
/// neuron that also stands in the next layer is not removed.
pub fn shrink_neuron(
    inp_links: &mut HashMap<usize, Vec<Link>>,
    neurons: &mut Vec<Vec<usize>>,
    layer: usize,
) -> (changed: Result<bool, ModelFault>)
    requires
        1 <= layer < old(neurons)@.len(),
        complete(net_view(*old(inp_links), *old(neurons))),
    ensures
        changed is Err <==> shrinks(net_view(*old(inp_links), *old(neurons)), layer) && old(
            neurons,
        )@[layer as int]@.contains(old(neurons)@[layer - 1]@.last()),
        changed == Ok::<bool, ModelFault>(true) <==> shrinks(
            net_view(*old(inp_links), *old(neurons)),
            layer,
        ) && !(changed is Err),
        net_view(*final(inp_links), *final(neurons)) == if changed == Ok::<bool, ModelFault>(true) {
            shrunk(net_view(*old(inp_links), *old(neurons)), layer)
        } else {
            net_view(*old(inp_links), *old(neurons))
        },
{
    let ghost net = net_view(*inp_links, *neurons);
    let ghost ids = net.layers[layer - 1];
    let ghost next = net.layers[layer as int];
    proof {
        assert(ids == neurons@[layer - 1]@);
        assert(next == neurons@[layer as int]@);
    }
    let size = neurons[layer - 1].len();
    if size < 2 {
        return Ok(false);
    }
    let id = neurons[layer - 1][size - 1];
    if crate::chromosome::holds(&neurons[layer], id) {
        return Err(ModelFault::NeuronInTwoLayers);
    }
    neurons[layer - 1].pop();
    proof {
        assert(layers_view(*neurons) =~= net.layers.update(layer - 1, ids.drop_last()));
    }
    links_drop(inp_links, id);
    let ghost cut = links_view(*inp_links);
    proof {
        assert(cut == net.links.remove(id));
        assert(next.take(0) =~= Seq::<usize>::empty());
        assert forall|k: int| 0 <= k < next.len() implies cut.contains_key(#[trigger] next[k]) by {
            assert(net.links.contains_key(net.layers[layer as int][k]));
            assert(next.contains(next[k]));
        }
    }
    let mut j: usize = 0;
    while j < neurons[layer].len()
        invariant
            1 <= layer < neurons@.len(),
            j <= next.len(),
            neurons@[layer as int]@ == next,
            layers_view(*neurons) == net.layers.update(layer - 1, ids.drop_last()),
            forall|k: int| 0 <= k < next.len() ==> cut.contains_key(#[trigger] next[k]),
            links_view(*inp_links) == unwired(cut, next.take(j as int), id),
        decreases next.len() - j,
    {
        let n = neurons[layer][j];
        proof {
            assert(next.take(j + 1).drop_last() =~= next.take(j as int));
            assert(next.take(j + 1).last() == n);
            lemma_unwired_keys(cut, next.take(j as int), id);
            assert(cut.contains_key(next[j as int]));
        }
        let mut list = match links_get(inp_links, n) {
            Some(list) => list,
            None => Vec::new(),
        };
        strip_link(&mut list, id);
        links_put(inp_links, n, list);
        j += 1;
    }
    proof {
        assert(next.take(next.len() as int) =~= next);
    }
    Ok(true)
}

/// The links of a new neuron: a bias, then one link from each of `senders`,
/// with the weights that `fresh` holds from `start` on.
pub open spec fn fresh_links(senders: Seq<usize>, fresh: Seq<u32>, start: int) -> Seq<Link> {
    Seq::new(
        senders.len() + 1,
        |k: int|
            if k == 0 {
                (0usize, fresh[start])
            } else {
                (senders[k - 1], fresh[start + k])
            },
    )
}

/// How many weights `count` new neurons need that each receive from
/// `senders` neurons and have a bias.
pub open spec fn weights_for(count: nat, senders: nat) -> int
    decreases count,
{
    if count == 0 {
        0
    } else {
        weights_for((count - 1) as nat, senders) + senders + 1
    }
}

/// What building a layer leaves: the links, the numbering, the ids of the
/// new neurons in the order of their making, and the place in the supply of
/// weights after the last one used.
pub struct Built {
    pub links: Map<usize, Seq<Link>>,
    pub numbering: NumberingView,
    pub ids: Seq<usize>,
    pub used: int,
}

/// Builds `count` neurons for the layer numbered `layer`: the `p`-th is
/// numbered at `(layer, p)` and gets new links from `senders`.
pub open spec fn built(
    links: Map<usize, Seq<Link>>,
    numbering: NumberingView,
    layer: usize,
    count: nat,
    senders: Seq<usize>,
    fresh: Seq<u32>,
    start: int,
) -> Built
    decreases count,
{
    if count == 0 {
        Built { links, numbering, ids: Seq::empty(), used: start }
    } else {
        let before = built(links, numbering, layer, (count - 1) as nat, senders, fresh, start);
        let id = id_for(before.numbering, layer, count as usize) as usize;
        Built {
            links: before.links.insert(id, fresh_links(senders, fresh, before.used)),
            numbering: assigned(before.numbering, layer, count as usize),
            ids: before.ids.push(id),
            used: before.used + senders.len() + 1,
        }
    }
}

/// Building uses the weights that it was said to need, makes as many ids as
/// neurons, and raises the highest id by one for each neuron at most.
pub(crate) proof fn lemma_built(
    links: Map<usize, Seq<Link>>,
    numbering: NumberingView,
    layer: usize,
    count: nat,
    senders: Seq<usize>,
    fresh: Seq<u32>,
    start: int,
)
    requires
        numbering.max_id + count <= usize::MAX,
        count <= usize::MAX,
    ensures
        built(links, numbering, layer, count, senders, fresh, start).used == start + weights_for(
            count,
            senders.len(),
        ),
        built(links, numbering, layer, count, senders, fresh, start).ids.len() == count,
        numbering.max_id <= built(links, numbering, layer, count, senders, fresh, start).numbering.max_id
            <= numbering.max_id + count,
        weights_for(count, senders.len()) >= count,
    decreases count,
{
    if count > 0 {
        lemma_built(links, numbering, layer, (count - 1) as nat, senders, fresh, start);
    }
}

/// More neurons need more weights.
pub(crate) proof fn lemma_weights_for_grows(fewer: nat, more: nat, senders: nat)
    requires
        fewer <= more,
    ensures
        weights_for(fewer, senders) <= weights_for(more, senders),
    decreases more,
{
    if fewer < more {
        lemma_weights_for_grows(fewer, (more - 1) as nat, senders);
    }
}

/// Builds `count` neurons for the layer numbered `layer`, each with a bias
/// and a link from each of `senders`, taking the weights from `fresh` at
/// `start` and onwards. Returns the new ids in the order of their making and
/// the place in `fresh` after the last weight used.
pub fn build_layer(
    inp_links: &mut HashMap<usize, Vec<Link>>,
    numbering: &mut NeuronNumbering,
    layer: usize,
    count: usize,
    senders: &Vec<usize>,
    fresh: &Vec<u32>,
    start: usize,
) -> (made: (Vec<usize>, usize))
    requires
        old(numbering)@.max_id + count <= usize::MAX,
        start + weights_for(count as nat, senders@.len()) <= fresh@.len(),
    ensures
        links_view(*final(inp_links)) == built(
            links_view(*old(inp_links)),
            old(numbering)@,
            layer,
            count as nat,
            senders@,
            fresh@,
            start as int,
        ).links,
        final(numbering)@ == built(
            links_view(*old(inp_links)),
            old(numbering)@,
            layer,
            count as nat,
            senders@,
            fresh@,
            start as int,
        ).numbering,
        made.0@ == built(
            links_view(*old(inp_links)),
            old(numbering)@,
            layer,
            count as nat,
            senders@,
            fresh@,
            start as int,
        ).ids,
        made.1 == start + weights_for(count as nat, senders@.len()),
{
    let ghost links0 = links_view(*inp_links);
    let ghost numbering0 = numbering@;
    let mut ids: Vec<usize> = Vec::new();
    let mut cursor: usize = start;
    let supply = fresh.len();
    let mut i: usize = 0;
    while i < count
        invariant
            i <= count,
            supply == fresh@.len(),
            numbering0.max_id + count <= usize::MAX,
            start + weights_for(count as nat, senders@.len()) <= fresh@.len(),
            links_view(*inp_links) == built(
                links0,
                numbering0,
                layer,
                i as nat,
                senders@,
                fresh@,
                start as int,
            ).links,
            numbering@ == built(
                links0,
                numbering0,
                layer,
                i as nat,
                senders@,
                fresh@,
                start as int,
            ).numbering,
            ids@ == built(links0, numbering0, layer, i as nat, senders@, fresh@, start as int).ids,
            cursor == built(links0, numbering0, layer, i as nat, senders@, fresh@, start as int).used,
        decreases count - i,
    {
        proof {
            lemma_built(links0, numbering0, layer, i as nat, senders@, fresh@, start as int);
            lemma_weights_for_grows((i + 1) as nat, count as nat, senders@.len());
            assert(weights_for((i + 1) as nat, senders@.len()) == weights_for(
                i as nat,
                senders@.len(),
            ) + senders@.len() + 1);
            assert(cursor + senders@.len() + 1 <= fresh@.len());
        }
        let id = numbering.assign(layer, i + 1);
        let ghost wanted = fresh_links(senders@, fresh@, cursor as int);
        let mut list: Vec<Link> = Vec::new();
        list.push((0, fresh[cursor]));
        let mut k: usize = 0;
        while k < senders.len()
            invariant
                k <= senders@.len(),
                supply == fresh@.len(),
                cursor + senders@.len() + 1 <= fresh@.len(),
                wanted == fresh_links(senders@, fresh@, cursor as int),
                list@ == wanted.take(k + 1),
            decreases senders@.len() - k,
        {
            list.push((senders[k], fresh[cursor + 1 + k]));
            proof {
                assert(wanted.take(k + 2) =~= wanted.take(k + 1).push(wanted[k + 1]));
            }
            k += 1;
        }
        proof {
            assert(wanted.take(senders@.len() as int + 1) =~= wanted);
        }
        links_put(inp_links, id, list);
        ids.push(id);
        cursor = cursor + senders.len() + 1;
        i += 1;
    }
    proof {
        lemma_built(links0, numbering0, layer, count as nat, senders@, fresh@, start as int);
    }
    (ids, cursor)
}

/// Whether a layer can be appended: there is a last layer to take the shape
/// from, and the layers can still be counted.
pub open spec fn can_append(net: Net) -> bool {
    0 < net.layers.len() < usize::MAX
}

/// How many weights appending a layer needs.
pub open spec fn append_weights(net: Net) -> int {
    weights_for(net.layers.last().len(), net.layers.last().len())
}

/// What appending a layer builds: as many neurons as the last layer has,
/// each receiving from every neuron of it.
pub open spec fn append_built(net: Net, numbering: NumberingView, fresh: Seq<u32>) -> Built {
    built(
        net.links,
        numbering,
        (net.layers.len() + 1) as usize,
        net.layers.last().len(),
        net.layers.last(),
        fresh,
        0,
    )
}

/// The network once a layer was appended.
pub open spec fn appended(net: Net, numbering: NumberingView, fresh: Seq<u32>) -> Net {
    let made = append_built(net, numbering, fresh);
    Net { links: made.links, layers: net.layers.push(sorted_ids(made.ids)) }
}

/// Appends a layer of the shape of the last one. Says whether the network
/// changed.
pub fn append_layer(
    inp_links: &mut HashMap<usize, Vec<Link>>,
    neurons: &mut Vec<Vec<usize>>,
    numbering: &mut NeuronNumbering,
    fresh: &Vec<u32>,
) -> (changed: bool)
    requires
        can_append(net_view(*old(inp_links), *old(neurons))) ==> fresh@.len() == append_weights(
            net_view(*old(inp_links), *old(neurons)),
        ) && old(numbering)@.max_id + old(neurons)@.last()@.len() <= usize::MAX,
    ensures
        changed == can_append(net_view(*old(inp_links), *old(neurons))),
        net_view(*final(inp_links), *final(neurons)) == if changed {
            appended(net_view(*old(inp_links), *old(neurons)), old(numbering)@, fresh@)
        } else {
            net_view(*old(inp_links), *old(neurons))
        },
        final(numbering)@ == if changed {
            append_built(net_view(*old(inp_links), *old(neurons)), old(numbering)@, fresh@).numbering
        } else {
            old(numbering)@
        },
{
    let ghost net = net_view(*inp_links, *neurons);
    let depth = neurons.len();
    if depth == 0 || depth == usize::MAX {
        return false;
    }
    proof {
        assert(net.layers.last() == neurons@.last()@);
    }
    let senders = copy_ids(&neurons[depth - 1]);
    let (mut ids, _) = build_layer(inp_links, numbering, depth + 1, senders.len(), &senders, fresh, 0);
    sort_layer(&mut ids);
    neurons.push(ids);
    proof {
        assert(layers_view(*neurons) =~= appended(net, old(numbering)@, fresh@).layers);
    }
    true
}

/// Among the layers between the first and the one at `upto`, the one with
/// the fewest neurons, the first of them where several have as few. Layers
/// are given by their place in the list, the first layer at place zero.
pub open spec fn slimmest(layers: Seq<Seq<usize>>, upto: int) -> int
    decreases upto,
{
    if upto <= 2 {
        1
    } else {
        let best = slimmest(layers, upto - 1);
        if layers[upto - 1].len() < layers[best].len() {
            upto - 1
        } else {
            best
        }
    }
}

/// The slimmest layer lies within its range, no layer of the range has
/// fewer neurons, and every layer before it has more.
pub proof fn lemma_slimmest(layers: Seq<Seq<usize>>, upto: int)
    requires
        2 <= upto <= layers.len(),
    ensures
        1 <= slimmest(layers, upto) < upto,
        forall|j: int| 1 <= j < upto ==> layers[slimmest(layers, upto)].len() <= (#[trigger] layers[j]).len(),
        forall|j: int|
            1 <= j < slimmest(layers, upto) ==> layers[slimmest(layers, upto)].len() < (
            #[trigger] layers[j]).len(),
    decreases upto,
{
    if upto > 2 {
        lemma_slimmest(layers, upto - 1);
    }
}

/// The place of the layer that is given up when a network shrinks by one
/// layer: the slimmest between the first and the last.
pub fn slimmest_layer(neurons: &Vec<Vec<usize>>) -> (place: usize)
    requires
        neurons@.len() >= 3,
    ensures
        place == slimmest(layers_view(*neurons), neurons@.len() - 1),
        1 <= place < neurons@.len() - 1,
        forall|j: int|
            1 <= j < neurons@.len() - 1 ==> neurons@[place as int]@.len() <= (#[trigger] neurons@[j])@.len(),
        forall|j: int| 1 <= j < place ==> neurons@[place as int]@.len() < (#[trigger] neurons@[j])@.len(),
{
    let ghost layers = layers_view(*neurons);
    proof {
        lemma_slimmest(layers, neurons@.len() - 1);
        assert forall|j: int| 1 <= j < neurons@.len() - 1 implies layers[j] == (
        #[trigger] neurons@[j])@ by {}
    }
    let mut best: usize = 1;
    let mut j: usize = 2;
    while j < neurons.len() - 1
        invariant
            2 <= j <= neurons@.len() - 1,
            layers == layers_view(*neurons),
            best == slimmest(layers, j as int),
            1 <= best < j,
        decreases neurons@.len() - j,
    {
        proof {
            assert(layers[j as int] == neurons@[j as int]@);
            assert(layers[best as int] == neurons@[best as int]@);
        }
        if neurons[j].len() < neurons[best].len() {
            best = j;
        }
        j += 1;
    }
    best
}

/// What rebuilding leaves: the links, the numbering, the layers, and the
/// place in the supply of weights after the last one used.
pub struct Rebuilt {
    pub links: Map<usize, Seq<Link>>,
    pub numbering: NumberingView,
    pub layers: Seq<Seq<usize>>,
    pub used: int,
}

/// Rebuilds the layers at the places from `from` up to `upto`: each gets as
/// many new neurons as the layer after it has, numbered for its place, with
/// new links from the layer before it as that layer then is.
pub open spec fn rebuilt(net: Net, numbering: NumberingView, fresh: Seq<u32>, from: int, upto: int) -> Rebuilt
    decreases upto - from,
{
    if upto <= from {
        Rebuilt { links: net.links, numbering, layers: net.layers, used: 0 }
    } else {
        let before = rebuilt(net, numbering, fresh, from, upto - 1);
        let place = upto - 1;
        let made = built(
            before.links,
            before.numbering,
            (place + 1) as usize,
            before.layers[place + 1].len(),
            before.layers[place - 1],
            fresh,
            before.used,
        );
        Rebuilt {
            links: made.links,
            numbering: made.numbering,
            layers: before.layers.update(place, made.ids),
            used: made.used,
        }
    }
}

/// How many weights rebuilding the layers from `from` up to `upto` needs.
pub open spec fn rebuild_weights(layers: Seq<Seq<usize>>, from: int, upto: int) -> int
    decreases upto - from,
{
    if upto <= from {
        0
    } else {
        let place = upto - 1;
        let senders = if place == from {
            layers[place - 1].len()
        } else {
            layers[place].len()
        };
        rebuild_weights(layers, from, upto - 1) + weights_for(layers[place + 1].len(), senders)
    }
}

/// How many weights giving up the layer numbered `layer` needs.
pub open spec fn collapse_weights(net: Net, layer: usize) -> int {
    rebuild_weights(net.layers, layer - 1, net.layers.len() - 1)
}

/// The network once the layer numbered `layer` was given up: every layer
/// from there on is rebuilt in the shape of the one after it, and the last
/// layer is dropped.
pub open spec fn collapsed(net: Net, numbering: NumberingView, fresh: Seq<u32>, layer: usize) -> Net {
    let left = rebuilt(net, numbering, fresh, layer - 1, net.layers.len() - 1);
    Net { links: left.links, layers: sorted_layers(left.layers.drop_last()) }
}

/// Rebuilding leaves the number of layers, gives every rebuilt layer the
/// size of the one that followed it, leaves the other layers alone, and uses
/// the weights that it was said to need.
pub(crate) proof fn lemma_rebuilt(net: Net, numbering: NumberingView, fresh: Seq<u32>, from: int, upto: int)
    requires
        1 <= from <= upto < net.layers.len(),
        numbering.max_id + rebuild_weights(net.layers, from, upto) <= usize::MAX,
    ensures
        rebuilt(net, numbering, fresh, from, upto).layers.len() == net.layers.len(),
        forall|j: int|
            from <= j < upto ==> (#[trigger] rebuilt(net, numbering, fresh, from, upto).layers[j]).len()
                == net.layers[j + 1].len(),
        forall|j: int|
            0 <= j < net.layers.len() && !(from <= j < upto) ==> #[trigger] rebuilt(
                net,
                numbering,
                fresh,
                from,
                upto,
            ).layers[j] == net.layers[j],
        rebuilt(net, numbering, fresh, from, upto).used == rebuild_weights(net.layers, from, upto),
        rebuild_weights(net.layers, from, upto) >= 0,
        numbering.max_id <= rebuilt(net, numbering, fresh, from, upto).numbering.max_id
            <= numbering.max_id + rebuild_weights(net.layers, from, upto),
    decreases upto - from,
{
    if upto > from {
        let place = upto - 1;
        let senders = if place == from {
            net.layers[place - 1].len()
        } else {
            net.layers[place].len()
        };
        lemma_count_within_weights(net.layers[place + 1].len(), senders);
        lemma_rebuilt(net, numbering, fresh, from, upto - 1);
        let before = rebuilt(net, numbering, fresh, from, upto - 1);
        assert(before.layers[place + 1] == net.layers[place + 1]);
        assert(before.layers[place - 1].len() == senders);
        lemma_built(
            before.links,
            before.numbering,
            (place + 1) as usize,
            before.layers[place + 1].len(),
            before.layers[place - 1],
            fresh,
            before.used,
        );
    }
}

/// Sorting keeps the number of ids.
pub proof fn lemma_sorted_len(ids: Seq<usize>)
    ensures
        sorted_ids(ids).len() == ids.len(),
{
    broadcast use vstd::seq_lib::group_to_multiset_ensures;

    ids.lemma_sort_by_ensures(crate::chromosome::at_most());
    assert(sorted_ids(ids).to_multiset().len() == ids.to_multiset().len());
}

/// A network that gave up a layer has a layer less; the layers before the
/// one given up are as they were, sorted, and every layer from there on has
/// as many neurons as the layer that followed it.
pub proof fn lemma_collapsed_shape(net: Net, numbering: NumberingView, fresh: Seq<u32>, layer: usize)
    requires
        2 <= layer < net.layers.len(),
        numbering.max_id + collapse_weights(net, layer) <= usize::MAX,
    ensures
        collapsed(net, numbering, fresh, layer).layers.len() == net.layers.len() - 1,
        forall|j: int|
            0 <= j < layer - 1 ==> #[trigger] collapsed(net, numbering, fresh, layer).layers[j]
                == sorted_ids(net.layers[j]),
        forall|j: int|
            layer - 1 <= j < net.layers.len() - 1 ==> (#[trigger] collapsed(
                net,
                numbering,
                fresh,
                layer,
            ).layers[j]).len() == net.layers[j + 1].len(),
{
    let left = rebuilt(net, numbering, fresh, layer - 1, net.layers.len() - 1);
    lemma_rebuilt(net, numbering, fresh, layer - 1, net.layers.len() - 1);
    let after = collapsed(net, numbering, fresh, layer).layers;
    assert forall|j: int| 0 <= j < layer - 1 implies #[trigger] after[j] == sorted_ids(net.layers[j]) by {
        assert(left.layers.drop_last()[j] == left.layers[j]);
        assert(left.layers[j] == net.layers[j]);
    }
    assert forall|j: int| layer - 1 <= j < net.layers.len() - 1 implies (#[trigger] after[j]).len()
        == net.layers[j + 1].len() by {
        assert(left.layers.drop_last()[j] == left.layers[j]);
        assert(left.layers[j].len() == net.layers[j + 1].len());
        lemma_sorted_len(left.layers[j]);
    }
}

/// Every new neuron needs a weight at least.
pub(crate) proof fn lemma_count_within_weights(count: nat, senders: nat)
    ensures
        weights_for(count, senders) >= count,
    decreases count,
{
    if count > 0 {
        lemma_count_within_weights((count - 1) as nat, senders);
    }
}

/// Gives up the layer numbered `layer`, which is neither the first nor the
/// last: every layer from there on is rebuilt in the shape of the one after
/// it, with new links from the layer before it, and the last layer is
/// dropped. All layers are sorted in the end.
pub fn collapse_layer(
    inp_links: &mut HashMap<usize, Vec<Link>>,
    neurons: &mut Vec<Vec<usize>>,
    numbering: &mut NeuronNumbering,
    layer: usize,
    fresh: &Vec<u32>,
)
    requires
        2 <= layer < old(neurons)@.len(),
        fresh@.len() == collapse_weights(net_view(*old(inp_links), *old(neurons)), layer),
        old(numbering)@.max_id + fresh@.len() <= usize::MAX,
    ensures
        net_view(*final(inp_links), *final(neurons)) == collapsed(
            net_view(*old(inp_links), *old(neurons)),
            old(numbering)@,
            fresh@,
            layer,
        ),
        final(numbering)@ == rebuilt(
            net_view(*old(inp_links), *old(neurons)),
            old(numbering)@,
            fresh@,
            layer - 1,
            old(neurons)@.len() - 1,
        ).numbering,
{
    let ghost net = net_view(*inp_links, *neurons);
    let ghost numbering0 = numbering@;
    let ghost from = layer - 1;
    let depth = neurons.len();
    let mut cursor: usize = 0;
    let mut place: usize = layer - 1;
    while place < depth - 1
        invariant
            1 <= from <= place <= depth - 1,
            depth == net.layers.len(),
            neurons@.len() == depth,
            fresh@.len() == rebuild_weights(net.layers, from, depth - 1),
            numbering0.max_id + fresh@.len() <= usize::MAX,
            links_view(*inp_links) == rebuilt(net, numbering0, fresh@, from, place as int).links,
            numbering@ == rebuilt(net, numbering0, fresh@, from, place as int).numbering,
            layers_view(*neurons) == rebuilt(net, numbering0, fresh@, from, place as int).layers,
            cursor == rebuilt(net, numbering0, fresh@, from, place as int).used,
        decreases depth - place,
    {
        let ghost before = rebuilt(net, numbering0, fresh@, from, place as int);
        proof {
            lemma_rebuild_weights_grow(net.layers, from, place as int, depth - 1);
            lemma_rebuild_weights_grow(net.layers, from, place + 1, depth - 1);
            lemma_rebuilt(net, numbering0, fresh@, from, place as int);
            lemma_rebuilt(net, numbering0, fresh@, from, place + 1);
            assert(before.layers[place + 1] == neurons@[place + 1]@);
            assert(before.layers[place - 1] == neurons@[place - 1]@);
            lemma_count_within_weights(
                before.layers[place + 1].len(),
                before.layers[place - 1].len(),
            );
        }
        let count = neurons[place + 1].len();
        let senders = copy_ids(&neurons[place - 1]);
        let (ids, next) = build_layer(inp_links, numbering, place + 1, count, &senders, fresh, cursor);
        neurons[place] = ids;
        proof {
            assert(layers_view(*neurons) =~= before.layers.update(place as int, ids@));
        }
        cursor = next;
        place += 1;
    }
    neurons.pop();
    proof {
        let left = rebuilt(net, numbering0, fresh@, from, depth - 1);
        assert(layers_view(*neurons) =~= left.layers.drop_last());
    }
    sort_layers(neurons);
}

/// Rebuilding more layers needs more weights.
pub(crate) proof fn lemma_rebuild_weights_grow(layers: Seq<Seq<usize>>, from: int, fewer: int, more: int)
    requires
        from <= fewer <= more,
    ensures
        rebuild_weights(layers, from, fewer) <= rebuild_weights(layers, from, more),
    decreases more - fewer,
{
    if fewer < more {
        lemma_rebuild_weights_grow(layers, from, fewer, more - 1);
        let place = more - 1;
        let senders = if place == from {
            layers[place - 1].len()
        } else {
            layers[place].len()
        };
        lemma_weights_for_grows(0, layers[place + 1].len(), senders);
    }
}

} // verus!
