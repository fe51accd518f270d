//! The numbering of neurons that a whole population shares during one
//! structural pass.
//!
//! A neuron that is added as the `p`-th of layer `l` gets the id that the
//! numbering holds for `(l, p)`, or a new id above every id in use where it
//! holds none. Two genomes that grow in the same place thus agree on the id,
//! and a later recombination can still align their genes.

use vstd::prelude::*;
use std::collections::HashMap;

verus! {

/// What a numbering holds: the id of each place that has one, by layer and
/// position in the layer, and the highest id handed out or seen.
pub struct NumberingView {
    pub table: Map<(usize, usize), usize>,
    pub max_id: usize,
}

/// The ids by place, and the highest id in use.
pub struct NeuronNumbering {
    ids: HashMap<u128, usize>,
    max_id: usize,
}

/// The key under which the place `(layer, position)` is kept.
pub closed spec fn slot(layer: usize, position: usize) -> u128 {
    (layer * 0x1_0000_0000_0000_0000 + position) as u128
}

proof fn lemma_slot_distinct(l1: usize, p1: usize, l2: usize, p2: usize)
    ensures
        slot(l1, p1) == slot(l2, p2) <==> (l1 == l2 && p1 == p2),
{
    assert(l1 * 0x1_0000_0000_0000_0000 + p1 <= u128::MAX);
    assert(l2 * 0x1_0000_0000_0000_0000 + p2 <= u128::MAX);
}

fn slot_key(layer: usize, position: usize) -> (key: u128)
    ensures
        key == slot(layer, position),
{
    (layer as u128) * 0x1_0000_0000_0000_0000u128 + (position as u128)
}

/// The id that a neuron added at `(layer, position)` gets: the one that the
/// numbering holds for the place, or the next above the highest in use.
pub open spec fn id_for(numbering: NumberingView, layer: usize, position: usize) -> int {
    if numbering.table.contains_key((layer, position)) {
        numbering.table[(layer, position)] as int
    } else {
        numbering.max_id + 1
    }
}

/// The highest id in use once a neuron was numbered at `(layer, position)`.
pub open spec fn max_after(numbering: NumberingView, layer: usize, position: usize) -> int {
    if numbering.table.contains_key((layer, position)) {
        numbering.max_id as int
    } else {
        numbering.max_id + 1
    }
}

/// The numbering once a neuron was numbered at `(layer, position)` and the
/// place recorded.
pub open spec fn assigned(numbering: NumberingView, layer: usize, position: usize) -> NumberingView {
    NumberingView {
        table: numbering.table.insert((layer, position), id_for(numbering, layer, position) as usize),
        max_id: max_after(numbering, layer, position) as usize,
    }
}

impl View for NeuronNumbering {
    type V = NumberingView;

    closed spec fn view(&self) -> NumberingView {
        NumberingView {
            table: Map::new(
                |place: (usize, usize)| self.ids@.contains_key(slot(place.0, place.1)),
                |place: (usize, usize)| self.ids@[slot(place.0, place.1)],
            ),
            max_id: self.max_id,
        }
    }
}

impl NeuronNumbering {
    /// A numbering that holds no place and has seen no id.
    pub fn new() -> (numbering: Self)
        ensures
            numbering@.table == Map::<(usize, usize), usize>::empty(),
            numbering@.max_id == 0,
    {
        let numbering = Self { ids: HashMap::new(), max_id: 0 };
        proof {
            assert(numbering@.table =~= Map::<(usize, usize), usize>::empty());
        }
        numbering
    }

    /// The id held for `(layer, position)`.
    pub fn get(&self, layer: usize, position: usize) -> (id: Option<usize>)
        ensures
            id == if self@.table.contains_key((layer, position)) {
                Some(self@.table[(layer, position)])
            } else {
                None::<usize>
            },
    {
        broadcast use vstd::std_specs::hash::group_hash_axioms;
        let key = slot_key(layer, position);
        match self.ids.get(&key) {
            Some(id) => Some(*id),
            None => None,
        }
    }

    /// Records `id` for `(layer, position)`, in place of what was held there.
    pub fn insert(&mut self, layer: usize, position: usize, id: usize)
        ensures
            final(self)@.table == old(self)@.table.insert((layer, position), id),
            final(self)@.max_id == old(self)@.max_id,
    {
        broadcast use vstd::std_specs::hash::group_hash_axioms;
        let key = slot_key(layer, position);
        self.ids.insert(key, id);
        proof {
            let before = old(self)@.table;
            let after = self@.table;
            assert forall|place: (usize, usize)| #[trigger]
                after.contains_key(place) <==> before.insert((layer, position), id).contains_key(
                    place,
                ) by {
                lemma_slot_distinct(place.0, place.1, layer, position);
            }
            assert forall|place: (usize, usize)| #[trigger] after.contains_key(place) implies after[place]
                == before.insert((layer, position), id)[place] by {
                lemma_slot_distinct(place.0, place.1, layer, position);
            }
            assert(after =~= before.insert((layer, position), id));
        }
    }

    /// The highest id handed out or seen.
    pub fn max_id(&self) -> (id: usize)
        ensures
            id == self@.max_id,
    {
        self.max_id
    }

    /// Takes note of an id in use.
    pub fn note(&mut self, id: usize)
        ensures
            final(self)@.table == old(self)@.table,
            final(self)@.max_id == if id > old(self)@.max_id {
                id
            } else {
                old(self)@.max_id
            },
    {
        if id > self.max_id {
            self.max_id = id;
        }
    }

    /// Whether a neuron can be numbered at `(layer, position)`: the place
    /// holds an id, or a new one is left.
    pub open spec fn can_number(&self, layer: usize, position: usize) -> bool {
        self@.table.contains_key((layer, position)) || self@.max_id < usize::MAX
    }

    /// The id for a neuron added at `(layer, position)`: the one held for
    /// the place, else a new one, which raises the highest id in use. The
    /// place is not recorded.
    pub fn lookup_or_mint(&mut self, layer: usize, position: usize) -> (id: usize)
        requires
            old(self).can_number(layer, position),
        ensures
            id == id_for(old(self)@, layer, position),
            final(self)@.table == old(self)@.table,
            final(self)@.max_id == max_after(old(self)@, layer, position),
    {
        match self.get(layer, position) {
            Some(id) => id,
            None => {
                self.max_id = self.max_id + 1;
                self.max_id
            },
        }
    }

    /// Numbers a neuron at `(layer, position)` and records the place.
    pub fn assign(&mut self, layer: usize, position: usize) -> (id: usize)
        requires
            old(self).can_number(layer, position),
        ensures
            id == id_for(old(self)@, layer, position),
            final(self)@ == assigned(old(self)@, layer, position),
    {
        let id = self.lookup_or_mint(layer, position);
        self.insert(layer, position, id);
        id
    }
}

/// Two neurons numbered at the same place get the same id, whatever was
/// numbered at other places or at this one in between.
pub proof fn lemma_same_place_same_id(
    numbering: NumberingView,
    layer: usize,
    position: usize,
    between: Seq<(usize, usize)>,
)
    requires
        numbering.max_id + between.len() + 2 <= usize::MAX,
    ensures
        id_for(assigned_all(assigned(numbering, layer, position), between), layer, position)
            == id_for(numbering, layer, position),
{
    let first = assigned(numbering, layer, position);
    lemma_assigned_all_keeps(first, between, layer, position);
}

/// The numbering once a neuron was numbered at each of `places` in turn.
pub open spec fn assigned_all(numbering: NumberingView, places: Seq<(usize, usize)>) -> NumberingView
    decreases places.len(),
{
    if places.len() == 0 {
        numbering
    } else {
        let before = assigned_all(numbering, places.drop_last());
        assigned(before, places.last().0, places.last().1)
    }
}

/// A place that holds an id keeps it through later numberings.
pub(crate) proof fn lemma_assigned_all_keeps(
    numbering: NumberingView,
    places: Seq<(usize, usize)>,
    layer: usize,
    position: usize,
)
    requires
        numbering.table.contains_key((layer, position)),
        numbering.max_id + places.len() <= usize::MAX,
    ensures
        assigned_all(numbering, places).table.contains_key((layer, position)),
        assigned_all(numbering, places).table[(layer, position)] == numbering.table[(
            layer,
            position,
        )],
        assigned_all(numbering, places).max_id <= numbering.max_id + places.len(),
    decreases places.len(),
{
    if places.len() > 0 {
        lemma_assigned_all_keeps(numbering, places.drop_last(), layer, position);
    }
}

} // verus!
