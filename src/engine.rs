//! The set of layers. Each has an identity; a completion is routed to its
//! layer, and one whose layer was removed is dropped.
use vstd::prelude::*;
use crate::queue::{RequestKey, TileQuery};
use crate::source::SourceDescriptor;
use crate::decode::MAX_TILE_SIZE;
use crate::layer::{TileLayer, FetchOutcome, Completion, completed, issued, viewed, base_queries};
use crate::cache::Slot;
use crate::cell::Cell;

verus! {

/// Identity of a layer.
pub type LayerId = u64;

pub open spec fn unique_ids(s: Seq<(LayerId, TileLayer)>) -> bool {
    forall|i: int, j: int| 0 <= i < s.len() && 0 <= j < s.len() && i != j ==> (#[trigger] s[i]).0 != (#[trigger] s[j]).0
}

/// Index of layer `id` in `s`.
pub open spec fn index_of(s: Seq<(LayerId, TileLayer)>, id: LayerId, i: int) -> bool {
    0 <= i < s.len() && s[i].0 == id
}

pub open spec fn has_layer(s: Seq<(LayerId, TileLayer)>, id: LayerId) -> bool {
    exists|i: int| index_of(s, id, i)
}

/// All layers of the viewer.
pub struct TileEngine {
    layers: Vec<(LayerId, TileLayer)>,
    next_id: LayerId,
}

impl TileEngine {
    /// The layers, in the order they were added.
    pub closed spec fn entries(&self) -> Seq<(LayerId, TileLayer)> {
        self.layers@
    }

    pub closed spec fn next_id_spec(&self) -> LayerId {
        self.next_id
    }

    /// Identities are unique and below the next one; every layer is
    /// well formed (deduplicated queue, no cell in two slots).
    pub open spec fn wf(&self) -> bool {
        &&& unique_ids(self.entries())
        &&& forall|i: int| 0 <= i < self.entries().len() ==> (#[trigger] self.entries()[i]).1.wf()
        &&& forall|i: int| 0 <= i < self.entries().len() ==> (#[trigger] self.entries()[i]).0 < self.next_id_spec()
    }

    pub fn new() -> (r: TileEngine)
        ensures
            r.wf(),
            r.entries().len() == 0,
            r.next_id_spec() == 0,
    {
        TileEngine { layers: Vec::new(), next_id: 0 }
    }

    fn find(&self, id: LayerId) -> (r: Option<usize>)
        ensures
            r is Some <==> has_layer(self.layers@, id),
            r is Some ==> index_of(self.layers@, id, r->0 as int),
    {
        let mut i: usize = 0;
        while i < self.layers.len()
            invariant
                i <= self.layers@.len(),
                forall|j: int| 0 <= j < i ==> !index_of(self.layers@, id, j),
            decreases self.layers@.len() - i,
        {
            if self.layers[i].0 == id {
                proof {
                    assert(index_of(self.layers@, id, i as int));
                }
                return Some(i);
            }
            i = i + 1;
        }
        None
    }

    /// Adds a layer on `source`; its base set is queued. Answers its identity.
    pub fn add_layer(&mut self, source: SourceDescriptor, capacity: usize, max_in_flight: usize, now: u64) -> (id: LayerId)
        requires
            old(self).wf(),
            source.tile_size <= MAX_TILE_SIZE,
            old(self).next_id_spec() < u64::MAX,
        ensures
            final(self).wf(),
            id == old(self).next_id_spec(),
            final(self).next_id_spec() == id + 1,
            final(self).entries().len() == old(self).entries().len() + 1,
            final(self).entries().subrange(0, old(self).entries().len() as int) == old(self).entries(),
            ({
                let (nid, l) = final(self).entries().last();
                &&& nid == id
                &&& l.source == source
                &&& l.generation == 0
                &&& l.queue@.pending == base_queries(0, now)
                &&& l.queue@.in_flight.len() == 0
                &&& l.table@ == Seq::new(capacity as nat, |i: int| Slot::empty_spec())
            }),
    {
        let id = self.next_id;
        let layer = TileLayer::new(source, capacity, max_in_flight, now);
        let ghost before = self.layers@;
        self.layers.push((id, layer));
        self.next_id = id + 1;
        proof {
            assert(self.layers@.subrange(0, before.len() as int) =~= before);
            assert forall|i: int, j: int|
                0 <= i < self.layers@.len() && 0 <= j < self.layers@.len() && i != j implies (#[trigger] self.layers@[i]).0
                    != (#[trigger] self.layers@[j]).0 by {
                if i < before.len() && j < before.len() {
                    assert(self.layers@[i] == before[i] && self.layers@[j] == before[j]);
                } else if i < before.len() {
                    assert(self.layers@[i] == before[i]);
                } else if j < before.len() {
                    assert(self.layers@[j] == before[j]);
                }
            }
            assert forall|i: int| 0 <= i < self.layers@.len() implies (#[trigger] self.layers@[i]).1.wf() && self.layers@[i].0
                < self.next_id by {
                if i < before.len() {
                    assert(self.layers@[i] == before[i]);
                }
            }
        }
        id
    }

    /// Removes layer `id`; its requests in flight become orphans whose
    /// completions are dropped. Answers whether the layer existed.
    pub fn remove_layer(&mut self, id: LayerId) -> (r: bool)
        requires
            old(self).wf(),
        ensures
            final(self).wf(),
            final(self).next_id_spec() == old(self).next_id_spec(),
            r == has_layer(old(self).entries(), id),
            !r ==> final(self).entries() == old(self).entries(),
            r ==> exists|i: int| index_of(old(self).entries(), id, i) && final(self).entries() == old(self).entries().remove(i),
            !has_layer(final(self).entries(), id),
    {
        match self.find(id) {
            None => false,
            Some(i) => {
                let ghost before = self.layers@;
                self.layers.remove(i);
                proof {
                    assert(self.layers@ == before.remove(i as int));
                    lemma_remove_keeps(before, i as int);
                    assert forall|k: int| 0 <= k < self.layers@.len() implies (#[trigger] self.layers@[k]).1.wf() && self.layers@[k].0
                        < self.next_id by {
                        if k < i {
                            assert(self.layers@[k] == before[k]);
                        } else {
                            assert(self.layers@[k] == before[k + 1]);
                        }
                    }
                }
                true
            },
        }
    }

    /// Points layer `id` at a new source: its cached tiles and pending
    /// requests are dropped, its requests in flight will be discarded on
    /// completion, and its base set is queued again. Answers false, changing
    /// nothing, when there is no such layer or its generation is exhausted.
    pub fn set_layer_url(&mut self, id: LayerId, source: SourceDescriptor, now: u64) -> (r: bool)
        requires
            old(self).wf(),
            source.tile_size <= MAX_TILE_SIZE,
        ensures
            final(self).wf(),
            final(self).next_id_spec() == old(self).next_id_spec(),
            final(self).entries().len() == old(self).entries().len(),
            !r ==> final(self).entries() == old(self).entries(),
            r == exists|i: int| index_of(old(self).entries(), id, i) && old(self).entries()[i].1.generation < u64::MAX,
            r ==> exists|i: int|
                {
                    &&& index_of(old(self).entries(), id, i)
                    &&& final(self).entries() == old(self).entries().update(i, (id, final(self).entries()[i].1))
                    &&& ({
                        let (o, l) = (old(self).entries()[i].1, final(self).entries()[i].1);
                        &&& l.source == source
                        &&& l.generation == o.generation + 1
                        &&& l.queue@.pending == base_queries(l.generation, now)
                        &&& l.queue@.in_flight == o.queue@.in_flight
                        &&& l.table@ == Seq::new(o.table@.len(), |k: int| Slot::empty_spec())
                        &&& l.missing@.len() == 0
                        &&& l.calibration is None
                    })
                },
    {
        match self.find(id) {
            None => false,
            Some(i) => {
                if self.layers[i].1.generation == u64::MAX {
                    proof {
                        lemma_index_unique(self.layers@, id, i as int);
                    }
                    return false;
                }
                let ghost before = self.layers@;
                let (lid, mut layer) = self.layers.remove(i);
                layer.set_source(source, now);
                self.layers.insert(i, (lid, layer));
                proof {
                    assert(self.layers@ == before.update(i as int, (id, layer)));
                    lemma_update_keeps(before, i as int, (id, layer));
                    lemma_index_unique(before, id, i as int);
                    assert forall|k: int| 0 <= k < self.layers@.len() implies (#[trigger] self.layers@[k]).1.wf() && self.layers@[k].0
                        < self.next_id by {
                        if k != i {
                            assert(self.layers@[k] == before[k]);
                        }
                    }
                }
                true
            },
        }
    }

    /// Routes what a worker reported for request `key` of layer `id`. A
    /// completion for a removed layer is discarded.
    pub fn complete(&mut self, id: LayerId, key: RequestKey, outcome: FetchOutcome, now: u64) -> (r: Completion)
        requires
            old(self).wf(),
        ensures
            final(self).wf(),
            final(self).next_id_spec() == old(self).next_id_spec(),
            final(self).entries().len() == old(self).entries().len(),
            !has_layer(old(self).entries(), id) ==> r is Discarded && final(self).entries() == old(self).entries(),
            has_layer(old(self).entries(), id) ==> exists|i: int|
                {
                    &&& index_of(old(self).entries(), id, i)
                    &&& final(self).entries() == old(self).entries().update(i, (id, final(self).entries()[i].1))
                    &&& completed(old(self).entries()[i].1, final(self).entries()[i].1, key, outcome, now, r)
                },
    {
        match self.find(id) {
            None => Completion::Discarded,
            Some(i) => {
                let ghost before = self.layers@;
                let (lid, mut layer) = self.layers.remove(i);
                proof {
                    assert(before[i as int] == (lid, layer));
                }
                let r = layer.complete(key, outcome, now);
                self.layers.insert(i, (lid, layer));
                proof {
                    assert(self.layers@ == before.update(i as int, (id, layer)));
                    lemma_update_keeps(before, i as int, (id, layer));
                    assert forall|k: int| 0 <= k < self.layers@.len() implies (#[trigger] self.layers@[k]).1.wf() && self.layers@[k].0
                        < self.next_id by {
                        if k != i {
                            assert(self.layers@[k] == before[k]);
                        }
                    }
                }
                r
            },
        }
    }

    /// Issues the next request of layer `id`, as the layer does.
    pub fn issue(&mut self, id: LayerId, now: u64) -> (r: Option<(TileQuery, Vec<u8>)>)
        requires
            old(self).wf(),
        ensures
            final(self).wf(),
            final(self).next_id_spec() == old(self).next_id_spec(),
            final(self).entries().len() == old(self).entries().len(),
            !has_layer(old(self).entries(), id) ==> r is None && final(self).entries() == old(self).entries(),
            has_layer(old(self).entries(), id) ==> exists|i: int|
                {
                    &&& index_of(old(self).entries(), id, i)
                    &&& final(self).entries() == old(self).entries().update(i, (id, final(self).entries()[i].1))
                    &&& issued(old(self).entries()[i].1, final(self).entries()[i].1, now, r)
                },
    {
        match self.find(id) {
            None => None,
            Some(i) => {
                let ghost before = self.layers@;
                let (lid, mut layer) = self.layers.remove(i);
                let r = layer.issue(now);
                self.layers.insert(i, (lid, layer));
                proof {
                    assert(self.layers@ == before.update(i as int, (id, layer)));
                    lemma_update_keeps(before, i as int, (id, layer));
                    assert forall|k: int| 0 <= k < self.layers@.len() implies (#[trigger] self.layers@[k]).1.wf() && self.layers@[k].0
                        < self.next_id by {
                        if k != i {
                            assert(self.layers@[k] == before[k]);
                        }
                    }
                }
                r
            },
        }
    }

    /// Hands a new view to layer `id`, as the layer takes it. Answers
    /// whether the layer exists.
    pub fn request_view(&mut self, id: LayerId, visible: &Vec<Cell>, min_depth: u8, now: u64) -> (r: bool)
        requires
            old(self).wf(),
            forall|i: int| 0 <= i < visible@.len() ==> (#[trigger] visible@[i]).valid(),
        ensures
            final(self).wf(),
            final(self).next_id_spec() == old(self).next_id_spec(),
            final(self).entries().len() == old(self).entries().len(),
            r == has_layer(old(self).entries(), id),
            !r ==> final(self).entries() == old(self).entries(),
            forall|k: int| 0 <= k < old(self).entries().len() && old(self).entries()[k].0 != id ==> #[trigger] final(self).entries()[k] == old(self).entries()[k],
            forall|k: int|
                0 <= k < old(self).entries().len() && old(self).entries()[k].0 == id ==> viewed(
                    old(self).entries()[k].1,
                    #[trigger] final(self).entries()[k].1,
                    visible@,
                    min_depth,
                    now,
                ),
    {
        match self.find(id) {
            None => {
                proof {
                    assert forall|k: int| 0 <= k < self.layers@.len() && self.layers@[k].0 == id implies false by {
                        assert(index_of(self.layers@, id, k));
                    }
                }
                false
            },
            Some(i) => {
                let ghost before = self.layers@;
                let (lid, mut layer) = self.layers.remove(i);
                layer.request_view(visible, min_depth, now);
                self.layers.insert(i, (lid, layer));
                proof {
                    assert(self.layers@ == before.update(i as int, (id, layer)));
                    lemma_update_keeps(before, i as int, (id, layer));
                    lemma_index_unique(before, id, i as int);
                    assert forall|k: int| 0 <= k < self.layers@.len() implies (#[trigger] self.layers@[k]).1.wf() && self.layers@[k].0
                        < self.next_id by {
                        if k != i {
                            assert(self.layers@[k] == before[k]);
                        }
                    }
                    assert forall|k: int| 0 <= k < before.len() && before[k].0 == id implies k == i by {
                        assert(index_of(before, id, k));
                    }
                }
                true
            },
        }
    }

    /// The layer `id`, if present.
    pub fn layer(&self, id: LayerId) -> (r: Option<&TileLayer>)
        ensures
            r is Some <==> has_layer(self.entries(), id),
            r is Some ==> exists|i: int| index_of(self.entries(), id, i) && *r->0 == self.entries()[i].1,
    {
        match self.find(id) {
            None => None,
            Some(i) => Some(&self.layers[i].1),
        }
    }
}

proof fn lemma_index_unique(s: Seq<(LayerId, TileLayer)>, id: LayerId, i: int)
    requires
        unique_ids(s),
        index_of(s, id, i),
    ensures
        forall|j: int| #[trigger] index_of(s, id, j) ==> j == i,
{
    assert forall|j: int| #[trigger] index_of(s, id, j) implies j == i by {
        if j != i {
            assert(s[j].0 == s[i].0);
        }
    }
}

proof fn lemma_remove_keeps(s: Seq<(LayerId, TileLayer)>, i: int)
    requires
        unique_ids(s),
        0 <= i < s.len(),
    ensures
        unique_ids(s.remove(i)),
        !has_layer(s.remove(i), s[i].0),
{
    let t = s.remove(i);
    assert forall|a: int, b: int| 0 <= a < t.len() && 0 <= b < t.len() && a != b implies (#[trigger] t[a]).0 != (#[trigger] t[b]).0 by {
        let a0 = if a < i { a } else { a + 1 };
        let b0 = if b < i { b } else { b + 1 };
        assert(t[a] == s[a0] && t[b] == s[b0]);
    }
    assert forall|j: int| !index_of(t, s[i].0, j) by {
        if 0 <= j < t.len() {
            let j0 = if j < i { j } else { j + 1 };
            assert(t[j] == s[j0]);
        }
    }
}

proof fn lemma_update_keeps(s: Seq<(LayerId, TileLayer)>, i: int, e: (LayerId, TileLayer))
    requires
        unique_ids(s),
        0 <= i < s.len(),
        e.0 == s[i].0,
    ensures
        unique_ids(s.update(i, e)),
{
    let t = s.update(i, e);
    assert forall|a: int, b: int| 0 <= a < t.len() && 0 <= b < t.len() && a != b implies (#[trigger] t[a]).0 != (#[trigger] t[b]).0 by {
        assert(t[a].0 == s[a].0 && t[b].0 == s[b].0);
    }
}

} // verus!
