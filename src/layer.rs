//! One imagery layer: its source, its request queue, its slot table and the
//! cells known to have no tile. All completions of the fetch workers and
//! all view changes go through here.
use vstd::prelude::*;
use crate::cell::Cell;
use crate::source::{SourceDescriptor, ImageFormat};
use crate::queue::{lemma_base_only, RequestQueue, RequestKey, TileQuery, Priority, Enqueued, QueueModel, has_key, key_at, enqueue_post, is_next, ready};
use crate::cache::{touched_spec, SlotTable, Slot, Admission, resident, insert_post, contains_cell, pin_rule};
use crate::decode::{decode, TileImage, Calibration, MAX_TILE_SIZE, decode_array_spec, has_signature};
use crate::index::{wanted_cells, wanted_visible, wanted_ancestors};

verus! {

/// Consecutive failures after which a tile is given up as missing.
pub const MAX_FAILURES: u32 = 3;

/// Back-off per failure before a request may be issued again, in ms.
pub const BACKOFF_MS: u64 = 1000;

/// Number of root cells, whose tiles form the base set of a layer.
pub const NUM_BASE: u64 = 12;

/// What a fetch worker reports for one request.
#[derive(Clone, Debug)]
pub enum FetchOutcome {
    /// The server sent this payload.
    Payload(Vec<u8>),
    /// The server has no tile for the cell.
    Missing,
    /// Network error, error status or timeout.
    Failed,
}

/// What became of a completed request.
#[derive(Clone, Debug)]
pub enum Completion {
    /// No request with that identity was in flight.
    NotInFlight,
    /// The layer's source changed since the request was issued.
    Discarded,
    /// The cell is no longer wanted by the view.
    Stale,
    /// The cell has no tile (said by the server, undecodable, or given up).
    Missing,
    /// The request went back to the queue after a transient failure.
    Retrying { not_before: u64 },
    /// Every slot is pinned: the request went back to the queue, to be issued
    /// again after the back-off.
    Deferred,
    /// The tile was placed in `slot`; `image` is to be uploaded there.
    Stored { slot: usize, admission: Admission, image: TileImage },
}

/// Base request for root cell `i` of generation `g`.
pub open spec fn base_query(i: int, g: u64, now: u64) -> TileQuery {
    TileQuery {
        key: RequestKey { cell: Cell { depth: 0, index: i as u64 }, generation: g },
        priority: Priority::Base,
        created: now,
        not_before: now,
        failures: 0,
    }
}

pub open spec fn base_queries(g: u64, now: u64) -> Seq<TileQuery> {
    Seq::new(NUM_BASE as nat, |i: int| base_query(i, g, now))
}

/// The slots hold the same cells.
pub open spec fn same_occupants(s: Seq<Slot>, t: Seq<Slot>) -> bool {
    s.len() == t.len() && forall|i: int| 0 <= i < s.len() ==> (#[trigger] t[i]).occupant == s[i].occupant
}

pub proof fn lemma_same_occupants_resident(s: Seq<Slot>, t: Seq<Slot>, c: Cell)
    requires
        same_occupants(s, t),
    ensures
        resident(s, c) == resident(t, c),
{
    if resident(s, c) {
        let i = choose|i: int| crate::cache::holds(s, i, c);
        assert(crate::cache::holds(t, i, c));
    }
    if resident(t, c) {
        let i = choose|i: int| crate::cache::holds(t, i, c);
        assert(crate::cache::holds(s, i, c));
    }
}

/// Tile engine state of one layer.
pub struct TileLayer {
    pub source: SourceDescriptor,
    /// Bumped whenever the source changes; requests carry it.
    pub generation: u64,
    pub queue: RequestQueue,
    pub table: SlotTable,
    /// Cells resolved as having no tile.
    pub missing: Vec<Cell>,
    /// Calibration of the first scientific tile decoded.
    pub calibration: Option<Calibration>,
    /// Most requests in flight at once.
    pub max_in_flight: usize,
    /// Visible cells of the current view.
    pub view_visible: Vec<Cell>,
    /// Ancestor prefetches of the current view.
    pub view_ancestors: Vec<Cell>,
}

impl TileLayer {
    pub open spec fn wf(&self) -> bool {
        &&& self.queue.wf()
        &&& self.table.wf()
        &&& self.source.tile_size <= MAX_TILE_SIZE
        &&& forall|i: int| 0 <= i < self.queue@.pending.len() ==> (#[trigger] self.queue@.pending[i]).key.generation == self.generation
        &&& forall|i: int| 0 <= i < self.queue@.in_flight.len() ==> (#[trigger] self.queue@.in_flight[i]).key.generation <= self.generation
    }

    pub open spec fn key_of(&self, c: Cell) -> RequestKey {
        RequestKey { cell: c, generation: self.generation }
    }

    /// A completed tile for `c` is still worth storing.
    pub open spec fn relevant(&self, c: Cell) -> bool {
        c.depth == 0 || self.view_visible@.contains(c) || self.view_ancestors@.contains(c)
    }

    /// Whether a cell is resident or known to have no tile.
    pub open spec fn resolved(&self, c: Cell) -> bool {
        resident(self.table@, c) || self.missing@.contains(c)
    }

    /// Queues the base set for the current generation on an empty queue.
    fn enqueue_base(&mut self, now: u64)
        requires
            old(self).wf(),
            old(self).queue@.pending.len() == 0,
            forall|i: int| 0 <= i < old(self).queue@.in_flight.len() ==> (#[trigger] old(self).queue@.in_flight[i]).key.generation < old(self).generation,
        ensures
            final(self).wf(),
            final(self).queue@.pending == base_queries(old(self).generation, now),
            final(self).queue@.in_flight == old(self).queue@.in_flight,
            final(self).table == old(self).table,
            final(self).missing == old(self).missing,
            final(self).generation == old(self).generation,
            final(self).source == old(self).source,
            final(self).calibration == old(self).calibration,
            final(self).max_in_flight == old(self).max_in_flight,
            final(self).view_visible == old(self).view_visible,
            final(self).view_ancestors == old(self).view_ancestors,
    {
        let mut i: u64 = 0;
        while i < NUM_BASE
            invariant
                self.wf(),
                i <= NUM_BASE,
                self.queue@.pending == Seq::new(i as nat, |k: int| base_query(k, self.generation, now)),
                self.queue@.in_flight == old(self).queue@.in_flight,
                forall|k: int| 0 <= k < self.queue@.in_flight.len() ==> (#[trigger] self.queue@.in_flight[k]).key.generation < self.generation,
                self.table == old(self).table,
                self.missing == old(self).missing,
                self.generation == old(self).generation,
                self.source == old(self).source,
                self.calibration == old(self).calibration,
                self.max_in_flight == old(self).max_in_flight,
                self.view_visible == old(self).view_visible,
                self.view_ancestors == old(self).view_ancestors,
            decreases NUM_BASE - i,
        {
            let key = RequestKey { cell: Cell { depth: 0, index: i }, generation: self.generation };
            let ghost s = self.queue@;
            proof {
                assert(!has_key(s.in_flight, key)) by {
                    if has_key(s.in_flight, key) {
                        let k = choose|k: int| key_at(s.in_flight, k, key);
                        assert(s.in_flight[k].key.generation < self.generation);
                    }
                }
                assert(!has_key(s.pending, key)) by {
                    if has_key(s.pending, key) {
                        let k = choose|k: int| key_at(s.pending, k, key);
                        assert(s.pending[k] == base_query(k, self.generation, now));
                    }
                }
            }
            self.queue.enqueue(key, Priority::Base, now);
            i = i + 1;
            proof {
                assert(self.queue@.pending =~= Seq::new(i as nat, |k: int| base_query(k, self.generation, now)));
            }
        }
    }

    /// A layer on `source` with `capacity` slots; its base set is queued.
    pub fn new(source: SourceDescriptor, capacity: usize, max_in_flight: usize, now: u64) -> (r: TileLayer)
        requires
            source.tile_size <= MAX_TILE_SIZE,
        ensures
            r.wf(),
            r.source == source,
            r.generation == 0,
            r.queue@.pending == base_queries(0, now),
            r.queue@.in_flight.len() == 0,
            r.table@ == Seq::new(capacity as nat, |i: int| Slot::empty_spec()),
            r.missing@.len() == 0,
            r.calibration is None,
            r.max_in_flight == max_in_flight,
            r.view_visible@.len() == 0,
            r.view_ancestors@.len() == 0,
    {
        let mut layer = TileLayer {
            source,
            generation: 0,
            queue: RequestQueue::new(),
            table: SlotTable::new(capacity),
            missing: Vec::new(),
            calibration: None,
            max_in_flight,
            view_visible: Vec::new(),
            view_ancestors: Vec::new(),
        };
        layer.enqueue_base(now);
        layer
    }

    /// Switches the layer to a new source: every cached tile and pending
    /// request is dropped, requests in flight will be discarded when they
    /// complete, and the base set is queued again.
    pub fn set_source(&mut self, source: SourceDescriptor, now: u64)
        requires
            old(self).wf(),
            source.tile_size <= MAX_TILE_SIZE,
            old(self).generation < u64::MAX,
        ensures
            final(self).wf(),
            final(self).source == source,
            final(self).generation == old(self).generation + 1,
            final(self).queue@.pending == base_queries(final(self).generation, now),
            final(self).queue@.in_flight == old(self).queue@.in_flight,
            final(self).table@ == Seq::new(old(self).table@.len(), |i: int| Slot::empty_spec()),
            final(self).missing@.len() == 0,
            final(self).calibration is None,
            final(self).max_in_flight == old(self).max_in_flight,
    {
        self.source = source;
        self.generation = self.generation + 1;
        self.queue.clear();
        self.table.clear();
        self.missing = Vec::new();
        self.calibration = None;
        self.enqueue_base(now);
    }

    /// Asks for one wanted cell: touches it when resident, skips it when
    /// known missing, else queues it.
    fn want(&mut self, c: Cell, p: Priority, now: u64)
        requires
            old(self).wf(),
        ensures
            final(self).wf(),
            final(self).table@ == touched_spec(old(self).table@, c, now),
            final(self).queue@.in_flight == old(self).queue@.in_flight,
            old(self).resolved(c) ==> final(self).queue@ == old(self).queue@,
            !old(self).resolved(c) ==> exists|r: Enqueued| enqueue_post(old(self).queue@, final(self).queue@, old(self).key_of(c), p, now, r),
            final(self).missing == old(self).missing,
            final(self).generation == old(self).generation,
            final(self).source == old(self).source,
            final(self).calibration == old(self).calibration,
            final(self).max_in_flight == old(self).max_in_flight,
            final(self).view_visible == old(self).view_visible,
            final(self).view_ancestors == old(self).view_ancestors,
    {
        if self.table.touch(&c, now) {
            return;
        }
        if contains_cell(&self.missing, &c) {
            return;
        }
        let key = RequestKey { cell: c, generation: self.generation };
        let ghost s = self.queue@;
        let r = self.queue.enqueue(key, p, now);
        proof {
            assert(s == old(self).queue@);
            assert(key == old(self).key_of(c));
            assert(enqueue_post(old(self).queue@, self.queue@, old(self).key_of(c), p, now, r));
            assert forall|i: int| 0 <= i < self.queue@.pending.len() implies (#[trigger] self.queue@.pending[i]).key.generation == self.generation by {
                if i < s.pending.len() {
                    assert(s.pending[i].key.generation == self.generation);
                }
            }
        }
    }

    /// Takes in a new view: computes its wanted cells from the visible ones,
    /// repins the slots, refreshes the resident wanted tiles, drops the
    /// pending requests of the previous view (base requests stay), and queues
    /// every wanted cell that is neither resident nor known missing: visible
    /// cells in the visible class, then prefetches in the ancestor class.
    pub fn request_view(&mut self, visible: &Vec<Cell>, min_depth: u8, now: u64)
        requires
            old(self).wf(),
            forall|i: int| 0 <= i < visible@.len() ==> (#[trigger] visible@[i]).valid(),
        ensures
            final(self).wf(),
            viewed(*old(self), *final(self), visible@, min_depth, now),
    {
        let ghost t_in = self.table@;
        let ghost m_in = self.missing@;
        let ghost g_in = self.generation;
        let ghost pend_in = self.queue@.pending;
        self.queue.retain_base();
        proof {
            lemma_base_only(pend_in, self.queue@.in_flight);
            assert forall|i: int| 0 <= i < self.queue@.pending.len() implies (#[trigger] self.queue@.pending[i]).key.generation == self.generation by {
                let j = choose|j: int| 0 <= j < pend_in.len() && pend_in[j] == self.queue@.pending[i];
            }
        }
        let w = wanted_cells(visible, min_depth);
        let ghost vis = w.visible@;
        let ghost anc = w.ancestors@;
        self.table.set_pins(&w.visible, 0);
        let ghost s0 = self.table@;
        let ghost q0 = self.queue@;
        proof {
            assert(same_occupants(t_in, s0));
            assert forall|i: int| 0 <= i < q0.pending.len() implies class_ok(#[trigger] q0.pending[i], pend_in, g_in, t_in, m_in, vis, anc) by {}
            assert(s0 =~= Seq::new(s0.len(), |x: int| refresh(s0[x], Seq::<Cell>::empty(), now)));
        }
        self.view_visible = w.visible;
        self.view_ancestors = w.ancestors;
        let n = self.view_visible.len();
        let mut i: usize = 0;
        while i < n
            invariant
                self.wf(),
                n == self.view_visible@.len(),
                i <= n,
                self.view_visible@ == vis,
                self.view_ancestors@ == anc,
                vis == wanted_visible(visible@),
                anc == wanted_ancestors(visible@, min_depth),
                same_occupants(t_in, self.table@),
                self.table@ == Seq::new(s0.len(), |x: int| refresh(s0[x], vis.subrange(0, i as int), now)),
                self.queue@.in_flight == q0.in_flight,
                self.missing@ == m_in,
                self.generation == g_in,
                self.source == old(self).source,
                self.calibration == old(self).calibration,
                self.max_in_flight == old(self).max_in_flight,
                forall|k: int| 0 <= k < self.queue@.pending.len() ==> class_ok(#[trigger] self.queue@.pending[k], pend_in, g_in, t_in, m_in, vis, anc),
                forall|j: int| 0 <= j < pend_in.len() && (#[trigger] pend_in[j]).priority == Priority::Base ==> self.queue@.pending.contains(pend_in[j]),
                forall|k: int| 0 <= k < i ==> !resolved_in(t_in, m_in, #[trigger] vis[k]) ==> self.queue@.contains(key_in(g_in, vis[k])),
            decreases n - i,
        {
            let c = self.view_visible[i];
            proof {
                lemma_same_occupants_resident(t_in, self.table@, c);
            }
            let ghost qb = self.queue@;
            let ghost tb = self.table@;
            let ghost res_c = self.resolved(c);
            proof {
                assert(res_c == resolved_in(t_in, m_in, c));
                assert(vis.contains(c)) by { assert(vis[i as int] == c); }
            }
            self.want(c, Priority::Visible, now);
            proof {
                lemma_want_effect(qb, self.queue@, key_in(g_in, c), Priority::Visible, now, res_c);
                lemma_want_classes(qb, self.queue@, c, Priority::Visible, now, res_c, pend_in, g_in, t_in, m_in, vis, anc);
                lemma_refresh_step(s0, vis.subrange(0, i as int), c, now);
                assert(vis.subrange(0, i + 1) =~= vis.subrange(0, i as int).push(c));
                assert forall|x: int| 0 <= x < t_in.len() implies (#[trigger] self.table@[x]).occupant == t_in[x].occupant by {
                    assert(tb[x].occupant == t_in[x].occupant);
                }
                assert forall|k: int| 0 <= k < i + 1 implies !resolved_in(t_in, m_in, #[trigger] vis[k]) ==> self.queue@.contains(key_in(g_in, vis[k])) by {
                    if k < i && !resolved_in(t_in, m_in, vis[k]) {
                        assert(qb.contains(key_in(g_in, vis[k])));
                        lemma_contains_kept(qb, self.queue@, key_in(g_in, vis[k]), key_in(g_in, c), Priority::Visible, now, res_c);
                    }
                }
            }
            i = i + 1;
        }
        let m = self.view_ancestors.len();
        let mut j: usize = 0;
        proof {
            assert(vis.subrange(0, n as int) =~= vis);
            assert(self.table@ =~= Seq::new(s0.len(), |x: int| refresh(s0[x], vis + anc.subrange(0, 0), now))) by {
                assert(vis + anc.subrange(0, 0) =~= vis);
            }
        }
        while j < m
            invariant
                self.wf(),
                n == self.view_visible@.len(),
                m == self.view_ancestors@.len(),
                j <= m,
                self.view_visible@ == vis,
                self.view_ancestors@ == anc,
                vis == wanted_visible(visible@),
                anc == wanted_ancestors(visible@, min_depth),
                same_occupants(t_in, self.table@),
                self.table@ == Seq::new(s0.len(), |x: int| refresh(s0[x], vis + anc.subrange(0, j as int), now)),
                self.queue@.in_flight == q0.in_flight,
                self.missing@ == m_in,
                self.generation == g_in,
                self.source == old(self).source,
                self.calibration == old(self).calibration,
                self.max_in_flight == old(self).max_in_flight,
                forall|k: int| 0 <= k < self.queue@.pending.len() ==> class_ok(#[trigger] self.queue@.pending[k], pend_in, g_in, t_in, m_in, vis, anc),
                forall|k: int| 0 <= k < pend_in.len() && (#[trigger] pend_in[k]).priority == Priority::Base ==> self.queue@.pending.contains(pend_in[k]),
                forall|k: int| 0 <= k < n ==> !resolved_in(t_in, m_in, #[trigger] vis[k]) ==> self.queue@.contains(key_in(g_in, vis[k])),
                forall|k: int| 0 <= k < j ==> !resolved_in(t_in, m_in, #[trigger] anc[k]) ==> self.queue@.contains(key_in(g_in, anc[k])),
            decreases m - j,
        {
            let c = self.view_ancestors[j];
            proof {
                lemma_same_occupants_resident(t_in, self.table@, c);
            }
            let ghost qb = self.queue@;
            let ghost tb = self.table@;
            let ghost res_c = self.resolved(c);
            proof {
                assert(res_c == resolved_in(t_in, m_in, c));
                assert(anc.contains(c)) by { assert(anc[j as int] == c); }
            }
            self.want(c, Priority::Ancestor, now);
            proof {
                lemma_want_effect(qb, self.queue@, key_in(g_in, c), Priority::Ancestor, now, res_c);
                lemma_want_classes(qb, self.queue@, c, Priority::Ancestor, now, res_c, pend_in, g_in, t_in, m_in, vis, anc);
                lemma_refresh_step(s0, vis + anc.subrange(0, j as int), c, now);
                assert(vis + anc.subrange(0, j + 1) =~= (vis + anc.subrange(0, j as int)).push(c));
                assert forall|x: int| 0 <= x < t_in.len() implies (#[trigger] self.table@[x]).occupant == t_in[x].occupant by {
                    assert(tb[x].occupant == t_in[x].occupant);
                }
                assert forall|k: int| 0 <= k < n implies !resolved_in(t_in, m_in, #[trigger] vis[k]) ==> self.queue@.contains(key_in(g_in, vis[k])) by {
                    if !resolved_in(t_in, m_in, vis[k]) {
                        lemma_contains_kept(qb, self.queue@, key_in(g_in, vis[k]), key_in(g_in, c), Priority::Ancestor, now, res_c);
                    }
                }
                assert forall|k: int| 0 <= k < j + 1 implies !resolved_in(t_in, m_in, #[trigger] anc[k]) ==> self.queue@.contains(key_in(g_in, anc[k])) by {
                    if k < j && !resolved_in(t_in, m_in, anc[k]) {
                        assert(qb.contains(key_in(g_in, anc[k])));
                        lemma_contains_kept(qb, self.queue@, key_in(g_in, anc[k]), key_in(g_in, c), Priority::Ancestor, now, res_c);
                    }
                }
            }
            j = j + 1;
        }
        proof {
            assert(anc.subrange(0, m as int) =~= anc);
            assert forall|x: int| 0 <= x < t_in.len() implies #[trigger] self.table@[x] == view_slot(t_in[x], vis, anc, now) by {
                let a = s0[x];
                match a.occupant {
                    Some(d) => {
                        assert((vis + anc).contains(d) <==> (vis.contains(d) || anc.contains(d))) by {
                            if (vis + anc).contains(d) {
                                let k = choose|k: int| 0 <= k < (vis + anc).len() && (vis + anc)[k] == d;
                                if k < vis.len() {
                                    assert(vis[k] == d);
                                } else {
                                    assert(anc[k - vis.len()] == d);
                                }
                            }
                            if vis.contains(d) {
                                let k = choose|k: int| 0 <= k < vis.len() && vis[k] == d;
                                assert((vis + anc)[k] == d);
                            }
                            if anc.contains(d) {
                                let k = choose|k: int| 0 <= k < anc.len() && anc[k] == d;
                                assert((vis + anc)[vis.len() + k] == d);
                            }
                        }
                    },
                    None => {},
                }
            }
            assert(self.table@ =~= Seq::new(t_in.len(), |x: int| view_slot(t_in[x], vis, anc, now)));
            assert forall|c: Cell|
                (vis.contains(c) || anc.contains(c)) && !resolved_in(t_in, m_in, c)
                    implies #[trigger] self.queue@.contains(key_in(g_in, c)) by {
                if vis.contains(c) {
                    let k = choose|k: int| 0 <= k < n && vis[k] == c;
                } else {
                    let k = choose|k: int| 0 <= k < m && anc[k] == c;
                }
            }
            crate::index::lemma_without_excludes(crate::index::ancestors_of(vis, min_depth), vis);
            assert forall|i: int|
                0 <= i < self.queue@.pending.len() && (#[trigger] self.queue@.pending[i]).priority == Priority::Ancestor
                    implies !vis.contains(self.queue@.pending[i].key.cell) by {
                assert(class_ok(self.queue@.pending[i], pend_in, g_in, t_in, m_in, vis, anc));
            }
        }
    }

    /// Issues the next request when fewer than `max_in_flight` are in
    /// flight: the request moves to in flight and its URL is returned.
    pub fn issue(&mut self, now: u64) -> (r: Option<(TileQuery, Vec<u8>)>)
        requires
            old(self).wf(),
        ensures
            final(self).wf(),
            issued(*old(self), *final(self), now, r),
    {
        if self.queue.in_flight_len() >= self.max_in_flight {
            return None;
        }
        let ghost s = self.queue@;
        match self.queue.next(now) {
            None => None,
            Some(q) => {
                proof {
                    let i = choose|i: int|
                        is_next(s.pending, i, now) && q == s.pending[i] && self.queue@.pending == s.pending.remove(i)
                            && self.queue@.in_flight == s.in_flight.push(q);
                    assert(s.pending[i].key.generation == self.generation);
                    assert forall|j: int| 0 <= j < self.queue@.pending.len() implies (#[trigger] self.queue@.pending[j]).key.generation == self.generation by {
                        if j < i {
                            assert(self.queue@.pending[j] == s.pending[j]);
                        } else {
                            assert(self.queue@.pending[j] == s.pending[j + 1]);
                        }
                    }
                    assert forall|j: int| 0 <= j < self.queue@.in_flight.len() implies (#[trigger] self.queue@.in_flight[j]).key.generation <= self.generation by {
                        if j < s.in_flight.len() {
                            assert(self.queue@.in_flight[j] == s.in_flight[j]);
                        }
                    }
                }
                let url = self.source.tile_url(&q.key.cell);
                Some((q, url))
            },
        }
    }

    fn mark_missing(&mut self, c: Cell)
        ensures
            final(self).missing@ == missing_add(old(self).missing@, c),
            final(self).queue == old(self).queue,
            final(self).table == old(self).table,
            final(self).generation == old(self).generation,
            final(self).source == old(self).source,
            final(self).calibration == old(self).calibration,
            final(self).max_in_flight == old(self).max_in_flight,
            final(self).view_visible == old(self).view_visible,
            final(self).view_ancestors == old(self).view_ancestors,
    {
        if !contains_cell(&self.missing, &c) {
            self.missing.push(c);
        }
    }

    /// Handles what a worker reported for the request `key`.
    pub fn complete(&mut self, key: RequestKey, outcome: FetchOutcome, now: u64) -> (r: Completion)
        requires
            old(self).wf(),
        ensures
            final(self).wf(),
            completed(*old(self), *final(self), key, outcome, now, r),
    {
        let ghost s = self.queue@;
        let q = match self.queue.complete(&key) {
            None => return Completion::NotInFlight,
            Some(q) => q,
        };
        let ghost after = self.queue@;
        proof {
            assert forall|j: int| 0 <= j < self.queue@.in_flight.len() implies (#[trigger] self.queue@.in_flight[j]).key.generation <= self.generation by {
                let i = choose|i: int| key_at(s.in_flight, i, key) && q == s.in_flight[i] && self.queue@.in_flight == s.in_flight.remove(i);
                if j < i {
                    assert(self.queue@.in_flight[j] == s.in_flight[j]);
                } else {
                    assert(self.queue@.in_flight[j] == s.in_flight[j + 1]);
                }
            }
        }
        if key.generation != self.generation {
            return Completion::Discarded;
        }
        let c = key.cell;
        match outcome {
            FetchOutcome::Missing => {
                self.mark_missing(c);
                Completion::Missing
            },
            FetchOutcome::Failed => {
                if q.failures >= MAX_FAILURES - 1 {
                    self.mark_missing(c);
                    Completion::Missing
                } else {
                    let failures = q.failures + 1;
                    let delay = BACKOFF_MS * failures as u64;
                    let not_before = if now > u64::MAX - delay {
                        u64::MAX
                    } else {
                        now + delay
                    };
                    self.queue.requeue(TileQuery { failures, not_before, ..q });
                    proof {
                        self.lemma_pending_generation(after, TileQuery { failures, not_before, ..q });
                    }
                    Completion::Retrying { not_before }
                }
            },
            FetchOutcome::Payload(bytes) => {
                if !(c.depth == 0 || contains_cell(&self.view_visible, &c) || contains_cell(&self.view_ancestors, &c)) {
                    return Completion::Stale;
                }
                match decode(bytes.as_slice(), self.source.format, self.source.tile_size) {
                    Err(_) => {
                        self.mark_missing(c);
                        Completion::Missing
                    },
                    Ok(image) => {
                        match &image {
                            TileImage::Array { calibration, .. } => {
                                if self.calibration.is_none() {
                                    self.calibration = Some(*calibration);
                                }
                            },
                            TileImage::Raster { .. } => {},
                        }
                        let pin = c.depth == 0 || contains_cell(&self.view_visible, &c);
                        let admission = self.table.insert(c, now, pin);
                        match admission {
                            Admission::Deferred => {
                                let not_before = if now > u64::MAX - BACKOFF_MS {
                                    u64::MAX
                                } else {
                                    now + BACKOFF_MS
                                };
                                self.queue.requeue(TileQuery { not_before, ..q });
                                proof {
                                    self.lemma_pending_generation(after, TileQuery { not_before, ..q });
                                }
                                Completion::Deferred
                            },
                            Admission::Touched(slot) => Completion::Stored { slot, admission, image },
                            Admission::Filled(slot) => Completion::Stored { slot, admission, image },
                            Admission::Evicted { slot, .. } => Completion::Stored { slot, admission, image },
                        }
                    },
                }
            },
        }
    }

    proof fn lemma_pending_generation(&self, before: QueueModel, q: TileQuery)
        requires
            q.key.generation == self.generation,
            forall|i: int| 0 <= i < before.pending.len() ==> (#[trigger] before.pending[i]).key.generation == self.generation,
            self.queue@.pending == before.pending.push(q),
        ensures
            forall|i: int| 0 <= i < self.queue@.pending.len() ==> (#[trigger] self.queue@.pending[i]).key.generation == self.generation,
    {
        assert forall|i: int| 0 <= i < self.queue@.pending.len() implies (#[trigger] self.queue@.pending[i]).key.generation == self.generation by {
            if i < before.pending.len() {
                assert(self.queue@.pending[i] == before.pending[i]);
            }
        }
    }

    /// Resident visible tiles and their slots, for the renderer.
    pub fn snapshot(&self) -> (r: Vec<(Cell, usize)>)
        ensures
            r@ == crate::cache::snapshot_spec(self.table@, self.view_visible@),
    {
        self.table.snapshot(&self.view_visible)
    }
}

/// `missing` with `c` added once.
pub open spec fn missing_add(missing: Seq<Cell>, c: Cell) -> Seq<Cell> {
    if missing.contains(c) {
        missing
    } else {
        missing.push(c)
    }
}

/// When the request may be retried after its `failures`-th failure.
pub open spec fn retry_time(now: u64, failures: u32) -> u64 {
    if now + BACKOFF_MS * failures > u64::MAX {
        u64::MAX
    } else {
        (now + BACKOFF_MS * failures) as u64
    }
}

/// Whether `p` decodes in format `f` into `image`.
pub open spec fn decoded_as(p: Seq<u8>, f: ImageFormat, tile_size: u32, image: TileImage) -> bool {
    if f.is_raster() {
        has_signature(p, f) && (image matches TileImage::Raster { format, bytes } && format == f && bytes@ == p)
    } else {
        match decode_array_spec(p, tile_size) {
            Ok((t, px, cal)) => image matches TileImage::Array { pixel, width, pixels, calibration } && pixel == t
                && width == tile_size && pixels@ == px && calibration == cal,
            Err(_) => false,
        }
    }
}

pub open spec fn decodes(p: Seq<u8>, f: ImageFormat, tile_size: u32) -> bool {
    if f.is_raster() {
        has_signature(p, f)
    } else {
        decode_array_spec(p, tile_size) is Ok
    }
}

/// The layer keeps its table, missing cells and calibration.
pub open spec fn cache_untouched(s: TileLayer, t: TileLayer) -> bool {
    &&& t.table@ == s.table@
    &&& t.missing@ == s.missing@
    &&& t.calibration == s.calibration
}

/// How completing in-flight request `q` with `outcome` takes layer `s`
/// (with `q` already out of flight) to `t`, answering `r`.
pub open spec fn complete_post(s: TileLayer, t: TileLayer, q: TileQuery, outcome: FetchOutcome, now: u64, r: Completion) -> bool {
    let c = q.key.cell;
    if q.key.generation != s.generation {
        r is Discarded && cache_untouched(s, t) && t.queue@.pending == s.queue@.pending
    } else {
        match outcome {
            FetchOutcome::Missing => {
                &&& r is Missing
                &&& t.missing@ == missing_add(s.missing@, c)
                &&& t.table@ == s.table@
                &&& t.calibration == s.calibration
                &&& t.queue@.pending == s.queue@.pending
            },
            FetchOutcome::Failed => if q.failures >= MAX_FAILURES - 1 {
                &&& r is Missing
                &&& t.missing@ == missing_add(s.missing@, c)
                &&& t.table@ == s.table@
                &&& t.calibration == s.calibration
                &&& t.queue@.pending == s.queue@.pending
            } else {
                let nb = retry_time(now, (q.failures + 1) as u32);
                &&& r == Completion::Retrying { not_before: nb }
                &&& cache_untouched(s, t)
                &&& t.queue@.pending == s.queue@.pending.push(TileQuery { failures: (q.failures + 1) as u32, not_before: nb, ..q })
            },
            FetchOutcome::Payload(bytes) => if !s.relevant(c) {
                r is Stale && cache_untouched(s, t) && t.queue@.pending == s.queue@.pending
            } else if !decodes(bytes@, s.source.format, s.source.tile_size) {
                &&& r is Missing
                &&& t.missing@ == missing_add(s.missing@, c)
                &&& t.table@ == s.table@
                &&& t.calibration == s.calibration
                &&& t.queue@.pending == s.queue@.pending
            } else {
                let pin = c.depth == 0 || s.view_visible@.contains(c);
                &&& t.missing@ == s.missing@
                &&& (s.calibration is Some ==> t.calibration == s.calibration)
                &&& match r {
                    Completion::Deferred => {
                        &&& insert_post(s.table@, t.table@, c, now, pin, Admission::Deferred)
                        &&& t.queue@.pending == s.queue@.pending.push(TileQuery { not_before: retry_time(now, 1), ..q })
                    },
                    Completion::Stored { slot, admission, image } => {
                        &&& insert_post(s.table@, t.table@, c, now, pin, admission)
                        &&& admission != Admission::Deferred
                        &&& (admission matches Admission::Touched(k) ==> k == slot)
                        &&& (admission matches Admission::Filled(k) ==> k == slot)
                        &&& (admission matches Admission::Evicted { slot: k, .. } ==> k == slot)
                        &&& decoded_as(bytes@, s.source.format, s.source.tile_size, image)
                        &&& t.queue@.pending == s.queue@.pending
                        &&& (s.calibration is None ==> t.calibration == match image {
                            TileImage::Array { calibration, .. } => Some(calibration),
                            TileImage::Raster { .. } => None,
                        })
                    },
                    _ => false,
                }
            },
        }
    }
}

/// How `request_view(vis_in, min_depth, now)` takes layer `s` to `t`.
pub open spec fn viewed(s: TileLayer, t: TileLayer, vis_in: Seq<Cell>, min_depth: u8, now: u64) -> bool {
    &&& (t.view_visible@ == wanted_visible(vis_in))
    &&& (t.view_ancestors@ == wanted_ancestors(vis_in, min_depth))
    &&& (t.table@ == Seq::new(
        s.table@.len(),
        |i: int| view_slot(s.table@[i], wanted_visible(vis_in), wanted_ancestors(vis_in, min_depth), now),
    ))
    &&& (t.queue@.in_flight == s.queue@.in_flight)
    &&& (t.missing@ == s.missing@)
    &&& (t.generation == s.generation)
    &&& (t.source == s.source)
    &&& (t.calibration == s.calibration)
    &&& (t.max_in_flight == s.max_in_flight)
    &&& (forall|j: int|
            0 <= j < s.queue@.pending.len() && (#[trigger] s.queue@.pending[j]).priority == Priority::Base
                ==> t.queue@.pending.contains(s.queue@.pending[j]))
    &&& (forall|i: int|
            0 <= i < t.queue@.pending.len() ==> class_ok(
                #[trigger] t.queue@.pending[i],
                s.queue@.pending,
                s.generation,
                s.table@,
                s.missing@,
                wanted_visible(vis_in),
                wanted_ancestors(vis_in, min_depth),
            ))
    &&& (forall|i: int|
            0 <= i < t.queue@.pending.len() && (#[trigger] t.queue@.pending[i]).priority == Priority::Ancestor
                ==> !wanted_visible(vis_in).contains(t.queue@.pending[i].key.cell))
    &&& (forall|c: Cell|
            (wanted_visible(vis_in).contains(c) || wanted_ancestors(vis_in, min_depth).contains(c)) && !s.resolved(c)
                ==> #[trigger] t.queue@.contains(s.key_of(c)))
}

/// How `issue(now)` takes layer `s` to `t`, answering `r`.
pub open spec fn issued(s: TileLayer, t: TileLayer, now: u64, r: Option<(TileQuery, Vec<u8>)>) -> bool {
    &&& t.table == s.table
    &&& t.missing == s.missing
    &&& t.generation == s.generation
    &&& t.source == s.source
    &&& t.calibration == s.calibration
    &&& t.max_in_flight == s.max_in_flight
    &&& t.view_visible == s.view_visible
    &&& t.view_ancestors == s.view_ancestors
    &&& s.queue@.in_flight.len() >= s.max_in_flight ==> r is None
    &&& s.queue@.in_flight.len() < s.max_in_flight ==> (r is None <==> forall|j: int|
        0 <= j < s.queue@.pending.len() ==> !ready(#[trigger] s.queue@.pending[j], now))
    &&& r is None ==> t.queue@ == s.queue@
    &&& r is Some ==> {
        let (q, url) = r->0;
        &&& exists|i: int|
            is_next(s.queue@.pending, i, now) && q == s.queue@.pending[i] && t.queue@.pending == s.queue@.pending.remove(i)
                && t.queue@.in_flight == s.queue@.in_flight.push(q)
        &&& url@ == s.source.tile_url_spec(q.key.cell)
    }
}

/// How `complete(key, outcome, now)` takes layer `s` to `t`, answering `r`.
pub open spec fn completed(s: TileLayer, t: TileLayer, key: RequestKey, outcome: FetchOutcome, now: u64, r: Completion) -> bool {
    &&& t.source == s.source
    &&& t.generation == s.generation
    &&& t.max_in_flight == s.max_in_flight
    &&& !has_key(s.queue@.in_flight, key) ==> r is NotInFlight && t.queue@ == s.queue@ && cache_untouched(s, t)
    &&& has_key(s.queue@.in_flight, key) ==> exists|i: int|
        key_at(s.queue@.in_flight, i, key) && t.queue@.in_flight == s.queue@.in_flight.remove(i) && complete_post(
            s,
            t,
            s.queue@.in_flight[i],
            outcome,
            now,
            r,
        )
}

/// `s` touched at `now` when its occupant is one of `cells`.
pub open spec fn refresh(s: Slot, cells: Seq<Cell>, now: u64) -> Slot {
    match s.occupant {
        Some(c) => if cells.contains(c) {
            Slot { last_touch: now, ..s }
        } else {
            s
        },
        None => s,
    }
}

/// Slot `s` after a view with visible cells `vis` and prefetches `anc`:
/// pinned by the view, and touched at `now` when it holds a wanted cell.
pub open spec fn view_slot(s: Slot, vis: Seq<Cell>, anc: Seq<Cell>, now: u64) -> Slot {
    Slot {
        occupant: s.occupant,
        pinned: pin_rule(s, vis, 0),
        last_touch: match s.occupant {
            Some(c) => if vis.contains(c) || anc.contains(c) {
                now
            } else {
                s.last_touch
            },
            None => s.last_touch,
        },
    }
}

/// A pending request after a view change: a base request from before, or a
/// request of the current generation for an unresolved wanted cell, in the
/// class of that cell.
pub open spec fn class_ok(
    q: TileQuery,
    before: Seq<TileQuery>,
    g: u64,
    t: Seq<Slot>,
    m: Seq<Cell>,
    vis: Seq<Cell>,
    anc: Seq<Cell>,
) -> bool {
    match q.priority {
        Priority::Base => before.contains(q),
        Priority::Visible => q.key == key_in(g, q.key.cell) && vis.contains(q.key.cell) && !resolved_in(t, m, q.key.cell),
        Priority::Ancestor => q.key == key_in(g, q.key.cell) && anc.contains(q.key.cell) && !resolved_in(t, m, q.key.cell),
    }
}

proof fn lemma_refresh_step(s0: Seq<Slot>, pre: Seq<Cell>, c: Cell, now: u64)
    ensures
        touched_spec(Seq::new(s0.len(), |x: int| refresh(s0[x], pre, now)), c, now) =~= Seq::new(
            s0.len(),
            |x: int| refresh(s0[x], pre.push(c), now),
        ),
{
    let a = Seq::new(s0.len(), |x: int| refresh(s0[x], pre, now));
    assert forall|x: int| 0 <= x < s0.len() implies #[trigger] touched_spec(a, c, now)[x] == refresh(s0[x], pre.push(c), now) by {
        match s0[x].occupant {
            Some(d) => {
                assert(pre.push(c).contains(d) <==> (pre.contains(d) || d == c)) by {
                    if pre.push(c).contains(d) {
                        let k = choose|k: int| 0 <= k < pre.push(c).len() && pre.push(c)[k] == d;
                        if k < pre.len() {
                            assert(pre[k] == d);
                        }
                    }
                    if pre.contains(d) {
                        let k = choose|k: int| 0 <= k < pre.len() && pre[k] == d;
                        assert(pre.push(c)[k] == d);
                    }
                    if d == c {
                        assert(pre.push(c)[pre.len() as int] == d);
                    }
                }
            },
            None => {},
        }
    }
}

/// Queuing a wanted cell in its class keeps every pending request in its
/// class, and keeps the base requests.
proof fn lemma_want_classes(
    s: QueueModel,
    t: QueueModel,
    c: Cell,
    p: Priority,
    now: u64,
    resolved: bool,
    before: Seq<TileQuery>,
    g: u64,
    tt: Seq<Slot>,
    m: Seq<Cell>,
    vis: Seq<Cell>,
    anc: Seq<Cell>,
)
    requires
        forall|k: int| 0 <= k < s.pending.len() ==> class_ok(#[trigger] s.pending[k], before, g, tt, m, vis, anc),
        resolved ==> t == s,
        !resolved ==> exists|r: Enqueued| enqueue_post(s, t, key_in(g, c), p, now, r),
        resolved == resolved_in(tt, m, c),
        p == Priority::Visible ==> vis.contains(c),
        p == Priority::Ancestor ==> anc.contains(c),
        p != Priority::Base,
    ensures
        forall|k: int| 0 <= k < t.pending.len() ==> class_ok(#[trigger] t.pending[k], before, g, tt, m, vis, anc),
        forall|k: int| 0 <= k < s.pending.len() && (#[trigger] s.pending[k]).priority == Priority::Base ==> t.pending.contains(s.pending[k]),
{
    let key = key_in(g, c);
    if resolved {
        assert forall|k: int| 0 <= k < s.pending.len() && (#[trigger] s.pending[k]).priority == Priority::Base implies t.pending.contains(s.pending[k]) by {
            assert(t.pending[k] == s.pending[k]);
        }
    } else {
        let r = choose|r: Enqueued| enqueue_post(s, t, key, p, now, r);
        if has_key(s.in_flight, key) {
            assert forall|k: int| 0 <= k < s.pending.len() && (#[trigger] s.pending[k]).priority == Priority::Base implies t.pending.contains(s.pending[k]) by {
                assert(t.pending[k] == s.pending[k]);
            }
        } else if has_key(s.pending, key) {
            let i = choose|i: int|
                key_at(s.pending, i, key) && if p.rank_spec() > s.pending[i].priority.rank_spec() {
                    r == Enqueued::Promoted && t.pending == s.pending.update(i, TileQuery { priority: p, ..s.pending[i] })
                } else {
                    r == Enqueued::Ignored && t.pending == s.pending
                };
            assert forall|k: int| 0 <= k < t.pending.len() implies class_ok(#[trigger] t.pending[k], before, g, tt, m, vis, anc) by {
                if k != i {
                    assert(t.pending[k] == s.pending[k]);
                } else {
                    assert(class_ok(s.pending[k], before, g, tt, m, vis, anc));
                }
            }
            assert forall|k: int| 0 <= k < s.pending.len() && (#[trigger] s.pending[k]).priority == Priority::Base implies t.pending.contains(s.pending[k]) by {
                if k != i {
                    assert(t.pending[k] == s.pending[k]);
                } else {
                    assert(t.pending[k] == s.pending[k]);
                }
            }
        } else {
            assert forall|k: int| 0 <= k < t.pending.len() implies class_ok(#[trigger] t.pending[k], before, g, tt, m, vis, anc) by {
                if k < s.pending.len() {
                    assert(t.pending[k] == s.pending[k]);
                }
            }
            assert forall|k: int| 0 <= k < s.pending.len() && (#[trigger] s.pending[k]).priority == Priority::Base implies t.pending.contains(s.pending[k]) by {
                assert(t.pending[k] == s.pending[k]);
            }
        }
    }
}

pub open spec fn resolved_in(t: Seq<Slot>, missing: Seq<Cell>, c: Cell) -> bool {
    resident(t, c) || missing.contains(c)
}

pub open spec fn key_in(g: u64, c: Cell) -> RequestKey {
    RequestKey { cell: c, generation: g }
}

/// What `want` does to the queue, seen from a key: a resolved cell leaves
/// the queue as it was, an unresolved one ends with a live request.
proof fn lemma_want_effect(s: QueueModel, t: QueueModel, key: RequestKey, p: Priority, now: u64, resolved: bool)
    requires
        resolved ==> t == s,
        !resolved ==> exists|r: Enqueued| enqueue_post(s, t, key, p, now, r),
    ensures
        !resolved ==> t.contains(key),
        forall|k: RequestKey| #[trigger] has_key(t.pending, k) ==> has_key(s.pending, k) || (k == key && !resolved),
{
    if !resolved {
        let r = choose|r: Enqueued| enqueue_post(s, t, key, p, now, r);
        if has_key(s.in_flight, key) {
        } else if has_key(s.pending, key) {
            let i = choose|i: int|
                key_at(s.pending, i, key) && if p.rank_spec() > s.pending[i].priority.rank_spec() {
                    r == Enqueued::Promoted && t.pending == s.pending.update(i, TileQuery { priority: p, ..s.pending[i] })
                } else {
                    r == Enqueued::Ignored && t.pending == s.pending
                };
            assert(key_at(t.pending, i, key));
            assert forall|k: RequestKey| #[trigger] has_key(t.pending, k) implies has_key(s.pending, k) by {
                let j = choose|j: int| key_at(t.pending, j, k);
                assert(key_at(s.pending, j, k));
            }
        } else {
            assert(key_at(t.pending, s.pending.len() as int, key));
            assert forall|k: RequestKey| #[trigger] has_key(t.pending, k) implies has_key(s.pending, k) || k == key by {
                let j = choose|j: int| key_at(t.pending, j, k);
                if j < s.pending.len() {
                    assert(key_at(s.pending, j, k));
                }
            }
        }
    }
}

/// A live request stays live across `want`.
proof fn lemma_contains_kept(s: QueueModel, t: QueueModel, k: RequestKey, key: RequestKey, p: Priority, now: u64, resolved: bool)
    requires
        s.contains(k),
        resolved ==> t == s,
        !resolved ==> exists|r: Enqueued| enqueue_post(s, t, key, p, now, r),
    ensures
        t.contains(k),
{
    if !resolved {
        let r = choose|r: Enqueued| enqueue_post(s, t, key, p, now, r);
        if has_key(s.pending, k) {
            let j = choose|j: int| key_at(s.pending, j, k);
            if has_key(s.in_flight, key) {
            } else if has_key(s.pending, key) {
                let i = choose|i: int|
                    key_at(s.pending, i, key) && if p.rank_spec() > s.pending[i].priority.rank_spec() {
                        r == Enqueued::Promoted && t.pending == s.pending.update(i, TileQuery { priority: p, ..s.pending[i] })
                    } else {
                        r == Enqueued::Ignored && t.pending == s.pending
                    };
                assert(key_at(t.pending, j, k));
            } else {
                assert(key_at(t.pending, j, k));
            }
        }
    }
}

} // verus!
