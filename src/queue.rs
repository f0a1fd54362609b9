//! Deduplicated, priority-ordered queue of tile requests, with the set of
//! requests that are in flight.
use vstd::prelude::*;
use crate::cell::Cell;

verus! {

/// Why a tile is wanted. Base tiles come first, then visible cells, then
/// speculative ancestor prefetches.
#[derive(Clone, Copy, Debug, PartialEq, Eq, Structural, Hash)]
pub enum Priority {
    Ancestor,
    Visible,
    Base,
}

impl Priority {
    pub open spec fn rank_spec(self) -> nat {
        match self {
            Priority::Ancestor => 0,
            Priority::Visible => 1,
            Priority::Base => 2,
        }
    }

    pub fn rank(&self) -> (r: u8)
        ensures
            r as nat == self.rank_spec(),
    {
        match self {
            Priority::Ancestor => 0,
            Priority::Visible => 1,
            Priority::Base => 2,
        }
    }
}

/// Identity of a request: a cell of one configuration of a layer. The
/// generation changes whenever the layer's source changes.
#[derive(Clone, Copy, Debug, PartialEq, Eq, Structural, Hash)]
pub struct RequestKey {
    pub cell: Cell,
    pub generation: u64,
}

/// A request, pending or in flight.
#[derive(Clone, Copy, Debug, PartialEq, Eq, Structural)]
pub struct TileQuery {
    pub key: RequestKey,
    pub priority: Priority,
    /// When the request was first made.
    pub created: u64,
    /// It may not be issued before this time (back-off after a failure).
    pub not_before: u64,
    /// Consecutive failed attempts so far.
    pub failures: u32,
}

/// What `enqueue` did.
#[derive(Clone, Copy, Debug, PartialEq, Eq, Structural)]
pub enum Enqueued {
    Added,
    /// A pending prefetch was raised to the new, higher priority.
    Promoted,
    /// An equal-identity request was already pending or in flight.
    Ignored,
}

/// Mathematical view of a queue.
pub struct QueueModel {
    /// Not yet issued, oldest first.
    pub pending: Seq<TileQuery>,
    /// Issued and not yet completed.
    pub in_flight: Seq<TileQuery>,
}

pub open spec fn key_at(s: Seq<TileQuery>, i: int, k: RequestKey) -> bool {
    0 <= i < s.len() && s[i].key == k
}

pub open spec fn has_key(s: Seq<TileQuery>, k: RequestKey) -> bool {
    exists|i: int| key_at(s, i, k)
}

/// No two requests share an identity.
pub open spec fn unique_keys(s: Seq<TileQuery>) -> bool {
    forall|i: int, j: int| 0 <= i < s.len() && 0 <= j < s.len() && i != j ==> (#[trigger] s[i]).key != (#[trigger] s[j]).key
}

/// Number of requests of `s` with identity `k`.
pub open spec fn count_key(s: Seq<TileQuery>, k: RequestKey) -> nat
    decreases s.len(),
{
    if s.len() == 0 {
        0
    } else {
        count_key(s.drop_last(), k) + if s.last().key == k {
            1nat
        } else {
            0nat
        }
    }
}

impl QueueModel {
    pub open spec fn all(self) -> Seq<TileQuery> {
        self.pending + self.in_flight
    }

    pub open spec fn contains(self, k: RequestKey) -> bool {
        has_key(self.pending, k) || has_key(self.in_flight, k)
    }
}

pub open spec fn ready(q: TileQuery, now: u64) -> bool {
    q.not_before <= now
}

/// `i` is the pending request to issue at `now`: ready, of the highest
/// priority among ready ones, and the oldest of that priority.
pub open spec fn is_next(s: Seq<TileQuery>, i: int, now: u64) -> bool {
    &&& 0 <= i < s.len()
    &&& ready(s[i], now)
    &&& forall|j: int| 0 <= j < s.len() && ready(#[trigger] s[j], now) ==> s[j].priority.rank_spec() <= s[i].priority.rank_spec()
    &&& forall|j: int| 0 <= j < i && ready(#[trigger] s[j], now) ==> s[j].priority.rank_spec() < s[i].priority.rank_spec()
}

/// How `enqueue(k, p, now)` takes the queue from `s` to `t`.
pub open spec fn enqueue_post(s: QueueModel, t: QueueModel, k: RequestKey, p: Priority, now: u64, r: Enqueued) -> bool {
    &&& t.in_flight == s.in_flight
    &&& if has_key(s.in_flight, k) {
        r == Enqueued::Ignored && t.pending == s.pending
    } else if has_key(s.pending, k) {
        exists|i: int|
            key_at(s.pending, i, k) && if p.rank_spec() > s.pending[i].priority.rank_spec() {
                r == Enqueued::Promoted && t.pending == s.pending.update(i, TileQuery { priority: p, ..s.pending[i] })
            } else {
                r == Enqueued::Ignored && t.pending == s.pending
            }
    } else {
        r == Enqueued::Added && t.pending == s.pending.push(
            TileQuery { key: k, priority: p, created: now, not_before: now, failures: 0 },
        )
    }
}

/// Pending and in-flight requests of one layer.
pub struct RequestQueue {
    pending: Vec<TileQuery>,
    in_flight: Vec<TileQuery>,
}

impl View for RequestQueue {
    type V = QueueModel;

    closed spec fn view(&self) -> QueueModel {
        QueueModel { pending: self.pending@, in_flight: self.in_flight@ }
    }
}

fn find_key(v: &Vec<TileQuery>, k: &RequestKey) -> (r: Option<usize>)
    ensures
        r is Some <==> has_key(v@, *k),
        r is Some ==> key_at(v@, r->0 as int, *k),
{
    let mut i: usize = 0;
    while i < v.len()
        invariant
            i <= v@.len(),
            forall|j: int| 0 <= j < i ==> !key_at(v@, j, *k),
        decreases v@.len() - i,
    {
        if v[i].key == *k {
            proof {
                assert(key_at(v@, i as int, *k));
            }
            return Some(i);
        }
        i = i + 1;
    }
    None
}

impl RequestQueue {
    /// At most one request per identity over pending and in-flight ones.
    pub open spec fn wf(&self) -> bool {
        unique_keys(self@.all())
    }

    pub fn new() -> (r: RequestQueue)
        ensures
            r.wf(),
            r@.pending == Seq::<TileQuery>::empty(),
            r@.in_flight == Seq::<TileQuery>::empty(),
    {
        RequestQueue { pending: Vec::new(), in_flight: Vec::new() }
    }

    pub fn pending_len(&self) -> (r: usize)
        ensures
            r == self@.pending.len(),
    {
        self.pending.len()
    }

    pub fn in_flight_len(&self) -> (r: usize)
        ensures
            r == self@.in_flight.len(),
    {
        self.in_flight.len()
    }

    /// Whether a request with identity `k` is pending or in flight.
    pub fn contains(&self, k: &RequestKey) -> (r: bool)
        ensures
            r == self@.contains(*k),
    {
        find_key(&self.pending, k).is_some() || find_key(&self.in_flight, k).is_some()
    }

    /// Whether a request with identity `k` is in flight.
    pub fn is_in_flight(&self, k: &RequestKey) -> (r: bool)
        ensures
            r == has_key(self@.in_flight, *k),
    {
        find_key(&self.in_flight, k).is_some()
    }

    /// Adds a request unless one of the same identity is pending or in
    /// flight; a pending one of lower priority is promoted instead.
    pub fn enqueue(&mut self, k: RequestKey, p: Priority, now: u64) -> (r: Enqueued)
        requires
            old(self).wf(),
        ensures
            final(self).wf(),
            enqueue_post(old(self)@, final(self)@, k, p, now, r),
    {
        if find_key(&self.in_flight, &k).is_some() {
            return Enqueued::Ignored;
        }
        match find_key(&self.pending, &k) {
            Some(i) => {
                let q = self.pending[i];
                if p.rank() > q.priority.rank() {
                    let ghost s = self@;
                    self.pending.set(i, TileQuery { priority: p, ..q });
                    proof {
                        assert(self@.all() =~= s.all().update(i as int, TileQuery { priority: p, ..q }));
                        assert forall|a: int, b: int|
                            0 <= a < self@.all().len() && 0 <= b < self@.all().len() && a != b
                                implies (#[trigger] self@.all()[a]).key != (#[trigger] self@.all()[b]).key by {
                            assert(s.all()[a].key == self@.all()[a].key);
                            assert(s.all()[b].key == self@.all()[b].key);
                        }
                    }
                    Enqueued::Promoted
                } else {
                    Enqueued::Ignored
                }
            },
            None => {
                let ghost s = self@;
                let q = TileQuery { key: k, priority: p, created: now, not_before: now, failures: 0 };
                self.pending.push(q);
                proof {
                    lemma_insert_fresh(s, q);
                    assert(self@.all() =~= s.pending.push(q) + s.in_flight);
                }
                Enqueued::Added
            },
        }
    }

    /// Puts back a request that is neither pending nor in flight, keeping
    /// its fields (used to retry after a failure).
    pub fn requeue(&mut self, q: TileQuery)
        requires
            old(self).wf(),
            !old(self)@.contains(q.key),
        ensures
            final(self).wf(),
            final(self)@.pending == old(self)@.pending.push(q),
            final(self)@.in_flight == old(self)@.in_flight,
    {
        let ghost s = self@;
        self.pending.push(q);
        proof {
            lemma_insert_fresh(s, q);
            assert(self@.all() =~= s.pending.push(q) + s.in_flight);
        }
    }

    /// Issues the next request: the oldest ready one of the highest
    /// priority moves from pending to in flight.
    pub fn next(&mut self, now: u64) -> (r: Option<TileQuery>)
        requires
            old(self).wf(),
        ensures
            final(self).wf(),
            r is None <==> forall|j: int| 0 <= j < old(self)@.pending.len() ==> !ready(#[trigger] old(self)@.pending[j], now),
            r is None ==> final(self)@ == old(self)@,
            r is Some ==> exists|i: int|
                is_next(old(self)@.pending, i, now) && r->0 == old(self)@.pending[i] && final(self)@.pending
                    == old(self)@.pending.remove(i) && final(self)@.in_flight == old(self)@.in_flight.push(r->0),
    {
        let ghost s = self@.pending;
        let mut best: Option<usize> = None;
        let mut i: usize = 0;
        while i < self.pending.len()
            invariant
                self@.pending == s,
                i <= s.len(),
                best is None ==> forall|j: int| 0 <= j < i ==> !ready(#[trigger] s[j], now),
                best is Some ==> {
                    let b = best->0 as int;
                    &&& 0 <= b < i
                    &&& ready(s[b], now)
                    &&& forall|j: int| 0 <= j < i && ready(#[trigger] s[j], now) ==> s[j].priority.rank_spec() <= s[b].priority.rank_spec()
                    &&& forall|j: int| 0 <= j < b && ready(#[trigger] s[j], now) ==> s[j].priority.rank_spec() < s[b].priority.rank_spec()
                },
            decreases s.len() - i,
        {
            let q = self.pending[i];
            if q.not_before <= now {
                match best {
                    None => {
                        best = Some(i);
                    },
                    Some(b) => {
                        if q.priority.rank() > self.pending[b].priority.rank() {
                            best = Some(i);
                        }
                    },
                }
            }
            i = i + 1;
        }
        match best {
            None => None,
            Some(b) => {
                let ghost m = self@;
                let q = self.pending.remove(b);
                self.in_flight.push(q);
                proof {
                    assert(is_next(s, b as int, now));
                    lemma_move_keeps_unique(m, b as int);
                    assert(self@.pending =~= m.pending.remove(b as int));
                    assert(self@.in_flight =~= m.in_flight.push(q));
                }
                Some(q)
            },
        }
    }

    /// Ends the in-flight request with identity `k`, handing it back.
    pub fn complete(&mut self, k: &RequestKey) -> (r: Option<TileQuery>)
        requires
            old(self).wf(),
        ensures
            final(self).wf(),
            final(self)@.pending == old(self)@.pending,
            r is Some <==> has_key(old(self)@.in_flight, *k),
            r is None ==> final(self)@ == old(self)@,
            r is Some ==> exists|i: int|
                key_at(old(self)@.in_flight, i, *k) && r->0 == old(self)@.in_flight[i] && final(self)@.in_flight
                    == old(self)@.in_flight.remove(i),
            r is Some ==> !final(self)@.contains(*k),
    {
        match find_key(&self.in_flight, k) {
            None => None,
            Some(i) => {
                let ghost m = self@;
                let q = self.in_flight.remove(i);
                proof {
                    lemma_remove_in_flight(m, i as int);
                }
                Some(q)
            },
        }
    }

    /// Drops every pending request but the base ones, which keep their
    /// order; in-flight ones are kept.
    pub fn retain_base(&mut self)
        requires
            old(self).wf(),
        ensures
            final(self).wf(),
            final(self)@.pending == base_only(old(self)@.pending),
            final(self)@.in_flight == old(self)@.in_flight,
    {
        let ghost m = self@;
        let mut kept: Vec<TileQuery> = Vec::new();
        let mut j: usize = 0;
        while j < self.pending.len()
            invariant
                self@ == m,
                j <= m.pending.len(),
                kept@ == base_only(m.pending.subrange(0, j as int)),
            decreases m.pending.len() - j,
        {
            proof {
                assert(m.pending.subrange(0, j + 1).drop_last() =~= m.pending.subrange(0, j as int));
            }
            let q = self.pending[j];
            if q.priority.rank() == 2 {
                kept.push(q);
            }
            j = j + 1;
        }
        proof {
            assert(m.pending.subrange(0, m.pending.len() as int) =~= m.pending);
            lemma_base_only(m.pending, m.in_flight);
        }
        self.pending = kept;
    }

    /// Drops every pending request; in-flight ones are kept.
    pub fn clear(&mut self)
        requires
            old(self).wf(),
        ensures
            final(self).wf(),
            final(self)@.pending == Seq::<TileQuery>::empty(),
            final(self)@.in_flight == old(self)@.in_flight,
    {
        let ghost m = self@;
        self.pending = Vec::new();
        proof {
            assert(self@.all() =~= m.in_flight);
            assert forall|a: int, b: int|
                0 <= a < self@.all().len() && 0 <= b < self@.all().len() && a != b
                    implies (#[trigger] self@.all()[a]).key != (#[trigger] self@.all()[b]).key by {
                assert(m.all()[a + m.pending.len()] == self@.all()[a]);
                assert(m.all()[b + m.pending.len()] == self@.all()[b]);
            }
        }
    }
}

/// The base requests of `s`, in order.
pub open spec fn base_only(s: Seq<TileQuery>) -> Seq<TileQuery>
    decreases s.len(),
{
    if s.len() == 0 {
        s
    } else if s.last().priority == Priority::Base {
        base_only(s.drop_last()).push(s.last())
    } else {
        base_only(s.drop_last())
    }
}

/// Keeping the base requests keeps identities unique, and keeps every base
/// request.
pub proof fn lemma_base_only(s: Seq<TileQuery>, f: Seq<TileQuery>)
    requires
        unique_keys(s + f),
    ensures
        unique_keys(base_only(s) + f),
        forall|k: int| 0 <= k < base_only(s).len() ==> s.contains(#[trigger] base_only(s)[k]),
        forall|k: int| 0 <= k < base_only(s).len() ==> (#[trigger] base_only(s)[k]).priority == Priority::Base,
        forall|k: int| 0 <= k < s.len() && (#[trigger] s[k]).priority == Priority::Base ==> base_only(s).contains(s[k]),
    decreases s.len(),
{
    if s.len() > 0 {
        let d = s.drop_last();
        let x = s.last();
        let n = s.len() as int;
        assert(unique_keys(d + f)) by {
            let a = s + f;
            let b = d + f;
            assert forall|i: int, j: int| 0 <= i < b.len() && 0 <= j < b.len() && i != j implies (#[trigger] b[i]).key != (#[trigger] b[j]).key by {
                let i0 = if i < d.len() { i } else { i + 1 };
                let j0 = if j < d.len() { j } else { j + 1 };
                assert(b[i] == a[i0] && b[j] == a[j0]);
            }
        }
        lemma_base_only(d, f);
        let u = base_only(d);
        // the key of `x` is nowhere else in `s + f`
        assert forall|i: int| 0 <= i < (s + f).len() && i != n - 1 implies (#[trigger] (s + f)[i]).key != x.key by {
            assert((s + f)[n - 1] == x);
        }
        assert forall|k: int| 0 <= k < u.len() implies s.contains(#[trigger] u[k]) by {
            let j = choose|j: int| 0 <= j < d.len() && d[j] == u[k];
            assert(s[j] == u[k]);
        }
        assert forall|k: int| 0 <= k < s.len() && (#[trigger] s[k]).priority == Priority::Base implies base_only(s).contains(s[k]) by {
            if k < n - 1 {
                assert(d[k] == s[k]);
                let j = choose|j: int| 0 <= j < u.len() && u[j] == d[k];
                if x.priority == Priority::Base {
                    assert(base_only(s)[j] == u[j]);
                }
            } else {
                assert(base_only(s)[base_only(s).len() - 1] == x);
            }
        }
        if x.priority == Priority::Base {
            let w = u.push(x);
            assert(base_only(s) == w);
            assert forall|k: int| 0 <= k < w.len() implies s.contains(#[trigger] w[k]) by {
                if k < u.len() {
                    assert(w[k] == u[k]);
                } else {
                    assert(s[n - 1] == x);
                }
            }
            let a = w + f;
            assert forall|i: int, j: int| 0 <= i < a.len() && 0 <= j < a.len() && i != j implies (#[trigger] a[i]).key != (#[trigger] a[j]).key by {
                let ul = u.len() as int;
                if i != ul && j != ul {
                    let i0 = if i < ul { i } else { i - 1 };
                    let j0 = if j < ul { j } else { j - 1 };
                    assert(a[i] == (u + f)[i0] && a[j] == (u + f)[j0]);
                } else {
                    let o = if i == ul { j } else { i };
                    assert(a[ul] == x);
                    if o < ul {
                        let p = choose|p: int| 0 <= p < d.len() && d[p] == u[o];
                        assert(a[o] == u[o]);
                        assert((s + f)[p] == s[p]);
                        assert(s[p] == d[p]);
                    } else {
                        assert(a[o] == f[o - ul - 1]);
                        assert((s + f)[n + o - ul - 1] == f[o - ul - 1]);
                    }
                }
            }
            assert forall|k: int| 0 <= k < w.len() implies (#[trigger] w[k]).priority == Priority::Base by {
                if k < u.len() {
                    assert(w[k] == u[k]);
                }
            }
        }
    }
}

proof fn lemma_insert_fresh(s: QueueModel, q: TileQuery)
    requires
        unique_keys(s.all()),
        !s.contains(q.key),
    ensures
        unique_keys(s.pending.push(q) + s.in_flight),
{
    let a = s.pending.push(q) + s.in_flight;
    let n = s.pending.len() as int;
    assert forall|i: int, j: int| 0 <= i < a.len() && 0 <= j < a.len() && i != j implies (#[trigger] a[i]).key != (#[trigger] a[j]).key by {
        if i == n {
            if j < n {
                assert(!key_at(s.pending, j, q.key));
            } else {
                assert(!key_at(s.in_flight, j - n - 1, q.key));
            }
        } else if j == n {
            if i < n {
                assert(!key_at(s.pending, i, q.key));
            } else {
                assert(!key_at(s.in_flight, i - n - 1, q.key));
            }
        } else {
            let i0 = if i < n { i } else { i - 1 };
            let j0 = if j < n { j } else { j - 1 };
            assert(a[i] == s.all()[i0]);
            assert(a[j] == s.all()[j0]);
        }
    }
}

proof fn lemma_move_keeps_unique(s: QueueModel, b: int)
    requires
        unique_keys(s.all()),
        0 <= b < s.pending.len(),
    ensures
        unique_keys(s.pending.remove(b) + s.in_flight.push(s.pending[b])),
{
    let a = s.pending.remove(b) + s.in_flight.push(s.pending[b]);
    let n = s.pending.len() as int;
    let all = s.all();
    // position in `all` of each position of `a`
    let src = |i: int| if i < b { i } else if i < n - 1 { i + 1 } else if i < all.len() - 1 { i + 1 } else { b };
    assert forall|i: int| 0 <= i < a.len() implies #[trigger] a[i] == all[src(i)] by {}
    assert forall|i: int, j: int| 0 <= i < a.len() && 0 <= j < a.len() && i != j implies (#[trigger] a[i]).key != (#[trigger] a[j]).key by {
        assert(a[i] == all[src(i)]);
        assert(a[j] == all[src(j)]);
    }
}

proof fn lemma_remove_in_flight(s: QueueModel, k: int)
    requires
        unique_keys(s.all()),
        0 <= k < s.in_flight.len(),
    ensures
        unique_keys(s.pending + s.in_flight.remove(k)),
        !has_key(s.pending, s.in_flight[k].key),
        !has_key(s.in_flight.remove(k), s.in_flight[k].key),
{
    let a = s.pending + s.in_flight.remove(k);
    let n = s.pending.len() as int;
    let all = s.all();
    let src = |i: int| if i < n + k { i } else { i + 1 };
    assert forall|i: int| 0 <= i < a.len() implies #[trigger] a[i] == all[src(i)] by {}
    assert forall|i: int, j: int| 0 <= i < a.len() && 0 <= j < a.len() && i != j implies (#[trigger] a[i]).key != (#[trigger] a[j]).key by {
        assert(a[i] == all[src(i)]);
        assert(a[j] == all[src(j)]);
    }
    let key = s.in_flight[k].key;
    assert(all[n + k].key == key);
    assert forall|i: int| !key_at(s.pending, i, key) by {
        if 0 <= i < n {
            assert(all[i] == s.pending[i]);
        }
    }
    assert forall|i: int| !key_at(s.in_flight.remove(k), i, key) by {
        if 0 <= i < s.in_flight.len() - 1 {
            assert(a[n + i] == all[src(n + i)]);
        }
    }
}

proof fn lemma_count_absent(s: Seq<TileQuery>, k: RequestKey)
    requires
        !has_key(s, k),
    ensures
        count_key(s, k) == 0,
    decreases s.len(),
{
    if s.len() > 0 {
        assert forall|i: int| !key_at(s.drop_last(), i, k) by {
            if 0 <= i < s.len() - 1 {
                assert(!key_at(s, i, k));
            }
        }
        assert(!key_at(s, s.len() - 1, k));
        lemma_count_absent(s.drop_last(), k);
    }
}

/// Requests with unique identities hold each identity at most once.
pub proof fn lemma_unique_count(s: Seq<TileQuery>, k: RequestKey)
    requires
        unique_keys(s),
    ensures
        count_key(s, k) <= 1,
    decreases s.len(),
{
    if s.len() > 0 {
        let d = s.drop_last();
        assert(unique_keys(d)) by {
            assert forall|i: int, j: int| 0 <= i < d.len() && 0 <= j < d.len() && i != j implies (#[trigger] d[i]).key != (#[trigger] d[j]).key by {
                assert(d[i] == s[i] && d[j] == s[j]);
            }
        }
        lemma_unique_count(d, k);
        if s.last().key == k {
            assert forall|i: int| !key_at(d, i, k) by {
                if 0 <= i < d.len() {
                    assert(s[i] == d[i]);
                    assert(s[i].key != s[s.len() - 1].key);
                }
            }
            lemma_count_absent(d, k);
        }
    }
}

/// Whatever is enqueued, every identity is held by at most one request over
/// pending and in-flight ones; enqueueing an identity already present adds
/// no request.
pub proof fn lemma_enqueue_dedup(s: QueueModel, t: QueueModel, k: RequestKey, p: Priority, now: u64, r: Enqueued)
    requires
        unique_keys(s.all()),
        unique_keys(t.all()),
        enqueue_post(s, t, k, p, now, r),
    ensures
        forall|c: RequestKey| #[trigger] count_key(t.all(), c) <= 1,
        t.contains(k),
        s.contains(k) ==> r != Enqueued::Added && t.pending.len() == s.pending.len() && t.in_flight == s.in_flight,
{
    assert forall|c: RequestKey| #[trigger] count_key(t.all(), c) <= 1 by {
        lemma_unique_count(t.all(), c);
    }
    if has_key(s.in_flight, k) {
    } else if has_key(s.pending, k) {
        let i = choose|i: int|
            key_at(s.pending, i, k) && if p.rank_spec() > s.pending[i].priority.rank_spec() {
                r == Enqueued::Promoted && t.pending == s.pending.update(i, TileQuery { priority: p, ..s.pending[i] })
            } else {
                r == Enqueued::Ignored && t.pending == s.pending
            };
        assert(key_at(t.pending, i, k));
    } else {
        assert(key_at(t.pending, s.pending.len() as int, k));
    }
}

} // verus!
