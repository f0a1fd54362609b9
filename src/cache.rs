//! Fixed-capacity table of resident tiles, with least-recently-touched
//! eviction that never takes a pinned slot.
use vstd::prelude::*;
use crate::cell::Cell;

verus! {

/// One storage unit of the table.
#[derive(Clone, Copy, Debug, PartialEq, Eq, Structural)]
pub struct Slot {
    pub occupant: Option<Cell>,
    pub last_touch: u64,
    pub pinned: bool,
}

impl Slot {
    pub open spec fn empty_spec() -> Slot {
        Slot { occupant: None, last_touch: 0, pinned: false }
    }
}

/// What an admission did.
#[derive(Clone, Copy, Debug, PartialEq, Eq, Structural)]
pub enum Admission {
    /// The cell was resident already: its slot was refreshed.
    Touched(usize),
    /// The cell went into an empty slot.
    Filled(usize),
    /// The cell replaced `evicted` in `slot`.
    Evicted { slot: usize, evicted: Cell },
    /// Every slot is taken and pinned: nothing changed.
    Deferred,
}

/// Slot `i` of `s` holds `c`.
pub open spec fn holds(s: Seq<Slot>, i: int, c: Cell) -> bool {
    0 <= i < s.len() && s[i].occupant == Some(c)
}

pub open spec fn resident(s: Seq<Slot>, c: Cell) -> bool {
    exists|i: int| holds(s, i, c)
}

/// No cell occupies two slots.
pub open spec fn no_duplicates(s: Seq<Slot>) -> bool {
    forall|i: int, j: int|
        0 <= i < s.len() && 0 <= j < s.len() && i != j && (#[trigger] s[i]).occupant is Some
            ==> s[i].occupant != (#[trigger] s[j]).occupant
}

pub open spec fn has_empty(s: Seq<Slot>) -> bool {
    exists|i: int| 0 <= i < s.len() && (#[trigger] s[i]).occupant is None
}

/// `i` is the lowest empty slot.
pub open spec fn is_first_empty(s: Seq<Slot>, i: int) -> bool {
    &&& 0 <= i < s.len()
    &&& s[i].occupant is None
    &&& forall|j: int| 0 <= j < i ==> (#[trigger] s[j]).occupant is Some
}

pub open spec fn all_pinned(s: Seq<Slot>) -> bool {
    forall|i: int| 0 <= i < s.len() ==> (#[trigger] s[i]).pinned
}

/// `v` is the unpinned slot touched least recently; ties go to the lowest index.
pub open spec fn is_lru_victim(s: Seq<Slot>, v: int) -> bool {
    &&& 0 <= v < s.len()
    &&& !s[v].pinned
    &&& forall|j: int| 0 <= j < s.len() && !(#[trigger] s[j]).pinned ==> s[v].last_touch <= s[j].last_touch
    &&& forall|j: int| 0 <= j < v && !(#[trigger] s[j]).pinned ==> s[v].last_touch < s[j].last_touch
}

/// How `insert(c, now, pin)` takes the table from `s` to `t`, answering `r`.
pub open spec fn insert_post(s: Seq<Slot>, t: Seq<Slot>, c: Cell, now: u64, pin: bool, r: Admission) -> bool {
    match r {
        Admission::Touched(i) => {
            &&& holds(s, i as int, c)
            &&& t == s.update(i as int, Slot { occupant: Some(c), last_touch: now, pinned: s[i as int].pinned || pin })
        },
        Admission::Filled(i) => {
            &&& !resident(s, c)
            &&& is_first_empty(s, i as int)
            &&& t == s.update(i as int, Slot { occupant: Some(c), last_touch: now, pinned: pin })
        },
        Admission::Evicted { slot, evicted } => {
            &&& !resident(s, c)
            &&& !has_empty(s)
            &&& is_lru_victim(s, slot as int)
            &&& s[slot as int].occupant == Some(evicted)
            &&& t == s.update(slot as int, Slot { occupant: Some(c), last_touch: now, pinned: pin })
        },
        Admission::Deferred => {
            &&& !resident(s, c)
            &&& !has_empty(s)
            &&& all_pinned(s)
            &&& t == s
        },
    }
}

/// Number of occupied slots of `s`.
pub open spec fn count_occupied(s: Seq<Slot>) -> nat
    decreases s.len(),
{
    if s.len() == 0 {
        0
    } else {
        count_occupied(s.drop_last()) + if s.last().occupant is Some {
            1nat
        } else {
            0nat
        }
    }
}

/// Fixed-capacity table of resident tiles.
pub struct SlotTable {
    slots: Vec<Slot>,
}

impl View for SlotTable {
    type V = Seq<Slot>;

    closed spec fn view(&self) -> Seq<Slot> {
        self.slots@
    }
}

impl SlotTable {
    pub open spec fn wf(&self) -> bool {
        no_duplicates(self@)
    }

    /// A table of `capacity` empty slots.
    pub fn new(capacity: usize) -> (r: SlotTable)
        ensures
            r.wf(),
            r@ == Seq::new(capacity as nat, |i: int| Slot::empty_spec()),
    {
        let mut slots: Vec<Slot> = Vec::new();
        let mut i: usize = 0;
        while i < capacity
            invariant
                i <= capacity,
                slots@ == Seq::new(i as nat, |k: int| Slot::empty_spec()),
            decreases capacity - i,
        {
            slots.push(Slot { occupant: None, last_touch: 0, pinned: false });
            i = i + 1;
            proof {
                assert(slots@ =~= Seq::new(i as nat, |k: int| Slot::empty_spec()));
            }
        }
        SlotTable { slots }
    }

    pub fn capacity(&self) -> (r: usize)
        ensures
            r == self@.len(),
    {
        self.slots.len()
    }

    pub fn slot(&self, i: usize) -> (r: Slot)
        requires
            i < self@.len(),
        ensures
            r == self@[i as int],
    {
        self.slots[i]
    }

    /// The slot that holds `c`, if any.
    pub fn find(&self, c: &Cell) -> (r: Option<usize>)
        requires
            self.wf(),
        ensures
            r is Some <==> resident(self@, *c),
            r is Some ==> holds(self@, r->0 as int, *c),
    {
        let mut i: usize = 0;
        while i < self.slots.len()
            invariant
                i <= self@.len(),
                forall|j: int| 0 <= j < i ==> !holds(self@, j, *c),
            decreases self@.len() - i,
        {
            if self.slots[i].occupant == Some(*c) {
                proof {
                    assert(holds(self@, i as int, *c));
                }
                return Some(i);
            }
            i = i + 1;
        }
        None
    }

    /// Number of occupied slots.
    pub fn occupied(&self) -> (r: usize)
        ensures
            r == count_occupied(self@),
    {
        let mut n: usize = 0;
        let mut i: usize = 0;
        while i < self.slots.len()
            invariant
                i <= self@.len(),
                n == count_occupied(self@.subrange(0, i as int)),
                n <= i,
            decreases self@.len() - i,
        {
            proof {
                assert(self@.subrange(0, i + 1).drop_last() =~= self@.subrange(0, i as int));
            }
            if self.slots[i].occupant.is_some() {
                n = n + 1;
            }
            i = i + 1;
        }
        proof {
            assert(self@.subrange(0, self@.len() as int) =~= self@);
        }
        n
    }

    /// Inserts `c` at time `now`: touches it when resident, else fills the
    /// lowest empty slot, else evicts the least recently touched unpinned
    /// slot, else defers.
    pub fn insert(&mut self, c: Cell, now: u64, pin: bool) -> (r: Admission)
        requires
            old(self).wf(),
        ensures
            final(self).wf(),
            insert_post(old(self)@, final(self)@, c, now, pin, r),
    {
        let ghost s = self@;
        let n = self.slots.len();
        let mut found: Option<usize> = None;
        let mut empty: Option<usize> = None;
        let mut victim: Option<usize> = None;
        let mut i: usize = 0;
        while i < n
            invariant
                n == s.len(),
                self@ == s,
                i <= n,
                found is None ==> forall|j: int| 0 <= j < i ==> !holds(s, j, c),
                found is Some ==> holds(s, found->0 as int, c),
                empty is None ==> forall|j: int| 0 <= j < i ==> (#[trigger] s[j]).occupant is Some,
                empty is Some ==> is_first_empty(s, empty->0 as int) && empty->0 < i,
                victim is None ==> forall|j: int| 0 <= j < i ==> (#[trigger] s[j]).pinned,
                victim is Some ==> {
                    let v = victim->0 as int;
                    &&& 0 <= v < i
                    &&& !s[v].pinned
                    &&& forall|j: int| 0 <= j < i && !(#[trigger] s[j]).pinned ==> s[v].last_touch <= s[j].last_touch
                    &&& forall|j: int| 0 <= j < v && !(#[trigger] s[j]).pinned ==> s[v].last_touch < s[j].last_touch
                },
            decreases n - i,
        {
            let sl = self.slots[i];
            if found.is_none() && sl.occupant == Some(c) {
                found = Some(i);
            }
            if empty.is_none() && sl.occupant.is_none() {
                empty = Some(i);
            }
            if !sl.pinned {
                match victim {
                    None => {
                        victim = Some(i);
                    },
                    Some(v) => {
                        if sl.last_touch < self.slots[v].last_touch {
                            victim = Some(i);
                        }
                    },
                }
            }
            i = i + 1;
        }
        match found {
            Some(k) => {
                let old_pin = self.slots[k].pinned;
                self.slots.set(k, Slot { occupant: Some(c), last_touch: now, pinned: old_pin || pin });
                proof {
                    assert forall|a: int, b: int|
                        0 <= a < self@.len() && 0 <= b < self@.len() && a != b && (#[trigger] self@[a]).occupant is Some
                            implies self@[a].occupant != (#[trigger] self@[b]).occupant by {
                        if a != k && b != k {
                            assert(s[a] == self@[a] && s[b] == self@[b]);
                        }
                    }
                }
                return Admission::Touched(k);
            },
            None => {},
        }
        match empty {
            Some(k) => {
                self.slots.set(k, Slot { occupant: Some(c), last_touch: now, pinned: pin });
                proof {
                    lemma_update_keeps_unique(s, k as int, Slot { occupant: Some(c), last_touch: now, pinned: pin });
                }
                return Admission::Filled(k);
            },
            None => {},
        }
        match victim {
            Some(k) => {
                let evicted = self.slots[k].occupant.unwrap();
                self.slots.set(k, Slot { occupant: Some(c), last_touch: now, pinned: pin });
                proof {
                    lemma_update_keeps_unique(s, k as int, Slot { occupant: Some(c), last_touch: now, pinned: pin });
                }
                Admission::Evicted { slot: k, evicted }
            },
            None => Admission::Deferred,
        }
    }

    /// Refreshes the slot of `c`, if resident; answers whether it was.
    pub fn touch(&mut self, c: &Cell, now: u64) -> (r: bool)
        requires
            old(self).wf(),
        ensures
            final(self).wf(),
            r == resident(old(self)@, *c),
            r ==> exists|i: int|
                holds(old(self)@, i, *c) && final(self)@ == old(self)@.update(
                    i,
                    Slot { last_touch: now, ..old(self)@[i] },
                ),
            !r ==> final(self)@ == old(self)@,
            final(self)@ == touched_spec(old(self)@, *c, now),
    {
        match self.find(c) {
            Some(i) => {
                let sl = self.slots[i];
                let ghost s = self@;
                self.slots.set(i, Slot { last_touch: now, ..sl });
                proof {
                    lemma_only_holder(s, i as int, *c);
                    lemma_update_keeps_unique(s, i as int, self@[i as int]);
                    assert(self@ =~= touched_spec(s, *c, now));
                }
                true
            },
            None => {
                proof {
                    assert forall|i: int| 0 <= i < self@.len() implies self@[i].occupant != Some(*c) by {
                        assert(!holds(self@, i, *c));
                    }
                    assert(self@ =~= touched_spec(self@, *c, now));
                }
                false
            },
        }
    }

    /// Sets each slot's pin from the current view: a slot is pinned when its
    /// occupant is visible or lies at or above `base_depth`.
    pub fn set_pins(&mut self, visible: &Vec<Cell>, base_depth: u8)
        requires
            old(self).wf(),
        ensures
            final(self).wf(),
            final(self)@ == Seq::new(
                old(self)@.len(),
                |i: int| Slot { pinned: pin_rule(old(self)@[i], visible@, base_depth), ..old(self)@[i] },
            ),
    {
        let ghost s = self@;
        let n = self.slots.len();
        let mut i: usize = 0;
        while i < n
            invariant
                n == s.len(),
                self@.len() == n,
                i <= n,
                forall|k: int|
                    0 <= k < i ==> #[trigger] self@[k] == (Slot { pinned: pin_rule(s[k], visible@, base_depth), ..s[k] }),
                forall|k: int| i <= k < n ==> #[trigger] self@[k] == s[k],
            decreases n - i,
        {
            let sl = self.slots[i];
            let pinned = match sl.occupant {
                Some(c) => c.depth <= base_depth || contains_cell(visible, &c),
                None => false,
            };
            self.slots.set(i, Slot { pinned, ..sl });
            i = i + 1;
        }
        proof {
            assert(self@ =~= Seq::new(
                s.len(),
                |k: int| Slot { pinned: pin_rule(s[k], visible@, base_depth), ..s[k] },
            ));
            assert forall|a: int, b: int|
                0 <= a < self@.len() && 0 <= b < self@.len() && a != b && (#[trigger] self@[a]).occupant is Some
                    implies self@[a].occupant != (#[trigger] self@[b]).occupant by {
                assert(s[a].occupant == self@[a].occupant && s[b].occupant == self@[b].occupant);
            }
        }
    }

    /// Empties every slot.
    pub fn clear(&mut self)
        ensures
            final(self).wf(),
            final(self)@ == Seq::new(old(self)@.len(), |i: int| Slot::empty_spec()),
    {
        let n = self.slots.len();
        *self = SlotTable::new(n);
    }

    /// Resident visible tiles with their slots, by slot order.
    pub fn snapshot(&self, visible: &Vec<Cell>) -> (r: Vec<(Cell, usize)>)
        ensures
            r@ == snapshot_spec(self@, visible@),
    {
        let mut out: Vec<(Cell, usize)> = Vec::new();
        let mut i: usize = 0;
        while i < self.slots.len()
            invariant
                i <= self@.len(),
                out@ == snapshot_spec(self@.subrange(0, i as int), visible@),
            decreases self@.len() - i,
        {
            proof {
                assert(self@.subrange(0, i + 1).drop_last() =~= self@.subrange(0, i as int));
            }
            match self.slots[i].occupant {
                Some(c) => {
                    if contains_cell(visible, &c) {
                        out.push((c, i));
                    }
                },
                None => {},
            }
            i = i + 1;
        }
        proof {
            assert(self@.subrange(0, self@.len() as int) =~= self@);
        }
        out
    }
}

/// `s` with the slot that holds `c`, if any, touched at `now`.
pub open spec fn touched_spec(s: Seq<Slot>, c: Cell, now: u64) -> Seq<Slot> {
    Seq::new(
        s.len(),
        |i: int|
            if s[i].occupant == Some(c) {
                Slot { last_touch: now, ..s[i] }
            } else {
                s[i]
            },
    )
}

/// Whether the rule of the current view pins slot `s`.
pub open spec fn pin_rule(s: Slot, visible: Seq<Cell>, base_depth: u8) -> bool {
    match s.occupant {
        Some(c) => c.depth <= base_depth || visible.contains(c),
        None => false,
    }
}

/// `(cell, slot)` for each slot of `s` whose occupant is in `visible`.
pub open spec fn snapshot_spec(s: Seq<Slot>, visible: Seq<Cell>) -> Seq<(Cell, usize)>
    decreases s.len(),
{
    if s.len() == 0 {
        Seq::empty()
    } else {
        let rest = snapshot_spec(s.drop_last(), visible);
        match s.last().occupant {
            Some(c) => if visible.contains(c) {
                rest.push((c, (s.len() - 1) as usize))
            } else {
                rest
            },
            None => rest,
        }
    }
}

/// Whether `v` holds `c`.
pub fn contains_cell(v: &Vec<Cell>, c: &Cell) -> (r: bool)
    ensures
        r == v@.contains(*c),
{
    let mut i: usize = 0;
    while i < v.len()
        invariant
            i <= v@.len(),
            forall|j: int| 0 <= j < i ==> v@[j] != *c,
        decreases v@.len() - i,
    {
        if v[i] == *c {
            return true;
        }
        i = i + 1;
    }
    false
}

/// Writing a slot whose occupant is absent elsewhere keeps cells unique.
pub proof fn lemma_update_keeps_unique(s: Seq<Slot>, k: int, x: Slot)
    requires
        no_duplicates(s),
        0 <= k < s.len(),
        x.occupant is Some ==> forall|j: int| j != k ==> !holds(s, j, x.occupant->0),
    ensures
        no_duplicates(s.update(k, x)),
{
    let t = s.update(k, x);
    if x.occupant is Some {
        assert forall|j: int| 0 <= j < s.len() && j != k implies s[j].occupant != x.occupant by {
            assert(!holds(s, j, x.occupant->0));
        }
    }
    assert forall|a: int, b: int|
        0 <= a < t.len() && 0 <= b < t.len() && a != b && (#[trigger] t[a]).occupant is Some
            implies t[a].occupant != (#[trigger] t[b]).occupant by {
        if a != k && b != k {
            assert(s[a] == t[a] && s[b] == t[b]);
        } else if a != k {
            assert(s[a] == t[a]);
        }
    }
}

/// In a table without duplicates, only slot `k` holds `c`.
pub proof fn lemma_only_holder(s: Seq<Slot>, k: int, c: Cell)
    requires
        no_duplicates(s),
        holds(s, k, c),
    ensures
        forall|j: int| j != k ==> !holds(s, j, c),
{
    assert forall|j: int| j != k implies !holds(s, j, c) by {
        if holds(s, j, c) {
            assert(s[k].occupant == s[j].occupant);
        }
    }
}

/// Replacing a slot by one with the same occupancy keeps the count.
pub proof fn lemma_count_update(s: Seq<Slot>, k: int, x: Slot)
    requires
        0 <= k < s.len(),
        (x.occupant is Some) == (s[k].occupant is Some),
    ensures
        count_occupied(s.update(k, x)) == count_occupied(s),
    decreases s.len(),
{
    let t = s.update(k, x);
    if k < s.len() - 1 {
        assert(t.drop_last() =~= s.drop_last().update(k, x));
        lemma_count_update(s.drop_last(), k, x);
    } else {
        assert(t.drop_last() =~= s.drop_last());
    }
}

/// Inserting a cell that is already resident only touches its slot: no
/// other slot changes, and the number of occupied slots stays the same.
pub proof fn lemma_insert_resident_is_touch(s: Seq<Slot>, t: Seq<Slot>, c: Cell, now: u64, pin: bool, r: Admission, i: int)
    requires
        no_duplicates(s),
        holds(s, i, c),
        insert_post(s, t, c, now, pin, r),
    ensures
        r == Admission::Touched(i as usize),
        count_occupied(t) == count_occupied(s),
        no_duplicates(t),
        forall|j: int| 0 <= j < s.len() && j != i ==> t[j] == s[j],
{
    match r {
        Admission::Touched(k) => {
            lemma_only_holder(s, i, c);
            assert(k == i);
            lemma_count_update(s, i, t[i]);
            lemma_update_keeps_unique(s, i, t[i]);
        },
        _ => {
            assert(resident(s, c));
        },
    }
}

/// An insertion never removes a pinned slot's occupant: an eviction takes an
/// unpinned slot, and a full table of pinned slots defers the insertion
/// and stays unchanged.
pub proof fn lemma_pinned_never_evicted(s: Seq<Slot>, t: Seq<Slot>, c: Cell, now: u64, pin: bool, r: Admission)
    requires
        insert_post(s, t, c, now, pin, r),
    ensures
        r matches Admission::Evicted { slot, .. } ==> !s[slot as int].pinned,
        forall|j: int| 0 <= j < s.len() && #[trigger] s[j].pinned && s[j].occupant is Some ==> t[j].occupant == s[j].occupant,
        (!resident(s, c) && !has_empty(s) && all_pinned(s)) ==> r == Admission::Deferred && t == s,
{
    match r {
        Admission::Evicted { slot, .. } => {
            assert(!all_pinned(s));
        },
        Admission::Filled(i) => {},
        _ => {},
    }
}

/// An insertion keeps every cell in at most one slot.
pub proof fn lemma_insert_keeps_unique(s: Seq<Slot>, t: Seq<Slot>, c: Cell, now: u64, pin: bool, r: Admission)
    requires
        no_duplicates(s),
        insert_post(s, t, c, now, pin, r),
    ensures
        no_duplicates(t),
        resident(t, c) || r == Admission::Deferred,
{
    match r {
        Admission::Touched(i) => {
            lemma_only_holder(s, i as int, c);
            lemma_update_keeps_unique(s, i as int, t[i as int]);
            assert(holds(t, i as int, c));
        },
        Admission::Filled(i) => {
            lemma_update_keeps_unique(s, i as int, t[i as int]);
            assert(holds(t, i as int, c));
        },
        Admission::Evicted { slot, .. } => {
            lemma_update_keeps_unique(s, slot as int, t[slot as int]);
            assert(holds(t, slot as int, c));
        },
        Admission::Deferred => {},
    }
}

} // verus!
