//! The wanted-cell set of a view: the visible cells at the target depth,
//! and for the deep ones their ancestor three levels up as a cheaper
//! prefetch.
use vstd::prelude::*;
use crate::cell::Cell;
use crate::cache::contains_cell;

verus! {

/// Levels between a visible cell and the ancestor prefetched for it.
pub const ANCESTOR_DISTANCE: u8 = 3;

/// `s` without repeats, each cell kept at its first place.
pub open spec fn dedup(s: Seq<Cell>) -> Seq<Cell>
    decreases s.len(),
{
    if s.len() == 0 {
        s
    } else {
        let r = dedup(s.drop_last());
        if r.contains(s.last()) {
            r
        } else {
            r.push(s.last())
        }
    }
}

/// Ancestors three levels up of the cells of `vis` deeper than
/// `min_depth + 3`, without repeats.
pub open spec fn ancestors_of(vis: Seq<Cell>, min_depth: u8) -> Seq<Cell>
    decreases vis.len(),
{
    if vis.len() == 0 {
        Seq::empty()
    } else {
        let r = ancestors_of(vis.drop_last(), min_depth);
        let c = vis.last();
        if c.depth > min_depth + 3 {
            let a = c.ancestor_spec(3);
            if r.contains(a) {
                r
            } else {
                r.push(a)
            }
        } else {
            r
        }
    }
}

/// The wanted cells of a view.
pub struct WantedCells {
    /// Visible cells, without repeats, in the order given.
    pub visible: Vec<Cell>,
    /// Ancestor prefetches that are not visible themselves.
    pub ancestors: Vec<Cell>,
}

/// The cells of `s` that are not in `excl`, in order.
pub open spec fn without(s: Seq<Cell>, excl: Seq<Cell>) -> Seq<Cell>
    decreases s.len(),
{
    if s.len() == 0 {
        s
    } else {
        let r = without(s.drop_last(), excl);
        if excl.contains(s.last()) {
            r
        } else {
            r.push(s.last())
        }
    }
}

/// No cell of `without(s, excl)` is in `excl`.
pub proof fn lemma_without_excludes(s: Seq<Cell>, excl: Seq<Cell>)
    ensures
        forall|k: int| 0 <= k < without(s, excl).len() ==> !excl.contains(#[trigger] without(s, excl)[k]),
    decreases s.len(),
{
    if s.len() > 0 {
        lemma_without_excludes(s.drop_last(), excl);
        let r = without(s.drop_last(), excl);
        if !excl.contains(s.last()) {
            assert forall|k: int| 0 <= k < r.push(s.last()).len() implies !excl.contains(#[trigger] r.push(s.last())[k]) by {
                if k < r.len() {
                    assert(r.push(s.last())[k] == r[k]);
                }
            }
        }
    }
}

/// Visible cells of a view, without repeats.
pub open spec fn wanted_visible(vis: Seq<Cell>) -> Seq<Cell> {
    dedup(vis)
}

/// Ancestor prefetches of a view: those of `ancestors_of` that are not
/// visible themselves.
pub open spec fn wanted_ancestors(vis: Seq<Cell>, min_depth: u8) -> Seq<Cell> {
    without(ancestors_of(dedup(vis), min_depth), dedup(vis))
}

/// Computes the wanted cells from the cells that the view shows.
pub fn wanted_cells(visible: &Vec<Cell>, min_depth: u8) -> (r: WantedCells)
    requires
        forall|i: int| 0 <= i < visible@.len() ==> (#[trigger] visible@[i]).valid(),
    ensures
        r.visible@ == wanted_visible(visible@),
        r.ancestors@ == wanted_ancestors(visible@, min_depth),
{
    let mut vis: Vec<Cell> = Vec::new();
    let mut i: usize = 0;
    while i < visible.len()
        invariant
            i <= visible@.len(),
            vis@ == dedup(visible@.subrange(0, i as int)),
        decreases visible@.len() - i,
    {
        proof {
            assert(visible@.subrange(0, i + 1).drop_last() =~= visible@.subrange(0, i as int));
        }
        let c = visible[i];
        if !contains_cell(&vis, &c) {
            vis.push(c);
        }
        i = i + 1;
    }
    proof {
        assert(visible@.subrange(0, visible@.len() as int) =~= visible@);
        lemma_dedup_subset(visible@);
    }
    let mut anc: Vec<Cell> = Vec::new();
    let mut j: usize = 0;
    while j < vis.len()
        invariant
            j <= vis@.len(),
            vis@ == dedup(visible@),
            forall|k: int| 0 <= k < vis@.len() ==> (#[trigger] vis@[k]).valid(),
            anc@ == ancestors_of(vis@.subrange(0, j as int), min_depth),
        decreases vis@.len() - j,
    {
        proof {
            assert(vis@.subrange(0, j + 1).drop_last() =~= vis@.subrange(0, j as int));
        }
        let c = vis[j];
        if c.depth >= 4 && c.depth - 3 > min_depth {
            let a = c.ancestor(3);
            if !contains_cell(&anc, &a) {
                anc.push(a);
            }
        }
        j = j + 1;
    }
    proof {
        assert(vis@.subrange(0, vis@.len() as int) =~= vis@);
    }
    let mut out: Vec<Cell> = Vec::new();
    let mut k: usize = 0;
    while k < anc.len()
        invariant
            k <= anc@.len(),
            out@ == without(anc@.subrange(0, k as int), vis@),
        decreases anc@.len() - k,
    {
        proof {
            assert(anc@.subrange(0, k + 1).drop_last() =~= anc@.subrange(0, k as int));
        }
        let a = anc[k];
        if !contains_cell(&vis, &a) {
            out.push(a);
        }
        k = k + 1;
    }
    proof {
        assert(anc@.subrange(0, anc@.len() as int) =~= anc@);
    }
    WantedCells { visible: vis, ancestors: out }
}

/// Every cell of `dedup(s)` is a cell of `s`.
pub proof fn lemma_dedup_subset(s: Seq<Cell>)
    ensures
        forall|i: int| 0 <= i < dedup(s).len() ==> s.contains(#[trigger] dedup(s)[i]),
    decreases s.len(),
{
    if s.len() > 0 {
        lemma_dedup_subset(s.drop_last());
        let r = dedup(s.drop_last());
        assert forall|i: int| 0 <= i < dedup(s).len() implies s.contains(#[trigger] dedup(s)[i]) by {
            if i < r.len() {
                let x = r[i];
                assert(s.drop_last().contains(x));
                let k = choose|k: int| 0 <= k < s.drop_last().len() && s.drop_last()[k] == x;
                assert(s[k] == x);
            } else {
                assert(s[s.len() - 1] == s.last());
            }
        }
    }
}

/// The wanted cells depend on the view alone: two computations on the same
/// view agree, and feeding the visible result back in gives it unchanged.
pub proof fn lemma_wanted_deterministic(v1: Seq<Cell>, v2: Seq<Cell>, min_depth: u8)
    requires
        v1 == v2,
    ensures
        wanted_visible(v1) == wanted_visible(v2),
        wanted_ancestors(v1, min_depth) == wanted_ancestors(v2, min_depth),
        wanted_visible(wanted_visible(v1)) == wanted_visible(v1),
{
    lemma_dedup_idempotent(v1);
}

/// A sequence without repeats is its own `dedup`.
pub open spec fn no_repeats(s: Seq<Cell>) -> bool {
    forall|i: int, j: int| 0 <= i < j < s.len() ==> s[i] != s[j]
}

pub proof fn lemma_dedup_no_repeats(s: Seq<Cell>)
    ensures
        no_repeats(dedup(s)),
    decreases s.len(),
{
    if s.len() > 0 {
        lemma_dedup_no_repeats(s.drop_last());
        let r = dedup(s.drop_last());
        if !r.contains(s.last()) {
            assert forall|i: int, j: int| 0 <= i < j < r.push(s.last()).len() implies r.push(s.last())[i] != r.push(s.last())[j] by {
                if j == r.len() {
                    assert(r[i] == r.push(s.last())[i]);
                }
            }
        }
    }
}

pub proof fn lemma_dedup_fixed(s: Seq<Cell>)
    requires
        no_repeats(s),
    ensures
        dedup(s) == s,
    decreases s.len(),
{
    if s.len() > 0 {
        let d = s.drop_last();
        assert(no_repeats(d));
        lemma_dedup_fixed(d);
        assert(!d.contains(s.last())) by {
            if d.contains(s.last()) {
                let k = choose|k: int| 0 <= k < d.len() && d[k] == s.last();
                assert(s[k] == s[s.len() - 1]);
            }
        }
        assert(d.push(s.last()) =~= s);
    }
}

pub proof fn lemma_dedup_idempotent(s: Seq<Cell>)
    ensures
        dedup(dedup(s)) == dedup(s),
{
    lemma_dedup_no_repeats(s);
    lemma_dedup_fixed(dedup(s));
}

} // verus!
