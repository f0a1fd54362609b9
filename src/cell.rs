//! Hierarchical sky cells: `(depth, index)` addresses in a base partition
//! of twelve root cells, each split in four at every deeper level.
use vstd::prelude::*;
use vstd::arithmetic::div_mod::{lemma_div_denominator, lemma_div_is_ordered_by_denominator, lemma_multiply_divide_lt};

verus! {

/// Deepest level that a cell address may have.
pub const MAX_DEPTH: u8 = 29;

/// Number of root cells at depth 0.
pub const NUM_BASE_CELLS: u64 = 12;

/// `4^k`.
pub open spec fn pow4(k: nat) -> nat
    decreases k,
{
    if k == 0 {
        1
    } else {
        4 * pow4((k - 1) as nat)
    }
}

/// Number of cells at a given depth.
pub open spec fn num_cells(depth: nat) -> nat {
    12 * pow4(depth)
}

pub proof fn lemma_pow4_pos(k: nat)
    ensures
        pow4(k) >= 1,
    decreases k,
{
    if k > 0 {
        lemma_pow4_pos((k - 1) as nat);
    }
}

pub proof fn lemma_pow4_mono(a: nat, b: nat)
    requires
        a <= b,
    ensures
        pow4(a) <= pow4(b),
    decreases b,
{
    if a < b {
        lemma_pow4_mono(a, (b - 1) as nat);
        lemma_pow4_pos((b - 1) as nat);
    }
}

/// `12 * 4^29` fits in a `u64`.
pub proof fn lemma_num_cells_fit(depth: nat)
    requires
        depth <= MAX_DEPTH,
    ensures
        num_cells(depth) <= num_cells(29),
        num_cells(29) == 3458764513820540928,
{
    lemma_pow4_mono(depth, 29);
    reveal_with_fuel(pow4, 30);
    assert(pow4(29) == 288230376151711744);
}

/// A cell of the hierarchical partition.
#[derive(Clone, Copy, Debug, PartialEq, Eq, Structural, Hash)]
pub struct Cell {
    pub depth: u8,
    pub index: u64,
}

impl Cell {
    /// The cell names an existing cell of the partition.
    pub open spec fn valid(self) -> bool {
        &&& self.depth <= MAX_DEPTH
        &&& self.index < num_cells(self.depth as nat)
    }

    /// The ancestor `k` levels up.
    pub open spec fn ancestor_spec(self, k: nat) -> Cell {
        Cell { depth: (self.depth - k) as u8, index: (self.index as nat / pow4(k)) as u64 }
    }

    /// Whether `self` lies inside `other` (or is `other`).
    pub open spec fn within(self, other: Cell) -> bool {
        &&& other.depth <= self.depth
        &&& self.ancestor_spec((self.depth - other.depth) as nat) == other
    }

    /// Builds a cell, when `(depth, index)` names one.
    pub fn new(depth: u8, index: u64) -> (r: Option<Cell>)
        ensures
            r is Some <==> (Cell { depth, index }).valid(),
            r is Some ==> r->0 == (Cell { depth, index }),
    {
        if depth > MAX_DEPTH {
            return None;
        }
        let n = Self::num_cells_at(depth);
        if index < n {
            Some(Cell { depth, index })
        } else {
            None
        }
    }

    /// Number of cells at `depth`.
    pub fn num_cells_at(depth: u8) -> (n: u64)
        requires
            depth <= MAX_DEPTH,
        ensures
            n == num_cells(depth as nat),
    {
        proof {
            lemma_num_cells_fit(depth as nat);
        }
        let mut n: u64 = NUM_BASE_CELLS;
        let mut d: u8 = 0;
        while d < depth
            invariant
                d <= depth <= MAX_DEPTH,
                n == num_cells(d as nat),
            decreases depth - d,
        {
            proof {
                lemma_num_cells_fit((d + 1) as nat);
            }
            n = n * 4;
            d = d + 1;
        }
        n
    }

    pub fn depth(&self) -> (r: u8)
        ensures
            r == self.depth,
    {
        self.depth
    }

    pub fn index(&self) -> (r: u64)
        ensures
            r == self.index,
    {
        self.index
    }

    /// The ancestor `k` levels up (the cell itself for `k == 0`).
    pub fn ancestor(&self, k: u8) -> (r: Cell)
        requires
            self.valid(),
            k <= self.depth,
        ensures
            r == self.ancestor_spec(k as nat),
            r.valid(),
    {
        let mut idx = self.index;
        let mut j: u8 = 0;
        proof {
            assert(pow4(0) == 1);
            assert(self.index as nat / 1 == self.index as nat);
        }
        while j < k
            invariant
                j <= k <= self.depth,
                self.valid(),
                idx == self.index as nat / pow4(j as nat),
            decreases k - j,
        {
            proof {
                lemma_pow4_pos(j as nat);
                lemma_div_denominator(self.index as int, pow4(j as nat) as int, 4);
                assert(pow4(j as nat) * 4 == pow4((j + 1) as nat));
            }
            idx = idx / 4;
            j = j + 1;
        }
        let r = Cell { depth: self.depth - k, index: idx };
        proof {
            lemma_ancestor_valid(*self, k as nat);
        }
        r
    }

    /// The parent cell, for a cell below the root level.
    pub fn parent(&self) -> (r: Cell)
        requires
            self.valid(),
            self.depth > 0,
        ensures
            r == self.ancestor_spec(1),
            r.depth == self.depth - 1,
            r.index == self.index / 4,
            r.valid(),
    {
        let r = self.ancestor(1);
        proof {
            reveal_with_fuel(pow4, 2);
            assert(pow4(1) == 4);
        }
        r
    }

    /// The four children, in index order.
    pub fn children(&self) -> (r: [Cell; 4])
        requires
            self.valid(),
            self.depth < MAX_DEPTH,
        ensures
            forall|i: int|
                0 <= i < 4 ==> r@[i] == (Cell {
                    depth: (self.depth + 1) as u8,
                    index: (4 * self.index + i) as u64,
                }) && (#[trigger] r@[i]).valid(),
    {
        proof {
            lemma_num_cells_fit((self.depth + 1) as nat);
            assert(pow4((self.depth + 1) as nat) == 4 * pow4(self.depth as nat));
        }
        let base = self.index * 4;
        let d = self.depth + 1;
        [
            Cell { depth: d, index: base },
            Cell { depth: d, index: base + 1 },
            Cell { depth: d, index: base + 2 },
            Cell { depth: d, index: base + 3 },
        ]
    }
}

/// The ancestor of a valid cell is valid.
pub proof fn lemma_ancestor_valid(c: Cell, k: nat)
    requires
        c.valid(),
        k <= c.depth,
    ensures
        c.ancestor_spec(k).valid(),
    decreases k,
{
    let d = (c.depth - k) as nat;
    lemma_pow4_pos(k);
    lemma_pow4_pos(d);
    lemma_pow4_split(d, k);
    // index < 12 * 4^d * 4^k  ==>  index / 4^k < 12 * 4^d
    assert(c.index < pow4(k) * (12 * pow4(d))) by (nonlinear_arith)
        requires
            c.index < 12 * pow4((d + k) as nat),
            pow4((d + k) as nat) == pow4(d) * pow4(k),
    ;
    lemma_multiply_divide_lt(c.index as int, pow4(k) as int, (12 * pow4(d)) as int);
    lemma_div_is_ordered_by_denominator(c.index as int, 1, pow4(k) as int);
}

pub proof fn lemma_pow4_split(a: nat, b: nat)
    ensures
        pow4(a + b) == pow4(a) * pow4(b),
    decreases b,
{
    if b > 0 {
        lemma_pow4_split(a, (b - 1) as nat);
        assert(pow4(a + b) == 4 * pow4((a + b - 1) as nat));
        assert(pow4(b) == 4 * pow4((b - 1) as nat));
        assert(4 * (pow4(a) * pow4((b - 1) as nat)) == pow4(a) * (4 * pow4((b - 1) as nat))) by (nonlinear_arith);
    } else {
        assert(pow4(b) == 1);
        assert(pow4(a) * 1 == pow4(a));
    }
}

} // verus!
