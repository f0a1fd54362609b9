//! Typed pixel buffers of scientific tiles.
use vstd::prelude::*;
use vstd::slice::slice_to_vec;
use vstd::seq_lib::to_multiset_update;

verus! {

broadcast use {vstd::multiset::group_multiset_axioms, vstd::seq_lib::group_to_multiset_ensures};

/// A buffer of pixel values of one numeric type.
pub trait ArrayBuffer: Sized {
    type Item: Copy;

    /// The values held.
    spec fn items(&self) -> Seq<Self::Item>;

    /// A value as a 64-bit integer.
    spec fn widen(x: Self::Item) -> i64;

    /// The values held, widened.
    fn values(&self) -> (r: Vec<i64>)
        ensures
            r@ == self.items().map_values(|x: Self::Item| Self::widen(x)),
    ;

    fn new(buf: &[Self::Item]) -> (r: Self)
        ensures
            r.items() == buf@,
    ;

    /// `size` copies of `blank_value`.
    fn empty(size: u32, blank_value: Self::Item) -> (r: Self)
        ensures
            r.items() == Seq::new(size as nat, |i: int| blank_value),
    ;

    fn to_vec(&self) -> (r: Vec<Self::Item>)
        ensures
            r@ == self.items(),
    ;
}

proof fn lemma_multiset_len(a: Seq<i64>, b: Seq<i64>)
    requires
        a.to_multiset() == b.to_multiset(),
    ensures
        a.len() == b.len(),
{
    a.to_multiset_ensures();
    b.to_multiset_ensures();
}

fn filled<T: Copy>(size: u32, v: T) -> (r: Vec<T>)
    ensures
        r@ == Seq::new(size as nat, |i: int| v),
{
    let mut out: Vec<T> = Vec::new();
    let mut i: u32 = 0;
    while i < size
        invariant
            i <= size,
            out@ == Seq::new(i as nat, |k: int| v),
        decreases size - i,
    {
        out.push(v);
        i = i + 1;
        proof {
            assert(out@ =~= Seq::new(i as nat, |k: int| v));
        }
    }
    out
}

fn copy_vec<T: Copy>(v: &Vec<T>) -> (r: Vec<T>)
    ensures
        r@ == v@,
{
    slice_to_vec(v.as_slice())
}

/// Unsigned 8-bit pixels.
#[derive(Debug)]
pub struct ArrayU8(Vec<u8>);

/// Signed 16-bit pixels.
#[derive(Debug)]
pub struct ArrayI16(Vec<i16>);

/// Signed 32-bit pixels.
#[derive(Debug)]
pub struct ArrayI32(Vec<i32>);

impl ArrayBuffer for ArrayU8 {
    type Item = u8;

    closed spec fn items(&self) -> Seq<u8> {
        self.0@
    }

    open spec fn widen(x: u8) -> i64 {
        x as i64
    }

    fn values(&self) -> (r: Vec<i64>) {
        let mut out: Vec<i64> = Vec::new();
        let mut i: usize = 0;
        while i < self.0.len()
            invariant
                i <= self.0@.len(),
                out@ == self.0@.subrange(0, i as int).map_values(|x: u8| x as i64),
            decreases self.0@.len() - i,
        {
            out.push(self.0[i] as i64);
            i = i + 1;
            proof {
                assert(out@ =~= self.0@.subrange(0, i as int).map_values(|x: u8| x as i64));
            }
        }
        proof {
            assert(self.0@.subrange(0, self.0@.len() as int) =~= self.0@);
        }
        out
    }

    fn new(buf: &[u8]) -> (r: Self) {
        ArrayU8(slice_to_vec(buf))
    }

    fn empty(size: u32, blank_value: u8) -> (r: Self) {
        ArrayU8(filled(size, blank_value))
    }

    fn to_vec(&self) -> (r: Vec<u8>) {
        copy_vec(&self.0)
    }
}

impl ArrayBuffer for ArrayI16 {
    type Item = i16;

    closed spec fn items(&self) -> Seq<i16> {
        self.0@
    }

    open spec fn widen(x: i16) -> i64 {
        x as i64
    }

    fn values(&self) -> (r: Vec<i64>) {
        let mut out: Vec<i64> = Vec::new();
        let mut i: usize = 0;
        while i < self.0.len()
            invariant
                i <= self.0@.len(),
                out@ == self.0@.subrange(0, i as int).map_values(|x: i16| x as i64),
            decreases self.0@.len() - i,
        {
            out.push(self.0[i] as i64);
            i = i + 1;
            proof {
                assert(out@ =~= self.0@.subrange(0, i as int).map_values(|x: i16| x as i64));
            }
        }
        proof {
            assert(self.0@.subrange(0, self.0@.len() as int) =~= self.0@);
        }
        out
    }

    fn new(buf: &[i16]) -> (r: Self) {
        ArrayI16(slice_to_vec(buf))
    }

    fn empty(size: u32, blank_value: i16) -> (r: Self) {
        ArrayI16(filled(size, blank_value))
    }

    fn to_vec(&self) -> (r: Vec<i16>) {
        copy_vec(&self.0)
    }
}

impl ArrayBuffer for ArrayI32 {
    type Item = i32;

    closed spec fn items(&self) -> Seq<i32> {
        self.0@
    }

    open spec fn widen(x: i32) -> i64 {
        x as i64
    }

    fn values(&self) -> (r: Vec<i64>) {
        let mut out: Vec<i64> = Vec::new();
        let mut i: usize = 0;
        while i < self.0.len()
            invariant
                i <= self.0@.len(),
                out@ == self.0@.subrange(0, i as int).map_values(|x: i32| x as i64),
            decreases self.0@.len() - i,
        {
            out.push(self.0[i] as i64);
            i = i + 1;
            proof {
                assert(out@ =~= self.0@.subrange(0, i as int).map_values(|x: i32| x as i64));
            }
        }
        proof {
            assert(self.0@.subrange(0, self.0@.len() as int) =~= self.0@);
        }
        out
    }

    fn new(buf: &[i32]) -> (r: Self) {
        ArrayI32(slice_to_vec(buf))
    }

    fn empty(size: u32, blank_value: i32) -> (r: Self) {
        ArrayI32(filled(size, blank_value))
    }

    fn to_vec(&self) -> (r: Vec<i32>) {
        copy_vec(&self.0)
    }
}

pub open spec fn sorted_values(s: Seq<i64>) -> bool {
    forall|a: int, b: int| 0 <= a < b < s.len() ==> s[a] <= s[b]
}

/// Sorts `v` in place, ascending.
pub fn sort_values(v: &mut Vec<i64>)
    ensures
        sorted_values(final(v)@),
        final(v)@.to_multiset() == old(v)@.to_multiset(),
{
    let n = v.len();
    let mut i: usize = 0;
    while i < n
        invariant
            n == v@.len(),
            i <= n,
            v@.to_multiset() == old(v)@.to_multiset(),
            sorted_values(v@.subrange(0, i as int)),
            forall|a: int, b: int| 0 <= a < i <= b < n ==> v@[a] <= v@[b],
        decreases n - i,
    {
        let mut m = i;
        let mut j = i + 1;
        while j < n
            invariant
                n == v@.len(),
                i < n,
                i <= m < j <= n,
                forall|k: int| i <= k < j ==> v@[m as int] <= #[trigger] v@[k],
            decreases n - j,
        {
            if v[j] < v[m] {
                m = j;
            }
            j = j + 1;
        }
        let ghost s = v@;
        let a = v[i];
        let b = v[m];
        v.set(i, b);
        v.set(m, a);
        proof {
            to_multiset_update(s, i as int, b);
            to_multiset_update(s.update(i as int, b), m as int, a);
            assert(v@ == s.update(i as int, b).update(m as int, a));
            assert(v@.to_multiset() =~= s.to_multiset());
            assert(sorted_values(v@.subrange(0, i + 1))) by {
                assert forall|x: int, y: int| 0 <= x < y < i + 1 implies #[trigger] v@.subrange(0, i + 1)[x] <= #[trigger] v@.subrange(0, i + 1)[y] by {
                    if y < i {
                        assert(s.subrange(0, i as int)[x] <= s.subrange(0, i as int)[y]);
                    }
                }
            }
        }
        i = i + 1;
    }
    proof {
        assert(v@.subrange(0, n as int) =~= v@);
    }
}

/// A square tile of `width x width` pixels of `num_channels` values each.
#[derive(Debug)]
pub struct TileArrayBuffer<T: ArrayBuffer> {
    pub buf: T,
    pub width: i32,
}

impl<T: ArrayBuffer> TileArrayBuffer<T> {
    pub fn new(buf: &[T::Item], width: i32, num_channels: i32) -> (r: Self)
        requires
            width >= 0,
            num_channels >= 0,
            buf@.len() == width * width * num_channels,
        ensures
            r.buf.items() == buf@,
            r.width == width,
    {
        TileArrayBuffer { buf: T::new(buf), width }
    }

    /// The values at the 1st and 99th percentiles: in the sorted values, those
    /// at `len / 100` and `99 * len / 100`.
    pub fn get_cutoff_values(&self) -> (r: (i64, i64))
        requires
            self.buf.items().len() > 0,
        ensures
            exists|s: Seq<i64>|
                sorted_values(s) && s.to_multiset() == self.buf.items().map_values(|x: T::Item| T::widen(x)).to_multiset() && r == (
                    s[s.len() as int / 100],
                    s[99 * s.len() as int / 100],
                ),
    {
        let mut v = self.buf.values();
        let ghost v0 = v@;
        sort_values(&mut v);
        proof {
            lemma_multiset_len(v@, v0);
        }
        let n = v.len();
        proof {
            assert(99 * n / 100 < n) by (nonlinear_arith)
                requires
                    n > 0,
            ;
        }
        let q = n / 100;
        let hi = if n % 100 == 0 {
            n - q
        } else {
            n - q - 1
        };
        proof {
            let r = n % 100;
            let k: int = if r == 0 { n - q } else { n - q - 1 };
            assert(n == 100 * q + r && 0 <= r < 100);
            assert(99 * n == 100 * k + (if r == 0 { 0int } else { 100 - r })) by (nonlinear_arith)
                requires
                    n == 100 * q + r,
                    k == (if r == 0 { n - q } else { n - q - 1 }),
            ;
            vstd::arithmetic::div_mod::lemma_fundamental_div_mod_converse(
                99 * n as int,
                100,
                k,
                if r == 0 { 0int } else { 100 - r },
            );
            assert(hi == 99 * n as int / 100);
        }
        (v[q], v[hi])
    }

    /// A tile whose every value is `blank_value`.
    pub fn blank(width: i32, num_channels: i32, blank_value: T::Item) -> (r: Self)
        requires
            width >= 0,
            num_channels >= 0,
            width * width * num_channels <= u32::MAX,
        ensures
            r.buf.items() == Seq::new((width * width * num_channels) as nat, |i: int| blank_value),
            r.width == width,
    {
        proof {
            assert(0 <= width * width <= 0x4000_0000_0000_0000) by (nonlinear_arith)
                requires
                    0 <= width <= 0x8000_0000,
            ;
            assert(0 <= width * width * num_channels) by (nonlinear_arith)
                requires
                    width * width >= 0,
                    num_channels >= 0,
            ;
        }
        let size = (width as u64 * width as u64 * num_channels as u64) as u32;
        TileArrayBuffer { buf: T::empty(size, blank_value), width }
    }
}

} // verus!
