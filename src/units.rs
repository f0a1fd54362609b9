//! Multi-unit files: a primary unit and its extensions, one after the
//! other. Each unit's length comes from its own header, so a unit that does
//! not decode as an image is skipped and the next ones are still read.
use vstd::prelude::*;
use vstd::slice::slice_subrange;
use crate::number::Decimal;
use crate::source::{push_bytes, push_decimal, decimal};
use crate::decode::{
    card_kw, end_card, find_card, keyword_int, header_len, calibration_spec, PixelType, Calibration, DecodeError,
    kw_bitpix, kw_naxis1, kw_naxis2, kw_bscale, kw_bzero, kw_blank, keyword_at, find_end, read_keyword, read_int,
};

verus! {

/// Largest axis length that a unit header may give.
pub const MAX_AXIS: i64 = 65536;

/// Most axes that a unit header may give.
pub const MAX_NAXIS: i64 = 999;

pub open spec fn kw_naxis() -> Seq<u8> {
    seq![78u8, 65u8, 88u8, 73u8, 83u8, 32u8, 32u8, 32u8]  // "NAXIS"
}

pub open spec fn kw_pcount() -> Seq<u8> {
    seq![80u8, 67u8, 79u8, 85u8, 78u8, 84u8, 32u8, 32u8]  // "PCOUNT"
}

pub open spec fn kw_gcount() -> Seq<u8> {
    seq![71u8, 67u8, 79u8, 85u8, 78u8, 84u8, 32u8, 32u8]  // "GCOUNT"
}

pub open spec fn kw_xtension() -> Seq<u8> {
    seq![88u8, 84u8, 69u8, 78u8, 83u8, 73u8, 79u8, 78u8]  // "XTENSION"
}

/// The keyword of axis `n`: `NAXIS{n}`, padded to eight bytes.
pub open spec fn kw_naxis_n(n: nat) -> Seq<u8> {
    seq![78u8, 65u8, 88u8, 73u8, 83u8] + decimal(n) + Seq::new((3 - decimal(n).len()) as nat, |i: int| 32u8)
}

/// Bytes per value of a `BITPIX`.
pub open spec fn bitpix_bytes(b: i64) -> Option<nat> {
    if b == 8 {
        Some(1)
    } else if b == 16 {
        Some(2)
    } else if b == 32 || b == -32 {
        Some(4)
    } else if b == 64 || b == -64 {
        Some(8)
    } else {
        None
    }
}

/// Product of the lengths of axes 1 to `k`, each given and in range.
pub open spec fn axes_product(p: Seq<u8>, e: nat, k: nat) -> Option<nat>
    decreases k,
{
    if k == 0 {
        Some(1)
    } else {
        match (axes_product(p, e, (k - 1) as nat), keyword_int(p, kw_naxis_n(k), e)) {
            (Some(a), Some(v)) => if 0 <= v <= MAX_AXIS {
                Some(a * (v as nat))
            } else {
                None
            },
            _ => None,
        }
    }
}

/// A count keyword: `default` when absent, a non-negative integer when given.
pub open spec fn count_of(p: Seq<u8>, kw: Seq<u8>, e: nat, default: nat) -> Option<nat> {
    match find_card(p, kw, 0, e) {
        None => Some(default),
        Some(_) => match keyword_int(p, kw, e) {
            Some(v) => if v >= 0 {
                Some(v as nat)
            } else {
                None
            },
            None => None,
        },
    }
}

/// Data bytes of the unit whose header card `e` ends:
/// `bytes * GCOUNT * (PCOUNT + NAXIS1 * ... * NAXISn)`, nothing when NAXIS is 0.
pub open spec fn data_len(p: Seq<u8>, e: nat) -> Option<nat> {
    match (keyword_int(p, kw_bitpix(), e), keyword_int(p, kw_naxis(), e)) {
        (Some(b), Some(n)) => match bitpix_bytes(b) {
            Some(bytes) => if 0 <= n <= MAX_NAXIS {
                let prod = if n == 0 {
                    Some(0nat)
                } else {
                    axes_product(p, e, n as nat)
                };
                match (prod, count_of(p, kw_pcount(), e, 0), count_of(p, kw_gcount(), e, 1)) {
                    (Some(a), Some(pc), Some(gc)) => Some(bytes * gc * (pc + a)),
                    _ => None,
                }
            } else {
                None
            },
            None => None,
        },
        _ => None,
    }
}

/// `n` rounded up to whole blocks, minus `n`.
pub open spec fn block_pad(n: nat) -> nat {
    ((2880 - n % 2880) % 2880) as nat
}

/// Length of the unit that starts `p`, when its header gives it.
pub open spec fn unit_len(p: Seq<u8>) -> Option<nat> {
    match end_card(p, 0) {
        None => None,
        Some(e) => match data_len(p, e) {
            Some(n) => Some(header_len(e) + n + block_pad(n)),
            None => None,
        },
    }
}

/// The unit is an image: it is the primary unit, or an `IMAGE` extension.
pub open spec fn is_image(p: Seq<u8>, e: nat) -> bool {
    match find_card(p, kw_xtension(), 0, e) {
        None => true,
        Some(j) => p.subrange(80 * j as int + 10, 80 * j as int + 16) == seq![39u8, 73u8, 77u8, 65u8, 71u8, 69u8],  // "'IMAGE"
    }
}

/// An image of a unit, at the unit's own size.
#[derive(Clone, Debug)]
pub struct ImageUnit {
    pub pixel: PixelType,
    pub width: u32,
    pub height: u32,
    /// Row by row, big-endian.
    pub pixels: Vec<u8>,
    pub calibration: Calibration,
}

/// What decoding the unit that starts `p` as a 2-axis image gives:
/// pixel type, width, height, pixel bytes and calibration, or the first error.
pub open spec fn decode_image_spec(p: Seq<u8>) -> Result<(PixelType, u32, u32, Seq<u8>, Calibration), DecodeError> {
    match end_card(p, 0) {
        None => Err(DecodeError::NoHeaderEnd),
        Some(e) => if !is_image(p, e) {
            Err(DecodeError::NotImage)
        } else {
            match keyword_int(p, kw_bitpix(), e) {
                None => Err(DecodeError::BadPixelType),
                Some(b) => match PixelType::from_bitpix_spec(b) {
                    None => Err(DecodeError::BadPixelType),
                    Some(t) => match (keyword_int(p, kw_naxis(), e), keyword_int(p, kw_naxis1(), e), keyword_int(p, kw_naxis2(), e)) {
                        (Some(n), Some(w), Some(h)) => if n == 2 && 0 <= w <= MAX_AXIS && 0 <= h <= MAX_AXIS {
                            let start = header_len(e);
                            let len = (w * h) as nat * t.bytes_spec();
                            if start + len > p.len() {
                                Err(DecodeError::Truncated)
                            } else {
                                Ok((t, w as u32, h as u32, p.subrange(start as int, (start + len) as int), calibration_spec(p, e)))
                            }
                        } else {
                            Err(DecodeError::BadDimensions)
                        },
                        _ => Err(DecodeError::BadDimensions),
                    },
                },
            }
        },
    }
}

/// What decoding each unit of a multi-unit payload gives, in order. A unit
/// whose length is unknown, or runs past the end, is the last one read.
pub open spec fn units_spec(p: Seq<u8>) -> Seq<Result<(PixelType, u32, u32, Seq<u8>, Calibration), DecodeError>>
    decreases p.len(),
{
    if p.len() == 0 {
        Seq::empty()
    } else {
        let first = seq![decode_image_spec(p)];
        match unit_len(p) {
            Some(l) => if 0 < l <= p.len() {
                first + units_spec(p.subrange(l as int, p.len() as int))
            } else {
                first
            },
            None => first,
        }
    }
}

/// A decoded unit matches its mathematical description.
pub open spec fn unit_matches(
    r: Result<ImageUnit, DecodeError>,
    s: Result<(PixelType, u32, u32, Seq<u8>, Calibration), DecodeError>,
) -> bool {
    match s {
        Ok((t, w, h, px, cal)) => r matches Ok(u) && u.pixel == t && u.width == w && u.height == h && u.pixels@ == px
            && u.calibration == cal,
        Err(e) => r == Err::<ImageUnit, DecodeError>(e),
    }
}

/// Whether a card named `kw` stands before card `e`.
fn has_card(p: &[u8], kw: &[u8], e: usize) -> (r: bool)
    requires
        80 * e + 80 <= p@.len(),
        kw@.len() == 8,
    ensures
        r == find_card(p@, kw@, 0, e as nat) is Some,
{
    let len = p.len();
    let mut i: usize = 0;
    while i < e
        invariant
            len == p@.len(),
            i <= e,
            80 * e + 80 <= p@.len(),
            kw@.len() == 8,
            find_card(p@, kw@, i as nat, e as nat) == find_card(p@, kw@, 0, e as nat),
        decreases e - i,
    {
        if keyword_at(p, i, kw) {
            return true;
        }
        i = i + 1;
    }
    false
}

fn read_count(p: &[u8], kw: &[u8], e: usize, default: u64) -> (r: Option<u64>)
    requires
        80 * e + 80 <= p@.len(),
        kw@.len() == 8,
    ensures
        r is Some <==> count_of(p@, kw@, e as nat, default as nat) is Some,
        r is Some ==> r->0 as nat == count_of(p@, kw@, e as nat, default as nat)->0,
{
    if !has_card(p, kw, e) {
        return Some(default);
    }
    match read_int(p, kw, e) {
        Some(v) => if v >= 0 {
            Some(v as u64)
        } else {
            None
        },
        None => None,
    }
}

/// The keyword of axis `n`.
fn naxis_keyword(n: u64) -> (r: Vec<u8>)
    requires
        1 <= n <= 999,
    ensures
        r@ == kw_naxis_n(n as nat),
        r@.len() == 8,
{
    let mut k: Vec<u8> = Vec::new();
    let head: [u8; 5] = [78, 65, 88, 73, 83];
    push_bytes(&mut k, head.as_slice());
    push_decimal(&mut k, n);
    proof {
        assert(head@ =~= seq![78u8, 65u8, 88u8, 73u8, 83u8]);
        lemma_decimal_len3(n as nat);
    }
    let ghost before = k@;
    while k.len() < 8
        invariant
            k@.len() <= 8,
            k@.len() >= before.len(),
            before.len() == 5 + decimal(n as nat).len(),
            k@ == before + Seq::new((k@.len() - before.len()) as nat, |i: int| 32u8),
        decreases 8 - k@.len(),
    {
        k.push(32);
        proof {
            assert(k@ =~= before + Seq::new((k@.len() - before.len()) as nat, |i: int| 32u8));
        }
    }
    proof {
        assert(k@ =~= kw_naxis_n(n as nat));
    }
    k
}

proof fn lemma_decimal_len3(n: nat)
    requires
        1 <= n <= 999,
    ensures
        1 <= decimal(n).len() <= 3,
{
    crate::number::lemma_decimal_digits(n);
    assert(crate::number::pow10(3) == 1000) by {
        reveal_with_fuel(crate::number::pow10, 4);
    }
    crate::number::lemma_decimal_len(n, 3);
}

proof fn lemma_product_none(p: Seq<u8>, e: nat, k: nat, m: nat)
    requires
        axes_product(p, e, k) is None,
        k <= m,
    ensures
        axes_product(p, e, m) is None,
    decreases m - k,
{
    if k < m {
        lemma_product_none(p, e, k + 1, m);
    }
}

/// Product of the axis lengths of a unit with `n` axes, exact up to `2^64`
/// and flagged as larger past it; `zero` when an axis is empty.
fn read_axes(p: &[u8], e: usize, n: i64) -> (r: Option<(u128, bool, bool)>)
    requires
        1 <= n <= MAX_NAXIS,
        80 * e + 80 <= p@.len(),
    ensures
        r is None <==> axes_product(p@, e as nat, n as nat) is None,
        r matches Some((prod, big, zero)) ==> {
            let a = axes_product(p@, e as nat, n as nat)->0;
            &&& !big ==> prod as nat == a && prod <= 0x1_0000_0000_0000_0000u128
            &&& big ==> (zero <==> a == 0)
            &&& zero ==> big
            &&& big && !zero ==> a > 0x1_0000_0000_0000_0000u128
        },
{
    let cap: u128 = 0x1_0000_0000_0000_0000;
    let mut prod: u128 = 1;
    let mut big = false;
    let mut zero = false;
    let mut k: u64 = 1;
    while k <= n as u64
        invariant
            0 <= n <= MAX_NAXIS,
            1 <= k <= n + 1,
            80 * e + 80 <= p@.len(),
            axes_product(p@, e as nat, (k - 1) as nat) is Some,
            !big ==> prod as nat == axes_product(p@, e as nat, (k - 1) as nat)->0 && prod <= cap,
            big ==> (zero <==> axes_product(p@, e as nat, (k - 1) as nat)->0 == 0),
            zero ==> big,
            big && !zero ==> axes_product(p@, e as nat, (k - 1) as nat)->0 > cap,
            cap == 0x1_0000_0000_0000_0000u128,
        decreases n + 1 - k,
    {
        let kw = naxis_keyword(k);
        let v = match read_int(p, kw.as_slice(), e) {
            None => {
                proof {
                    lemma_product_none(p@, e as nat, k as nat, n as nat);
                }
                return None;
            },
            Some(v) => v,
        };
        if v < 0 || v > MAX_AXIS {
            proof {
                lemma_product_none(p@, e as nat, k as nat, n as nat);
            }
            return None;
        }
        let ghost a = axes_product(p@, e as nat, (k - 1) as nat)->0;
        proof {
            assert(axes_product(p@, e as nat, k as nat) == Some(a * (v as nat)));
        }
        if v == 0 {
            zero = true;
            big = true;
            proof {
                assert(a * 0 == 0) by (nonlinear_arith);
            }
        } else if !big {
            proof {
                assert(prod * (v as nat) <= cap * 65536) by (nonlinear_arith)
                    requires
                        prod <= cap,
                        1 <= v <= 65536,
                ;
            }
            prod = prod * (v as u128);
            if prod > cap {
                big = true;
            }
        } else if !zero {
            proof {
                assert(a * (v as nat) > cap) by (nonlinear_arith)
                    requires
                        a > cap,
                        v >= 1,
                ;
            }
        } else {
            proof {
                assert(a * (v as nat) == 0) by (nonlinear_arith)
                    requires
                        a == 0,
                ;
            }
        }
        k = k + 1;
    }
    proof {
        assert(k - 1 == n);
    }
    Some((prod, big, zero))
}

/// Length of the unit that starts `p`, when its header gives it and it does
/// not run past the end of `p`.
fn read_unit_len(p: &[u8]) -> (r: Option<u128>)
    ensures
        r is Some ==> unit_len(p@) == Some(r->0 as nat),
        r is None ==> unit_len(p@) is None || unit_len(p@)->0 > p@.len(),
{
    let e = match find_end(p) {
        None => return None,
        Some(e) => e,
    };
    let bitpix_kw: [u8; 8] = [66, 73, 84, 80, 73, 88, 32, 32];
    let naxis_kw: [u8; 8] = [78, 65, 88, 73, 83, 32, 32, 32];
    let pcount_kw: [u8; 8] = [80, 67, 79, 85, 78, 84, 32, 32];
    let gcount_kw: [u8; 8] = [71, 67, 79, 85, 78, 84, 32, 32];
    proof {
        assert(bitpix_kw@ =~= kw_bitpix());
        assert(naxis_kw@ =~= kw_naxis());
        assert(pcount_kw@ =~= kw_pcount());
        assert(gcount_kw@ =~= kw_gcount());
    }
    let b = match read_int(p, bitpix_kw.as_slice(), e) {
        None => return None,
        Some(b) => b,
    };
    let bytes: u128 = if b == 8 {
        1
    } else if b == 16 {
        2
    } else if b == 32 || b == -32 {
        4
    } else if b == 64 || b == -64 {
        8
    } else {
        return None;
    };
    let n = match read_int(p, naxis_kw.as_slice(), e) {
        None => return None,
        Some(n) => n,
    };
    if n < 0 || n > MAX_NAXIS {
        return None;
    }
    let pc = match read_count(p, pcount_kw.as_slice(), e, 0) {
        None => return None,
        Some(v) => v,
    };
    let gc = match read_count(p, gcount_kw.as_slice(), e, 1) {
        None => return None,
        Some(v) => v,
    };
    let cap: u128 = 0x1_0000_0000_0000_0000;
    let (prod, big, zero) = if n == 0 {
        (1u128, false, false)
    } else {
        match read_axes(p, e, n) {
            None => {
                proof {
                    assert(axes_product(p@, e as nat, n as nat) is None);
                    assert(data_len(p@, e as nat) is None);
                }
                return None;
            },
            Some(t) => t,
        }
    };
    let ghost axes: nat = if n == 0 { 0 } else { axes_product(p@, e as nat, n as nat)->0 };
    let plen = p.len();
    proof {
        assert(plen as int <= usize::MAX as int);
        assert(usize::MAX as int <= 0xFFFF_FFFF_FFFF_FFFF);
    }
    let prod_exact: u128 = if n == 0 || zero {
        0
    } else if big {
        // a non-empty unit larger than `cap` bytes runs past the end of `p`
        if gc == 0 {
            0
        } else {
            proof {
                assert(bytes * gc * (pc + axes) > p@.len()) by (nonlinear_arith)
                    requires
                        axes > 0x1_0000_0000_0000_0000,
                        bytes >= 1,
                        gc >= 1,
                        p@.len() <= 0xFFFF_FFFF_FFFF_FFFF,
                ;
            }
            return None;
        }
    } else {
        prod
    };
    proof {
        if n != 0 && !zero && big {
            assert(gc == 0);
        }
    }
    let used = (e as u128 + 1) * 80;
    let hl = used + (2880 - used % 2880) % 2880;
    proof {
        if n != 0 && !zero && !big {
            assert(prod_exact == axes);
        }
        if n != 0 && zero {
            assert(axes == 0);
        }
    }
    // bytes * GCOUNT * (PCOUNT + axes), past the end of `p` as soon as a
    // factor is
    let sum: u128 = pc as u128 + prod_exact;
    let dl: u128 = if gc == 0 || sum == 0 {
        proof {
            assert(bytes * gc * (pc + axes) == 0) by (nonlinear_arith)
                requires
                    gc == 0 || pc + axes == 0,
            ;
        }
        0
    } else {
        if sum > plen as u128 {
            proof {
                assert(bytes * gc * (pc + axes) >= pc + axes) by (nonlinear_arith)
                    requires
                        bytes >= 1,
                        gc >= 1,
                        pc + axes >= 1,
                ;
            }
            return None;
        }
        let bg: u128 = bytes * (gc as u128);
        if bg > plen as u128 {
            proof {
                assert(bytes * gc * (pc + axes) >= bytes * gc) by (nonlinear_arith)
                    requires
                        bytes >= 1,
                        gc >= 1,
                        pc + axes >= 1,
                ;
            }
            return None;
        }
        proof {
            assert(bg * sum <= 0xFFFF_FFFF_FFFF_FFFFu128 * 0xFFFF_FFFF_FFFF_FFFFu128) by (nonlinear_arith)
                requires
                    bg <= 0xFFFF_FFFF_FFFF_FFFF,
                    sum <= 0xFFFF_FFFF_FFFF_FFFF,
            ;
        }
        bg * sum
    };
    proof {
        assert(dl == bytes * gc * (pc + axes)) by (nonlinear_arith)
            requires
                dl == 0 && (gc == 0 || pc + axes == 0) || dl == (bytes * gc) * (pc + axes),
        ;
    }
    if dl > plen as u128 {
        return None;
    }
    Some(hl + dl + (2880 - dl % 2880) % 2880)
}

/// Index of the first card named `kw` before card `e`.
fn find_card_index(p: &[u8], kw: &[u8], e: usize) -> (r: Option<usize>)
    requires
        80 * e + 80 <= p@.len(),
        kw@.len() == 8,
    ensures
        r is Some <==> find_card(p@, kw@, 0, e as nat) is Some,
        r is Some ==> r->0 as nat == find_card(p@, kw@, 0, e as nat)->0 && r->0 < e,
{
    let len = p.len();
    let mut i: usize = 0;
    while i < e
        invariant
            len == p@.len(),
            i <= e,
            80 * e + 80 <= p@.len(),
            kw@.len() == 8,
            find_card(p@, kw@, i as nat, e as nat) == find_card(p@, kw@, 0, e as nat),
        decreases e - i,
    {
        if keyword_at(p, i, kw) {
            return Some(i);
        }
        i = i + 1;
    }
    None
}

fn read_calibration(p: &[u8], e: usize) -> (r: Calibration)
    requires
        80 * e + 80 <= p@.len(),
    ensures
        r == calibration_spec(p@, e as nat),
{
    let bscale_kw: [u8; 8] = [66, 83, 67, 65, 76, 69, 32, 32];
    let bzero_kw: [u8; 8] = [66, 90, 69, 82, 79, 32, 32, 32];
    let blank_kw: [u8; 8] = [66, 76, 65, 78, 75, 32, 32, 32];
    proof {
        assert(bscale_kw@ =~= kw_bscale());
        assert(bzero_kw@ =~= kw_bzero());
        assert(blank_kw@ =~= kw_blank());
    }
    let scale = match read_keyword(p, bscale_kw.as_slice(), e) {
        Some(d) => d,
        None => Decimal { mantissa: 1, scale: 0 },
    };
    let offset = match read_keyword(p, bzero_kw.as_slice(), e) {
        Some(d) => d,
        None => Decimal { mantissa: 0, scale: 0 },
    };
    let blank = read_int(p, blank_kw.as_slice(), e);
    Calibration { scale, offset, blank }
}

/// Decodes the unit that starts `p` as a 2-axis image of its own size.
pub fn decode_image(p: &[u8]) -> (r: Result<ImageUnit, DecodeError>)
    ensures
        unit_matches(r, decode_image_spec(p@)),
{
    let e = match find_end(p) {
        None => return Err(DecodeError::NoHeaderEnd),
        Some(e) => e,
    };
    let xtension_kw: [u8; 8] = [88, 84, 69, 78, 83, 73, 79, 78];
    let bitpix_kw: [u8; 8] = [66, 73, 84, 80, 73, 88, 32, 32];
    let naxis_kw: [u8; 8] = [78, 65, 88, 73, 83, 32, 32, 32];
    let naxis1_kw: [u8; 8] = [78, 65, 88, 73, 83, 49, 32, 32];
    let naxis2_kw: [u8; 8] = [78, 65, 88, 73, 83, 50, 32, 32];
    let image_tag: [u8; 6] = [39, 73, 77, 65, 71, 69];
    proof {
        assert(xtension_kw@ =~= kw_xtension());
        assert(bitpix_kw@ =~= kw_bitpix());
        assert(naxis_kw@ =~= kw_naxis());
        assert(naxis1_kw@ =~= kw_naxis1());
        assert(naxis2_kw@ =~= kw_naxis2());
    }
    match find_card_index(p, xtension_kw.as_slice(), e) {
        None => {},
        Some(j) => {
            let plen0 = p.len();
            proof {
                assert(80 * j + 16 <= plen0);
            }
            let base = 80 * j + 10;
            let mut k: usize = 0;
            while k < 6
                invariant
                    base == 80 * j + 10,
                    j < e,
                    80 * e + 80 <= p@.len(),
                    k <= 6,
                    image_tag@ == seq![39u8, 73u8, 77u8, 65u8, 71u8, 69u8],
                    find_card(p@, kw_xtension(), 0, e as nat) == Some(j as nat),
                    end_card(p@, 0) == Some(e as nat),
                    forall|m: int| 0 <= m < k ==> p@[base + m] == image_tag@[m],
                decreases 6 - k,
            {
                if p[base + k] != image_tag[k] {
                    proof {
                        assert(p@.subrange(base as int, base + 6)[k as int] != image_tag@[k as int]);
                        assert(p@.subrange(80 * j as int + 10, 80 * j as int + 16) != seq![39u8, 73u8, 77u8, 65u8, 71u8, 69u8]);
                        assert(!is_image(p@, e as nat));
                    }
                    return Err(DecodeError::NotImage);
                }
                k = k + 1;
            }
            proof {
                assert(p@.subrange(base as int, base + 6) =~= image_tag@);
            }
        },
    }
    let pixel = match read_int(p, bitpix_kw.as_slice(), e) {
        None => return Err(DecodeError::BadPixelType),
        Some(b) => match PixelType::from_bitpix(b) {
            None => return Err(DecodeError::BadPixelType),
            Some(t) => t,
        },
    };
    let n = read_int(p, naxis_kw.as_slice(), e);
    let w = read_int(p, naxis1_kw.as_slice(), e);
    let h = read_int(p, naxis2_kw.as_slice(), e);
    let (w, h) = match (n, w, h) {
        (Some(n), Some(w), Some(h)) => if n == 2 && 0 <= w && w <= MAX_AXIS && 0 <= h && h <= MAX_AXIS {
            (w, h)
        } else {
            return Err(DecodeError::BadDimensions);
        },
        _ => return Err(DecodeError::BadDimensions),
    };
    let plen = p.len();
    let used = (e as u128 + 1) * 80;
    let start = used + (2880 - used % 2880) % 2880;
    proof {
        assert(w * h <= 65536 * 65536) by (nonlinear_arith)
            requires
                0 <= w <= 65536,
                0 <= h <= 65536,
        ;
        assert(w * h * pixel.bytes_spec() <= 65536 * 65536 * 4) by (nonlinear_arith)
            requires
                0 <= w * h <= 65536 * 65536,
                pixel.bytes_spec() <= 4,
        ;
    }
    let len: u128 = (w as u128) * (h as u128) * (pixel.bytes() as u128);
    if start + len > plen as u128 {
        return Err(DecodeError::Truncated);
    }
    let mut pixels: Vec<u8> = Vec::new();
    push_bytes(&mut pixels, slice_subrange(p, start as usize, (start + len) as usize));
    let calibration = read_calibration(p, e);
    Ok(ImageUnit { pixel, width: w as u32, height: h as u32, pixels, calibration })
}

/// Decodes every unit of a multi-unit payload as an image. A unit that
/// fails yields its error and the next units are still read.
#[verifier::rlimit(50)]
pub fn decode_units(p: &[u8]) -> (r: Vec<Result<ImageUnit, DecodeError>>)
    ensures
        r@.len() == units_spec(p@).len(),
        forall|i: int| 0 <= i < r@.len() ==> unit_matches(#[trigger] r@[i], units_spec(p@)[i]),
{
    let ghost all = units_spec(p@);
    let mut out: Vec<Result<ImageUnit, DecodeError>> = Vec::new();
    let mut o: usize = 0;
    let len = p.len();
    let mut last = false;
    proof {
        assert(p@.subrange(0, len as int) =~= p@);
        assert(all.subrange(0, all.len() as int) =~= all);
    }
    while o < len && !last
        invariant
            len == p@.len(),
            o <= len,
            all == units_spec(p@),
            out@.len() <= all.len(),
            !last ==> all.subrange(out@.len() as int, all.len() as int) == units_spec(p@.subrange(o as int, len as int)),
            last ==> out@.len() == all.len(),
            forall|i: int| 0 <= i < out@.len() ==> unit_matches(#[trigger] out@[i], all[i]),
        decreases 2 * (len - o) + if last { 0int } else { 1int },
    {
        let unit = slice_subrange(p, o, len);
        let ghost u = unit@;
        let ghost rest = units_spec(u);
        let ghost k = out@.len() as int;
        proof {
            assert(rest.len() >= 1);
            assert(rest[0] == decode_image_spec(u));
            assert(all.subrange(k, all.len() as int)[0] == rest[0]);
        }
        let r = decode_image(unit);
        let ghost prev = out@;
        out.push(r);
        proof {
            assert forall|i: int| 0 <= i < out@.len() implies unit_matches(#[trigger] out@[i], all[i]) by {
                if i < prev.len() {
                    assert(out@[i] == prev[i]);
                }
            }
        }
        match read_unit_len(unit) {
            Some(l) => {
                if 0 < l && l <= (len - o) as u128 {
                    let ghost next = u.subrange(l as int, u.len() as int);
                    proof {
                        assert(next =~= p@.subrange(o + l, len as int));
                        assert(rest == seq![decode_image_spec(u)] + units_spec(next));
                        assert(all.subrange(k + 1, all.len() as int) =~= rest.subrange(1, rest.len() as int));
                        assert(rest.subrange(1, rest.len() as int) =~= units_spec(next));
                    }
                    o = o + l as usize;
                } else {
                    last = true;
                    proof {
                        assert(rest.len() == 1);
                    }
                }
            },
            None => {
                last = true;
                proof {
                    assert(rest.len() == 1);
                }
            },
        }
    }
    proof {
        if !last {
            assert(p@.subrange(o as int, len as int).len() == 0);
            assert(units_spec(p@.subrange(o as int, len as int)).len() == 0);
        }
    }
    out
}

} // verus!
