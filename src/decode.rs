//! Turns a fetched payload into a tile: scientific-array payloads are read
//! (header cards, typed pixels, calibration); raster payloads are checked
//! and handed on for the browser to decode.
use vstd::prelude::*;
use vstd::slice::slice_subrange;
use crate::number::{Decimal, parse_decimal, parse_decimal_field};
use crate::source::{ImageFormat, push_bytes, push_decimal, decimal};

verus! {

/// Bytes in a header card.
pub const CARD: usize = 80;

/// Headers and data are laid out in blocks of this size.
pub const BLOCK: usize = 2880;

/// Largest tile width accepted.
pub const MAX_TILE_SIZE: u32 = 4096;

// Card keywords, padded with spaces to eight bytes.
pub open spec fn kw_end() -> Seq<u8> {
    seq![69u8, 78u8, 68u8, 32u8, 32u8, 32u8, 32u8, 32u8]  // "END"
}

pub open spec fn kw_bitpix() -> Seq<u8> {
    seq![66u8, 73u8, 84u8, 80u8, 73u8, 88u8, 32u8, 32u8]  // "BITPIX"
}

pub open spec fn kw_naxis1() -> Seq<u8> {
    seq![78u8, 65u8, 88u8, 73u8, 83u8, 49u8, 32u8, 32u8]  // "NAXIS1"
}

pub open spec fn kw_naxis2() -> Seq<u8> {
    seq![78u8, 65u8, 88u8, 73u8, 83u8, 50u8, 32u8, 32u8]  // "NAXIS2"
}

pub open spec fn kw_bscale() -> Seq<u8> {
    seq![66u8, 83u8, 67u8, 65u8, 76u8, 69u8, 32u8, 32u8]  // "BSCALE"
}

pub open spec fn kw_bzero() -> Seq<u8> {
    seq![66u8, 90u8, 69u8, 82u8, 79u8, 32u8, 32u8, 32u8]  // "BZERO"
}

pub open spec fn kw_blank() -> Seq<u8> {
    seq![66u8, 76u8, 65u8, 78u8, 75u8, 32u8, 32u8, 32u8]  // "BLANK"
}

/// Keyword of card `i`.
pub open spec fn card_kw(p: Seq<u8>, i: int) -> Seq<u8> {
    p.subrange(80 * i, 80 * i + 8)
}

/// Index of the first `END` card at or after card `i`.
pub open spec fn end_card(p: Seq<u8>, i: nat) -> Option<nat>
    decreases p.len() - 80 * i,
{
    if 80 * i + 80 > p.len() {
        None
    } else if card_kw(p, i as int) == kw_end() {
        Some(i)
    } else {
        end_card(p, i + 1)
    }
}

/// Index of the first card in `[i, e)` whose keyword is `kw`.
pub open spec fn find_card(p: Seq<u8>, kw: Seq<u8>, i: nat, e: nat) -> Option<nat>
    decreases e - i,
{
    if i >= e {
        None
    } else if card_kw(p, i as int) == kw {
        Some(i)
    } else {
        find_card(p, kw, i + 1, e)
    }
}

/// The number that the first card named `kw` before card `e` holds.
pub open spec fn keyword_value(p: Seq<u8>, kw: Seq<u8>, e: nat) -> Option<Decimal> {
    match find_card(p, kw, 0, e) {
        Some(j) => if p[80 * j as int + 8] == 61 && p[80 * j as int + 9] == 32 {
            parse_decimal(p.subrange(80 * j as int + 10, 80 * j as int + 80))
        } else {
            None
        },
        None => None,
    }
}

/// An integer-valued keyword.
pub open spec fn keyword_int(p: Seq<u8>, kw: Seq<u8>, e: nat) -> Option<i64> {
    match keyword_value(p, kw, e) {
        Some(d) => if d.scale == 0 {
            Some(d.mantissa)
        } else {
            None
        },
        None => None,
    }
}

/// Numeric type of the pixels of a scientific-array tile.
#[derive(Clone, Copy, Debug, PartialEq, Eq, Structural)]
pub enum PixelType {
    U8,
    I16,
    I32,
    F32,
}

impl PixelType {
    pub open spec fn bytes_spec(self) -> nat {
        match self {
            PixelType::U8 => 1,
            PixelType::I16 => 2,
            PixelType::I32 => 4,
            PixelType::F32 => 4,
        }
    }

    pub fn bytes(&self) -> (r: usize)
        ensures
            r == self.bytes_spec(),
    {
        match self {
            PixelType::U8 => 1,
            PixelType::I16 => 2,
            PixelType::I32 => 4,
            PixelType::F32 => 4,
        }
    }

    /// The `BITPIX` value that names this type.
    pub open spec fn bitpix_spec(self) -> i64 {
        match self {
            PixelType::U8 => 8,
            PixelType::I16 => 16,
            PixelType::I32 => 32,
            PixelType::F32 => -32i64,
        }
    }

    pub open spec fn from_bitpix_spec(b: i64) -> Option<PixelType> {
        if b == 8 {
            Some(PixelType::U8)
        } else if b == 16 {
            Some(PixelType::I16)
        } else if b == 32 {
            Some(PixelType::I32)
        } else if b == -32 {
            Some(PixelType::F32)
        } else {
            None
        }
    }

    pub fn from_bitpix(b: i64) -> (r: Option<PixelType>)
        ensures
            r == Self::from_bitpix_spec(b),
    {
        if b == 8 {
            Some(PixelType::U8)
        } else if b == 16 {
            Some(PixelType::I16)
        } else if b == 32 {
            Some(PixelType::I32)
        } else if b == -32 {
            Some(PixelType::F32)
        } else {
            None
        }
    }
}

/// Linear calibration of scientific pixel values: physical value is
/// `offset + scale * raw`; raw values equal to `blank` mean "no data".
#[derive(Clone, Copy, Debug, PartialEq, Eq, Structural)]
pub struct Calibration {
    pub scale: Decimal,
    pub offset: Decimal,
    pub blank: Option<i64>,
}

/// Why a payload could not be decoded.
#[derive(Clone, Copy, Debug, PartialEq, Eq, Structural)]
pub enum DecodeError {
    /// No `END` card closes the header.
    NoHeaderEnd,
    /// `BITPIX` is missing or names no supported pixel type.
    BadPixelType,
    /// `NAXIS1`/`NAXIS2` are missing or differ from the tile size.
    BadDimensions,
    /// The data unit is shorter than the header announces.
    Truncated,
    /// A raster payload does not start with its format's signature.
    BadSignature,
    /// The unit is an extension other than an image (a table).
    NotImage,
}

/// A decoded tile, ready for upload.
#[derive(Clone, Debug)]
pub enum TileImage {
    /// Encoded raster bytes, decoded by the browser at upload.
    Raster { format: ImageFormat, bytes: Vec<u8> },
    /// Typed pixels, row by row, big-endian, with their calibration.
    Array { pixel: PixelType, width: u32, pixels: Vec<u8>, calibration: Calibration },
}

/// Header length, rounded up to whole blocks, when card `e` ends it.
pub open spec fn header_len(e: nat) -> nat {
    let used = (e + 1) * 80;
    (used + (2880 - used % 2880) % 2880) as nat
}

pub open spec fn decimal_one() -> Decimal {
    Decimal { mantissa: 1, scale: 0 }
}

pub open spec fn decimal_zero() -> Decimal {
    Decimal { mantissa: 0, scale: 0 }
}

pub open spec fn calibration_spec(p: Seq<u8>, e: nat) -> Calibration {
    Calibration {
        scale: match keyword_value(p, kw_bscale(), e) {
            Some(d) => d,
            None => decimal_one(),
        },
        offset: match keyword_value(p, kw_bzero(), e) {
            Some(d) => d,
            None => decimal_zero(),
        },
        blank: keyword_int(p, kw_blank(), e),
    }
}

/// What decoding a scientific-array payload gives: the pixel type, the
/// pixel bytes and the calibration, or the first error met.
pub open spec fn decode_array_spec(p: Seq<u8>, tile_size: u32) -> Result<(PixelType, Seq<u8>, Calibration), DecodeError> {
    match end_card(p, 0) {
        None => Err(DecodeError::NoHeaderEnd),
        Some(e) => match keyword_int(p, kw_bitpix(), e) {
            None => Err(DecodeError::BadPixelType),
            Some(b) => match PixelType::from_bitpix_spec(b) {
                None => Err(DecodeError::BadPixelType),
                Some(t) => if keyword_int(p, kw_naxis1(), e) != Some(tile_size as i64) || keyword_int(
                    p,
                    kw_naxis2(),
                    e,
                ) != Some(tile_size as i64) {
                    Err(DecodeError::BadDimensions)
                } else {
                    let start = header_len(e);
                    let n = tile_size * tile_size * t.bytes_spec();
                    if start + n > p.len() {
                        Err(DecodeError::Truncated)
                    } else {
                        Ok((t, p.subrange(start as int, (start + n) as int), calibration_spec(p, e)))
                    }
                },
            },
        },
    }
}

pub(crate) fn keyword_at(p: &[u8], i: usize, kw: &[u8]) -> (r: bool)
    requires
        80 * i + 80 <= p@.len(),
        kw@.len() == 8,
    ensures
        r == (card_kw(p@, i as int) == kw@),
{
    let len = p.len();
    let base = 80 * i;
    let mut k: usize = 0;
    while k < 8
        invariant
            base == 80 * i,
            base + 80 <= p@.len(),
            kw@.len() == 8,
            k <= 8,
            forall|j: int| 0 <= j < k ==> p@[base + j] == kw@[j],
        decreases 8 - k,
    {
        if p[base + k] != kw[k] {
            proof {
                assert(card_kw(p@, i as int)[k as int] != kw@[k as int]);
            }
            return false;
        }
        k = k + 1;
    }
    proof {
        assert(card_kw(p@, i as int) =~= kw@);
    }
    true
}

/// Index of the `END` card.
pub(crate) fn find_end(p: &[u8]) -> (r: Option<usize>)
    ensures
        r is Some <==> end_card(p@, 0) is Some,
        r is Some ==> r->0 == end_card(p@, 0)->0 && 80 * r->0 + 80 <= p@.len(),
{
    let len = p.len();
    let mut i: usize = 0;
    let mut pos: usize = 0;
    let end_kw: [u8; 8] = [69, 78, 68, 32, 32, 32, 32, 32];
    proof {
        assert(end_kw@ =~= kw_end());
    }
    while pos <= len && len - pos >= 80
        invariant
            len == p@.len(),
            pos == 80 * i,
            end_card(p@, i as nat) == end_card(p@, 0),
            end_kw@ == kw_end(),
        decreases p@.len() + 80 - pos,
    {
        if keyword_at(p, i, end_kw.as_slice()) {
            return Some(i);
        }
        i = i + 1;
        pos = pos + 80;
    }
    None
}

/// The number held by the first card named `kw` before card `e`.
pub(crate) fn read_keyword(p: &[u8], kw: &[u8], e: usize) -> (r: Option<Decimal>)
    requires
        80 * e + 80 <= p@.len(),
        kw@.len() == 8,
    ensures
        r == keyword_value(p@, kw@, e as nat),
        r is Some ==> r->0.valid(),
{
    let len = p.len();
    let mut i: usize = 0;
    while i < e
        invariant
            len == p@.len(),
            i <= e,
            80 * e + 80 <= p@.len(),
            kw@.len() == 8,
            find_card(p@, kw@, i as nat, e as nat) == find_card(p@, kw@, 0, e as nat),
        decreases e - i,
    {
        if keyword_at(p, i, kw) {
            let base = 80 * i;
            if p[base + 8] == 61 && p[base + 9] == 32 {
                return parse_decimal_field(slice_subrange(p, base + 10, base + 80));
            }
            return None;
        }
        i = i + 1;
    }
    None
}

pub(crate) fn read_int(p: &[u8], kw: &[u8], e: usize) -> (r: Option<i64>)
    requires
        80 * e + 80 <= p@.len(),
        kw@.len() == 8,
    ensures
        r == keyword_int(p@, kw@, e as nat),
{
    match read_keyword(p, kw, e) {
        Some(d) => if d.scale == 0 {
            Some(d.mantissa)
        } else {
            None
        },
        None => None,
    }
}

/// Reads a scientific-array payload whose tiles are `tile_size` pixels wide.
pub fn decode_array(p: &[u8], tile_size: u32) -> (r: Result<TileImage, DecodeError>)
    requires
        tile_size <= MAX_TILE_SIZE,
    ensures
        match decode_array_spec(p@, tile_size) {
            Ok((t, px, cal)) => r matches Ok(TileImage::Array { pixel, width, pixels, calibration })
                && pixel == t && width == tile_size && pixels@ == px && calibration == cal,
            Err(e) => r == Err::<TileImage, DecodeError>(e),
        },
{
    let e = match find_end(p) {
        None => return Err(DecodeError::NoHeaderEnd),
        Some(e) => e,
    };
    let bitpix_kw: [u8; 8] = [66, 73, 84, 80, 73, 88, 32, 32];
    let naxis1_kw: [u8; 8] = [78, 65, 88, 73, 83, 49, 32, 32];
    let naxis2_kw: [u8; 8] = [78, 65, 88, 73, 83, 50, 32, 32];
    let bscale_kw: [u8; 8] = [66, 83, 67, 65, 76, 69, 32, 32];
    let bzero_kw: [u8; 8] = [66, 90, 69, 82, 79, 32, 32, 32];
    let blank_kw: [u8; 8] = [66, 76, 65, 78, 75, 32, 32, 32];
    proof {
        assert(bitpix_kw@ =~= kw_bitpix());
        assert(naxis1_kw@ =~= kw_naxis1());
        assert(naxis2_kw@ =~= kw_naxis2());
        assert(bscale_kw@ =~= kw_bscale());
        assert(bzero_kw@ =~= kw_bzero());
        assert(blank_kw@ =~= kw_blank());
    }
    let pixel = match read_int(p, bitpix_kw.as_slice(), e) {
        None => return Err(DecodeError::BadPixelType),
        Some(b) => match PixelType::from_bitpix(b) {
            None => return Err(DecodeError::BadPixelType),
            Some(t) => t,
        },
    };
    let n1 = read_int(p, naxis1_kw.as_slice(), e);
    let n2 = read_int(p, naxis2_kw.as_slice(), e);
    if n1 != Some(tile_size as i64) || n2 != Some(tile_size as i64) {
        return Err(DecodeError::BadDimensions);
    }
    let len = p.len();
    let used = (e + 1) * 80;
    let pad = (2880 - used % 2880) % 2880;
    if pad > len - used {
        return Err(DecodeError::Truncated);
    }
    let start = used + pad;
    proof {
        assert(tile_size * tile_size <= 4096 * 4096) by (nonlinear_arith)
            requires
                tile_size <= 4096,
        ;
    }
    let sq: usize = tile_size as usize * tile_size as usize;
    let b = pixel.bytes();
    proof {
        assert(sq * b <= 4096 * 4096 * 4) by (nonlinear_arith)
            requires
                sq <= 4096 * 4096,
                b <= 4,
        ;
    }
    let n = sq * b;
    if n > len - start {
        return Err(DecodeError::Truncated);
    }
    let mut pixels: Vec<u8> = Vec::new();
    push_bytes(&mut pixels, slice_subrange(p, start, start + n));
    let scale = match read_keyword(p, bscale_kw.as_slice(), e) {
        Some(d) => d,
        None => Decimal { mantissa: 1, scale: 0 },
    };
    let offset = match read_keyword(p, bzero_kw.as_slice(), e) {
        Some(d) => d,
        None => Decimal { mantissa: 0, scale: 0 },
    };
    let blank = read_int(p, blank_kw.as_slice(), e);
    Ok(TileImage::Array { pixel, width: tile_size, pixels, calibration: Calibration { scale, offset, blank } })
}

/// Name of unit `i` of a file loaded as layer `name`: the first unit keeps
/// the name, extension `k` (unit `k + 1`) is `{name}_ext_{k}`.
pub open spec fn unit_name(name: Seq<u8>, i: nat) -> Seq<u8> {
    if i == 0 {
        name
    } else {
        name + seq![95u8, 101u8, 120u8, 116u8, 95u8] + decimal((i - 1) as nat)
    }
}

/// `(unit, name)` for each unit that decoded, in order.
pub open spec fn named_units(name: Seq<u8>, decoded: Seq<bool>) -> Seq<(usize, Seq<u8>)>
    decreases decoded.len(),
{
    if decoded.len() == 0 {
        Seq::empty()
    } else {
        let rest = named_units(name, decoded.drop_last());
        let i = (decoded.len() - 1) as nat;
        if decoded.last() {
            rest.push((i as usize, unit_name(name, i)))
        } else {
            rest
        }
    }
}

/// Names the layers of a multi-unit file loaded as `name`: one per unit
/// that decoded. Answers `None` when no unit decoded.
pub fn name_units(name: &Vec<u8>, decoded: &Vec<bool>) -> (r: Option<Vec<(usize, Vec<u8>)>>)
    ensures
        r is None <==> forall|i: int| 0 <= i < decoded@.len() ==> !decoded@[i],
        r is Some ==> r->0@.len() == named_units(name@, decoded@).len() && forall|k: int|
            0 <= k < r->0@.len() ==> (#[trigger] r->0@[k]).0 == named_units(name@, decoded@)[k].0 && r->0@[k].1@
                == named_units(name@, decoded@)[k].1,
{
    let mut out: Vec<(usize, Vec<u8>)> = Vec::new();
    let mut i: usize = 0;
    let mut any = false;
    while i < decoded.len()
        invariant
            i <= decoded@.len(),
            any <==> exists|k: int| 0 <= k < i && decoded@[k],
            out@.len() == named_units(name@, decoded@.subrange(0, i as int)).len(),
            forall|k: int|
                0 <= k < out@.len() ==> (#[trigger] out@[k]).0 == named_units(name@, decoded@.subrange(0, i as int))[k].0
                    && out@[k].1@ == named_units(name@, decoded@.subrange(0, i as int))[k].1,
        decreases decoded@.len() - i,
    {
        let ghost pre = decoded@.subrange(0, i as int);
        let ghost cur = decoded@.subrange(0, i + 1);
        proof {
            assert(cur.drop_last() =~= pre);
            assert(cur.last() == decoded@[i as int]);
        }
        if decoded[i] {
            let mut n: Vec<u8> = Vec::new();
            push_bytes(&mut n, name.as_slice());
            if i > 0 {
                let suffix: [u8; 5] = [95, 101, 120, 116, 95];
                push_bytes(&mut n, suffix.as_slice());
                push_decimal(&mut n, (i - 1) as u64);
                proof {
                    assert(suffix@ =~= seq![95u8, 101u8, 120u8, 116u8, 95u8]);
                    assert(n@ =~= unit_name(name@, i as nat));
                }
            } else {
                proof {
                    assert(n@ =~= unit_name(name@, 0));
                }
            }
            let ghost prev = out@;
            out.push((i, n));
            any = true;
            proof {
                assert forall|k: int|
                    0 <= k < out@.len() implies (#[trigger] out@[k]).0 == named_units(name@, cur)[k].0 && out@[k].1@
                        == named_units(name@, cur)[k].1 by {
                    if k < prev.len() {
                        assert(out@[k] == prev[k]);
                    }
                }
            }
        }
        i = i + 1;
    }
    proof {
        assert(decoded@.subrange(0, decoded@.len() as int) =~= decoded@);
    }
    if any {
        Some(out)
    } else {
        None
    }
}

/// Signature that starts every payload of a raster format.
pub open spec fn signature(f: ImageFormat) -> Seq<u8> {
    match f {
        ImageFormat::Png => seq![137u8, 80u8, 78u8, 71u8, 13u8, 10u8, 26u8, 10u8],
        ImageFormat::Jpeg => seq![255u8, 216u8, 255u8],
        ImageFormat::Fits => Seq::<u8>::empty(),
    }
}

pub open spec fn has_signature(p: Seq<u8>, f: ImageFormat) -> bool {
    p.len() >= signature(f).len() && p.subrange(0, signature(f).len() as int) == signature(f)
}

fn starts_with(p: &[u8], sig: &[u8]) -> (r: bool)
    ensures
        r == (p@.len() >= sig@.len() && p@.subrange(0, sig@.len() as int) == sig@),
{
    if p.len() < sig.len() {
        return false;
    }
    let mut i: usize = 0;
    while i < sig.len()
        invariant
            p@.len() >= sig@.len(),
            i <= sig@.len(),
            forall|j: int| 0 <= j < i ==> p@[j] == sig@[j],
        decreases sig@.len() - i,
    {
        if p[i] != sig[i] {
            proof {
                assert(p@.subrange(0, sig@.len() as int)[i as int] != sig@[i as int]);
            }
            return false;
        }
        i = i + 1;
    }
    proof {
        assert(p@.subrange(0, sig@.len() as int) =~= sig@);
    }
    true
}

/// Decodes a payload served in `format`, for tiles `tile_size` pixels wide.
/// Raster payloads are checked for their signature and kept encoded;
/// scientific-array payloads are read.
pub fn decode(p: &[u8], format: ImageFormat, tile_size: u32) -> (r: Result<TileImage, DecodeError>)
    requires
        tile_size <= MAX_TILE_SIZE,
    ensures
        format.is_raster() ==> (if has_signature(p@, format) {
            r matches Ok(TileImage::Raster { format: f, bytes }) && f == format && bytes@ == p@
        } else {
            r == Err::<TileImage, DecodeError>(DecodeError::BadSignature)
        }),
        format == ImageFormat::Fits ==> match decode_array_spec(p@, tile_size) {
            Ok((t, px, cal)) => r matches Ok(TileImage::Array { pixel, width, pixels, calibration })
                && pixel == t && width == tile_size && pixels@ == px && calibration == cal,
            Err(e) => r == Err::<TileImage, DecodeError>(e),
        },
{
    match format {
        ImageFormat::Fits => decode_array(p, tile_size),
        ImageFormat::Png | ImageFormat::Jpeg => {
            let ok = match format {
                ImageFormat::Png => {
                    let sig: [u8; 8] = [137, 80, 78, 71, 13, 10, 26, 10];
                    proof {
                        assert(sig@ =~= signature(format));
                    }
                    starts_with(p, sig.as_slice())
                },
                _ => {
                    let sig: [u8; 3] = [255, 216, 255];
                    proof {
                        assert(sig@ =~= signature(format));
                    }
                    starts_with(p, sig.as_slice())
                },
            };
            if ok {
                let mut bytes: Vec<u8> = Vec::new();
                push_bytes(&mut bytes, p);
                Ok(TileImage::Raster { format, bytes })
            } else {
                Err(DecodeError::BadSignature)
            }
        },
    }
}

} // verus!
