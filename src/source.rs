//! Where a layer's tiles come from, and how a tile's address is spelled.
use vstd::prelude::*;
use vstd::string::StringSliceAdditionalSpecFns;
use crate::cell::Cell;

verus! {

/// Tiles of one directory share an index range of this width.
pub const DIR_BUCKET: u64 = 10000;

/// Encoding in which a source serves its tiles.
#[derive(Clone, Copy, Debug, PartialEq, Eq, Structural, Hash)]
pub enum ImageFormat {
    Jpeg,
    Png,
    Fits,
}

impl ImageFormat {
    /// Whether tiles come as browser-decodable raster images.
    pub open spec fn is_raster(self) -> bool {
        self is Jpeg || self is Png
    }

    pub open spec fn extension_spec(self) -> Seq<u8> {
        match self {
            ImageFormat::Jpeg => seq![106u8, 112u8, 103u8],
            ImageFormat::Png => seq![112u8, 110u8, 103u8],
            ImageFormat::Fits => seq![102u8, 105u8, 116u8, 115u8],
        }
    }

    /// File extension of a tile in this format.
    pub fn extension(&self) -> (r: Vec<u8>)
        ensures
            r@ == self.extension_spec(),
    {
        match self {
            ImageFormat::Jpeg => vec![106u8, 112u8, 103u8],
            ImageFormat::Png => vec![112u8, 110u8, 103u8],
            ImageFormat::Fits => vec![102u8, 105u8, 116u8, 115u8],
        }
    }
}

/// ASCII decimal spelling of `n`, without leading zeros.
pub open spec fn decimal(n: nat) -> Seq<u8>
    decreases n,
{
    if n < 10 {
        seq![(48 + n) as u8]
    } else {
        decimal(n / 10).push((48 + n % 10) as u8)
    }
}

/// Appends the decimal spelling of `n`.
pub fn push_decimal(out: &mut Vec<u8>, n: u64)
    ensures
        final(out)@ == old(out)@ + decimal(n as nat),
    decreases n,
{
    if n >= 10 {
        push_decimal(out, n / 10);
    }
    out.push((48 + n % 10) as u8);
    proof {
        if n >= 10 {
            assert(final(out)@ =~= old(out)@ + decimal(n as nat));
        } else {
            assert(final(out)@ =~= old(out)@ + decimal(n as nat));
        }
    }
}

pub fn push_bytes(out: &mut Vec<u8>, s: &[u8])
    ensures
        final(out)@ == old(out)@ + s@,
{
    let mut i: usize = 0;
    while i < s.len()
        invariant
            i <= s@.len(),
            out@ == old(out)@ + s@.subrange(0, i as int),
        decreases s@.len() - i,
    {
        out.push(s[i]);
        i = i + 1;
        proof {
            assert(out@ =~= old(out)@ + s@.subrange(0, i as int));
        }
    }
    proof {
        assert(s@.subrange(0, s@.len() as int) =~= s@);
    }
}

/// First index of the directory that holds tile `index`.
pub open spec fn dir_of(index: u64) -> u64 {
    ((index / DIR_BUCKET) * DIR_BUCKET) as u64
}

/// Path of a tile below a source's root:
/// `/Norder{depth}/Dir{dir}/Npix{index}.{ext}`.
pub open spec fn tile_path_spec(cell: Cell, format: ImageFormat) -> Seq<u8> {
    seq![47u8, 78u8, 111u8, 114u8, 100u8, 101u8, 114u8] + decimal(cell.depth as nat) + seq![
        47u8,
        68u8,
        105u8,
        114u8,
    ] + decimal(dir_of(cell.index) as nat) + seq![47u8, 78u8, 112u8, 105u8, 120u8] + decimal(
        cell.index as nat,
    ) + seq![46u8] + format.extension_spec()
}

/// Immutable description of a tile source.
#[derive(Clone, Debug)]
pub struct SourceDescriptor {
    /// Root URL as ASCII bytes, without a trailing slash.
    pub root_url: Vec<u8>,
    pub format: ImageFormat,
    /// Width (and height) of a tile in pixels.
    pub tile_size: u32,
}

impl SourceDescriptor {
    pub fn new(root_url: &str, format: ImageFormat, tile_size: u32) -> (r: SourceDescriptor)
        ensures
            r.root_url@ == root_url.spec_bytes(),
            r.format == format,
            r.tile_size == tile_size,
    {
        let bytes = root_url.as_bytes();
        let mut v: Vec<u8> = Vec::new();
        push_bytes(&mut v, bytes);
        SourceDescriptor { root_url: v, format, tile_size }
    }

    pub open spec fn tile_url_spec(&self, cell: Cell) -> Seq<u8> {
        self.root_url@ + tile_path_spec(cell, self.format)
    }

    /// Full URL of the tile of `cell`.
    pub fn tile_url(&self, cell: &Cell) -> (r: Vec<u8>)
        ensures
            r@ == self.tile_url_spec(*cell),
    {
        let mut out: Vec<u8> = Vec::new();
        push_bytes(&mut out, self.root_url.as_slice());
        push_bytes(&mut out, &[47u8, 78u8, 111u8, 114u8, 100u8, 101u8, 114u8]);
        push_decimal(&mut out, cell.depth as u64);
        push_bytes(&mut out, &[47u8, 68u8, 105u8, 114u8]);
        push_decimal(&mut out, (cell.index / DIR_BUCKET) * DIR_BUCKET);
        push_bytes(&mut out, &[47u8, 78u8, 112u8, 105u8, 120u8]);
        push_decimal(&mut out, cell.index);
        out.push(46u8);
        let ext = self.format.extension();
        push_bytes(&mut out, ext.as_slice());
        proof {
            assert(out@ =~= self.tile_url_spec(*cell));
        }
        out
    }
}

} // verus!
