//! An in-memory texture array: equally sized 2D slices of texels, written
//! one sub-image at a time the way a GPU texture array is. It keeps tile
//! texels where no GPU is at hand (off-screen use, tests); the browser
//! uploads to WebGL instead.
use vstd::prelude::*;

verus! {

/// Largest texture side, in texels.
pub const MAX_TEXTURE_SIZE: i32 = 4096;

/// Largest texel, in bytes.
pub const MAX_TEXEL_BYTES: i32 = 4;

/// Whether byte `i` of a `w`-texel-wide slice with `tb`-byte texels lies
/// inside the `sw x sh` rectangle at `(xo, yo)`.
pub open spec fn in_rect(i: int, w: int, tb: int, xo: int, yo: int, sw: int, sh: int) -> bool {
    let p = i / tb;
    let x = p % w;
    let y = p / w;
    xo <= x < xo + sw && yo <= y < yo + sh
}

/// Index in the source rectangle of slice byte `i`.
pub open spec fn src_index(i: int, w: int, tb: int, xo: int, yo: int, sw: int) -> int {
    let p = i / tb;
    let x = p % w;
    let y = p / w;
    ((y - yo) * sw + (x - xo)) * tb + i % tb
}

/// `dst` with the rectangle at `(xo, yo)` replaced by `src`, a row-major
/// `sw x sh` image.
pub open spec fn blit(dst: Seq<u8>, w: int, tb: int, xo: int, yo: int, sw: int, sh: int, src: Seq<u8>) -> Seq<u8> {
    Seq::new(
        dst.len(),
        |i: int|
            if in_rect(i, w, tb, xo, yo, sw, sh) {
                src[src_index(i, w, tb, xo, yo, sw)]
            } else {
                dst[i]
            },
    )
}

/// An array of `num_slices` textures of `width x height` texels.
pub struct Texture2DArray {
    width: i32,
    height: i32,
    texel_bytes: i32,
    slices: Vec<Vec<u8>>,
}

/// Mathematical view of a texture array.
pub struct TextureModel {
    pub width: int,
    pub height: int,
    pub texel_bytes: int,
    pub slices: Seq<Seq<u8>>,
}

impl View for Texture2DArray {
    type V = TextureModel;

    closed spec fn view(&self) -> TextureModel {
        TextureModel {
            width: self.width as int,
            height: self.height as int,
            texel_bytes: self.texel_bytes as int,
            slices: self.slices@.map_values(|s: Vec<u8>| s@),
        }
    }
}

impl TextureModel {
    pub open spec fn slice_len(self) -> int {
        self.width * self.height * self.texel_bytes
    }

    pub open spec fn wf(self) -> bool {
        &&& 1 <= self.width <= MAX_TEXTURE_SIZE
        &&& 1 <= self.height <= MAX_TEXTURE_SIZE
        &&& 1 <= self.texel_bytes <= MAX_TEXEL_BYTES
        &&& forall|k: int| 0 <= k < self.slices.len() ==> (#[trigger] self.slices[k]).len() == self.slice_len()
    }
}

/// A texture array bound for writing.
pub struct Texture2DArrayBound {
    array: Texture2DArray,
}

impl View for Texture2DArrayBound {
    type V = TextureModel;

    closed spec fn view(&self) -> TextureModel {
        self.array@
    }
}

impl Texture2DArray {
    /// `num_slices` textures of `width x height` texels of `texel_bytes`
    /// bytes, all zero.
    pub fn create_empty(width: i32, height: i32, num_slices: i32, texel_bytes: i32) -> (r: Texture2DArray)
        requires
            1 <= width <= MAX_TEXTURE_SIZE,
            1 <= height <= MAX_TEXTURE_SIZE,
            1 <= texel_bytes <= MAX_TEXEL_BYTES,
            num_slices >= 0,
        ensures
            r@.wf(),
            r@.width == width,
            r@.height == height,
            r@.texel_bytes == texel_bytes,
            r@.slices == Seq::new(num_slices as nat, |k: int| Seq::new((width * height * texel_bytes) as nat, |i: int| 0u8)),
    {
        proof {
            assert(1 <= width * height <= 4096 * 4096) by (nonlinear_arith)
                requires
                    1 <= width <= 4096,
                    1 <= height <= 4096,
            ;
            assert(width * height * texel_bytes <= 4096 * 4096 * 4) by (nonlinear_arith)
                requires
                    1 <= width * height <= 4096 * 4096,
                    1 <= texel_bytes <= 4,
            ;
        }
        let len = (width as usize) * (height as usize) * (texel_bytes as usize);
        let ghost zero = Seq::new(len as nat, |i: int| 0u8);
        let mut slices: Vec<Vec<u8>> = Vec::new();
        let mut k: i32 = 0;
        while k < num_slices
            invariant
                0 <= k <= num_slices,
                len == width * height * texel_bytes,
                zero == Seq::new(len as nat, |i: int| 0u8),
                slices@.len() == k,
                forall|j: int| 0 <= j < k ==> (#[trigger] slices@[j])@ == zero,
            decreases num_slices - k,
        {
            let mut s: Vec<u8> = Vec::new();
            let mut i: usize = 0;
            while i < len
                invariant
                    i <= len,
                    s@ == Seq::new(i as nat, |j: int| 0u8),
                decreases len - i,
            {
                s.push(0);
                i = i + 1;
                proof {
                    assert(s@ =~= Seq::new(i as nat, |j: int| 0u8));
                }
            }
            proof {
                assert(s@ =~= zero);
            }
            slices.push(s);
            k = k + 1;
        }
        let r = Texture2DArray { width, height, texel_bytes, slices };
        proof {
            assert(r@.slices =~= Seq::new(num_slices as nat, |k: int| zero));
        }
        r
    }

    /// Number of slices.
    pub fn num_slices(&self) -> (r: usize)
        ensures
            r == self@.slices.len(),
    {
        self.slices.len()
    }

    /// Bytes of slice `k`.
    pub fn slice(&self, k: usize) -> (r: &Vec<u8>)
        requires
            k < self@.slices.len(),
        ensures
            r@ == self@.slices[k as int],
    {
        &self.slices[k]
    }

    /// Binds the array for writing.
    pub fn bind(self) -> (r: Texture2DArrayBound)
        ensures
            r@ == self@,
    {
        Texture2DArrayBound { array: self }
    }
}

impl Texture2DArrayBound {
    /// Ends writing and hands the array back.
    pub fn unbind(self) -> (r: Texture2DArray)
        ensures
            r@ == self@,
    {
        self.array
    }

    /// Writes the `width x height` image `src_data` into slice
    /// `idx_texture` at `(xoffset, yoffset)`; without data nothing changes.
    pub fn tex_sub_image_3d_with_opt_u8_array(
        &mut self,
        xoffset: i32,
        yoffset: i32,
        idx_texture: i32,
        width: i32,
        height: i32,
        src_data: Option<&[u8]>,
    )
        requires
            old(self)@.wf(),
            0 <= idx_texture < old(self)@.slices.len(),
            0 <= xoffset,
            0 <= yoffset,
            0 <= width,
            0 <= height,
            xoffset + width <= old(self)@.width,
            yoffset + height <= old(self)@.height,
            src_data matches Some(d) ==> d@.len() == width * height * old(self)@.texel_bytes,
        ensures
            final(self)@.wf(),
            final(self)@.width == old(self)@.width,
            final(self)@.height == old(self)@.height,
            final(self)@.texel_bytes == old(self)@.texel_bytes,
            src_data is None ==> final(self)@ == old(self)@,
            src_data matches Some(d) ==> final(self)@.slices == old(self)@.slices.update(
                idx_texture as int,
                blit(
                    old(self)@.slices[idx_texture as int],
                    old(self)@.width,
                    old(self)@.texel_bytes,
                    xoffset as int,
                    yoffset as int,
                    width as int,
                    height as int,
                    d@,
                ),
            ),
    {
        let d = match src_data {
            None => return,
            Some(d) => d,
        };
        let ghost m = self@;
        let w = self.array.width as usize;
        let tb = self.array.texel_bytes as usize;
        let k = idx_texture as usize;
        let xo = xoffset as usize;
        let yo = yoffset as usize;
        let sw = width as usize;
        let sh = height as usize;
        let mut slice = self.array.slices.remove(k);
        proof {
            assert(slice@ == m.slices[k as int]);
        }
        let ghost dst = slice@;
        let len = slice.len();
        let mut i: usize = 0;
        while i < len
            invariant
                m.wf(),
                len == dst.len(),
                dst.len() == m.width * m.height * m.texel_bytes,
                w == m.width,
                tb == m.texel_bytes,
                xo + sw <= m.width,
                yo + sh <= m.height,
                d@.len() == sw * sh * tb,
                slice@.len() == len,
                i <= len,
                forall|j: int| 0 <= j < i ==> #[trigger] slice@[j] == blit(dst, w as int, tb as int, xo as int, yo as int, sw as int, sh as int, d@)[j],
                forall|j: int| i <= j < len ==> #[trigger] slice@[j] == dst[j],
            decreases len - i,
        {
            let p = i / tb;
            let x = p % w;
            let y = p / w;
            if xo <= x && x < xo + sw && yo <= y && y < yo + sh {
                proof {
                    assert(i < m.width * m.height * m.texel_bytes);
                    lemma_src_in_bounds(i as int, w as int, m.height, tb as int, xo as int, yo as int, sw as int, sh as int);
                    assert(p == i / tb && x == p % w && y == p / w);
                    assert(sw * sh <= 4096 * 4096);
                    assert((y - yo) * sw < sw * sh);
                    assert((y - yo) * sw + (x - xo) < sw * sh);
                    assert(((y - yo) * sw + (x - xo)) * tb + i % tb < sw * sh * tb);
                }
                let si = ((y - yo) * sw + (x - xo)) * tb + i % tb;
                slice.set(i, d[si]);
            }
            i = i + 1;
        }
        proof {
            assert(slice@ =~= blit(dst, w as int, tb as int, xo as int, yo as int, sw as int, sh as int, d@));
        }
        let ghost written = slice@;
        self.array.slices.insert(k, slice);
        proof {
            assert(self@.slices =~= m.slices.update(k as int, written));
        }
    }
}

proof fn lemma_src_in_bounds(i: int, w: int, h: int, tb: int, xo: int, yo: int, sw: int, sh: int)
    requires
        0 <= i < w * h * tb,
        w >= 1,
        tb >= 1,
        h >= 1,
        xo >= 0,
        yo >= 0,
        in_rect(i, w, tb, xo, yo, sw, sh),
        sw >= 0,
        sh >= 0,
        xo + sw <= w,
        yo + sh <= h,
        w <= 4096,
        h <= 4096,
        tb <= 4,
    ensures
        0 <= src_index(i, w, tb, xo, yo, sw) < sw * sh * tb,
        0 <= (i / tb / w - yo) * sw < sw * sh,
        0 <= (i / tb / w - yo) * sw + (i / tb % w - xo) < sw * sh,
        sw * sh * tb <= 4096 * 4096 * 4,
        sw * sh <= 4096 * 4096,
{
    let p = i / tb;
    let x = p % w;
    let y = p / w;
    let r = i % tb;
    assert(0 <= r < tb) by (nonlinear_arith)
        requires
            tb >= 1,
            r == i % tb,
            i >= 0,
    ;
    let a = y - yo;
    let b = x - xo;
    assert(0 <= a < sh && 0 <= b < sw);
    assert(0 <= a * sw + b < sw * sh) by (nonlinear_arith)
        requires
            0 <= a < sh,
            0 <= b < sw,
    ;
    assert(0 <= a * sw) by (nonlinear_arith)
        requires
            0 <= a,
            0 <= sw,
    ;
    let q = a * sw + b;
    assert(0 <= q * tb + r < sw * sh * tb) by (nonlinear_arith)
        requires
            0 <= q < sw * sh,
            0 <= r < tb,
    ;
    assert(sw * sh <= 4096 * 4096) by (nonlinear_arith)
        requires
            0 <= sw <= w,
            0 <= sh <= h,
            w <= 4096,
            h <= 4096,
    ;
    assert(sw * sh * tb <= 4096 * 4096 * 4) by (nonlinear_arith)
        requires
            0 <= sw <= w,
            0 <= sh <= h,
            w <= 4096,
            h <= 4096,
            tb <= 4,
            tb >= 1,
    ;
}

} // verus!
