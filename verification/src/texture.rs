//! Bitmaps that are read by texel position.
//!
//! A texture repeats in both directions: a position outside the bitmap is
//! wrapped back into it, so that position -1 names the last texel.

use vstd::prelude::*;

verus! {

/// The position inside `0..size` that `coord` wraps to.
pub open spec fn wrapped(coord: int, size: int) -> int {
    coord % size
}

/// Wraps a texel position into a bitmap side of `size` texels.
pub fn wrap(coord: i64, size: u32) -> (inside: u32)
    requires
        size > 0,
    ensures
        inside == wrapped(coord as int, size as int),
        inside < size,
{
    let side: i64 = size as i64;
    proof {
        vstd::arithmetic::div_mod::lemma_mod_bound(coord as int, side as int);
    }
    match coord.checked_rem_euclid(side) {
        Some(r) => r as u32,
        None => 0,
    }
}

/// A bitmap of `width` by `height` texels with `channels` bytes each, stored
/// row by row.
pub struct Texture {
    width: u32,
    height: u32,
    channels: u8,
    data: Vec<u8>,
}

impl Texture {
    pub closed spec fn width(&self) -> u32 {
        self.width
    }

    pub closed spec fn height(&self) -> u32 {
        self.height
    }

    pub closed spec fn channels(&self) -> u8 {
        self.channels
    }

    /// The bytes of the bitmap, row by row, texel by texel.
    pub closed spec fn bytes(&self) -> Seq<u8> {
        self.data@
    }

    /// The bitmap is not empty and holds exactly its texels.  Every texture
    /// that exists is so.
    #[verifier::type_invariant]
    pub open spec fn wf(&self) -> bool {
        &&& self.width() > 0
        &&& self.height() > 0
        &&& self.channels() > 0
        &&& self.bytes().len() == self.width() * self.height() * self.channels()
    }

    /// Where channel `channel` of the texel at (`x`, `y`) stands among the
    /// bytes, after wrapping.
    pub open spec fn offset(&self, x: int, y: int, channel: int) -> int {
        (wrapped(y, self.height() as int) * self.width() + wrapped(x, self.width() as int))
            * self.channels() + channel
    }

    /// Channel `channel` of the texel at (`x`, `y`), after wrapping.
    pub open spec fn value(&self, x: int, y: int, channel: int) -> u8 {
        self.bytes()[self.offset(x, y, channel)]
    }

    /// Whether `len` bytes fill a bitmap of the given shape.
    pub open spec fn fits(width: u32, height: u32, channels: u8, len: nat) -> bool {
        width > 0 && height > 0 && channels > 0 && len == width * height * channels
    }

    /// A texture over `data`, or `None` where a side or the channel count is
    /// zero or `data` is not exactly as long as the shape asks.
    pub fn new(width: u32, height: u32, channels: u8, data: Vec<u8>) -> (texture: Option<Texture>)
        ensures
            texture is Some <==> Texture::fits(width, height, channels, data@.len()),
            texture matches Some(t) ==> t.wf() && t.width() == width && t.height() == height
                && t.channels() == channels && t.bytes() == data@,
    {
        if width == 0 || height == 0 || channels == 0 {
            return None;
        }
        assert(width * height * channels <= 0xffff_ffff * 0xffff_ffff * 0xff && 0 <= width
            * height <= 0xffff_ffff * 0xffff_ffff) by (nonlinear_arith)
            requires
                0 <= width <= 0xffff_ffff,
                0 <= height <= 0xffff_ffff,
                0 <= channels <= 0xff,
        ;
        let wanted: u128 = width as u128 * height as u128 * channels as u128;
        if data.len() as u128 != wanted {
            return None;
        }
        Some(Texture { width, height, channels, data })
    }

    pub fn get_width(&self) -> (w: u32)
        ensures
            w == self.width(),
    {
        self.width
    }

    pub fn get_height(&self) -> (h: u32)
        ensures
            h == self.height(),
    {
        self.height
    }

    pub fn get_channels(&self) -> (c: u8)
        ensures
            c == self.channels(),
    {
        self.channels
    }

    /// One channel of the texel nearest to (`x`, `y`), the bitmap repeating
    /// in both directions.
    pub fn texel(&self, x: i64, y: i64, channel: u8) -> (v: u8)
        requires
            channel < self.channels(),
        ensures
            v == self.value(x as int, y as int, channel as int),
            0 <= self.offset(x as int, y as int, channel as int) < self.bytes().len(),
    {
        proof {
            use_type_invariant(self);
        }
        let column = wrap(x, self.width) as usize;
        let row = wrap(y, self.height) as usize;
        let w = self.width as usize;
        let c = self.channels as usize;
        proof {
            let h = self.height as int;
            let wi = w as int;
            let ci = c as int;
            let ri = row as int;
            let xi = column as int;
            assert((ri * wi + xi) * ci + channel < wi * h * ci && 0 <= ri * wi && ri * wi + xi
                <= (ri * wi + xi) * ci) by (nonlinear_arith)
                requires
                    0 <= ri < h,
                    0 <= xi < wi,
                    0 <= channel < ci,
            ;
            assert(self.data@.len() == self.data.len());
        }
        self.data[(row * w + column) * c + channel as usize]
    }

    /// The three channels of a colour texel.
    pub fn rgb_at(&self, x: i64, y: i64) -> (rgb: (u8, u8, u8))
        requires
            self.channels() == 3,
        ensures
            rgb.0 == self.value(x as int, y as int, 0),
            rgb.1 == self.value(x as int, y as int, 1),
            rgb.2 == self.value(x as int, y as int, 2),
    {
        (self.texel(x, y, 0), self.texel(x, y, 1), self.texel(x, y, 2))
    }

    /// The single channel of a grey texel.
    pub fn gray_at(&self, x: i64, y: i64) -> (luma: u8)
        requires
            self.channels() == 1,
        ensures
            luma == self.value(x as int, y as int, 0),
    {
        self.texel(x, y, 0)
    }
}

/// Wrapping is periodic: moving a position by whole bitmap sides does not
/// change the texel it names.
pub proof fn lemma_wrap_repeats(coord: int, turns: int, size: int)
    requires
        size > 0,
    ensures
        wrapped(coord + turns * size, size) == wrapped(coord, size),
        0 <= wrapped(coord, size) < size,
        0 <= coord < size ==> wrapped(coord, size) == coord,
{
    vstd::arithmetic::div_mod::lemma_mod_multiples_vanish(turns, coord, size);
    vstd::arithmetic::div_mod::lemma_mod_bound(coord, size);
    assert(coord + turns * size == size * turns + coord) by (nonlinear_arith);
    if 0 <= coord < size {
        vstd::arithmetic::div_mod::lemma_small_mod(coord as nat, size as nat);
    }
}

} // verus!
