//! The texture buffer: construction, dimensions, and access to its layers,
//! mip levels and pixels.

use crate::levels::{
    full_levels, lemma_levels_area_monotone, level_area, levels_area, max_mipmap_levels, mip_dim,
    mipmapped_size, size_per_layer,
};
use crate::model::{fills_rows, TextureModel};
use crate::texel::{texel_bytes, Texel};
use vstd::layout::size_of;
use vstd::prelude::*;
use vstd::slice::slice_subrange;

verus! {

/// How many mip levels a buffer stores for each layer.
pub enum MipMaps {
    /// Level 0 alone.
    Off,
    /// The given number of levels, which is at least one and less than the
    /// length of the full pyramid.
    Explicit(u32),
    /// The full pyramid, down to a single pixel.
    All,
}

impl MipMaps {
    /// The number of levels that this choice gives a `width` x `height`
    /// image, or nothing where an explicit number is out of range.
    pub open spec fn level_count(self, width: nat, height: nat) -> Option<nat> {
        match self {
            MipMaps::Off => Some(1nat),
            MipMaps::Explicit(levels) => if 1 <= levels < full_levels(width, height) {
                Some(levels as nat)
            } else {
                None
            },
            MipMaps::All => Some(full_levels(width, height)),
        }
    }

    /// The number of levels that this choice gives a `width` x `height`
    /// image, or nothing where an explicit number is out of range.
    pub fn levels(&self, width: u32, height: u32) -> (count: Option<u32>)
        ensures
            match count {
                Some(n) => self.level_count(width as nat, height as nat) == Some(n as nat),
                None => self.level_count(width as nat, height as nat) is None,
            },
            count matches Some(n) ==> 1 <= n <= full_levels(width as nat, height as nat) <= 32,
    {
        let full = max_mipmap_levels(width, height);
        match self {
            MipMaps::Off => Some(1),
            MipMaps::Explicit(levels) => if 1 <= *levels && *levels < full {
                Some(*levels)
            } else {
                None
            },
            MipMaps::All => Some(full),
        }
    }
}

/// A block of same-sized pixels in one allocation: `depth` layers, each with
/// the same number of mip levels of a `width` x `height` image.
pub struct TextureData<T> {
    width: u32,
    height: u32,
    depth: u32,
    mipmaps: u32,
    depth_divisor: Option<u32>,
    pixels: Vec<T>,
}

impl<T> View for TextureData<T> {
    type V = TextureModel<T>;

    closed spec fn view(&self) -> TextureModel<T> {
        TextureModel {
            width: self.width as nat,
            height: self.height as nat,
            depth: self.depth as nat,
            mipmaps: self.mipmaps as nat,
            depth_divisor: match self.depth_divisor {
                Some(per_row) => Some(per_row as nat),
                None => None,
            },
            pixels: self.pixels@,
        }
    }
}

impl<T> TextureData<T> {
    /// Width of level 0 of every layer.
    pub fn width(&self) -> (width: u32)
        ensures
            width == self@.width,
    {
        self.width
    }

    /// Height of level 0 of every layer.
    pub fn height(&self) -> (height: u32)
        ensures
            height == self@.height,
    {
        self.height
    }

    /// Width of mip level `mipmap`.
    pub fn mipmapped_width(&self, mipmap: u32) -> (width: u32)
        ensures
            width == mip_dim(self@.width, mipmap as nat),
    {
        mipmapped_size(self.width, mipmap)
    }

    /// Height of mip level `mipmap`.
    pub fn mipmapped_height(&self, mipmap: u32) -> (height: u32)
        ensures
            height == mip_dim(self@.height, mipmap as nat),
    {
        mipmapped_size(self.height, mipmap)
    }

    /// Number of mip levels stored for each layer.
    pub fn mipmaps(&self) -> (mipmaps: u32)
        ensures
            mipmaps == self@.mipmaps,
    {
        self.mipmaps
    }

    /// Number of layers.
    pub fn depth(&self) -> (depth: u32)
        ensures
            depth == self@.depth,
    {
        self.depth
    }

    /// Number of layers in one row of the grid that the layers were cut
    /// from, where they were cut from a grid.
    pub fn depth_x(&self) -> (per_row: Option<u32>)
        ensures
            match per_row {
                Some(n) => self@.depth_divisor == Some(n as nat),
                None => self@.depth_divisor is None,
            },
    {
        self.depth_divisor
    }

    /// Number of rows in the grid that the layers were cut from, where they
    /// were cut from a grid.
    pub fn depth_y(&self) -> (rows: Option<u32>)
        requires
            self@.depth_divisor != Some(0nat),
        ensures
            match rows {
                Some(n) => self@.depth_divisor is Some && n == self@.depth / self@.depth_divisor->0,
                None => self@.depth_divisor is None,
            },
    {
        match self.depth_divisor {
            Some(per_row) => Some(self.depth / per_row),
            None => None,
        }
    }

    /// Records that the layers were cut from a grid with `per_row` layers in
    /// each row.
    pub(crate) fn set_depth_divisor(&mut self, per_row: u32)
        requires
            old(self)@.wf(),
            fills_rows(per_row as nat, old(self)@.depth),
        ensures
            final(self)@.wf(),
            final(self)@.width == old(self)@.width,
            final(self)@.height == old(self)@.height,
            final(self)@.depth == old(self)@.depth,
            final(self)@.mipmaps == old(self)@.mipmaps,
            final(self)@.pixels == old(self)@.pixels,
            final(self)@.depth_divisor == Some(per_row as nat),
    {
        self.depth_divisor = Some(per_row);
    }

    /// Number of pixels that one layer occupies, all its levels together.
    fn layer_size(&self) -> (size: usize)
        requires
            self@.wf(),
            self@.depth > 0,
        ensures
            size == self@.layer_len(),
    {
        proof {
            self@.lemma_layer_bounds(0);
        }
        size_per_layer(self.width, self.height, self.mipmaps)
    }

    /// Index of the first pixel of layer `layer`, and the index one past its
    /// last.
    fn layer_range(&self, layer: u32) -> (range: (usize, usize))
        requires
            self@.wf(),
            layer < self@.depth,
        ensures
            range.0 == self@.layer_start(layer as nat),
            range.1 == self@.layer_start(layer as nat) + self@.layer_len(),
            range.0 <= range.1 <= self@.pixels.len(),
    {
        proof {
            self@.lemma_layer_bounds(layer as nat);
        }
        let size: usize = self.layer_size();
        let start: usize = (layer as usize) * size;
        (start, start + size)
    }

    /// Index of the first pixel of level `mipmap` of layer `layer`, and the
    /// index one past its last.
    fn mipmap_range(&self, layer: u32, mipmap: u32) -> (range: (usize, usize))
        requires
            self@.wf(),
            self@.has_level(layer as nat, mipmap as nat),
        ensures
            range.0 == self@.level_start(layer as nat, mipmap as nat),
            range.1 == self@.level_start(layer as nat, mipmap as nat) + level_area(
                self@.width,
                self@.height,
                mipmap as nat,
            ),
            range.0 <= range.1 <= self@.pixels.len(),
    {
        proof {
            self@.lemma_layer_bounds(layer as nat);
            self@.lemma_level_bounds(layer as nat, mipmap as nat);
            lemma_levels_area_monotone(
                self@.width,
                self@.height,
                mipmap as nat,
                self@.mipmaps,
            );
            lemma_levels_area_monotone(
                self@.width,
                self@.height,
                (mipmap + 1) as nat,
                self@.mipmaps,
            );
        }
        let (layer_start, _) = self.layer_range(layer);
        let start: usize = size_per_layer(self.width, self.height, mipmap);
        let end: usize = size_per_layer(self.width, self.height, mipmap + 1);
        (layer_start + start, layer_start + end)
    }

    /// Index of pixel `(x, y)` of level `mipmap` of layer `layer`.
    fn pixel_offset(&self, x: u32, y: u32, layer: u32, mipmap: u32) -> (offset: usize)
        requires
            self@.wf(),
            self@.has_pixel(x as nat, y as nat, layer as nat, mipmap as nat),
        ensures
            offset == self@.pixel_index(x as nat, y as nat, layer as nat, mipmap as nat),
            offset < self@.pixels.len(),
    {
        proof {
            self@.lemma_pixel_bounds(x as nat, y as nat, layer as nat, mipmap as nat);
        }
        let (start, _) = self.mipmap_range(layer, mipmap);
        let row: u32 = self.mipmapped_width(mipmap);
        proof {
            assert(y * row <= y * row + x) by (nonlinear_arith);
        }
        start + (y as usize) * (row as usize) + (x as usize)
    }

    /// The pixels from index `start` up to index `end`, open to change.
    fn range_mut(&mut self, start: usize, end: usize) -> (pixels: &mut [T])
        requires
            start <= end <= old(self)@.pixels.len(),
        ensures
            pixels@ == old(self)@.pixels.subrange(start as int, end as int),
            final(self)@ == old(self)@.splice(start as int, end as int, final(pixels)@),
    {
        let all = self.pixels.as_mut_slice();
        let (_, rest) = all.split_at_mut(start);
        let (part, _) = rest.split_at_mut(end - start);
        part
    }

    /// The pixels of layer `layer`, all its levels in order.
    pub fn get_layer(&self, layer: u32) -> (pixels: &[T])
        requires
            self@.wf(),
            layer < self@.depth,
        ensures
            pixels@ == self@.layer(layer as nat),
    {
        let (start, end) = self.layer_range(layer);
        slice_subrange(self.pixels.as_slice(), start, end)
    }

    /// The pixels of layer `layer`, all its levels in order, open to change.
    /// What is written through the result is what the buffer then holds as
    /// that layer; the rest of the buffer stays as it was. A slice keeps its
    /// length, and with it the buffer stays valid.
    pub fn get_layer_mut(&mut self, layer: u32) -> (pixels: &mut [T])
        requires
            old(self)@.wf(),
            layer < old(self)@.depth,
        ensures
            pixels@ == old(self)@.layer(layer as nat),
            final(self)@ == old(self)@.set_layer(layer as nat, final(pixels)@),
            final(pixels)@.len() == pixels@.len() ==> final(self)@.wf() && final(self)@.layer(
                layer as nat,
            ) == final(pixels)@,
    {
        let (start, end) = self.layer_range(layer);
        self.range_mut(start, end)
    }

    /// The pixels of level `mipmap` of layer `layer`, row after row.
    pub fn get_mipmap(&self, layer: u32, mipmap: u32) -> (pixels: &[T])
        requires
            self@.wf(),
            self@.has_level(layer as nat, mipmap as nat),
        ensures
            pixels@ == self@.mipmap(layer as nat, mipmap as nat),
    {
        let (start, end) = self.mipmap_range(layer, mipmap);
        slice_subrange(self.pixels.as_slice(), start, end)
    }

    /// The pixels of level `mipmap` of layer `layer`, row after row, open to
    /// change. What is written through the result is what the buffer then
    /// holds as that level; the rest of the buffer stays as it was. A slice
    /// keeps its length, and with it the buffer stays valid.
    pub fn get_mipmap_mut(&mut self, layer: u32, mipmap: u32) -> (pixels: &mut [T])
        requires
            old(self)@.wf(),
            old(self)@.has_level(layer as nat, mipmap as nat),
        ensures
            pixels@ == old(self)@.mipmap(layer as nat, mipmap as nat),
            final(self)@ == old(self)@.set_mipmap(layer as nat, mipmap as nat, final(pixels)@),
            final(pixels)@.len() == pixels@.len() ==> final(self)@.wf() && final(self)@.mipmap(
                layer as nat,
                mipmap as nat,
            ) == final(pixels)@,
    {
        let (start, end) = self.mipmap_range(layer, mipmap);
        self.range_mut(start, end)
    }

    /// Pixel `(x, y)` of level `mipmap` of layer `layer`.
    pub fn get_pixel(&self, x: u32, y: u32, layer: u32, mipmap: u32) -> (pixel: &T)
        requires
            self@.wf(),
            self@.has_pixel(x as nat, y as nat, layer as nat, mipmap as nat),
        ensures
            *pixel == self@.pixel(x as nat, y as nat, layer as nat, mipmap as nat),
    {
        let offset: usize = self.pixel_offset(x, y, layer, mipmap);
        &self.pixels[offset]
    }

    /// Pixel `(x, y)` of level `mipmap` of layer `layer`, open to change.
    /// What is written through the result is what the buffer then holds as
    /// that pixel, and what a read at the same place gives; every other
    /// pixel stays as it was.
    pub fn get_pixel_mut(&mut self, x: u32, y: u32, layer: u32, mipmap: u32) -> (pixel: &mut T)
        requires
            old(self)@.wf(),
            old(self)@.has_pixel(x as nat, y as nat, layer as nat, mipmap as nat),
        ensures
            *pixel == old(self)@.pixel(x as nat, y as nat, layer as nat, mipmap as nat),
            final(self)@ == old(self)@.set_pixel(
                x as nat,
                y as nat,
                layer as nat,
                mipmap as nat,
                *final(pixel),
            ),
            final(self)@.pixel(x as nat, y as nat, layer as nat, mipmap as nat) == *final(pixel),
            final(self)@.wf(),
    {
        let offset: usize = self.pixel_offset(x, y, layer, mipmap);
        &mut self.pixels[offset]
    }
}

impl<T: Copy> TextureData<T> {
    /// A buffer of the given dimensions in which every pixel is `value`.
    pub fn filled(width: u32, height: u32, depth: u32, mipmaps: MipMaps, value: T) -> (texture:
        Self)
        requires
            mipmaps.level_count(width as nat, height as nat) is Some,
            depth * levels_area(
                width as nat,
                height as nat,
                mipmaps.level_count(width as nat, height as nat)->0,
            ) <= usize::MAX,
        ensures
            texture@.wf(),
            texture@.width == width,
            texture@.height == height,
            texture@.depth == depth,
            Some(texture@.mipmaps) == mipmaps.level_count(width as nat, height as nat),
            texture@.depth_divisor is None,
            texture@.pixels.len() == depth * levels_area(
                width as nat,
                height as nat,
                texture@.mipmaps,
            ),
            forall|i: int| 0 <= i < texture@.pixels.len() ==> texture@.pixels[i] == value,
    {
        let levels: u32 = match mipmaps.levels(width, height) {
            Some(n) => n,
            None => 1,
        };
        let ghost area = levels_area(width as nat, height as nat, levels as nat);
        let mut pixels: Vec<T> = Vec::new();
        if depth > 0 {
            proof {
                assert(area <= depth * area) by (nonlinear_arith)
                    requires
                        depth >= 1,
                        area >= 0,
                ;
            }
            let per_layer: usize = size_per_layer(width, height, levels);
            let total: usize = per_layer * (depth as usize);
            pixels.reserve(total);
            let mut count: usize = 0;
            while count < total
                invariant
                    count <= total,
                    pixels@.len() == count,
                    forall|i: int| 0 <= i < count ==> pixels@[i] == value,
                decreases total - count,
            {
                pixels.push(value);
                count = count + 1;
            }
            proof {
                assert(per_layer * depth == depth * area) by (nonlinear_arith)
                    requires
                        per_layer == area,
                ;
            }
        } else {
            assert(depth * area == 0) by (nonlinear_arith)
                requires
                    depth == 0,
            ;
        }
        TextureData { width, height, depth, mipmaps: levels, depth_divisor: None, pixels }
    }
}

impl<T: Texel> TextureData<T> {
    /// A buffer of the given dimensions in which every pixel is the value
    /// whose bytes are all zero.
    pub fn new(width: u32, height: u32, depth: u32, mipmaps: MipMaps) -> (texture: Self)
        requires
            mipmaps.level_count(width as nat, height as nat) is Some,
            depth * levels_area(
                width as nat,
                height as nat,
                mipmaps.level_count(width as nat, height as nat)->0,
            ) <= usize::MAX,
        ensures
            texture@.wf(),
            texture@.width == width,
            texture@.height == height,
            texture@.depth == depth,
            Some(texture@.mipmaps) == mipmaps.level_count(width as nat, height as nat),
            texture@.depth_divisor is None,
            texture@.pixels.len() == depth * levels_area(
                width as nat,
                height as nat,
                texture@.mipmaps,
            ),
            forall|i: int| 0 <= i < texture@.pixels.len() ==> texture@.pixels[i] == T::zero(),
    {
        Self::filled(width, height, depth, mipmaps, T::zeroed())
    }

    /// The whole buffer as bytes, in storage order: a view of the buffer's
    /// own memory.
    pub fn as_bytes(&self) -> (bytes: &[u8])
        ensures
            bytes@ == texel_bytes(self@.pixels),
            bytes@.len() == self@.pixels.len() * size_of::<T>(),
    {
        T::bytes_of(self.pixels.as_slice())
    }
}

} // verus!
