//! The mathematical model of a texture buffer: its dimensions and its flat
//! sequence of pixels, with the addressing of layers, mip levels and pixels.

use crate::levels::{
    full_levels, lemma_level_area_positive, lemma_levels_area_monotone, level_area, levels_area,
    mip_dim,
};
use vstd::prelude::*;

verus! {

/// Whether `count` items can be laid out in rows of `per_row` items with no
/// row left partly filled.
pub open spec fn fills_rows(per_row: nat, count: nat) -> bool {
    if per_row == 0 {
        count == 0
    } else {
        count % per_row == 0
    }
}

/// What a texture buffer holds: `depth` layers, each with `mipmaps` levels of
/// a `width` x `height` image, stored layer after layer, and within a layer
/// level after level, and within a level row after row.
#[verifier::ext_equal]
pub struct TextureModel<T> {
    /// Width of level 0 of every layer.
    pub width: nat,
    /// Height of level 0 of every layer.
    pub height: nat,
    /// Number of layers.
    pub depth: nat,
    /// Number of mip levels stored for each layer.
    pub mipmaps: nat,
    /// Number of layers in one row of the grid that the layers were cut from,
    /// where they were cut from a grid.
    pub depth_divisor: Option<nat>,
    /// All pixels, in storage order.
    pub pixels: Seq<T>,
}

impl<T> TextureModel<T> {
    /// Number of pixels that one layer occupies, all its levels together.
    pub open spec fn layer_len(self) -> nat {
        levels_area(self.width, self.height, self.mipmaps)
    }

    /// Validity of a buffer: the level count lies between one and the length
    /// of the full pyramid, the pixel sequence has exactly the length that
    /// the dimensions call for, and the layers fill the rows of their grid.
    pub open spec fn wf(self) -> bool {
        &&& self.width <= u32::MAX
        &&& self.height <= u32::MAX
        &&& self.depth <= u32::MAX
        &&& 1 <= self.mipmaps <= full_levels(self.width, self.height)
        &&& self.pixels.len() == self.depth * self.layer_len()
        &&& self.pixels.len() <= usize::MAX
        &&& match self.depth_divisor {
            Some(per_row) => per_row <= u32::MAX && fills_rows(per_row, self.depth),
            None => true,
        }
    }

    /// Whether the buffer has a level `level` in a layer `layer`.
    pub open spec fn has_level(self, layer: nat, level: nat) -> bool {
        layer < self.depth && level < self.mipmaps
    }

    /// Whether `(x, y)` is a pixel of level `level` of layer `layer`.
    pub open spec fn has_pixel(self, x: nat, y: nat, layer: nat, level: nat) -> bool {
        &&& self.has_level(layer, level)
        &&& x < mip_dim(self.width, level)
        &&& y < mip_dim(self.height, level)
    }

    /// Index of the first pixel of layer `layer`.
    pub open spec fn layer_start(self, layer: nat) -> int {
        (layer * self.layer_len()) as int
    }

    /// Index of the first pixel of level `level` of layer `layer`.
    pub open spec fn level_start(self, layer: nat, level: nat) -> int {
        self.layer_start(layer) + levels_area(self.width, self.height, level)
    }

    /// Index of pixel `(x, y)` of level `level` of layer `layer`.
    pub open spec fn pixel_index(self, x: nat, y: nat, layer: nat, level: nat) -> int {
        self.level_start(layer, level) + y * mip_dim(self.width, level) + x
    }

    /// The pixels of layer `layer`, all its levels in order.
    pub open spec fn layer(self, layer: nat) -> Seq<T> {
        self.pixels.subrange(self.layer_start(layer), self.layer_start(layer) + self.layer_len())
    }

    /// The pixels of level `level` of layer `layer`, row after row.
    pub open spec fn mipmap(self, layer: nat, level: nat) -> Seq<T> {
        self.pixels.subrange(
            self.level_start(layer, level),
            self.level_start(layer, level) + level_area(self.width, self.height, level),
        )
    }

    /// Pixel `(x, y)` of level `level` of layer `layer`.
    pub open spec fn pixel(self, x: nat, y: nat, layer: nat, level: nat) -> T {
        self.pixels[self.pixel_index(x, y, layer, level)]
    }

    /// The same buffer with other pixels.
    pub open spec fn with_pixels(self, pixels: Seq<T>) -> TextureModel<T> {
        TextureModel {
            width: self.width,
            height: self.height,
            depth: self.depth,
            mipmaps: self.mipmaps,
            depth_divisor: self.depth_divisor,
            pixels,
        }
    }

    /// The same buffer with `part` in place of the pixels from index `start`
    /// up to index `end`.
    pub open spec fn splice(self, start: int, end: int, part: Seq<T>) -> TextureModel<T> {
        self.with_pixels(
            self.pixels.subrange(0, start) + part + self.pixels.subrange(
                end,
                self.pixels.len() as int,
            ),
        )
    }

    /// The same buffer with `value` as pixel `(x, y)` of level `level` of
    /// layer `layer`.
    pub open spec fn set_pixel(self, x: nat, y: nat, layer: nat, level: nat, value: T)
        -> TextureModel<T> {
        self.with_pixels(self.pixels.update(self.pixel_index(x, y, layer, level), value))
    }

    /// The same buffer with `part` as layer `layer`.
    pub open spec fn set_layer(self, layer: nat, part: Seq<T>) -> TextureModel<T> {
        self.splice(self.layer_start(layer), self.layer_start(layer) + self.layer_len(), part)
    }

    /// The same buffer with `part` as level `level` of layer `layer`.
    pub open spec fn set_mipmap(self, layer: nat, level: nat, part: Seq<T>) -> TextureModel<T> {
        self.splice(
            self.level_start(layer, level),
            self.level_start(layer, level) + level_area(self.width, self.height, level),
            part,
        )
    }

    /// Whether two buffers have the same dimensions.
    pub open spec fn same_shape(self, other: TextureModel<T>) -> bool {
        &&& self.width == other.width
        &&& self.height == other.height
        &&& self.depth == other.depth
        &&& self.mipmaps == other.mipmaps
        &&& self.depth_divisor == other.depth_divisor
    }

    /// A layer of the buffer lies within the pixel sequence.
    pub proof fn lemma_layer_bounds(self, layer: nat)
        requires
            self.pixels.len() == self.depth * self.layer_len(),
            layer < self.depth,
        ensures
            0 <= self.layer_start(layer),
            self.layer_start(layer) + self.layer_len() <= self.pixels.len(),
            self.layer_start(layer) + self.layer_len() == self.layer_start(layer + 1),
    {
        let len = self.layer_len();
        let depth = self.depth;
        assert(layer * len + len <= depth * len && 0 <= layer * len && layer * len + len == (layer
            + 1) * len) by (nonlinear_arith)
            requires
                layer < depth,
        ;
    }

    /// A level of a layer lies within its layer, and the next level, where
    /// there is one, starts where this one ends.
    pub proof fn lemma_level_bounds(self, layer: nat, level: nat)
        requires
            self.pixels.len() == self.depth * self.layer_len(),
            self.has_level(layer, level),
        ensures
            self.layer_start(layer) <= self.level_start(layer, level),
            self.level_start(layer, level) + level_area(self.width, self.height, level)
                == self.level_start(layer, level + 1),
            self.level_start(layer, level + 1) <= self.layer_start(layer) + self.layer_len(),
            0 <= self.level_start(layer, level),
            self.level_start(layer, level + 1) <= self.pixels.len(),
    {
        self.lemma_layer_bounds(layer);
        lemma_levels_area_monotone(self.width, self.height, level + 1, self.mipmaps);
    }

    /// A pixel of a level lies within its level.
    pub proof fn lemma_pixel_bounds(self, x: nat, y: nat, layer: nat, level: nat)
        requires
            self.pixels.len() == self.depth * self.layer_len(),
            self.has_pixel(x, y, layer, level),
        ensures
            self.level_start(layer, level) <= self.pixel_index(x, y, layer, level),
            self.pixel_index(x, y, layer, level) < self.level_start(layer, level + 1),
            0 <= self.pixel_index(x, y, layer, level) < self.pixels.len(),
            self.pixel(x, y, layer, level) == self.mipmap(layer, level)[(y * mip_dim(
                self.width,
                level,
            ) + x) as int],
    {
        self.lemma_level_bounds(layer, level);
        let w = mip_dim(self.width, level);
        let h = mip_dim(self.height, level);
        assert(0 <= y * w + x < w * h) by (nonlinear_arith)
            requires
                x < w,
                y < h,
        ;
    }

    /// Levels that differ, in one layer or in two, share no index: the one
    /// that comes first in storage order ends before the other starts.
    pub proof fn lemma_levels_ordered(
        self,
        layer_a: nat,
        level_a: nat,
        layer_b: nat,
        level_b: nat,
    )
        requires
            self.pixels.len() == self.depth * self.layer_len(),
            self.has_level(layer_a, level_a),
            self.has_level(layer_b, level_b),
            layer_a < layer_b || (layer_a == layer_b && level_a < level_b),
        ensures
            self.level_start(layer_a, level_a + 1) <= self.level_start(layer_b, level_b),
    {
        self.lemma_level_bounds(layer_a, level_a);
        self.lemma_level_bounds(layer_b, level_b);
        if layer_a < layer_b {
            let len = self.layer_len();
            assert((layer_a + 1) * len <= layer_b * len) by (nonlinear_arith)
                requires
                    layer_a < layer_b,
            ;
            self.lemma_layer_bounds(layer_a);
        } else {
            lemma_levels_area_monotone(self.width, self.height, level_a + 1, level_b);
        }
    }

    /// Two pixels with the same index are the same pixel.
    pub proof fn lemma_pixel_index_injective(
        self,
        xa: nat,
        ya: nat,
        layer_a: nat,
        level_a: nat,
        xb: nat,
        yb: nat,
        layer_b: nat,
        level_b: nat,
    )
        requires
            self.pixels.len() == self.depth * self.layer_len(),
            self.has_pixel(xa, ya, layer_a, level_a),
            self.has_pixel(xb, yb, layer_b, level_b),
            self.pixel_index(xa, ya, layer_a, level_a) == self.pixel_index(
                xb,
                yb,
                layer_b,
                level_b,
            ),
        ensures
            xa == xb,
            ya == yb,
            layer_a == layer_b,
            level_a == level_b,
    {
        self.lemma_pixel_bounds(xa, ya, layer_a, level_a);
        self.lemma_pixel_bounds(xb, yb, layer_b, level_b);
        if layer_a < layer_b || (layer_a == layer_b && level_a < level_b) {
            self.lemma_levels_ordered(layer_a, level_a, layer_b, level_b);
        } else if layer_b < layer_a || (layer_a == layer_b && level_b < level_a) {
            self.lemma_levels_ordered(layer_b, level_b, layer_a, level_a);
        } else {
            let w = mip_dim(self.width, level_a);
            assert(ya == yb && xa == xb) by (nonlinear_arith)
                requires
                    ya * w + xa == yb * w + xb,
                    xa < w,
                    xb < w,
            ;
        }
    }

    /// Writing a pixel keeps the buffer valid, and a read at the place that
    /// was written gives what was written.
    pub proof fn lemma_set_pixel_same(self, x: nat, y: nat, layer: nat, level: nat, value: T)
        requires
            self.wf(),
            self.has_pixel(x, y, layer, level),
        ensures
            self.set_pixel(x, y, layer, level, value).wf(),
            self.set_pixel(x, y, layer, level, value).same_shape(self),
            self.set_pixel(x, y, layer, level, value).pixel(x, y, layer, level) == value,
    {
        self.lemma_pixel_bounds(x, y, layer, level);
    }

    /// Writing a pixel leaves every other pixel as it was.
    pub proof fn lemma_set_pixel_other(
        self,
        x: nat,
        y: nat,
        layer: nat,
        level: nat,
        value: T,
        other_x: nat,
        other_y: nat,
        other_layer: nat,
        other_level: nat,
    )
        requires
            self.wf(),
            self.has_pixel(x, y, layer, level),
            self.has_pixel(other_x, other_y, other_layer, other_level),
            x != other_x || y != other_y || layer != other_layer || level != other_level,
        ensures
            self.set_pixel(x, y, layer, level, value).pixel(
                other_x,
                other_y,
                other_layer,
                other_level,
            ) == self.pixel(other_x, other_y, other_layer, other_level),
    {
        self.lemma_pixel_bounds(x, y, layer, level);
        self.lemma_pixel_bounds(other_x, other_y, other_layer, other_level);
        if self.pixel_index(x, y, layer, level) == self.pixel_index(
            other_x,
            other_y,
            other_layer,
            other_level,
        ) {
            self.lemma_pixel_index_injective(
                x,
                y,
                layer,
                level,
                other_x,
                other_y,
                other_layer,
                other_level,
            );
        }
    }
    /// Every index of the pixel sequence is the index of a pixel: the
    /// result names its `(x, y, layer, level)`.
    pub proof fn lemma_index_is_pixel(self, index: int) -> (at: (nat, nat, nat, nat))
        requires
            self.wf(),
            0 <= index < self.pixels.len(),
        ensures
            self.has_pixel(at.0, at.1, at.2, at.3),
            self.pixel_index(at.0, at.1, at.2, at.3) == index,
    {
        let len = self.layer_len();
        let depth = self.depth;
        lemma_levels_area_monotone(self.width, self.height, 0, self.mipmaps);
        lemma_level_area_positive(self.width, self.height, 0);
        let layer = (index / len as int) as nat;
        let rest = (index % len as int) as nat;
        vstd::arithmetic::div_mod::lemma_fundamental_div_mod(index, len as int);
        assert(layer < depth) by (nonlinear_arith)
            requires
                index == len * layer + rest,
                index < depth * len,
                len > 0,
        ;
        assert(layer * len == len * layer) by (nonlinear_arith);
        let level = lemma_level_of_offset(self.width, self.height, self.mipmaps, rest);
        let row = mip_dim(self.width, level);
        let within = (rest - levels_area(self.width, self.height, level)) as nat;
        let y = within / row;
        let x = within % row;
        vstd::arithmetic::div_mod::lemma_fundamental_div_mod(within as int, row as int);
        let rows = mip_dim(self.height, level);
        assert(y < rows) by (nonlinear_arith)
            requires
                within == row * y + x,
                within < row * rows,
                row > 0,
        ;
        assert(y * row == row * y) by (nonlinear_arith);
        (x, y, layer, level)
    }
}

/// The level in which the pixel at offset `offset` of a layer lies.
proof fn lemma_level_of_offset(width: nat, height: nat, levels: nat, offset: nat) -> (level: nat)
    requires
        offset < levels_area(width, height, levels),
    ensures
        level < levels,
        levels_area(width, height, level) <= offset < levels_area(width, height, level)
            + level_area(width, height, level),
    decreases levels,
{
    if offset >= levels_area(width, height, (levels - 1) as nat) {
        (levels - 1) as nat
    } else {
        lemma_level_of_offset(width, height, (levels - 1) as nat, offset)
    }
}

} // verus!
