//! Box-filtered mipmaps for buffers of four-channel, eight-bit pixels.

use crate::levels::{lemma_mip_dim_step, mip_dim};
use crate::model::TextureModel;
use crate::texture::TextureData;
use vstd::prelude::*;

verus! {

/// Sum of channel `channel` over `pixels`.
pub open spec fn channel_sum(pixels: Seq<&[u8; 4]>, channel: int) -> nat
    decreases pixels.len(),
{
    if pixels.len() == 0 {
        0
    } else {
        channel_sum(pixels.drop_last(), channel) + pixels.last()[channel] as nat
    }
}

/// Channel by channel, the arithmetic mean of `pixels`, rounded down.
pub open spec fn mean_pixel(pixels: Seq<&[u8; 4]>) -> Seq<u8> {
    Seq::new(4, |channel: int| (channel_sum(pixels, channel) / pixels.len()) as u8)
}

/// Coordinate, along a side that has `side` pixels at the level below, of
/// a sample of pixel `c`: `2 * c + step`, where `step` is 0 or 1, or the last
/// pixel of the side where that lies beyond it.
pub open spec fn source_coord(c: nat, step: nat, side: nat) -> nat {
    if 2 * c + step < side {
        2 * c + step
    } else {
        (side - 1) as nat
    }
}

/// The sample of pixel `(x, y)` of level `level` of layer `layer` that lies
/// `dx` to the right and `dy` down in its 2 x 2 block of the level below.
pub open spec fn box_sample(
    texture: TextureModel<[u8; 4]>,
    x: nat,
    y: nat,
    layer: nat,
    level: nat,
    dx: nat,
    dy: nat,
) -> [u8; 4] {
    texture.pixel(
        source_coord(x, dx, mip_dim(texture.width, (level - 1) as nat)),
        source_coord(y, dy, mip_dim(texture.height, (level - 1) as nat)),
        layer,
        (level - 1) as nat,
    )
}

/// Channel by channel, the arithmetic mean of four pixels, rounded down.
pub open spec fn mean_of_four(a: [u8; 4], b: [u8; 4], c: [u8; 4], d: [u8; 4]) -> Seq<u8> {
    Seq::new(4, |channel: int| ((a[channel] + b[channel] + c[channel] + d[channel]) / 4) as u8)
}

/// What the box filter gives pixel `(x, y)` of level `level` of layer
/// `layer`: the mean of its four samples in the level below.
pub open spec fn box_mean(texture: TextureModel<[u8; 4]>, x: nat, y: nat, layer: nat, level: nat)
    -> Seq<u8> {
    mean_of_four(
        box_sample(texture, x, y, layer, level, 0, 0),
        box_sample(texture, x, y, layer, level, 1, 0),
        box_sample(texture, x, y, layer, level, 1, 1),
        box_sample(texture, x, y, layer, level, 0, 1),
    )
}

/// Whether pixel `(x, y)` of level `level` of layer `layer` is what the box
/// filter gives it.
pub open spec fn filtered_at(texture: TextureModel<[u8; 4]>, x: nat, y: nat, layer: nat, level: nat)
    -> bool {
    texture.pixel(x, y, layer, level)@ == box_mean(texture, x, y, layer, level)
}

/// Whether every pixel above level 0 is what the box filter gives it.
pub open spec fn is_mipmapped(texture: TextureModel<[u8; 4]>) -> bool {
    forall|x: nat, y: nat, layer: nat, level: nat|
        texture.has_pixel(x, y, layer, level) && level >= 1 ==> #[trigger] filtered_at(
            texture,
            x,
            y,
            layer,
            level,
        )
}

/// Whether `(layer, level, y, x)` comes before `(at_layer, at_level, at_y,
/// at_x)` in the order in which the pixels are filtered.
spec fn comes_before(
    layer: nat,
    level: nat,
    y: nat,
    x: nat,
    at_layer: nat,
    at_level: nat,
    at_y: nat,
    at_x: nat,
) -> bool {
    layer < at_layer || (layer == at_layer && (level < at_level || (level == at_level && (y
        < at_y || (y == at_y && x < at_x)))))
}

/// Whether every pixel above level 0 that comes before `(at_layer, at_level,
/// at_y, at_x)` is what the box filter gives it.
spec fn filtered_before(
    texture: TextureModel<[u8; 4]>,
    at_layer: nat,
    at_level: nat,
    at_y: nat,
    at_x: nat,
) -> bool {
    forall|x: nat, y: nat, layer: nat, level: nat|
        texture.has_pixel(x, y, layer, level) && level >= 1 && comes_before(
            layer,
            level,
            y,
            x,
            at_layer,
            at_level,
            at_y,
            at_x,
        ) ==> #[trigger] filtered_at(texture, x, y, layer, level)
}

/// Whether two buffers have the same pixels at level 0.
spec fn same_base(texture: TextureModel<[u8; 4]>, other: TextureModel<[u8; 4]>) -> bool {
    forall|x: nat, y: nat, layer: nat|
        texture.has_pixel(x, y, layer, 0) ==> #[trigger] texture.pixel(x, y, layer, 0) == other.pixel(
            x,
            y,
            layer,
            0,
        )
}

/// The mean of a list of four pixels is their mean of four.
proof fn lemma_mean_of_four(pixels: Seq<&[u8; 4]>)
    requires
        pixels.len() == 4,
    ensures
        mean_pixel(pixels) == mean_of_four(*pixels[0], *pixels[1], *pixels[2], *pixels[3]),
{
    let three = pixels.drop_last();
    let two = three.drop_last();
    let one = two.drop_last();
    assert(one.drop_last().len() == 0);
    assert forall|channel: int| 0 <= channel < 4 implies channel_sum(pixels, channel)
        == pixels[0][channel] + pixels[1][channel] + pixels[2][channel] + pixels[3][channel] by {
        assert(channel_sum(one.drop_last(), channel) == 0);
        assert(channel_sum(one, channel) == pixels[0][channel]);
        assert(channel_sum(two, channel) == pixels[0][channel] + pixels[1][channel]);
        assert(channel_sum(three, channel) == pixels[0][channel] + pixels[1][channel]
            + pixels[2][channel]);
    }
    assert(mean_pixel(pixels) =~= mean_of_four(*pixels[0], *pixels[1], *pixels[2], *pixels[3]));
}

/// The samples of a pixel are pixels of the level below. Along a side that
/// has two pixels or more at the level below, they lie at twice the pixel's
/// coordinate and next to it; along a side that has one, both are that one.
pub proof fn lemma_sample_coord(dim: nat, level: nat, c: nat, step: nat)
    requires
        level >= 1,
        c < mip_dim(dim, level),
        step <= 1,
    ensures
        source_coord(c, step, mip_dim(dim, (level - 1) as nat)) < mip_dim(
            dim,
            (level - 1) as nat,
        ),
        2 * c < mip_dim(dim, (level - 1) as nat),
        mip_dim(dim, (level - 1) as nat) >= 2 ==> source_coord(
            c,
            step,
            mip_dim(dim, (level - 1) as nat),
        ) == 2 * c + step,
        mip_dim(dim, (level - 1) as nat) == 1 ==> source_coord(
            c,
            step,
            mip_dim(dim, (level - 1) as nat),
        ) == 0,
{
    lemma_mip_dim_step(dim, (level - 1) as nat);
}

/// Writing a pixel above level 0 keeps every pixel filtered that was, but
/// for the pixels of the level above the one written, and makes the written
/// pixel filtered where the value is what the filter gives.
proof fn lemma_write_keeps_filter(
    texture: TextureModel<[u8; 4]>,
    at_x: nat,
    at_y: nat,
    at_layer: nat,
    at_level: nat,
    value: [u8; 4],
    x: nat,
    y: nat,
    layer: nat,
    level: nat,
)
    requires
        texture.wf(),
        texture.has_pixel(at_x, at_y, at_layer, at_level),
        texture.has_pixel(x, y, layer, level),
        level >= 1,
        !(layer == at_layer && level == at_level + 1),
        if x == at_x && y == at_y && layer == at_layer && level == at_level {
            value@ == box_mean(texture, x, y, layer, level)
        } else {
            filtered_at(texture, x, y, layer, level)
        },
    ensures
        filtered_at(texture.set_pixel(at_x, at_y, at_layer, at_level, value), x, y, layer, level),
{
    let below = (level - 1) as nat;
    lemma_sample_coord(texture.width, level, x, 0);
    lemma_sample_coord(texture.width, level, x, 1);
    lemma_sample_coord(texture.height, level, y, 0);
    lemma_sample_coord(texture.height, level, y, 1);
    let x0 = source_coord(x, 0, mip_dim(texture.width, below));
    let x1 = source_coord(x, 1, mip_dim(texture.width, below));
    let y0 = source_coord(y, 0, mip_dim(texture.height, below));
    let y1 = source_coord(y, 1, mip_dim(texture.height, below));
    texture.lemma_set_pixel_other(at_x, at_y, at_layer, at_level, value, x0, y0, layer, below);
    texture.lemma_set_pixel_other(at_x, at_y, at_layer, at_level, value, x1, y0, layer, below);
    texture.lemma_set_pixel_other(at_x, at_y, at_layer, at_level, value, x1, y1, layer, below);
    texture.lemma_set_pixel_other(at_x, at_y, at_layer, at_level, value, x0, y1, layer, below);
    assert(box_mean(
        texture.set_pixel(at_x, at_y, at_layer, at_level, value),
        x,
        y,
        layer,
        level,
    ) == box_mean(texture, x, y, layer, level));
    if x == at_x && y == at_y && layer == at_layer && level == at_level {
        texture.lemma_set_pixel_same(at_x, at_y, at_layer, at_level, value);
    } else {
        texture.lemma_set_pixel_other(at_x, at_y, at_layer, at_level, value, x, y, layer, level);
    }
}

/// Two valid buffers of the same dimensions that hold the same pixels at
/// level 0, and above it what the box filter gives, hold the same pixel at
/// every place.
proof fn lemma_same_pixel(
    a: TextureModel<[u8; 4]>,
    b: TextureModel<[u8; 4]>,
    x: nat,
    y: nat,
    layer: nat,
    level: nat,
)
    requires
        a.wf(),
        b.wf(),
        a.same_shape(b),
        is_mipmapped(a),
        is_mipmapped(b),
        same_base(a, b),
        a.has_pixel(x, y, layer, level),
    ensures
        a.pixel(x, y, layer, level) == b.pixel(x, y, layer, level),
    decreases level,
{
    if level >= 1 {
        let below = (level - 1) as nat;
        lemma_sample_coord(a.width, level, x, 0);
        lemma_sample_coord(a.width, level, x, 1);
        lemma_sample_coord(a.height, level, y, 0);
        lemma_sample_coord(a.height, level, y, 1);
        let x0 = source_coord(x, 0, mip_dim(a.width, below));
        let x1 = source_coord(x, 1, mip_dim(a.width, below));
        let y0 = source_coord(y, 0, mip_dim(a.height, below));
        let y1 = source_coord(y, 1, mip_dim(a.height, below));
        lemma_same_pixel(a, b, x0, y0, layer, below);
        lemma_same_pixel(a, b, x1, y0, layer, below);
        lemma_same_pixel(a, b, x1, y1, layer, below);
        lemma_same_pixel(a, b, x0, y1, layer, below);
        assert(filtered_at(a, x, y, layer, level));
        assert(filtered_at(b, x, y, layer, level));
        assert(a.pixel(x, y, layer, level) =~= b.pixel(x, y, layer, level));
    }
}

/// The mip levels are a function of level 0: two valid buffers of the same
/// dimensions that hold the same pixels at level 0, and above it what the
/// box filter gives, are the same buffer.
pub proof fn lemma_mipmaps_determined(a: TextureModel<[u8; 4]>, b: TextureModel<[u8; 4]>)
    requires
        a.wf(),
        b.wf(),
        a.same_shape(b),
        is_mipmapped(a),
        is_mipmapped(b),
        forall|x: nat, y: nat, layer: nat|
            a.has_pixel(x, y, layer, 0) ==> #[trigger] a.pixel(x, y, layer, 0) == b.pixel(
                x,
                y,
                layer,
                0,
            ),
    ensures
        a == b,
{
    assert forall|index: int| 0 <= index < a.pixels.len() implies a.pixels[index]
        == b.pixels[index] by {
        let at = a.lemma_index_is_pixel(index);
        lemma_same_pixel(a, b, at.0, at.1, at.2, at.3);
    }
    assert(a.pixels =~= b.pixels);
}

impl TextureData<[u8; 4]> {
    /// Channel by channel, the arithmetic mean of `pixels`, rounded down.
    pub fn average(pixels: &[&[u8; 4]]) -> (mean: [u8; 4])
        requires
            0 < pixels@.len() <= 0x0101_0101,
        ensures
            mean@ == mean_pixel(pixels@),
    {
        let mut accum: [u32; 4] = [0u32; 4];
        let mut n: usize = 0;
        while n < pixels.len()
            invariant
                n <= pixels@.len() <= 0x0101_0101,
                forall|c: int| 0 <= c < 4 ==> accum@[c] == channel_sum(pixels@.take(n as int), c),
                forall|c: int| 0 <= c < 4 ==> accum@[c] <= 255 * n,
            decreases pixels@.len() - n,
        {
            let pixel: &[u8; 4] = pixels[n];
            proof {
                assert(pixels@.take(n + 1).drop_last() == pixels@.take(n as int));
            }
            let mut i: usize = 0;
            while i < 4
                invariant
                    i <= 4,
                    n < pixels@.len() <= 0x0101_0101,
                    pixel == pixels@[n as int],
                    pixels@.take(n + 1).drop_last() == pixels@.take(n as int),
                    forall|c: int| 0 <= c < i ==> accum@[c] == channel_sum(pixels@.take(n + 1), c),
                    forall|c: int| i <= c < 4 ==> accum@[c] == channel_sum(pixels@.take(n as int), c),
                    forall|c: int| 0 <= c < i ==> accum@[c] <= 255 * (n + 1),
                    forall|c: int| i <= c < 4 ==> accum@[c] <= 255 * n,
                decreases 4 - i,
            {
                accum[i] = accum[i] + pixel[i] as u32;
                i = i + 1;
            }
            n = n + 1;
        }
        assert(pixels@.take(n as int) == pixels@);
        let count: u32 = pixels.len() as u32;
        let mut mean: [u8; 4] = [0u8; 4];
        let mut i: usize = 0;
        while i < 4
            invariant
                i <= 4,
                0 < count == pixels@.len(),
                forall|c: int| 0 <= c < 4 ==> accum@[c] == channel_sum(pixels@, c),
                forall|c: int| 0 <= c < 4 ==> accum@[c] <= 255 * count,
                forall|c: int| 0 <= c < i ==> mean@[c] == (channel_sum(pixels@, c) / pixels@.len()) as u8,
            decreases 4 - i,
        {
            proof {
                let total = accum@[i as int];
                assert(total / count <= 255) by (nonlinear_arith)
                    requires
                        total <= 255 * count,
                        count > 0,
                ;
            }
            mean[i] = (accum[i] / count) as u8;
            i = i + 1;
        }
        assert(mean@ =~= mean_pixel(pixels@));
        mean
    }

    /// Fills every level above level 0, in every layer, from the level
    /// below it: each pixel becomes the mean of its 2 x 2 block of samples.
    /// Level 0 stays as it was.
    pub fn generate_mipmaps(&mut self)
        requires
            old(self)@.wf(),
        ensures
            final(self)@.wf(),
            final(self)@.same_shape(old(self)@),
            forall|x: nat, y: nat, layer: nat|
                old(self)@.has_pixel(x, y, layer, 0) ==> #[trigger] final(self)@.pixel(
                    x,
                    y,
                    layer,
                    0,
                ) == old(self)@.pixel(x, y, layer, 0),
            is_mipmapped(final(self)@),
    {
        let depth: u32 = self.depth();
        let levels: u32 = self.mipmaps();
        let mut layer: u32 = 0;
        while layer < depth
            invariant
                layer <= depth,
                depth == self@.depth,
                levels == self@.mipmaps,
                self@.wf(),
                self@.same_shape(old(self)@),
                same_base(self@, old(self)@),
                filtered_before(self@, layer as nat, 0, 0, 0),
            decreases depth - layer,
        {
            let mut mipmap: u32 = 1;
            while mipmap < levels
                invariant
                    layer < depth,
                    1 <= mipmap <= levels,
                    depth == self@.depth,
                    levels == self@.mipmaps,
                    self@.wf(),
                    self@.same_shape(old(self)@),
                    same_base(self@, old(self)@),
                    filtered_before(self@, layer as nat, mipmap as nat, 0, 0),
                decreases levels - mipmap,
            {
                let width: u32 = self.mipmapped_width(mipmap);
                let height: u32 = self.mipmapped_height(mipmap);
                let source_width: u32 = self.mipmapped_width(mipmap - 1);
                let source_height: u32 = self.mipmapped_height(mipmap - 1);
                let mut y: u32 = 0;
                while y < height
                    invariant
                        layer < depth,
                        1 <= mipmap < levels,
                        y <= height,
                        depth == self@.depth,
                        levels == self@.mipmaps,
                        width == mip_dim(self@.width, mipmap as nat),
                        height == mip_dim(self@.height, mipmap as nat),
                        source_width == mip_dim(self@.width, (mipmap - 1) as nat),
                        source_height == mip_dim(self@.height, (mipmap - 1) as nat),
                        self@.wf(),
                        self@.same_shape(old(self)@),
                        same_base(self@, old(self)@),
                        filtered_before(self@, layer as nat, mipmap as nat, y as nat, 0),
                    decreases height - y,
                {
                    let mut x: u32 = 0;
                    while x < width
                        invariant
                            layer < depth,
                            1 <= mipmap < levels,
                            y < height,
                            x <= width,
                            depth == self@.depth,
                            levels == self@.mipmaps,
                            width == mip_dim(self@.width, mipmap as nat),
                            height == mip_dim(self@.height, mipmap as nat),
                            source_width == mip_dim(self@.width, (mipmap - 1) as nat),
                            source_height == mip_dim(self@.height, (mipmap - 1) as nat),
                            self@.wf(),
                            self@.same_shape(old(self)@),
                            same_base(self@, old(self)@),
                            filtered_before(
                                self@,
                                layer as nat,
                                mipmap as nat,
                                y as nat,
                                x as nat,
                            ),
                        decreases width - x,
                    {
                        proof {
                            lemma_sample_coord(self@.width, mipmap as nat, x as nat, 0);
                            lemma_sample_coord(self@.width, mipmap as nat, x as nat, 1);
                            lemma_sample_coord(self@.height, mipmap as nat, y as nat, 0);
                            lemma_sample_coord(self@.height, mipmap as nat, y as nat, 1);
                        }
                        let x0: u32 = 2 * x;
                        let y0: u32 = 2 * y;
                        let x1: u32 = if x0 + 1 < source_width {
                            x0 + 1
                        } else {
                            source_width - 1
                        };
                        let y1: u32 = if y0 + 1 < source_height {
                            y0 + 1
                        } else {
                            source_height - 1
                        };
                        let a: [u8; 4] = *self.get_pixel(x0, y0, layer, mipmap - 1);
                        let b: [u8; 4] = *self.get_pixel(x1, y0, layer, mipmap - 1);
                        let c: [u8; 4] = *self.get_pixel(x1, y1, layer, mipmap - 1);
                        let d: [u8; 4] = *self.get_pixel(x0, y1, layer, mipmap - 1);
                        let samples: [&[u8; 4]; 4] = [&a, &b, &c, &d];
                        let mean: [u8; 4] = Self::average(samples.as_slice());
                        let ghost before = self@;
                        proof {
                            lemma_mean_of_four(samples@);
                            assert(mean@ == box_mean(
                                before,
                                x as nat,
                                y as nat,
                                layer as nat,
                                mipmap as nat,
                            ));
                        }
                        *self.get_pixel_mut(x, y, layer, mipmap) = mean;
                        proof {
                            assert(self@ == before.set_pixel(
                                x as nat,
                                y as nat,
                                layer as nat,
                                mipmap as nat,
                                mean,
                            ));
                            assert forall|x2: nat, y2: nat, l2: nat, m2: nat|
                                self@.has_pixel(x2, y2, l2, m2) && m2 >= 1 && comes_before(
                                    l2,
                                    m2,
                                    y2,
                                    x2,
                                    layer as nat,
                                    mipmap as nat,
                                    y as nat,
                                    (x + 1) as nat,
                                ) implies #[trigger] filtered_at(self@, x2, y2, l2, m2) by {
                                lemma_write_keeps_filter(
                                    before,
                                    x as nat,
                                    y as nat,
                                    layer as nat,
                                    mipmap as nat,
                                    mean,
                                    x2,
                                    y2,
                                    l2,
                                    m2,
                                );
                            }
                            assert forall|x2: nat, y2: nat, l2: nat|
                                self@.has_pixel(x2, y2, l2, 0) implies #[trigger] self@.pixel(
                                x2,
                                y2,
                                l2,
                                0,
                            ) == old(self)@.pixel(x2, y2, l2, 0) by {
                                before.lemma_set_pixel_other(
                                    x as nat,
                                    y as nat,
                                    layer as nat,
                                    mipmap as nat,
                                    mean,
                                    x2,
                                    y2,
                                    l2,
                                    0,
                                );
                            }
                        }
                        x = x + 1;
                    }
                    y = y + 1;
                }
                mipmap = mipmap + 1;
            }
            layer = layer + 1;
        }
    }
}

} // verus!
