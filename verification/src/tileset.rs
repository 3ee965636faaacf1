//! Packing a tile sheet into a texture buffer with one layer for each tile.

use crate::levels::{full_levels, lemma_pyramid_area_bound, levels_area, mip_dim};
use crate::mipmap::is_mipmapped;
use crate::model::TextureModel;
use crate::texture::{MipMaps, TextureData};
use vstd::prelude::*;

verus! {

/// What a decoded image holds: `width` x `height` pixels of four bytes each,
/// row after row.
pub struct ImageModel {
    /// Number of pixels in a row.
    pub width: nat,
    /// Number of rows.
    pub height: nat,
    /// The bytes of all pixels, in storage order.
    pub data: Seq<u8>,
}

impl ImageModel {
    /// Validity of an image: four bytes for each pixel.
    pub open spec fn wf(self) -> bool {
        &&& self.width <= u32::MAX
        &&& self.height <= u32::MAX
        &&& self.data.len() == 4 * (self.width * self.height)
        &&& self.data.len() <= usize::MAX
    }

    /// Index of the first byte of pixel `(x, y)`.
    pub open spec fn byte_index(self, x: nat, y: nat) -> int {
        (4 * (y * self.width + x)) as int
    }

    /// The four bytes of pixel `(x, y)`.
    pub open spec fn pixel(self, x: nat, y: nat) -> Seq<u8> {
        self.data.subrange(self.byte_index(x, y), self.byte_index(x, y) + 4)
    }

    /// Every pixel of the image lies within its bytes.
    pub proof fn lemma_pixel_bounds(self, x: nat, y: nat)
        requires
            self.wf(),
            x < self.width,
            y < self.height,
        ensures
            0 <= self.byte_index(x, y),
            self.byte_index(x, y) + 4 <= self.data.len(),
    {
        let w = self.width;
        let h = self.height;
        assert(0 <= y * w + x < w * h) by (nonlinear_arith)
            requires
                x < w,
                y < h,
        ;
    }
}

/// A decoded image with four channels of eight bits.
pub struct SourceImage {
    width: u32,
    height: u32,
    data: Vec<u8>,
}

impl View for SourceImage {
    type V = ImageModel;

    closed spec fn view(&self) -> ImageModel {
        ImageModel { width: self.width as nat, height: self.height as nat, data: self.data@ }
    }
}

impl SourceImage {
    /// An image of `width` x `height` pixels from their bytes, four for each
    /// pixel, row after row; nothing where the number of bytes is another.
    pub fn from_rgba8(width: u32, height: u32, data: Vec<u8>) -> (image: Option<SourceImage>)
        ensures
            match image {
                Some(image) => {
                    &&& image@.wf()
                    &&& image@.width == width
                    &&& image@.height == height
                    &&& image@.data == data@
                },
                None => data@.len() != 4 * (width * height),
            },
    {
        proof {
            assert(width * height <= 0xffff_ffff * 0xffff_ffff) by (nonlinear_arith)
                requires
                    width <= 0xffff_ffff,
                    height <= 0xffff_ffff,
            ;
        }
        let pixels: u64 = (width as u64) * (height as u64);
        let len: usize = data.len();
        if pixels > u64::MAX / 4 {
            return None;
        }
        if len as u64 == 4 * pixels {
            Some(SourceImage { width, height, data })
        } else {
            None
        }
    }

    /// Number of pixels in a row.
    pub fn width(&self) -> (width: u32)
        ensures
            width == self@.width,
    {
        self.width
    }

    /// Number of rows.
    pub fn height(&self) -> (height: u32)
        ensures
            height == self@.height,
    {
        self.height
    }

    /// Pixel `(x, y)`.
    pub fn get_pixel(&self, x: u32, y: u32) -> (pixel: [u8; 4])
        requires
            self@.wf(),
            x < self@.width,
            y < self@.height,
        ensures
            pixel@ == self@.pixel(x as nat, y as nat),
    {
        proof {
            self@.lemma_pixel_bounds(x as nat, y as nat);
            assert(y * self.width <= y * self.width + x) by (nonlinear_arith);
        }
        let start: usize = 4 * ((y as usize) * (self.width as usize) + (x as usize));
        let pixel: [u8; 4] = [
            self.data[start],
            self.data[start + 1],
            self.data[start + 2],
            self.data[start + 3],
        ];
        assert(pixel@ =~= self@.pixel(x as nat, y as nat));
        pixel
    }
}

/// Whether pixel `(px, py)` of the tile in column `gx` and row `gy` of the
/// grid of `tile_w` x `tile_h` tiles of `image` is pixel `(px, py)` of level
/// 0 of the layer of `texture` that belongs to that tile: the layers follow
/// the tiles row after row.
pub open spec fn tile_pixel_copied(
    texture: TextureModel<[u8; 4]>,
    image: ImageModel,
    tile_w: nat,
    tile_h: nat,
    gx: nat,
    gy: nat,
    px: nat,
    py: nat,
) -> bool {
    texture.pixel(px, py, gx + (image.width / tile_w) * gy, 0)@ == image.pixel(
        gx * tile_w + px,
        gy * tile_h + py,
    )
}

/// Whether level 0 of `texture` holds the whole tiles of `image`, one layer
/// for each tile.
pub open spec fn holds_tiles(
    texture: TextureModel<[u8; 4]>,
    image: ImageModel,
    tile_w: nat,
    tile_h: nat,
) -> bool {
    forall|gx: nat, gy: nat, px: nat, py: nat|
        gx < image.width / tile_w && gy < image.height / tile_h && px < tile_w && py < tile_h
            ==> #[trigger] tile_pixel_copied(texture, image, tile_w, tile_h, gx, gy, px, py)
}

/// Whether `(gy, gx, py, px)` comes before `(at_gy, at_gx, at_py, at_px)` in
/// the order in which the pixels of the tiles are copied.
spec fn copied_earlier(
    gy: nat,
    gx: nat,
    py: nat,
    px: nat,
    at_gy: nat,
    at_gx: nat,
    at_py: nat,
    at_px: nat,
) -> bool {
    gy < at_gy || (gy == at_gy && (gx < at_gx || (gx == at_gx && (py < at_py || (py == at_py
        && px < at_px)))))
}

/// Whether level 0 of `texture` holds the pixels of the tiles of `image`
/// that come before `(at_gy, at_gx, at_py, at_px)`.
spec fn holds_tiles_before(
    texture: TextureModel<[u8; 4]>,
    image: ImageModel,
    tile_w: nat,
    tile_h: nat,
    at_gy: nat,
    at_gx: nat,
    at_py: nat,
    at_px: nat,
) -> bool {
    forall|gx: nat, gy: nat, px: nat, py: nat|
        gx < image.width / tile_w && gy < image.height / tile_h && px < tile_w && py < tile_h
            && copied_earlier(gy, gx, py, px, at_gy, at_gx, at_py, at_px)
            ==> #[trigger] tile_pixel_copied(texture, image, tile_w, tile_h, gx, gy, px, py)
}

/// The tile in column `gx` and row `gy` of a grid with `columns` columns and
/// `rows` rows has a layer of its own among `columns * rows` layers.
proof fn lemma_tile_layer(columns: nat, rows: nat, gx: nat, gy: nat)
    requires
        gx < columns,
        gy < rows,
    ensures
        columns * gy <= gx + columns * gy < columns * rows,
{
    assert(columns * gy <= gx + columns * gy < columns * rows) by (nonlinear_arith)
        requires
            gx < columns,
            gy < rows,
    ;
}

/// Two tiles with the same layer are the same tile.
proof fn lemma_tile_layer_injective(columns: nat, gx: nat, gy: nat, other_gx: nat, other_gy: nat)
    requires
        gx < columns,
        other_gx < columns,
        gx + columns * gy == other_gx + columns * other_gy,
    ensures
        gx == other_gx,
        gy == other_gy,
{
    assert(gx == other_gx && gy == other_gy) by (nonlinear_arith)
        requires
            gx < columns,
            other_gx < columns,
            gx + columns * gy == other_gx + columns * other_gy,
    ;
}

/// Every layer of a buffer with one layer for each tile of a grid with
/// `columns` columns and `rows` rows belongs to a tile: the result names its
/// column and its row.
pub proof fn lemma_layer_is_tile(columns: nat, rows: nat, layer: nat) -> (tile: (nat, nat))
    requires
        layer < columns * rows,
    ensures
        tile.0 < columns,
        tile.1 < rows,
        layer == tile.0 + columns * tile.1,
{
    assert(columns > 0) by (nonlinear_arith)
        requires
            layer < columns * rows,
    ;
    vstd::arithmetic::div_mod::lemma_fundamental_div_mod(layer as int, columns as int);
    let gx = layer % columns;
    let gy = layer / columns;
    assert(gy < rows) by (nonlinear_arith)
        requires
            layer == columns * gy + gx,
            layer < columns * rows,
            columns > 0,
    ;
    (gx, gy)
}

/// Every pixel of a whole tile is a pixel of the image.
proof fn lemma_tile_pixel_in_image(side: nat, tile: nat, g: nat, p: nat)
    requires
        tile >= 1,
        g < side / tile,
        p < tile,
    ensures
        g * tile <= g * tile + p < side,
        (side / tile) * tile <= side,
{
    vstd::arithmetic::div_mod::lemma_fundamental_div_mod(side as int, tile as int);
    let count = side / tile;
    assert(g * tile <= g * tile + p < count * tile && count * tile == tile * count)
        by (nonlinear_arith)
        requires
            g < count,
            p < tile,
    ;
}

/// A buffer with the full pyramid for each whole tile of an image has no
/// more pixels than the image has bytes.
proof fn lemma_tiles_fit(image: ImageModel, tile_w: nat, tile_h: nat)
    requires
        image.wf(),
        tile_w >= 1,
        tile_h >= 1,
    ensures
        (image.width / tile_w) * (image.height / tile_h) * levels_area(
            tile_w,
            tile_h,
            full_levels(tile_w, tile_h),
        ) <= image.data.len(),
{
    let columns = image.width / tile_w;
    let rows = image.height / tile_h;
    let area = levels_area(tile_w, tile_h, full_levels(tile_w, tile_h));
    vstd::arithmetic::div_mod::lemma_fundamental_div_mod(image.width as int, tile_w as int);
    vstd::arithmetic::div_mod::lemma_fundamental_div_mod(image.height as int, tile_h as int);
    vstd::arithmetic::logarithm::lemma_log_nonnegative(
        2,
        if tile_w >= tile_h {
            tile_w as int
        } else {
            tile_h as int
        },
    );
    lemma_pyramid_area_bound(tile_w, tile_h, full_levels(tile_w, tile_h));
    let width = image.width;
    let height = image.height;
    assert(columns * rows * area <= 4 * (width * height)) by (nonlinear_arith)
        requires
            tile_w * columns <= width,
            tile_h * rows <= height,
            area <= 2 * (tile_w * tile_h),
    ;
}

impl TextureData<[u8; 4]> {
    /// Cuts `image` into tiles of `tile_w` x `tile_h` pixels and packs them
    /// into a buffer with one layer for each tile and the full pyramid of
    /// mip levels. The tiles are taken row after row from the top left;
    /// columns and rows of pixels that do not fill a tile are left out.
    pub fn parse_tileset(image: &SourceImage, tile_w: u32, tile_h: u32) -> (texture: Self)
        requires
            image@.wf(),
            tile_w > 0,
            tile_h > 0,
            (image@.width / tile_w as nat) * (image@.height / tile_h as nat) <= u32::MAX,
        ensures
            texture@.wf(),
            texture@.width == tile_w,
            texture@.height == tile_h,
            texture@.depth == (image@.width / tile_w as nat) * (image@.height / tile_h as nat),
            texture@.mipmaps == full_levels(tile_w as nat, tile_h as nat),
            texture@.depth_divisor == Some(image@.width / tile_w as nat),
            holds_tiles(texture@, image@, tile_w as nat, tile_h as nat),
            is_mipmapped(texture@),
    {
        let expand_x: u32 = image.width() / tile_w;
        let expand_y: u32 = image.height() / tile_h;
        proof {
            lemma_tiles_fit(image@, tile_w as nat, tile_h as nat);
            assert(expand_x * expand_y == (image@.width / tile_w as nat) * (image@.height
                / tile_h as nat));
        }
        let depth: u32 = expand_x * expand_y;
        let mut texture = TextureData::<[u8; 4]>::new(tile_w, tile_h, depth, MipMaps::All);
        proof {
            if expand_x > 0 {
                vstd::arithmetic::div_mod::lemma_mod_multiples_basic(
                    expand_y as int,
                    expand_x as int,
                );
                assert(expand_y * expand_x == expand_x * expand_y) by (nonlinear_arith);
            } else {
                assert(expand_x * expand_y == 0) by (nonlinear_arith)
                    requires
                        expand_x == 0,
                ;
            }
            crate::levels::lemma_mip_dim_base(tile_w as nat);
            crate::levels::lemma_mip_dim_base(tile_h as nat);
        }
        texture.set_depth_divisor(expand_x);
        let mut y: u32 = 0;
        while y < expand_y
            invariant
                y <= expand_y,
                image@.wf(),
                tile_w > 0,
                tile_h > 0,
                expand_x == image@.width / tile_w as nat,
                expand_y == image@.height / tile_h as nat,
                texture@.wf(),
                texture@.width == tile_w,
                texture@.height == tile_h,
                texture@.depth == expand_x * expand_y,
                texture@.mipmaps == full_levels(tile_w as nat, tile_h as nat),
                texture@.depth_divisor == Some(expand_x as nat),
                mip_dim(tile_w as nat, 0) == tile_w,
                mip_dim(tile_h as nat, 0) == tile_h,
                holds_tiles_before(texture@, image@, tile_w as nat, tile_h as nat, y as nat, 0, 0, 0),
            decreases expand_y - y,
        {
            let mut x: u32 = 0;
            while x < expand_x
                invariant
                    y < expand_y,
                    x <= expand_x,
                    image@.wf(),
                    tile_w > 0,
                    tile_h > 0,
                    expand_x == image@.width / tile_w as nat,
                    expand_y == image@.height / tile_h as nat,
                    texture@.wf(),
                    texture@.width == tile_w,
                    texture@.height == tile_h,
                    texture@.depth == expand_x * expand_y,
                    texture@.mipmaps == full_levels(tile_w as nat, tile_h as nat),
                    texture@.depth_divisor == Some(expand_x as nat),
                    mip_dim(tile_w as nat, 0) == tile_w,
                    mip_dim(tile_h as nat, 0) == tile_h,
                    holds_tiles_before(
                        texture@,
                        image@,
                        tile_w as nat,
                        tile_h as nat,
                        y as nat,
                        x as nat,
                        0,
                        0,
                    ),
                decreases expand_x - x,
            {
                proof {
                    lemma_tile_layer(expand_x as nat, expand_y as nat, x as nat, y as nat);
                }
                let layer: u32 = x + expand_x * y;
                let mut py: u32 = 0;
                while py < tile_h
                    invariant
                        y < expand_y,
                        x < expand_x,
                        py <= tile_h,
                        layer == x + expand_x * y,
                        layer < expand_x * expand_y,
                        image@.wf(),
                        tile_w > 0,
                        tile_h > 0,
                        expand_x == image@.width / tile_w as nat,
                        expand_y == image@.height / tile_h as nat,
                        texture@.wf(),
                        texture@.width == tile_w,
                        texture@.height == tile_h,
                        texture@.depth == expand_x * expand_y,
                        texture@.mipmaps == full_levels(tile_w as nat, tile_h as nat),
                        texture@.depth_divisor == Some(expand_x as nat),
                        mip_dim(tile_w as nat, 0) == tile_w,
                        mip_dim(tile_h as nat, 0) == tile_h,
                        holds_tiles_before(
                            texture@,
                            image@,
                            tile_w as nat,
                            tile_h as nat,
                            y as nat,
                            x as nat,
                            py as nat,
                            0,
                        ),
                    decreases tile_h - py,
                {
                    let mut px: u32 = 0;
                    while px < tile_w
                        invariant
                            y < expand_y,
                            x < expand_x,
                            py < tile_h,
                            px <= tile_w,
                            layer == x + expand_x * y,
                            layer < expand_x * expand_y,
                            image@.wf(),
                            tile_w > 0,
                            tile_h > 0,
                            expand_x == image@.width / tile_w as nat,
                            expand_y == image@.height / tile_h as nat,
                            texture@.wf(),
                            texture@.width == tile_w,
                            texture@.height == tile_h,
                            texture@.depth == expand_x * expand_y,
                            texture@.mipmaps == full_levels(tile_w as nat, tile_h as nat),
                            texture@.depth_divisor == Some(expand_x as nat),
                            mip_dim(tile_w as nat, 0) == tile_w,
                            mip_dim(tile_h as nat, 0) == tile_h,
                            holds_tiles_before(
                                texture@,
                                image@,
                                tile_w as nat,
                                tile_h as nat,
                                y as nat,
                                x as nat,
                                py as nat,
                                px as nat,
                            ),
                        decreases tile_w - px,
                    {
                        proof {
                            lemma_tile_pixel_in_image(
                                image@.width,
                                tile_w as nat,
                                x as nat,
                                px as nat,
                            );
                            lemma_tile_pixel_in_image(
                                image@.height,
                                tile_h as nat,
                                y as nat,
                                py as nat,
                            );
                        }
                        let pixel: [u8; 4] = image.get_pixel(x * tile_w + px, y * tile_h + py);
                        let ghost before = texture@;
                        *texture.get_pixel_mut(px, py, layer, 0) = pixel;
                        proof {
                            before.lemma_set_pixel_same(
                                px as nat,
                                py as nat,
                                layer as nat,
                                0,
                                pixel,
                            );
                            assert forall|gx: nat, gy: nat, qx: nat, qy: nat|
                                gx < expand_x && gy < expand_y && qx < tile_w && qy < tile_h
                                    && copied_earlier(
                                    gy,
                                    gx,
                                    qy,
                                    qx,
                                    y as nat,
                                    x as nat,
                                    py as nat,
                                    (px + 1) as nat,
                                ) implies #[trigger] tile_pixel_copied(
                                texture@,
                                image@,
                                tile_w as nat,
                                tile_h as nat,
                                gx,
                                gy,
                                qx,
                                qy,
                            ) by {
                                lemma_tile_layer(expand_x as nat, expand_y as nat, gx, gy);
                                if gx == x && gy == y && qx == px && qy == py {
                                } else {
                                    if gx + expand_x * gy == layer {
                                        lemma_tile_layer_injective(
                                            expand_x as nat,
                                            gx,
                                            gy,
                                            x as nat,
                                            y as nat,
                                        );
                                    }
                                    before.lemma_set_pixel_other(
                                        px as nat,
                                        py as nat,
                                        layer as nat,
                                        0,
                                        pixel,
                                        qx,
                                        qy,
                                        gx + (expand_x as nat) * gy,
                                        0,
                                    );
                                    assert(tile_pixel_copied(
                                        before,
                                        image@,
                                        tile_w as nat,
                                        tile_h as nat,
                                        gx,
                                        gy,
                                        qx,
                                        qy,
                                    ));
                                }
                            }
                        }
                        px = px + 1;
                    }
                    py = py + 1;
                }
                x = x + 1;
            }
            y = y + 1;
        }
        let ghost copied = texture@;
        texture.generate_mipmaps();
        proof {
            assert forall|gx: nat, gy: nat, qx: nat, qy: nat|
                gx < expand_x && gy < expand_y && qx < tile_w && qy < tile_h
                    implies #[trigger] tile_pixel_copied(
                texture@,
                image@,
                tile_w as nat,
                tile_h as nat,
                gx,
                gy,
                qx,
                qy,
            ) by {
                lemma_tile_layer(expand_x as nat, expand_y as nat, gx, gy);
                assert(tile_pixel_copied(
                    copied,
                    image@,
                    tile_w as nat,
                    tile_h as nat,
                    gx,
                    gy,
                    qx,
                    qy,
                ));
                assert(copied.has_pixel(qx, qy, gx + (expand_x as nat) * gy, 0));
            }
        }
        texture
    }
}

} // verus!
