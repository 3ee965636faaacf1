use texture_data::{SourceImage, TextureData};

fn sheet(width: u32, height: u32) -> SourceImage {
    let mut data: Vec<u8> = Vec::new();
    for y in 0..height {
        for x in 0..width {
            data.push((x % 256) as u8);
            data.push((y % 256) as u8);
            data.push((x / 256) as u8);
            data.push((7 * x + 3 * y) as u8);
        }
    }
    match SourceImage::from_rgba8(width, height, data) {
        Some(image) => image,
        None => panic!("the sheet has four bytes for each pixel"),
    }
}

fn sheet_pixel(x: u32, y: u32) -> [u8; 4] {
    [(x % 256) as u8, (y % 256) as u8, (x / 256) as u8, (7 * x + 3 * y) as u8]
}

#[test]
fn image_takes_four_bytes_for_each_pixel() {
    assert!(SourceImage::from_rgba8(2, 3, vec![0u8; 24]).is_some());
    assert!(SourceImage::from_rgba8(2, 3, vec![0u8; 23]).is_none());
    assert!(SourceImage::from_rgba8(2, 3, vec![0u8; 25]).is_none());
    assert!(SourceImage::from_rgba8(2, 3, vec![0u8; 6]).is_none());
    assert!(SourceImage::from_rgba8(0, 3, Vec::new()).is_some());
    assert!(SourceImage::from_rgba8(u32::MAX, u32::MAX, Vec::new()).is_none());
}

#[test]
fn image_pixels_are_read_row_by_row() {
    let image = match SourceImage::from_rgba8(2, 2, (0u8..16).collect()) {
        Some(image) => image,
        None => panic!("sixteen bytes are four pixels"),
    };
    assert_eq!(image.width(), 2);
    assert_eq!(image.height(), 2);
    assert_eq!(image.get_pixel(0, 0), [0, 1, 2, 3]);
    assert_eq!(image.get_pixel(1, 0), [4, 5, 6, 7]);
    assert_eq!(image.get_pixel(0, 1), [8, 9, 10, 11]);
    assert_eq!(image.get_pixel(1, 1), [12, 13, 14, 15]);
}

#[test]
fn tileset_of_256_by_128_with_tiles_of_64() {
    let image = sheet(256, 128);
    let texture = TextureData::<[u8; 4]>::parse_tileset(&image, 64, 64);
    assert_eq!(texture.width(), 64);
    assert_eq!(texture.height(), 64);
    assert_eq!(texture.depth(), 8);
    assert_eq!(texture.depth_x(), Some(4));
    assert_eq!(texture.depth_y(), Some(2));
    assert_eq!(texture.mipmaps(), 7);
    for py in 0..64u32 {
        for px in 0..64u32 {
            assert_eq!(*texture.get_pixel(px, py, 6, 0), sheet_pixel(2 * 64 + px, 64 + py));
        }
    }
    assert_eq!(*texture.get_pixel(0, 0, 0, 0), sheet_pixel(0, 0));
    assert_eq!(*texture.get_pixel(63, 63, 7, 0), sheet_pixel(255, 127));
    assert_eq!(*texture.get_pixel(5, 9, 3, 0), sheet_pixel(3 * 64 + 5, 9));
    assert_eq!(*texture.get_pixel(5, 9, 4, 0), sheet_pixel(5, 64 + 9));
}

#[test]
fn tileset_places_every_tile_in_the_layer_of_its_grid_position() {
    let image = sheet(12, 6);
    let texture = TextureData::<[u8; 4]>::parse_tileset(&image, 4, 3);
    assert_eq!(texture.depth(), 6);
    assert_eq!(texture.depth_x(), Some(3));
    assert_eq!(texture.depth_y(), Some(2));
    for gy in 0..2u32 {
        for gx in 0..3u32 {
            for py in 0..3u32 {
                for px in 0..4u32 {
                    assert_eq!(
                        *texture.get_pixel(px, py, gx + 3 * gy, 0),
                        sheet_pixel(gx * 4 + px, gy * 3 + py)
                    );
                }
            }
        }
    }
}

#[test]
fn tileset_leaves_out_what_does_not_fill_a_tile() {
    let image = sheet(100, 64);
    let texture = TextureData::<[u8; 4]>::parse_tileset(&image, 64, 64);
    assert_eq!(texture.depth(), 1);
    assert_eq!(texture.depth_x(), Some(1));
    assert_eq!(texture.depth_y(), Some(1));
    for py in 0..64u32 {
        for px in 0..64u32 {
            assert_eq!(*texture.get_pixel(px, py, 0, 0), sheet_pixel(px, py));
        }
    }
    let image = sheet(10, 7);
    let texture = TextureData::<[u8; 4]>::parse_tileset(&image, 4, 3);
    assert_eq!(texture.depth(), 4);
    assert_eq!(texture.depth_x(), Some(2));
    assert_eq!(texture.depth_y(), Some(2));
    assert_eq!(*texture.get_pixel(3, 2, 3, 0), sheet_pixel(7, 5));
}

#[test]
fn tileset_of_an_image_narrower_than_a_tile_has_no_layers() {
    let image = sheet(10, 64);
    let texture = TextureData::<[u8; 4]>::parse_tileset(&image, 64, 64);
    assert_eq!(texture.depth(), 0);
    assert_eq!(texture.depth_x(), Some(0));
    assert_eq!(texture.as_bytes().len(), 0);
}

#[test]
fn tileset_has_the_full_pyramid_of_box_filtered_levels() {
    let image = sheet(16, 8);
    let texture = TextureData::<[u8; 4]>::parse_tileset(&image, 8, 8);
    assert_eq!(texture.depth(), 2);
    assert_eq!(texture.mipmaps(), 4);
    for layer in 0..2u32 {
        for level in 1..4u32 {
            for y in 0..texture.mipmapped_height(level) {
                for x in 0..texture.mipmapped_width(level) {
                    let a = *texture.get_pixel(2 * x, 2 * y, layer, level - 1);
                    let b = *texture.get_pixel(2 * x + 1, 2 * y, layer, level - 1);
                    let c = *texture.get_pixel(2 * x + 1, 2 * y + 1, layer, level - 1);
                    let d = *texture.get_pixel(2 * x, 2 * y + 1, layer, level - 1);
                    let mut expected = [0u8; 4];
                    for i in 0..4 {
                        expected[i] =
                            ((a[i] as u32 + b[i] as u32 + c[i] as u32 + d[i] as u32) / 4) as u8;
                    }
                    assert_eq!(*texture.get_pixel(x, y, layer, level), expected);
                }
            }
        }
    }
    assert_eq!(texture.as_bytes().len(), 2 * (64 + 16 + 4 + 1) * 4);
}

#[test]
fn tileset_with_tiles_of_one_pixel() {
    let image = sheet(3, 2);
    let texture = TextureData::<[u8; 4]>::parse_tileset(&image, 1, 1);
    assert_eq!(texture.depth(), 6);
    assert_eq!(texture.mipmaps(), 1);
    assert_eq!(*texture.get_pixel(0, 0, 4, 0), sheet_pixel(1, 1));
    assert_eq!(*texture.get_pixel(0, 0, 2, 0), sheet_pixel(2, 0));
}
