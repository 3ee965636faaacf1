use texture_data::{MipMaps, TextureData};

fn numbered(width: u32, height: u32, depth: u32, mipmaps: MipMaps) -> TextureData<[u8; 4]> {
    let mut texture = TextureData::<[u8; 4]>::new(width, height, depth, mipmaps);
    let levels = texture.mipmaps();
    for layer in 0..depth {
        for level in 0..levels {
            for y in 0..texture.mipmapped_height(level) {
                for x in 0..texture.mipmapped_width(level) {
                    *texture.get_pixel_mut(x, y, layer, level) =
                        [x as u8, y as u8, layer as u8, level as u8];
                }
            }
        }
    }
    texture
}

#[test]
fn new_keeps_the_dimensions() {
    let texture = TextureData::<[u8; 4]>::new(5, 3, 2, MipMaps::All);
    assert_eq!(texture.width(), 5);
    assert_eq!(texture.height(), 3);
    assert_eq!(texture.depth(), 2);
    assert_eq!(texture.mipmaps(), 3);
    assert_eq!(texture.depth_x(), None);
    assert_eq!(texture.depth_y(), None);
}

#[test]
fn new_resolves_the_level_policy() {
    assert_eq!(TextureData::<[u8; 1]>::new(300, 150, 1, MipMaps::Off).mipmaps(), 1);
    assert_eq!(TextureData::<[u8; 1]>::new(300, 150, 1, MipMaps::Explicit(4)).mipmaps(), 4);
    assert_eq!(TextureData::<[u8; 1]>::new(300, 150, 1, MipMaps::All).mipmaps(), 9);
}

#[test]
fn new_allocates_the_sum_of_the_levels_for_each_layer() {
    let texture = TextureData::<[u8; 4]>::new(5, 3, 2, MipMaps::All);
    assert_eq!(texture.as_bytes().len(), 2 * (15 + 2 + 1) * 4);
    assert_eq!(texture.get_layer(0).len(), 18);
    assert_eq!(texture.get_layer(1).len(), 18);
    assert_eq!(texture.get_mipmap(0, 0).len(), 15);
    assert_eq!(texture.get_mipmap(0, 1).len(), 2);
    assert_eq!(texture.get_mipmap(1, 2).len(), 1);
}

#[test]
fn new_allocates_by_the_formula_for_many_shapes() {
    for (width, height, depth, levels) in
        [(1u32, 1u32, 1u32, 1u32), (64, 64, 8, 7), (300, 150, 3, 9), (7, 2, 5, 3), (4, 1, 2, 3)]
    {
        let texture = TextureData::<[u8; 1]>::new(width, height, depth, MipMaps::All);
        assert_eq!(texture.mipmaps(), levels);
        let mut per_layer: usize = 0;
        for level in 0..levels {
            let w = std::cmp::max(1, width >> level) as usize;
            let h = std::cmp::max(1, height >> level) as usize;
            per_layer += w * h;
        }
        assert_eq!(texture.as_bytes().len(), per_layer * depth as usize);
    }
}

#[test]
fn new_with_no_layers_is_empty() {
    let texture = TextureData::<[u8; 4]>::new(64, 64, 0, MipMaps::All);
    assert_eq!(texture.depth(), 0);
    assert_eq!(texture.as_bytes().len(), 0);
}

#[test]
fn new_is_zero_initialized() {
    let texture = TextureData::<[u8; 4]>::new(4, 4, 2, MipMaps::All);
    for layer in 0..2 {
        for level in 0..texture.mipmaps() {
            for y in 0..texture.mipmapped_height(level) {
                for x in 0..texture.mipmapped_width(level) {
                    assert_eq!(*texture.get_pixel(x, y, layer, level), [0u8; 4]);
                }
            }
        }
    }
    let wide = TextureData::<[u8; 16]>::new(3, 2, 1, MipMaps::Off);
    assert_eq!(wide.get_layer(0), &[[0u8; 16]; 6]);
    assert_eq!(wide.as_bytes(), &[0u8; 96][..]);
}

#[test]
fn filled_holds_the_value_everywhere() {
    let texture = TextureData::<[u8; 4]>::filled(3, 2, 2, MipMaps::All, [1, 2, 3, 4]);
    assert_eq!(texture.mipmaps(), 2);
    assert_eq!(texture.get_layer(0).len(), 7);
    for layer in 0..2 {
        for pixel in texture.get_layer(layer) {
            assert_eq!(*pixel, [1, 2, 3, 4]);
        }
    }
}

#[test]
fn mipmapped_dimensions_follow_the_level() {
    let texture = TextureData::<[u8; 1]>::new(300, 150, 1, MipMaps::All);
    assert_eq!(texture.mipmapped_width(0), 300);
    assert_eq!(texture.mipmapped_height(0), 150);
    assert_eq!(texture.mipmapped_width(1), 150);
    assert_eq!(texture.mipmapped_height(1), 75);
    assert_eq!(texture.mipmapped_width(8), 1);
    assert_eq!(texture.mipmapped_height(8), 1);
    assert_eq!(texture.mipmapped_height(7), 1);
    assert_eq!(texture.mipmapped_width(7), 2);
}

#[test]
fn written_pixel_is_read_back() {
    let mut texture = TextureData::<[u8; 4]>::new(5, 3, 2, MipMaps::All);
    *texture.get_pixel_mut(4, 2, 1, 0) = [10, 20, 30, 40];
    *texture.get_pixel_mut(1, 0, 1, 1) = [50, 60, 70, 80];
    *texture.get_pixel_mut(0, 0, 0, 2) = [90, 100, 110, 120];
    assert_eq!(*texture.get_pixel(4, 2, 1, 0), [10, 20, 30, 40]);
    assert_eq!(*texture.get_pixel(1, 0, 1, 1), [50, 60, 70, 80]);
    assert_eq!(*texture.get_pixel(0, 0, 0, 2), [90, 100, 110, 120]);
    assert_eq!(*texture.get_pixel(3, 2, 1, 0), [0, 0, 0, 0]);
}

#[test]
fn every_pixel_has_a_place_of_its_own() {
    let texture = numbered(5, 3, 2, MipMaps::All);
    for layer in 0..2u32 {
        for level in 0..3u32 {
            for y in 0..texture.mipmapped_height(level) {
                for x in 0..texture.mipmapped_width(level) {
                    assert_eq!(
                        *texture.get_pixel(x, y, layer, level),
                        [x as u8, y as u8, layer as u8, level as u8]
                    );
                }
            }
        }
    }
}

#[test]
fn pixels_are_stored_layer_by_layer_level_by_level_row_by_row() {
    let texture = numbered(3, 2, 2, MipMaps::All);
    let bytes = texture.as_bytes();
    let mut expected: Vec<u8> = Vec::new();
    for layer in 0..2u8 {
        for y in 0..2u8 {
            for x in 0..3u8 {
                expected.extend_from_slice(&[x, y, layer, 0]);
            }
        }
        expected.extend_from_slice(&[0, 0, layer, 1]);
    }
    assert_eq!(bytes, &expected[..]);
}

#[test]
fn layer_and_mipmap_are_parts_of_the_same_storage() {
    let texture = numbered(4, 2, 2, MipMaps::All);
    let layer = texture.get_layer(1);
    assert_eq!(layer.len(), 8 + 2 + 1);
    assert_eq!(layer[0], [0, 0, 1, 0]);
    assert_eq!(layer[5], [1, 1, 1, 0]);
    assert_eq!(layer[8], [0, 0, 1, 1]);
    assert_eq!(layer[9], [1, 0, 1, 1]);
    assert_eq!(layer[10], [0, 0, 1, 2]);
    let level = texture.get_mipmap(1, 1);
    assert_eq!(level, &[[0, 0, 1, 1], [1, 0, 1, 1]]);
    assert_eq!(texture.get_mipmap(0, 2), &[[0, 0, 0, 2]]);
}

#[test]
fn writes_through_a_mipmap_reach_its_pixels_only() {
    let mut texture = numbered(4, 2, 2, MipMaps::All);
    {
        let level = texture.get_mipmap_mut(0, 1);
        assert_eq!(level.len(), 2);
        level[1] = [200, 201, 202, 203];
    }
    assert_eq!(*texture.get_pixel(1, 0, 0, 1), [200, 201, 202, 203]);
    assert_eq!(*texture.get_pixel(0, 0, 0, 1), [0, 0, 0, 1]);
    assert_eq!(*texture.get_pixel(3, 1, 0, 0), [3, 1, 0, 0]);
    assert_eq!(*texture.get_pixel(0, 0, 0, 2), [0, 0, 0, 2]);
    assert_eq!(*texture.get_pixel(1, 0, 1, 1), [1, 0, 1, 1]);
}

#[test]
fn writes_through_a_layer_reach_its_pixels_only() {
    let mut texture = numbered(4, 2, 2, MipMaps::All);
    {
        let layer = texture.get_layer_mut(1);
        assert_eq!(layer.len(), 11);
        layer[0] = [9, 9, 9, 9];
        layer[10] = [8, 8, 8, 8];
    }
    assert_eq!(*texture.get_pixel(0, 0, 1, 0), [9, 9, 9, 9]);
    assert_eq!(*texture.get_pixel(0, 0, 1, 2), [8, 8, 8, 8]);
    assert_eq!(*texture.get_pixel(0, 0, 0, 2), [0, 0, 0, 2]);
    assert_eq!(*texture.get_pixel(1, 0, 1, 0), [1, 0, 1, 0]);
}

#[test]
fn bytes_are_as_many_as_pixels_times_their_size() {
    let rgba = TextureData::<[u8; 4]>::new(5, 3, 2, MipMaps::All);
    assert_eq!(rgba.as_bytes().len(), 36 * 4);
    assert_eq!(rgba.as_bytes().len(), 36 * std::mem::size_of::<[u8; 4]>());
    let single = TextureData::<[u8; 1]>::new(5, 3, 2, MipMaps::All);
    assert_eq!(single.as_bytes().len(), 36);
    let index = TextureData::<[u8; 2]>::new(5, 3, 2, MipMaps::All);
    assert_eq!(index.as_bytes().len(), 36 * 2);
    let wide = TextureData::<[u8; 16]>::new(5, 3, 2, MipMaps::Off);
    assert_eq!(wide.as_bytes().len(), 30 * 16);
    let none = TextureData::<[u8; 0]>::new(5, 3, 2, MipMaps::Off);
    assert_eq!(none.as_bytes().len(), 0);
}

#[test]
fn bytes_of_a_one_byte_texture_are_its_pixels() {
    let mut texture = TextureData::<[u8; 1]>::new(2, 2, 1, MipMaps::Off);
    *texture.get_pixel_mut(0, 0, 0, 0) = [1];
    *texture.get_pixel_mut(1, 0, 0, 0) = [2];
    *texture.get_pixel_mut(0, 1, 0, 0) = [3];
    *texture.get_pixel_mut(1, 1, 0, 0) = [4];
    assert_eq!(texture.as_bytes(), &[1u8, 2, 3, 4]);
}

#[test]
fn bytes_hold_byte_c_of_pixel_i_at_i_times_size_plus_c() {
    let texture = numbered(3, 2, 2, MipMaps::All);
    let bytes = texture.as_bytes();
    let mut i: usize = 0;
    for layer in 0..2u32 {
        for pixel in texture.get_layer(layer) {
            for c in 0..4usize {
                assert_eq!(bytes[i * 4 + c], pixel[c]);
            }
            i += 1;
        }
    }
    assert_eq!(bytes.len(), i * 4);
}

#[test]
fn filled_takes_any_copy_type() {
    let texture = TextureData::<u16>::filled(2, 2, 3, MipMaps::All, 7);
    assert_eq!(texture.get_layer(2), &[7u16; 5]);
    assert_eq!(*texture.get_pixel(1, 1, 1, 0), 7);
}
