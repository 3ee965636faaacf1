use texture_data::levels::{max_mipmap_levels, mipmapped_size, size_per_layer};
use texture_data::MipMaps;

#[test]
fn full_pyramid_of_300_by_150_has_nine_levels() {
    assert_eq!(max_mipmap_levels(300, 150), 9);
    assert_eq!(max_mipmap_levels(150, 300), 9);
}

#[test]
fn full_pyramid_lengths_at_powers_of_two() {
    assert_eq!(max_mipmap_levels(1, 1), 1);
    assert_eq!(max_mipmap_levels(2, 1), 2);
    assert_eq!(max_mipmap_levels(3, 3), 2);
    assert_eq!(max_mipmap_levels(4, 4), 3);
    assert_eq!(max_mipmap_levels(64, 64), 7);
    assert_eq!(max_mipmap_levels(255, 1), 8);
    assert_eq!(max_mipmap_levels(256, 1), 9);
}

#[test]
fn full_pyramid_is_exact_for_long_sides() {
    assert_eq!(max_mipmap_levels(16_777_215, 1), 24);
    assert_eq!(max_mipmap_levels(16_777_216, 1), 25);
    assert_eq!(max_mipmap_levels(33_554_431, 7), 25);
    assert_eq!(max_mipmap_levels(u32::MAX, u32::MAX), 32);
}

#[test]
fn full_pyramid_of_an_empty_image_has_one_level() {
    assert_eq!(max_mipmap_levels(0, 0), 1);
}

#[test]
fn explicit_level_count_must_stay_below_the_full_pyramid() {
    assert_eq!(MipMaps::Explicit(9).levels(300, 150), None);
    assert_eq!(MipMaps::Explicit(10).levels(300, 150), None);
    assert_eq!(MipMaps::Explicit(8).levels(300, 150), Some(8));
    assert_eq!(MipMaps::Explicit(1).levels(300, 150), Some(1));
    assert_eq!(MipMaps::Explicit(0).levels(300, 150), None);
}

#[test]
fn explicit_level_count_has_no_valid_value_for_a_single_pixel() {
    assert_eq!(MipMaps::Explicit(1).levels(1, 1), None);
}

#[test]
fn level_count_of_the_other_policies() {
    assert_eq!(MipMaps::Off.levels(300, 150), Some(1));
    assert_eq!(MipMaps::All.levels(300, 150), Some(9));
    assert_eq!(MipMaps::All.levels(64, 64), Some(7));
}

#[test]
fn side_at_level_zero_is_the_side() {
    for side in [1u32, 2, 3, 64, 300, u32::MAX] {
        assert_eq!(mipmapped_size(side, 0), side);
    }
}

#[test]
fn side_halves_rounding_down_and_stops_at_one() {
    assert_eq!(mipmapped_size(300, 1), 150);
    assert_eq!(mipmapped_size(300, 2), 75);
    assert_eq!(mipmapped_size(300, 3), 37);
    assert_eq!(mipmapped_size(300, 8), 1);
    assert_eq!(mipmapped_size(300, 9), 1);
    assert_eq!(mipmapped_size(5, 1), 2);
    assert_eq!(mipmapped_size(5, 2), 1);
}

#[test]
fn side_never_grows_and_never_drops_below_one() {
    for side in [0u32, 1, 7, 64, 300, 65_535, u32::MAX] {
        let mut last = mipmapped_size(side, 0);
        for level in 1..40u32 {
            let next = mipmapped_size(side, level);
            assert!(next >= 1);
            assert!(next <= last);
            last = next;
        }
    }
}

#[test]
fn side_is_one_from_level_32_on() {
    assert_eq!(mipmapped_size(u32::MAX, 31), 1);
    assert_eq!(mipmapped_size(u32::MAX, 32), 1);
    assert_eq!(mipmapped_size(u32::MAX, 33), 1);
    assert_eq!(mipmapped_size(u32::MAX, u32::MAX), 1);
}

#[test]
fn side_of_an_empty_image_counts_as_one() {
    assert_eq!(mipmapped_size(0, 0), 1);
    assert_eq!(mipmapped_size(0, 5), 1);
}

#[test]
fn size_per_layer_sums_the_levels() {
    assert_eq!(size_per_layer(64, 64, 0), 0);
    assert_eq!(size_per_layer(64, 64, 1), 4096);
    assert_eq!(size_per_layer(64, 64, 2), 4096 + 1024);
    assert_eq!(size_per_layer(64, 64, 7), 4096 + 1024 + 256 + 64 + 16 + 4 + 1);
    assert_eq!(size_per_layer(5, 3, 3), 15 + 2 + 1);
    assert_eq!(size_per_layer(4, 1, 3), 4 + 2 + 1);
}
