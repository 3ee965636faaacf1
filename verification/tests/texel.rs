use texture_data::Texel;

#[test]
fn zeroed_byte_arrays_are_all_zero() {
    assert_eq!(<[u8; 4] as Texel>::zeroed(), [0u8; 4]);
    assert_eq!(<[u8; 1] as Texel>::zeroed(), [0u8; 1]);
    assert_eq!(<[u8; 7] as Texel>::zeroed(), [0u8; 7]);
    assert_eq!(<[u8; 0] as Texel>::zeroed(), [0u8; 0]);
}

#[test]
fn bytes_of_byte_arrays_are_the_arrays_in_order() {
    let texels = [[1u8, 2, 3, 4], [5, 6, 7, 8], [9, 10, 11, 12]];
    assert_eq!(<[u8; 4] as Texel>::bytes_of(&texels), &[1u8, 2, 3, 4, 5, 6, 7, 8, 9, 10, 11, 12]);
    let pairs = [[1u8, 2], [3, 4]];
    assert_eq!(<[u8; 2] as Texel>::bytes_of(&pairs), &[1u8, 2, 3, 4]);
}

#[test]
fn bytes_of_no_texels_are_no_bytes() {
    let none: [[u8; 4]; 0] = [];
    assert_eq!(<[u8; 4] as Texel>::bytes_of(&none).len(), 0);
    let empty = [[0u8; 0]; 5];
    assert_eq!(<[u8; 0] as Texel>::bytes_of(&empty).len(), 0);
}

#[test]
fn bytes_are_as_many_as_the_texels_take_in_memory() {
    let texels = [[1u8, 2, 3, 4], [5, 6, 7, 8]];
    let bytes = <[u8; 4] as Texel>::bytes_of(&texels);
    assert_eq!(bytes.len(), 2 * std::mem::size_of::<[u8; 4]>());
    assert_eq!(bytes.len(), std::mem::size_of_val(&texels));
}
