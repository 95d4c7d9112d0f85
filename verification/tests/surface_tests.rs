use graphics::surface::{present_frame, to_pixel};

#[test]
fn pixel_word_is_red_green_blue() {
    assert_eq!(to_pixel([0x12, 0x34, 0x56, 0x78]), 0x0012_3456);
    assert_eq!(to_pixel([255, 255, 255, 0]), 0x00ff_ffff);
    assert_eq!(to_pixel([0, 0, 0, 255]), 0);
}

#[test]
fn same_size_frame_is_copied() {
    let fb = vec![[1u8, 2, 3, 4], [5, 6, 7, 8]];
    let mut dst = vec![9u32; 2];
    present_frame(&mut dst, 2, 1, 2, 1, &fb);
    assert_eq!(dst, vec![0x010203, 0x050607]);
}

#[test]
fn small_frame_is_scaled_up_by_nearest_neighbour() {
    let a = [10u8, 0, 0, 0];
    let b = [0u8, 20, 0, 0];
    let fb = vec![a, b];
    let mut dst = vec![0u32; 8];
    // 2 by 1 frame onto a 4 by 2 surface
    present_frame(&mut dst, 4, 2, 2, 1, &fb);
    let pa = to_pixel(a);
    let pb = to_pixel(b);
    assert_eq!(dst, vec![pa, pa, pb, pb, pa, pa, pb, pb]);
}

#[test]
fn large_frame_is_sampled_down() {
    let fb: Vec<[u8; 4]> = (0..16u8).map(|i| [i, 0, 0, 0]).collect();
    let mut dst = vec![0u32; 4];
    // 4 by 4 frame onto a 2 by 2 surface: columns 0 and 2, rows 0 and 2
    present_frame(&mut dst, 2, 2, 4, 4, &fb);
    assert_eq!(dst, vec![to_pixel(fb[0]), to_pixel(fb[2]), to_pixel(fb[8]), to_pixel(fb[10])]);
}

#[test]
fn empty_frame_of_another_size_leaves_the_surface() {
    let fb: Vec<[u8; 4]> = Vec::new();
    let mut dst = vec![7u32; 4];
    present_frame(&mut dst, 2, 2, 0, 3, &fb);
    assert_eq!(dst, vec![7u32; 4]);
}
