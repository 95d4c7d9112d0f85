use graphics::texture::{ConstantSamplerTarget, ImageTexture};

#[test]
fn constant_source_gives_its_colour() {
    let c = ConstantSamplerTarget::new([1, 2, 3, 4]);
    assert_eq!(c.value(), [1, 2, 3, 4]);
}

#[test]
fn image_needs_exactly_four_bytes_a_texel() {
    assert!(ImageTexture::from_rgba(vec![0u8; 15], 2, 2).is_none());
    assert!(ImageTexture::from_rgba(vec![0u8; 17], 2, 2).is_none());
    let t = ImageTexture::from_rgba(vec![0u8; 16], 2, 2).unwrap();
    assert_eq!(t.width(), 2);
    assert_eq!(t.height(), 2);
}

#[test]
fn texel_lookup_is_row_major_and_clamped() {
    let data: Vec<u8> = (0..24u8).collect();
    // 3 by 2 texels
    let t = ImageTexture::from_rgba(data, 3, 2).unwrap();
    assert_eq!(t.texel(0, 0), [0, 1, 2, 3]);
    assert_eq!(t.texel(2, 0), [8, 9, 10, 11]);
    assert_eq!(t.texel(1, 1), [16, 17, 18, 19]);
    assert_eq!(t.texel(9, 0), [8, 9, 10, 11]);
    assert_eq!(t.texel(0, 9), [12, 13, 14, 15]);
    assert_eq!(t.texel(u32::MAX, u32::MAX), [20, 21, 22, 23]);
}

fn ppm_2x1() -> Vec<u8> {
    let mut v = b"P6\n2 1\n255\n".to_vec();
    v.extend_from_slice(&[255, 0, 0, 0, 255, 0]);
    v
}

#[test]
fn decode_reads_the_format_the_extension_names() {
    let t = ImageTexture::decode(&ppm_2x1(), "ppm").unwrap();
    assert_eq!(t.width(), 2);
    assert_eq!(t.height(), 1);
    assert_eq!(t.texel(0, 0), [255, 0, 0, 255]);
    assert_eq!(t.texel(1, 0), [0, 255, 0, 255]);
    assert_eq!(t.texel(5, 5), [0, 255, 0, 255]);
}

#[test]
fn decode_fails_on_bad_bytes_or_an_unknown_extension() {
    assert_eq!(ImageTexture::decode(&[1, 2, 3], "png").err(), Some(String::from("Unable to decode texture file")));
    assert_eq!(ImageTexture::decode(&ppm_2x1(), "xyz").err(), Some(String::from("Unable to decode texture file")));
    assert_eq!(ImageTexture::decode(&ppm_2x1(), "").err(), Some(String::from("Unable to decode texture file")));
}
