use graphics::mesh::{is_binary_stl, stl_binary_triangle_count, VertexData};

fn stl_with(count: u32, triangles: usize) -> Vec<u8> {
    let mut v = vec![0u8; 80];
    v.extend_from_slice(&count.to_le_bytes());
    v.extend(std::iter::repeat(0u8).take(50 * triangles));
    v
}

#[test]
fn vertex_data_is_empty() {
    let _v = VertexData::new();
}

#[test]
fn binary_stl_is_told_by_its_length() {
    assert!(is_binary_stl(&stl_with(1, 1)));
    assert!(is_binary_stl(&stl_with(0, 0)));
    assert!(!is_binary_stl(&stl_with(2, 1)));
    assert!(!is_binary_stl(&[0u8; 83]));
    let mut long = stl_with(1, 1);
    long.push(0);
    assert!(!is_binary_stl(&long));
}

#[test]
fn ascii_stl_is_not_binary() {
    let text = b"solid cube\nfacet normal 0 0 1\nendsolid cube\n";
    assert!(!is_binary_stl(text));
}

#[test]
fn triangle_count_of_binary_stl() {
    assert_eq!(stl_binary_triangle_count(&stl_with(2, 2)), Ok(2));
    assert_eq!(stl_binary_triangle_count(&stl_with(1, 3)), Ok(1));
    assert_eq!(stl_binary_triangle_count(&stl_with(3, 2)), Err(String::from("Invalid Length of File")));
    assert_eq!(stl_binary_triangle_count(&[0u8; 10]), Err(String::from("Invalid Length of File")));
    let mut v = stl_with(0, 0);
    v[80] = 0x01;
    v[81] = 0x01;
    assert_eq!(stl_binary_triangle_count(&v), Err(String::from("Invalid Length of File")));
}
