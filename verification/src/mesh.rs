//! Mesh data and the layout of mesh files: the binary STL frame.

use vstd::prelude::*;

verus! {

/// Per-vertex data of a triangle (to hold UV coordinates, colours and the
/// like); it carries nothing yet.
#[derive(Clone, Copy)]
pub struct VertexData {}

impl VertexData {
    /// Vertex data that carries nothing.
    pub fn new() -> (r: Self)
        ensures
            r == (VertexData {}),
    {
        VertexData {}
    }
}

/// The little-endian 32-bit number in bytes `i` to `i + 3` of `b`.
pub open spec fn le_u32(b: Seq<u8>, i: int) -> int {
    b[i] + 256 * b[i + 1] + 65536 * b[i + 2] + 16777216 * b[i + 3]
}

/// The triangle count that a binary STL file states: the number in bytes 80
/// to 83, after the 80-byte header.
pub open spec fn stl_stated_count(stl: Seq<u8>) -> int {
    le_u32(stl, 80)
}

/// The length of a binary STL file with `count` triangles: 84 bytes of header
/// and count, then 50 bytes a triangle.
pub open spec fn stl_binary_len(count: int) -> int {
    84 + 50 * count
}

fn read_le_u32(b: &[u8], i: usize) -> (r: u32)
    requires
        i + 4 <= b@.len(),
    ensures
        r == le_u32(b@, i as int),
{
    (b[i] as u32) + 256 * (b[i + 1] as u32) + 65536 * (b[i + 2] as u32) + 16777216 * (b[i + 3] as u32)
}

/// Whether `stl` is a binary STL file: it holds the count and is exactly as
/// long as the count says.
pub fn is_binary_stl(stl: &[u8]) -> (r: bool)
    ensures
        r == (stl@.len() >= 84 && stl@.len() == stl_binary_len(stl_stated_count(stl@))),
{
    if stl.len() < 84 {
        return false;
    }
    let count = read_le_u32(stl, 80) as u64;
    let expected: u64 = 84 + count * 50;
    (stl.len() as u64) == expected
}

/// The number of triangles of a binary STL file: an error where the file is
/// too short for the count or for the triangles the count states.
pub fn stl_binary_triangle_count(stl: &[u8]) -> (r: Result<usize, String>)
    ensures
        stl@.len() < 84 || stl@.len() < stl_binary_len(stl_stated_count(stl@)) ==> (match r {
            Err(e) => e@ == "Invalid Length of File"@,
            Ok(_) => false,
        }),
        stl@.len() >= 84 && stl@.len() >= stl_binary_len(stl_stated_count(stl@)) ==> (match r {
            Ok(n) => n == stl_stated_count(stl@),
            Err(_) => false,
        }),
{
    if stl.len() < 84 {
        return Err("Invalid Length of File".to_owned());
    }
    let count = read_le_u32(stl, 80);
    let expected: u64 = 84 + (count as u64) * 50;
    if (stl.len() as u64) < expected {
        return Err("Invalid Length of File".to_owned());
    }
    Ok(count as usize)
}

} // verus!
