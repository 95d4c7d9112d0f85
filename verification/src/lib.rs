//! Terminal and window graphics: screen buffers, line rasterisation,
//! terminal command planning, surface scaling and the scene tree.

pub mod buffer;
pub mod input;
pub mod mesh;
pub mod obj;
pub mod scene;
pub mod stl;
pub mod surface;
pub mod terminal;
pub mod texture;
