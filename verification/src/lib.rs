pub mod camera;
pub mod input;
pub mod obj;
pub mod qoi;
pub mod shaders;
pub mod shape;
pub mod transform_stack;
pub mod uniforms;
