use vstd::prelude::*;

verus! {

/// Locations of the uniforms that the render shaders declare; a negative
/// location means that the program has no such uniform.
pub struct Uniforms {
    pub model: i32,
    pub view: i32,
    pub projection: i32,
    pub normal_matrix: i32,
    pub light_pos: i32,
    pub light_pos_world: i32,
    pub emit_mode: i32,
    pub use_texture: i32,
    pub base_texture: i32,
    pub shadow_map: i32,
    pub shadow_far: i32,
}

impl Uniforms {
    /// Looks up each uniform of `shader_program` by its name in the shader
    /// source; `get_location` is the lookup (`glGetUniformLocation`).
    pub fn new<F: Fn(u32, &str) -> i32>(shader_program: u32, get_location: F) -> (u: Self)
        requires
            forall|name: &str| call_requires(get_location, (shader_program, name)),
        ensures
            call_ensures(get_location, (shader_program, "model"), u.model),
            call_ensures(get_location, (shader_program, "view"), u.view),
            call_ensures(get_location, (shader_program, "projection"), u.projection),
            call_ensures(get_location, (shader_program, "normal_matrix"), u.normal_matrix),
            call_ensures(get_location, (shader_program, "light_pos"), u.light_pos),
            call_ensures(get_location, (shader_program, "light_pos_world"), u.light_pos_world),
            call_ensures(get_location, (shader_program, "emit_mode"), u.emit_mode),
            call_ensures(get_location, (shader_program, "use_texture"), u.use_texture),
            call_ensures(get_location, (shader_program, "base_texture"), u.base_texture),
            call_ensures(get_location, (shader_program, "shadow_map"), u.shadow_map),
            call_ensures(get_location, (shader_program, "shadow_far"), u.shadow_far),
    {
        Uniforms {
            model: get_location(shader_program, "model"),
            view: get_location(shader_program, "view"),
            projection: get_location(shader_program, "projection"),
            normal_matrix: get_location(shader_program, "normal_matrix"),
            light_pos: get_location(shader_program, "light_pos"),
            light_pos_world: get_location(shader_program, "light_pos_world"),
            emit_mode: get_location(shader_program, "emit_mode"),
            use_texture: get_location(shader_program, "use_texture"),
            base_texture: get_location(shader_program, "base_texture"),
            shadow_map: get_location(shader_program, "shadow_map"),
            shadow_far: get_location(shader_program, "shadow_far"),
        }
    }

    /// A uniform is set only where the program has it.
    pub fn is_active(location: i32) -> (r: bool)
        ensures
            r == (location >= 0),
    {
        location >= 0
    }
}

} // verus!
