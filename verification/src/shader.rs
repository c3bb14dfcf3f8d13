//! Shader stages and the numbers by which OpenGL knows them.

use vstd::prelude::*;

verus! {

/// OpenGL's `GL_FRAGMENT_SHADER`.
pub const FRAGMENT_SHADER: u32 = 0x8B30;

/// OpenGL's `GL_VERTEX_SHADER`.
pub const VERTEX_SHADER: u32 = 0x8B31;

/// Stage of the rendering pipeline that a shader runs in.
#[derive(Debug, Clone, Copy, PartialEq, Eq, Structural)]
pub enum ShaderType {
    Frag,
    Vert,
}

impl ShaderType {
    /// The OpenGL enumerant of the stage.
    pub fn to_gl(&self) -> (e: u32)
        ensures
            e == match *self {
                ShaderType::Frag => FRAGMENT_SHADER,
                ShaderType::Vert => VERTEX_SHADER,
            },
    {
        match self {
            ShaderType::Frag => FRAGMENT_SHADER,
            ShaderType::Vert => VERTEX_SHADER,
        }
    }
}

} // verus!
