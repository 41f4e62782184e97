//! Material kinds and texture references.
use vstd::prelude::*;

verus! {

/// How the shader treats a material.
#[derive(Clone, Copy, Debug, PartialEq, Eq, Structural)]
#[allow(non_camel_case_types)]
pub enum MaterialFlag {
    DEFAULT,
    GLASS,
    TEXTURE,
}

impl MaterialFlag {
    /// The number the shader reads for this kind.
    pub fn code(&self) -> (r: i32)
        ensures
            r == match *self {
                MaterialFlag::DEFAULT => 0i32,
                MaterialFlag::GLASS => 1i32,
                MaterialFlag::TEXTURE => 2i32,
            },
    {
        match *self {
            MaterialFlag::DEFAULT => 0,
            MaterialFlag::GLASS => 1,
            MaterialFlag::TEXTURE => 2,
        }
    }
}

/// A texture's place in the texture array and its size; `index` is `-1` when
/// there is none.
#[derive(Clone, Copy, Debug, PartialEq, Eq, Structural)]
pub struct TextureRef {
    pub width: u32,
    pub height: u32,
    pub index: i32,
}

impl Default for TextureRef {
    fn default() -> (r: TextureRef)
        ensures
            r == (TextureRef { width: 0, height: 0, index: -1i32 }),
    {
        TextureRef { width: 0, height: 0, index: -1 }
    }
}

/// Where a texture's pixels come from.
pub enum TextureDefinition {
    FromFile { path: String },
    FromData { width: u32, height: u32, pixels: Vec<u8> },
}

} // verus!
