use vstd::prelude::*;

verus! {

/// What a texture is used for when a surface is shaded.
#[derive(Clone, Copy, PartialEq, Eq, Structural, Debug)]
pub enum TextureType {
    Diffuse,
    Specular,
    Height,
    Normal,
}

} // verus!
