//! The texture units that the scene's textures are bound to.
use vstd::prelude::*;

verus! {

#[derive(Clone, Copy, Debug, PartialEq, Eq, Structural)]
pub enum TextureUnit {
    Velodrome,
    Stad,
    NormalMap,
    VelodromeFlat,
}

impl TextureUnit {
    pub open spec fn unit_number(self) -> i32 {
        match self {
            TextureUnit::Velodrome => 1,
            TextureUnit::Stad => 2,
            TextureUnit::VelodromeFlat => 3,
            TextureUnit::NormalMap => 4,
        }
    }

    /// 1, 2, 3 or 4: the number to hand to a sampler uniform.
    pub fn texture_unit(&self) -> (r: i32)
        ensures
            r == self.unit_number(),
    {
        match self {
            TextureUnit::Velodrome => 1,
            TextureUnit::Stad => 2,
            TextureUnit::VelodromeFlat => 3,
            TextureUnit::NormalMap => 4,
        }
    }

    /// The unit's name.
    pub fn name(&self) -> (r: &'static str)
        ensures
            r@ == (match self {
                TextureUnit::Velodrome => "Velodrome"@,
                TextureUnit::Stad => "Stad"@,
                TextureUnit::VelodromeFlat => "VelodromeFlat"@,
                TextureUnit::NormalMap => "NormalMap"@,
            }),
    {
        match self {
            TextureUnit::Velodrome => "Velodrome",
            TextureUnit::Stad => "Stad",
            TextureUnit::VelodromeFlat => "VelodromeFlat",
            TextureUnit::NormalMap => "NormalMap",
        }
    }
}

} // verus!
