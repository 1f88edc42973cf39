use vstd::prelude::*;

verus! {

/// A cosmetic effect on a tile, which can gradually fade out.
#[derive(Debug)]
pub struct TileEffect {
    pub x: i32,
    pub y: i32,
    pub z: i32,
    pub alpha: u8,
    pub texture: EffectType,
}

#[derive(Clone, Copy, Debug, PartialEq, Eq, Structural)]
pub enum EffectType {
    Red,
    Lime,
}

impl Clone for TileEffect {
    fn clone(&self) -> (res: Self)
        ensures
            res == *self,
    {
        TileEffect { x: self.x, y: self.y, z: self.z, alpha: self.alpha, texture: self.texture }
    }
}

} // verus!
