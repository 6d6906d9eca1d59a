//! Z-ordering layers for a rendering consumer: which drawn element sits in
//! front of which.

use vstd::prelude::*;

verus! {

/// The drawing layers, nearest first.
#[derive(Clone, Copy, Debug, PartialEq, Eq, Structural)]
pub enum Layer {
    Debug,
    SelectArea,
    Units,
    GameMap,
}

impl Layer {
    /// The z height of a layer: the nearest layer sits at 100, each one
    /// behind it one lower.
    pub open spec fn spec_z(self) -> u64 {
        match self {
            Layer::Debug => 100,
            Layer::SelectArea => 99,
            Layer::Units => 98,
            Layer::GameMap => 97,
        }
    }

    /// All layers, nearest first.
    pub fn iter() -> (v: Vec<Layer>)
        ensures
            v@ == seq![Layer::Debug, Layer::SelectArea, Layer::Units, Layer::GameMap],
            forall|i: int, j: int| 0 <= i < j < v@.len() ==> v@[i].spec_z() > v@[j].spec_z(),
    {
        let mut v: Vec<Layer> = Vec::new();
        v.push(Layer::Debug);
        v.push(Layer::SelectArea);
        v.push(Layer::Units);
        v.push(Layer::GameMap);
        proof {
            assert(v@ =~= seq![Layer::Debug, Layer::SelectArea, Layer::Units, Layer::GameMap]);
        }
        v
    }

    /// The z height of this layer.
    pub fn z_value(&self) -> (z: u64)
        ensures
            z == self.spec_z(),
    {
        match self {
            Layer::Debug => 100,
            Layer::SelectArea => 99,
            Layer::Units => 98,
            Layer::GameMap => 97,
        }
    }
}

} // verus!
