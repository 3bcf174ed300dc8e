//! Layer records: named, orderable strata of the drawing with visibility
//! and lock flags.

use vstd::prelude::*;

verus! {

/// Layer identifier: a 128-bit id minted by its creating replica, unique
/// across replicas.
#[derive(Debug, Clone, Copy, PartialEq, Eq, Hash, Structural)]
pub struct LayerId(pub u128);

impl LayerId {
    pub fn new(raw: u128) -> (r: Self)
        ensures
            r.0 == raw,
    {
        LayerId(raw)
    }
}

/// Layer data structure.
#[derive(Debug, Clone)]
pub struct Layer {
    pub id: LayerId,
    pub name: String,
    pub visible: bool,
    pub locked: bool,
}

/// Ghost mirror of a layer.
pub struct LayerV {
    pub id: u128,
    pub name: Seq<char>,
    pub visible: bool,
    pub locked: bool,
}

impl View for Layer {
    type V = LayerV;

    open spec fn view(&self) -> LayerV {
        LayerV { id: self.id.0, name: self.name@, visible: self.visible, locked: self.locked }
    }
}

impl Layer {
    pub fn new(id: LayerId, name: String) -> (r: Layer)
        ensures
            r@ == (LayerV { id: id.0, name: name@, visible: true, locked: false }),
    {
        Layer { id, name, visible: true, locked: false }
    }

    pub fn with_id(id: LayerId, name: String) -> (r: Layer)
        ensures
            r@ == (LayerV { id: id.0, name: name@, visible: true, locked: false }),
    {
        Layer { id, name, visible: true, locked: false }
    }
}

} // verus!
