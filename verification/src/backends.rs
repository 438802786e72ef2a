//! The proving backends a circuit can name.
use vstd::prelude::*;

verus! {

/// The arkworks backend.
#[derive(Clone, Copy, Debug, Default)]
pub struct ArkworksBackend;

impl ArkworksBackend {
    /// The backend's stable identifier.
    pub const NAME: &'static str = "arkworks";
}

/// The halo2 backend.
#[derive(Clone, Copy, Debug, Default)]
pub struct Halo2Backend;

impl Halo2Backend {
    /// The backend's stable identifier.
    pub const NAME: &'static str = "halo2";
}

/// The SP1 backend.
#[derive(Clone, Copy, Debug, Default)]
pub struct Sp1Backend;

impl Sp1Backend {
    /// The backend's stable identifier.
    pub const NAME: &'static str = "sp1";
}

} // verus!
