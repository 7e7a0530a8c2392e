//! A named, ordered catalog of tile definitions, supplied to the solver
//! fully formed; loading one from storage is a caller's concern.

use vstd::prelude::*;
use crate::model::Tile;

verus! {

/// An ordered collection of tile definitions with a display name.
pub struct Tileset {
    pub name: String,
    pub tiles: Vec<Tile>,
}

} // verus!
