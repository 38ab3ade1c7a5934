//! The engine that walks, loads, hashes and compares images.

use vstd::prelude::*;

verus! {

/// The engine; running it is the program's business, as it starts the
/// threads that walk, load, hash and compare images.
pub struct Engine;

/// A new engine.
pub fn init_engine() -> (engine: Engine)
    ensures
        engine == Engine,
{
    Engine
}

} // verus!
