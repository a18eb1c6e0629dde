pub mod text;
pub mod model;
pub mod spans;
pub mod order;
pub mod patterns;
pub mod normalize;
pub mod compiler;
pub mod pack;
pub mod universal;
pub mod graph;
pub mod redact;
pub mod fingerprint;
pub mod pipeline;
pub mod domain;
pub mod projects;
pub mod recent;
pub mod desktop;

use vstd::prelude::*;

verus! {

/// The version of the library.
pub fn version() -> (r: &'static str)
    ensures
        r@ == "0.1.0"@,
{
    "0.1.0"
}

} // verus!
