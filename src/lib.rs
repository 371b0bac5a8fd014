//! Conversion between REST API spec documents and request collections,
//! both ways, with the contracts of each step proved.

use vstd::prelude::*;

pub mod forward;
pub mod model;
pub mod postman_model;
pub mod reverse;
pub mod round_trip;
pub mod strmap;
pub mod text;

verus! {

} // verus!
