pub mod engine;
pub mod entity;
pub mod json;
pub mod meta;
pub mod sql;
pub mod value;

use vstd::prelude::*;

verus! {

} // verus!
