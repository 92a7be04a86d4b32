use vstd::prelude::*;

pub mod anal;
pub mod c_text;
pub mod fits;
pub mod lower;
pub mod opt;
pub mod parse;
pub mod patch_iter;
pub mod pipeline;
pub mod semantics;

verus! {
}
