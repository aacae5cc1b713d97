//! Reconciles the metadata sidecar files of two asset trees and rewrites the
//! identity references inside documents so that they resolve in the destination
//! tree.
use vstd::prelude::*;

pub mod collector;
pub mod meta_file;
pub mod reconcile;
pub mod rewrite;
pub mod text;

verus! {

} // verus!
