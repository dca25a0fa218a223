use vstd::prelude::*;

pub mod blob;
pub mod engine;
pub mod graph;
pub mod kv;
pub mod oid;
pub mod otel;
pub mod paths;
pub mod retry;
pub mod text;
pub mod yarn1;

verus! {

} // verus!
