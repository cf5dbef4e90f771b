use vstd::prelude::*;

pub mod codec;
pub mod event;
pub mod hashed;
pub mod kv;
pub mod laws;
pub mod protocol;
pub mod query;
pub mod retention;
pub mod serial;
pub mod text;
pub mod tracer;
pub mod undelete;

verus! {

} // verus!
