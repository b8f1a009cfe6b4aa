//! A small todo-list library: an in-memory task collection with
//! create/read/update/delete operations, and a textual encoding of the
//! collection for persistence, with a proven save/load round trip.

pub mod codec;
pub mod model;
