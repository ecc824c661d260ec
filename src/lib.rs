//! A chunked, bounded 2D tile world: block catalog, coordinate system,
//! chunk storage, terrain passes, collision meshing and chunk streaming.

pub mod block;
pub mod states;
pub mod position;
pub mod storage;
pub mod colls;
pub mod chunks;
pub mod gen;
pub mod tiles;
pub mod edits;
