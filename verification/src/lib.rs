//! Triangle meshes and their encodings: a compact binary format with
//! variable-width, delta-compressed face indices, a fixed-width binary
//! format, and the line-oriented text format.

pub mod binary;
pub mod class;
pub mod decimal;
pub mod face;
pub mod little_endian;
pub mod mesh;
pub mod obj;
pub mod obj_laws;
pub mod repeat;
pub mod split;
pub mod triple;

pub use binary::{from_binary, to_binary, to_raw_binary, DecodeError};
pub use mesh::Mesh;
pub use obj::{from_obj, to_obj, ObjError, ObjErrorKind, TextMesh, TextVertex};
