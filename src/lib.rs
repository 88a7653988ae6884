//! Reading, splitting and writing V8 CPU profiles.
//!
//! A profile is a call tree plus a time-ordered stream of samples that
//! point into the tree.  [`decode`] rebuilds the tree with parent links and
//! absolute sample times, [`Profile::chunks`] splits the samples into
//! contiguous ranges together with the part of the tree each range needs,
//! and [`encode_profile`] / [`encode_chunk`] write the wire format back.
pub mod assemble;
pub mod chunk;
pub mod collections;
pub mod decode;
pub mod encode;
pub mod json;
pub mod model;

pub use assemble::{assemble, ProfileParts};
pub use chunk::{FilteredNode, ProfileChunk};
pub use decode::{decode, decode_node, decode_parts, ProfileError};
pub use encode::{encode_chunk, encode_profile};
pub use model::{div_ceil, offset_duration, Node, Profile, Sample};
