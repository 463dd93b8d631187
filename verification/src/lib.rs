//! An incrementally updated triangle-instance list for a voxel world.
//!
//! The heart of the crate is the face-culling mesh builder in [`terrain`]:
//! given the set of block coordinates that changed since the last update, it
//! recomputes exactly the visible surface faces touched by those changes and
//! carries every unaffected face over unchanged, in work proportional to the
//! changed neighborhood rather than the whole surface. The rebuilt list is
//! serialized into the growable byte arena of [`utils`], ready for an upload
//! by the rendering shell. [`chunk`] holds a dense grid snapshot that feeds
//! the builder, and [`texture`] decodes the texture atlas.

pub mod chunk;
pub mod terrain;
pub mod texture;
pub mod utils;
