//! A sparse voxel octree for a cubic volume of a given edge length.
//!
//! The mutable [`octree::Octree`] supports incremental edits (insert, remove,
//! query over integer coordinates); the read-only
//! [`static_octree::StaticOctree`] is a compacted snapshot produced by a
//! one-way freeze and supports only queries.

pub mod octree;
pub mod static_octree;
