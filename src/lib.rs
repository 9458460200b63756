//! Drainage networks: a forest of nodes joined by single-parent edges, its
//! canonical layout, downstream accumulation and text renderings.

pub mod accumulate;
pub mod args;
pub mod attr;
pub mod attrfile;
pub mod dot;
pub mod fmt;
pub mod layout;
pub mod network;
pub mod render;
pub mod table;
pub mod template;
pub mod text;
pub mod topo;
pub mod usgs;
