//! Topological core of a papercraft designer: a triangle mesh, the fold and
//! cut state of its edges, the islands of faces that this state defines, and
//! the bookkeeping of the edits made to it.
pub mod index;
pub mod model;
pub mod builder;
pub mod tessellate;
pub mod status;
pub mod islands;
pub mod traverse;
pub mod craft;
pub mod text_filter;
pub mod session;
pub mod pepakura;
pub mod corners;
