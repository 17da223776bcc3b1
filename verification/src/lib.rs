//! Layout planning for mathematical notation.
//!
//! A notation tree of [`mml_types::Element`] nodes is laid out bottom-up by
//! [`render`]: every node receives a bounding box, a baseline, and a list of
//! deferred paint operations with coordinates relative to the node's origin.
//! Text shaping is an outside capability: callers measure the leaf texts
//! listed by [`mml_types::Element::text_requests`] and hand the resulting
//! metrics back to the planner.  [`surface`] holds the raster-surface side:
//! allocating a pixel target and filling the solid bars of a plan.

pub mod laws;
pub mod mml_types;
pub mod render;
pub mod surface;
