//! The items most users need.
pub use crate::point::{AttachError, Point, PointDexter};
