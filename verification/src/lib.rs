//! Codec for the rVg vector-graphic container format.
//!
//! A graphic is a list of declared vertex attributes, a vertex list, a list
//! of paths over the vertices, a list of models that style and animate the
//! paths, and a list of bitmaps. [`Graphic::encode`] and [`Graphic::decode`]
//! go between a graphic and its byte stream; [`Graphic::save`] and
//! [`Graphic::load`] add the compression of a file.
//!
//! Floats are held by their bit patterns, so that equal graphics have equal
//! streams and the NaN that ends a list is told from a number by its bits.

pub mod array;
pub mod attribute;
pub mod bitmap;
pub mod container;
pub mod error;
pub mod frame;
pub mod graphic;
pub mod laws;
pub mod model;
pub mod path;
pub mod primitive;
pub mod property;
pub mod vertex;

pub use crate::array::clone_into_array;
pub use crate::attribute::Attribute;
pub use crate::bitmap::Bitmap;
pub use crate::error::{DecodeError, EncodeError, Section};
pub use crate::frame::{Animation, Frame, Transform};
pub use crate::graphic::Graphic;
pub use crate::model::Model;
pub use crate::path::PathOp;
pub use crate::primitive::Float;
pub use crate::property::GroupProperty;
