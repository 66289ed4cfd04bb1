//! Registry-driven decoding of compact binary blobs.
//!
//! A [`registry::Registry`] describes the shape of encoded data; the
//! [`compact`] module handles the variable-length integer framing; the
//! [`render`] module turns registry entries into canonical type strings;
//! [`resolver`] indexes those strings; [`decoder`] walks a type against a
//! byte buffer, producing a [`value::DecodedValue`]; and [`decode_laws`]
//! proves how much input a decode takes and how it fails on short input.

pub mod error;
pub mod registry;
pub mod compact;
pub mod render;
pub mod resolver;
pub mod value;
pub mod decoder;
pub mod decode_laws;
