//! Turns the Esri i3s-spec markdown type definitions into draft-07 JSON
//! Schema documents, and checks the spec's JSON examples against them.

pub mod catalog;
pub mod json;
pub mod layout;
pub mod markdown;
pub mod parse;
pub mod schema;
pub mod smap;
pub mod text;
pub mod validate;
