//! Dynamic URL path templates and their interpolation.
//!
//! A [`PathTemplate`] is parsed from a route pattern such as
//! `/users/{id}/files/{*path}`. [`serialize`] fills its captures with the
//! parts of a [`Value`] and returns the percent-encoded path.

use vstd::prelude::*;

pub mod escape;
pub mod laws;
pub mod path_serializer;
pub mod path_template;
pub mod text;
pub mod value;

pub use path_serializer::PathSerializer;
pub use path_template::{PathTemplate, Segment};
pub use value::Value;

verus! {

/// Writes the path that a value gives with a template.
pub fn serialize<'s>(template: &PathTemplate<'s>, args: &Value) -> (r: Result<
    String,
    path_serializer::Error,
>)
    ensures
        path_serializer::path_outcome(r) == value::serialized(template@, args@),
{
    let mut serializer = PathSerializer::new(template);
    match serializer.serialize_value(args) {
        Err(e) => Err(e),
        Ok(()) => serializer.finalize(),
    }
}

} // verus!
