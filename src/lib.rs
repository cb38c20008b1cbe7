//! Infers one JSON schema that describes many example documents and/or
//! schema documents, by merging each into a tree of per-kind strategies.

use vstd::prelude::*;

pub mod batch;
pub mod builder;
pub mod laws;
pub mod model;
pub mod names;
pub mod node;
pub mod pattern;
pub mod shape;
pub mod strategy;
pub mod value;
pub mod wf;

pub use batch::BuildConfig;
pub use builder::SchemaBuilder;
pub use node::SchemaNode;
pub use shape::SchemaError;
pub use value::JsonValue;

verus! {

use crate::builder::{uri_view, UriModel};
use crate::model::empty_node;
use crate::value::Json;

/// A new builder: see `SchemaBuilder::new`.
pub fn get_builder(schema_uri: Option<&str>) -> (r: SchemaBuilder)
    ensures
        r.root_node@ == empty_node(),
        uri_view(r.schema_uri) == match schema_uri {
            None => UriModel::Omitted,
            Some(u) => if u@ == "AUTO"@ {
                UriModel::Auto
            } else {
                UriModel::Given(Json::Str(u@))
            },
        },
{
    SchemaBuilder::new(schema_uri)
}

} // verus!
