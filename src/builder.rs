use vstd::prelude::*;

use crate::model::{empty_node, node_add_object, node_add_schema, node_schema, schema_ok, NodeModel};
use crate::node::SchemaNode;
use crate::shape::{check_schema, SchemaError};
use crate::value::{
    copy_entries, copy_value, entries_of, find_name, has_key, json_of, lemma_entries_of,
    lemma_entries_push, lemma_found_at, lookup, remove_entry, remove_key, text_eq, Entries, Json,
    JsonValue,
};
use crate::wf::{lemma_tree_add_schema, tree_wf};

verus! {

/// The URI written under `$schema` when none was given or found.
pub const DEFAULT_SCHEMA_URI: &'static str = "http://json-schema.org/schema#";

/// How a builder fills the `$schema` keyword: from the first schema document
/// that carries one (else the default URI), not at all, or with a given value.
pub enum SchemaUri {
    Auto,
    Omitted,
    Given(JsonValue),
}

pub enum UriModel {
    Auto,
    Omitted,
    Given(Json),
}

pub open spec fn uri_view(u: SchemaUri) -> UriModel {
    match u {
        SchemaUri::Auto => UriModel::Auto,
        SchemaUri::Omitted => UriModel::Omitted,
        SchemaUri::Given(v) => UriModel::Given(json_of(v)),
    }
}

/// The members a builder's schema starts from.
pub open spec fn base_schema(u: UriModel) -> Entries {
    match u {
        UriModel::Auto => seq![("$schema"@, Json::Str(DEFAULT_SCHEMA_URI@))],
        UriModel::Omitted => Seq::empty(),
        UriModel::Given(v) => seq![("$schema"@, v)],
    }
}

/// The builder's schema: the root node's schema, with the `$schema` member
/// added after its members when the root has none, so the root's keys win.
pub open spec fn builder_schema(u: UriModel, n: NodeModel) -> Json {
    match node_schema(n) {
        Json::Object(e) => Json::Object(
            if has_key(e, "$schema"@) {
                e
            } else {
                e + base_schema(u)
            },
        ),
        other => other,
    }
}

/// Whether a schema document's `$schema` is adopted: only while detecting.
pub open spec fn adopts_uri(u: UriModel, e: Entries) -> bool {
    u is Auto && has_key(e, "$schema"@)
}

/// A schema document's members as merged into the root node.
pub open spec fn merged_part(u: UriModel, e: Entries) -> Entries {
    if adopts_uri(u, e) {
        remove_key(e, "$schema"@)
    } else {
        e
    }
}

/// Owns the root node of one build and its `$schema` setting.
pub struct SchemaBuilder {
    pub schema_uri: SchemaUri,
    pub root_node: SchemaNode,
}

impl SchemaBuilder {
    /// A builder with an empty root. `None` leaves `$schema` out, `"AUTO"`
    /// detects it, and any other string is written as given.
    pub fn new(schema_uri: Option<&str>) -> (r: Self)
        ensures
            r.root_node@ == empty_node(),
            tree_wf(r.root_node@),
            uri_view(r.schema_uri) == match schema_uri {
                None => UriModel::Omitted,
                Some(u) => if u@ == "AUTO"@ {
                    UriModel::Auto
                } else {
                    UriModel::Given(Json::Str(u@))
                },
            },
    {
        let root_node = SchemaNode::new();
        match schema_uri {
            None => SchemaBuilder { schema_uri: SchemaUri::Omitted, root_node },
            Some(u) => {
                if text_eq(u, "AUTO") {
                    SchemaBuilder { schema_uri: SchemaUri::Auto, root_node }
                } else {
                    SchemaBuilder {
                        schema_uri: SchemaUri::Given(JsonValue::Str(u.to_string())),
                        root_node,
                    }
                }
            },
        }
    }

    /// Merges a data document into the root node.
    pub fn add_object(&mut self, object: &JsonValue)
        ensures
            final(self).root_node@ == node_add_object(old(self).root_node@, json_of(*object)),
            uri_view(final(self).schema_uri) == uri_view(old(self).schema_uri),
            tree_wf(old(self).root_node@) ==> tree_wf(final(self).root_node@),
    {
        self.root_node.add_object(object);
    }

    /// Merges a schema document into the root node. While detecting, a
    /// `$schema` member is adopted as the URI and left out of the merge. A
    /// document that is not an object, or that cannot be merged, changes nothing.
    pub fn add_schema(&mut self, schema: &JsonValue) -> (r: Result<(), SchemaError>)
        ensures
            !(json_of(*schema) is Object) ==> r == Err::<(), SchemaError>(SchemaError::InvalidShape),
            json_of(*schema) is Object ==> ({
                let e = json_of(*schema)->Object_0;
                let u = uri_view(old(self).schema_uri);
                let part = Json::Object(merged_part(u, e));
                &&& (r is Ok <==> schema_ok(part))
                &&& (!schema_ok(part) ==> r == Err::<(), SchemaError>(SchemaError::UnrecognizedKind))
                &&& (r is Ok ==> final(self).root_node@ == node_add_schema(old(self).root_node@, part))
                &&& (r is Ok ==> uri_view(final(self).schema_uri) == if adopts_uri(u, e) {
                    UriModel::Given(lookup(e, "$schema"@)->Some_0)
                } else {
                    u
                })
            }),
            r is Err ==> final(self).root_node@ == old(self).root_node@,
            r is Err ==> uri_view(final(self).schema_uri) == uri_view(old(self).schema_uri),
            tree_wf(old(self).root_node@) ==> tree_wf(final(self).root_node@),
    {
        if let JsonValue::Object(e) = schema {
            proof {
                lemma_entries_of(e@);
            }
            let mut part = copy_entries(e);
            let mut adopted: Option<JsonValue> = None;
            if let SchemaUri::Auto = &self.schema_uri {
                let found = find_name(e, "$schema");
                proof {
                    lemma_found_at(e@, entries_of(e@), "$schema"@, found);
                }
                if let Some(i) = found {
                    adopted = Some(copy_value(&e[i].1));
                    remove_entry(&mut part, "$schema");
                }
            }
            let doc = JsonValue::Object(part);
            proof {
                if tree_wf(self.root_node@) {
                    lemma_tree_add_schema(self.root_node@, json_of(doc));
                }
            }
            if !check_schema(&doc) {
                return Err(SchemaError::UnrecognizedKind);
            }
            if let Some(v) = adopted {
                self.schema_uri = SchemaUri::Given(v);
            }
            self.root_node.merge_schema(&doc);
            Ok(())
        } else {
            Err(SchemaError::InvalidShape)
        }
    }

    /// Merges the schema of another node into the root node.
    pub fn add_schema_node(&mut self, node: &SchemaNode) -> (r: Result<(), SchemaError>)
        ensures
            r is Ok <==> schema_ok(node_schema(node@)),
            r is Err ==> r == Err::<(), SchemaError>(SchemaError::UnrecognizedKind),
            r is Ok ==> final(self).root_node@ == node_add_schema(old(self).root_node@, node_schema(node@)),
            r is Err ==> final(self).root_node@ == old(self).root_node@,
            uri_view(final(self).schema_uri) == uri_view(old(self).schema_uri),
    {
        self.root_node.add_schema_node(node)
    }

    /// Merges the schema of another builder into the root node, as
    /// `add_schema` does with a document.
    pub fn add_builder(&mut self, other: &SchemaBuilder) -> (r: Result<(), SchemaError>)
        ensures
            ({
                let e = builder_schema(uri_view(other.schema_uri), other.root_node@)->Object_0;
                let part = Json::Object(merged_part(uri_view(old(self).schema_uri), e));
                &&& (r is Ok <==> schema_ok(part))
                &&& (r is Ok ==> final(self).root_node@ == node_add_schema(old(self).root_node@, part))
                &&& (r is Ok ==> uri_view(final(self).schema_uri) == if adopts_uri(
                    uri_view(old(self).schema_uri),
                    e,
                ) {
                    UriModel::Given(lookup(e, "$schema"@)->Some_0)
                } else {
                    uri_view(old(self).schema_uri)
                })
            }),
            r is Err ==> r == Err::<(), SchemaError>(SchemaError::UnrecognizedKind),
            r is Err ==> final(self).root_node@ == old(self).root_node@,
            r is Err ==> uri_view(final(self).schema_uri) == uri_view(old(self).schema_uri),
    {
        let s = other.to_schema();
        proof {
            crate::laws::lemma_node_schema_is_object(other.root_node@);
        }
        self.add_schema(&s)
    }

    /// The schema of everything merged so far, with `$schema` as configured;
    /// the root node's members take precedence.
    pub fn to_schema(&self) -> (r: JsonValue)
        ensures
            json_of(r) == builder_schema(uri_view(self.schema_uri), self.root_node@),
    {
        let node_schema = self.root_node.to_schema();
        match node_schema {
            JsonValue::Object(mut e) => {
                let found = find_name(&e, "$schema");
                proof {
                    lemma_entries_of(e@);
                    lemma_found_at(e@, entries_of(e@), "$schema"@, found);
                }
                let ghost ev0 = entries_of(e@);
                if found.is_none() {
                    match &self.schema_uri {
                        SchemaUri::Auto => {
                            let x = ("$schema".to_string(), JsonValue::Str(DEFAULT_SCHEMA_URI.to_string()));
                            proof {
                                lemma_entries_push(e@, x);
                            }
                            e.push(x);
                            assert(entries_of(e@) =~= ev0 + base_schema(uri_view(self.schema_uri)));
                        },
                        SchemaUri::Omitted => {
                            assert(ev0 =~= ev0 + base_schema(uri_view(self.schema_uri)));
                        },
                        SchemaUri::Given(v) => {
                            let x = ("$schema".to_string(), copy_value(v));
                            proof {
                                lemma_entries_push(e@, x);
                            }
                            e.push(x);
                            assert(entries_of(e@) =~= ev0 + base_schema(uri_view(self.schema_uri)));
                        },
                    }
                }
                JsonValue::Object(e)
            },
            other => other,
        }
    }
}

} // verus!
