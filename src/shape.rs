use vstd::prelude::*;

use crate::model::{all_known_types, all_strings, known_type, schema_ok};
use crate::node::kind_for_type;
use crate::value::{
    entries_of, find_name, json_of, json_seq_of, lemma_entries_of, lemma_found_at,
    lemma_json_seq_of, Json, JsonValue,
};

verus! {

/// Why a schema document was refused.
#[derive(Clone, Copy, PartialEq, Eq, Structural, Debug)]
pub enum SchemaError {
    /// The document is not an object.
    InvalidShape,
    /// A fragment in the document names no kind a strategy handles, or is
    /// otherwise not one that can be merged (see `schema_ok`).
    UnrecognizedKind,
}

/// Whether `s` is a schema fragment that can be merged.
pub fn check_schema(s: &JsonValue) -> (r: bool)
    ensures
        r == schema_ok(json_of(*s)),
    decreases s,
{
    match s {
        JsonValue::Object(e) => {
            let ghost ev = entries_of(e@);
            proof {
                lemma_entries_of(e@);
            }
            let a = find_name(e, "anyOf");
            let t = find_name(e, "type");
            let pi = find_name(e, "properties");
            let qi = find_name(e, "patternProperties");
            let ii = find_name(e, "items");
            let ri = find_name(e, "required");
            proof {
                lemma_found_at(e@, ev, "anyOf"@, a);
                lemma_found_at(e@, ev, "type"@, t);
                lemma_found_at(e@, ev, "properties"@, pi);
                lemma_found_at(e@, ev, "patternProperties"@, qi);
                lemma_found_at(e@, ev, "items"@, ii);
                lemma_found_at(e@, ev, "required"@, ri);
            }
            if let Some(k) = a {
                if let JsonValue::Array(xs) = &e[k].1 {
                    let ok = check_all(xs);
                    proof {
                        lemma_json_seq_of(xs@);
                    }
                    return ok;
                }
            }
            if let Some(k) = t {
                match &e[k].1 {
                    JsonValue::Array(ts) => {
                        if !check_types(ts, e) {
                            return false;
                        }
                    },
                    JsonValue::Str(name) => {
                        if kind_for_type(name.as_str(), e).is_none() {
                            return false;
                        }
                    },
                    _ => {
                        return false;
                    },
                }
            }
            if let Some(k) = pi {
                if let JsonValue::Object(pe) = &e[k].1 {
                    let ok = check_members(pe);
                    if !ok {
                        proof {
                            let w = choose|w: int|
                                0 <= w < entries_of(pe@).len() && !schema_ok(
                                    entries_of(pe@)[w].1,
                                );
                            assert(ev[k as int].1 == Json::Object(entries_of(pe@)));
                            assert(!schema_ok(ev[k as int].1->Object_0[w].1));
                        }
                        return false;
                    }
                }
            }
            if let Some(k) = qi {
                if let JsonValue::Object(pe) = &e[k].1 {
                    let ok = check_members(pe);
                    if !ok {
                        proof {
                            let w = choose|w: int|
                                0 <= w < entries_of(pe@).len() && !schema_ok(
                                    entries_of(pe@)[w].1,
                                );
                            assert(ev[k as int].1 == Json::Object(entries_of(pe@)));
                            assert(!schema_ok(ev[k as int].1->Object_0[w].1));
                        }
                        return false;
                    }
                }
            }
            if let Some(k) = ii {
                if let JsonValue::Object(_) = &e[k].1 {
                    if !check_schema(&e[k].1) {
                        return false;
                    }
                }
            }
            if let Some(k) = ri {
                if let JsonValue::Array(xs) = &e[k].1 {
                    let ok = check_strings(xs);
                    proof {
                        lemma_json_seq_of(xs@);
                    }
                    if !ok {
                        return false;
                    }
                }
            }
            true
        },
        _ => false,
    }
}

/// Whether each of `xs` can be merged.
fn check_all(xs: &Vec<JsonValue>) -> (r: bool)
    ensures
        r == forall|i: int|
            0 <= i < json_seq_of(xs@).len() ==> schema_ok(#[trigger] json_seq_of(xs@)[i]),
    decreases xs,
{
    proof {
        lemma_json_seq_of(xs@);
    }
    let mut i: usize = 0;
    while i < xs.len()
        invariant
            i <= xs@.len(),
            json_seq_of(xs@).len() == xs@.len(),
            forall|j: int| 0 <= j < xs@.len() ==> #[trigger] json_seq_of(xs@)[j] == json_of(xs@[j]),
            forall|j: int| 0 <= j < i ==> schema_ok(#[trigger] json_seq_of(xs@)[j]),
        decreases xs.len() - i,
    {
        if !check_schema(&xs[i]) {
            assert(!schema_ok(json_seq_of(xs@)[i as int]));
            return false;
        }
        i = i + 1;
    }
    true
}

/// Whether the value of each member of `pe` can be merged.
fn check_members(pe: &Vec<(String, JsonValue)>) -> (r: bool)
    ensures
        r == forall|i: int|
            0 <= i < entries_of(pe@).len() ==> schema_ok(#[trigger] entries_of(pe@)[i].1),
    decreases pe,
{
    proof {
        lemma_entries_of(pe@);
    }
    let mut i: usize = 0;
    while i < pe.len()
        invariant
            i <= pe@.len(),
            entries_of(pe@).len() == pe@.len(),
            forall|j: int|
                0 <= j < pe@.len() ==> #[trigger] entries_of(pe@)[j] == (pe@[j].0@, json_of(pe@[j].1)),
            forall|j: int| 0 <= j < i ==> schema_ok(#[trigger] entries_of(pe@)[j].1),
        decreases pe.len() - i,
    {
        if !check_schema(&pe[i].1) {
            assert(!schema_ok(entries_of(pe@)[i as int].1));
            return false;
        }
        i = i + 1;
    }
    true
}

/// Whether each of `ts` is a known type name for a fragment with members `e`.
fn check_types(ts: &Vec<JsonValue>, e: &Vec<(String, JsonValue)>) -> (r: bool)
    ensures
        r == all_known_types(json_seq_of(ts@), entries_of(e@)),
{
    proof {
        lemma_json_seq_of(ts@);
    }
    let mut i: usize = 0;
    while i < ts.len()
        invariant
            i <= ts@.len(),
            json_seq_of(ts@).len() == ts@.len(),
            forall|j: int| 0 <= j < ts@.len() ==> #[trigger] json_seq_of(ts@)[j] == json_of(ts@[j]),
            forall|j: int| 0 <= j < i ==> known_type(#[trigger] json_seq_of(ts@)[j], entries_of(e@)),
        decreases ts.len() - i,
    {
        let ok = match &ts[i] {
            JsonValue::Str(name) => kind_for_type(name.as_str(), e).is_some(),
            _ => false,
        };
        if !ok {
            assert(!known_type(json_seq_of(ts@)[i as int], entries_of(e@)));
            return false;
        }
        i = i + 1;
    }
    true
}

/// Whether each of `xs` is a string.
fn check_strings(xs: &Vec<JsonValue>) -> (r: bool)
    ensures
        r == all_strings(json_seq_of(xs@)),
{
    proof {
        lemma_json_seq_of(xs@);
    }
    let mut i: usize = 0;
    while i < xs.len()
        invariant
            i <= xs@.len(),
            json_seq_of(xs@).len() == xs@.len(),
            forall|j: int| 0 <= j < xs@.len() ==> #[trigger] json_seq_of(xs@)[j] == json_of(xs@[j]),
            forall|j: int| 0 <= j < i ==> #[trigger] json_seq_of(xs@)[j] is Str,
        decreases xs.len() - i,
    {
        if let JsonValue::Str(_) = &xs[i] {
        } else {
            assert(!(json_seq_of(xs@)[i as int] is Str));
            return false;
        }
        i = i + 1;
    }
    true
}

} // verus!
