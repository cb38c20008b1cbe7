use vstd::prelude::*;

use crate::model::{
    absorbed, children_schemas, empty_node, empty_object, empty_typeless, lemma_list_gets_object,
    lemma_object_gets_object, lemma_scalar_gets_object, merge_children as merged_children, names_of,
    new_strategy, node_add_items, node_add_object, node_add_schema, node_schema, object_add_members,
    object_add_schema, object_schema, pattern_pos, single_type, strategy_add_object,
    strategy_add_schema, strategy_kind, strategy_schema, strs, type_kind, typeless_add, value_kind,
    Kind, StrategyModel,
};
use crate::names::{keep_names, names_view, push_name, sort_texts};
use crate::node::{
    children_view, kind_for_type, kind_of_value, lemma_children_push, lemma_children_view,
    node_view, object_view, single_type_of, strategy_view, typeless_view, SchemaNode,
};
use crate::pattern::{pattern_search, search_pattern};
use crate::value::{
    copy_entries, entries_of, find_name, json_of, json_seq_of, lemma_entries_of, lemma_entries_push,
    lemma_found_at, lemma_json_seq_of, merge_entries, remove_entry, set_entry, set_key, Json,
    JsonValue,
};

verus! {

/// Accumulated knowledge of `null` values.
pub struct NullStrategy {
    pub extra_keywords: Vec<(String, JsonValue)>,
}

/// Accumulated knowledge of boolean values.
pub struct BooleanStrategy {
    pub extra_keywords: Vec<(String, JsonValue)>,
}

/// Accumulated knowledge of string values.
pub struct StringStrategy {
    pub extra_keywords: Vec<(String, JsonValue)>,
}

/// Accumulated knowledge of numbers: `widened` once a non-integral number or
/// a `number` type was seen, and never again narrowed.
pub struct NumberStrategy {
    pub extra_keywords: Vec<(String, JsonValue)>,
    pub widened: bool,
}

/// The placeholder for fragments without a type, held until a concrete
/// strategy takes it over: their keywords, and the nodes that the first
/// `properties`, `patternProperties` and `items` members among them build.
pub struct TypelessStrategy {
    pub extra_keywords: Vec<(String, JsonValue)>,
    pub properties: Vec<(String, SchemaNode)>,
    pub pattern_properties: Vec<(String, SchemaNode)>,
    pub items: Box<SchemaNode>,
}

/// Accumulated knowledge of arrays: one node for all their elements.
pub struct ListStrategy {
    pub items: SchemaNode,
}

/// Accumulated knowledge of objects.
pub struct ObjectStrategy {
    pub extra_keywords: Vec<(String, JsonValue)>,
    pub properties: Vec<(String, SchemaNode)>,
    pub pattern_properties: Vec<(String, SchemaNode)>,
    pub required_properties: Option<Vec<String>>,
    pub include_empty_required: bool,
}

/// One active strategy of a schema node.
pub enum BasicSchemaStrategy {
    Object(ObjectStrategy),
    List(ListStrategy),
    Null(NullStrategy),
    Boolean(BooleanStrategy),
    Number(NumberStrategy),
    String(StringStrategy),
}

impl NullStrategy {
    pub fn new() -> (r: Self)
        ensures
            r.extra_keywords@.len() == 0,
    {
        NullStrategy { extra_keywords: Vec::new() }
    }
}

impl BooleanStrategy {
    pub fn new() -> (r: Self)
        ensures
            r.extra_keywords@.len() == 0,
    {
        BooleanStrategy { extra_keywords: Vec::new() }
    }
}

impl StringStrategy {
    pub fn new() -> (r: Self)
        ensures
            r.extra_keywords@.len() == 0,
    {
        StringStrategy { extra_keywords: Vec::new() }
    }
}

impl NumberStrategy {
    /// Starts as `integer`.
    pub fn new() -> (r: Self)
        ensures
            r.extra_keywords@.len() == 0,
            !r.widened,
    {
        NumberStrategy { extra_keywords: Vec::new(), widened: false }
    }
}

impl TypelessStrategy {
    pub fn new() -> (r: Self)
        ensures
            typeless_view(r) == empty_typeless(),
    {
        let r = TypelessStrategy {
            extra_keywords: Vec::new(),
            properties: Vec::new(),
            pattern_properties: Vec::new(),
            items: Box::new(SchemaNode::new()),
        };
        assert(entries_of(r.extra_keywords@) =~= Seq::empty());
        assert(children_view(r.properties@) =~= Seq::empty());
        assert(children_view(r.pattern_properties@) =~= Seq::empty());
        r
    }

    /// Merges a fragment without a type: its keywords, and the objects under
    /// `properties`, `patternProperties` and `items` while no such keyword
    /// was kept before.
    pub fn add_schema(&mut self, e: &Vec<(String, JsonValue)>)
        ensures
            typeless_view(*final(self)) == typeless_add(typeless_view(*old(self)), entries_of(e@)),
        decreases e, 1nat, 1nat,
    {
        let ghost ev = entries_of(e@);
        proof {
            lemma_entries_of(e@);
            lemma_entries_of(self.extra_keywords@);
        }
        let had_p = find_name(&self.extra_keywords, "properties");
        let had_q = find_name(&self.extra_keywords, "patternProperties");
        let had_i = find_name(&self.extra_keywords, "items");
        proof {
            lemma_found_at(self.extra_keywords@, entries_of(self.extra_keywords@), "properties"@, had_p);
            lemma_found_at(self.extra_keywords@, entries_of(self.extra_keywords@), "patternProperties"@, had_q);
            lemma_found_at(self.extra_keywords@, entries_of(self.extra_keywords@), "items"@, had_i);
        }
        let pi = find_name(e, "properties");
        let qi = find_name(e, "patternProperties");
        let ii = find_name(e, "items");
        proof {
            lemma_found_at(e@, ev, "properties"@, pi);
            lemma_found_at(e@, ev, "patternProperties"@, qi);
            lemma_found_at(e@, ev, "items"@, ii);
        }
        merge_entries(&mut self.extra_keywords, e);
        if had_p.is_none() {
            if let Some(i) = pi {
                if let JsonValue::Object(pe) = &e[i].1 {
                    merge_children(&mut self.properties, pe);
                }
            }
        }
        if had_q.is_none() {
            if let Some(i) = qi {
                if let JsonValue::Object(pe) = &e[i].1 {
                    merge_children(&mut self.pattern_properties, pe);
                }
            }
        }
        if had_i.is_none() {
            if let Some(i) = ii {
                if let JsonValue::Object(_) = &e[i].1 {
                    self.items.merge_schema(&e[i].1);
                }
            }
        }
    }
}

impl ObjectStrategy {
    pub fn new() -> (r: Self)
        ensures
            object_view(r) == empty_object(),
    {
        let r = ObjectStrategy {
            extra_keywords: Vec::new(),
            properties: Vec::new(),
            pattern_properties: Vec::new(),
            required_properties: None,
            include_empty_required: false,
        };
        assert(entries_of(r.extra_keywords@) =~= Seq::empty());
        assert(children_view(r.properties@) =~= Seq::empty());
        assert(children_view(r.pattern_properties@) =~= Seq::empty());
        r
    }

    /// The first pattern property whose expression matches `key`.
    fn find_pattern(&self, key: &str) -> (r: Option<usize>)
        ensures
            match r {
                Some(j) => j as int == pattern_pos(children_view(self.pattern_properties@), key@)
                    && j < self.pattern_properties@.len(),
                None => pattern_pos(children_view(self.pattern_properties@), key@) == -1,
            },
    {
        let ghost pats = children_view(self.pattern_properties@);
        proof {
            lemma_children_view(self.pattern_properties@);
        }
        let mut j: usize = 0;
        while j < self.pattern_properties.len()
            invariant
                j <= self.pattern_properties@.len(),
                pats == children_view(self.pattern_properties@),
                pats.len() == self.pattern_properties@.len(),
                forall|i: int| 0 <= i < pats.len() ==> #[trigger] pats[i].0 == self.pattern_properties@[i].0@,
                forall|i: int| 0 <= i < j ==> pattern_search(#[trigger] pats[i].0, key@) != Some(true),
            decreases self.pattern_properties@.len() - j,
        {
            let found = search_pattern(self.pattern_properties[j].0.as_str(), key);
            if found == Some(true) {
                proof {
                    assert(pattern_search(pats[j as int].0, key@) == Some(true));
                    let c = choose|i: int|
                        0 <= i < pats.len() && pattern_search(pats[i].0, key@) == Some(true)
                            && forall|l: int| 0 <= l < i ==> pattern_search(pats[l].0, key@) != Some(true);
                    if c < j {
                        assert(pattern_search(pats[c].0, key@) != Some(true));
                    }
                    if j < c {
                        assert(pattern_search(pats[j as int].0, key@) != Some(true));
                    }
                }
                return Some(j);
            }
            j = j + 1;
        }
        None
    }

    /// Merges the members of an object value, then narrows the required names
    /// to those this object has.
    #[verifier::rlimit(40)]
    pub fn add_object(&mut self, entries: &Vec<(String, JsonValue)>)
        ensures
            object_view(*final(self)) == crate::model::object_add_object(
                object_view(*old(self)),
                entries_of(entries@),
            ),
        decreases entries, 1nat, 0nat,
    {
        let ghost o0 = object_view(*self);
        let mut seen: Vec<String> = Vec::new();
        let mut i: usize = 0;
        assert(entries_of(entries@.subrange(0, 0)) =~= Seq::empty());
        while i < entries.len()
            invariant
                i <= entries.len(),
                (object_view(*self), names_view(seen@)) == object_add_members(
                    o0,
                    entries_of(entries@.subrange(0, i as int)),
                ),
                self.required_properties == old(self).required_properties,
                self.include_empty_required == old(self).include_empty_required,
            decreases entries.len() - i,
        {
            let ghost prefix = entries_of(entries@.subrange(0, i as int));
            let ghost o1 = object_view(*self);
            let k = entries[i].0.as_str();
            let v = &entries[i].1;
            proof {
                assert(entries@.subrange(0, i + 1).subrange(0, i as int) =~= entries@.subrange(0, i as int));
                let next = prefix.push((k@, json_of(*v)));
                assert(entries_of(entries@.subrange(0, i + 1)) == next);
                assert(next.subrange(0, next.len() - 1) =~= prefix);
                lemma_children_view(self.properties@);
            }
            let pi = find_name(&self.properties, k);
            proof {
                lemma_found_at(self.properties@, children_view(self.properties@), k@, pi);
            }
            let mut matched = false;
            if pi.is_none() {
                let pj = self.find_pattern(k);
                if let Some(j) = pj {
                    let ghost before = self.pattern_properties@;
                    self.pattern_properties[j].1.add_object(v);
                    proof {
                        lemma_children_view(before);
                        lemma_children_view(self.pattern_properties@);
                        assert(children_view(self.pattern_properties@) =~= o1.patterns.update(
                            j as int,
                            (o1.patterns[j as int].0, node_add_object(o1.patterns[j as int].1, json_of(*v))),
                        ));
                    }
                    matched = true;
                }
            }
            if !matched {
                match pi {
                    Some(p) => {
                        let ghost before = self.properties@;
                        self.properties[p].1.add_object(v);
                        proof {
                            lemma_children_view(before);
                            lemma_children_view(self.properties@);
                            assert(children_view(self.properties@) =~= o1.properties.update(
                                p as int,
                                (k@, node_add_object(o1.properties[p as int].1, json_of(*v))),
                            ));
                        }
                    },
                    None => {
                        let mut child = SchemaNode::new();
                        child.add_object(v);
                        let name = k.to_string();
                        proof {
                            lemma_children_push(self.properties@, (name, child));
                        }
                        self.properties.push((name, child));
                    },
                }
                push_name(&mut seen, k);
            }
            i = i + 1;
        }
        assert(entries@.subrange(0, entries.len() as int) =~= entries@);
        match &self.required_properties {
            None => {
                self.required_properties = Some(seen);
            },
            Some(r) => {
                let kept = keep_names(r, &seen);
                self.required_properties = Some(kept);
            },
        }
    }
}

impl ListStrategy {
    pub fn new() -> (r: Self)
        ensures
            node_view(r.items) == empty_node(),
    {
        ListStrategy { items: SchemaNode::new() }
    }

    /// Merges every element into the one items node.
    pub fn add_object(&mut self, items: &Vec<JsonValue>)
        ensures
            node_view(final(self).items) == node_add_items(
                node_view(old(self).items),
                json_seq_of(items@),
            ),
        decreases items, 0nat, 0nat,
    {
        let ghost n0 = node_view(self.items);
        let mut i: usize = 0;
        assert(json_seq_of(items@.subrange(0, 0)) =~= Seq::empty());
        while i < items.len()
            invariant
                i <= items.len(),
                node_view(self.items) == node_add_items(n0, json_seq_of(items@.subrange(0, i as int))),
            decreases items.len() - i,
        {
            proof {
                assert(items@.subrange(0, i + 1).subrange(0, i as int) =~= items@.subrange(0, i as int));
                let xs = json_seq_of(items@.subrange(0, i + 1));
                assert(xs.subrange(0, xs.len() - 1) =~= json_seq_of(items@.subrange(0, i as int)));
            }
            self.items.add_object(&items[i]);
            i = i + 1;
        }
        assert(items@.subrange(0, items.len() as int) =~= items@);
    }
}

impl BasicSchemaStrategy {
    pub fn kind(&self) -> (k: Kind)
        ensures
            k == strategy_kind(strategy_view(*self)),
    {
        match self {
            BasicSchemaStrategy::Object(_) => Kind::Object,
            BasicSchemaStrategy::List(_) => Kind::Array,
            BasicSchemaStrategy::Null(_) => Kind::Null,
            BasicSchemaStrategy::Boolean(_) => Kind::Boolean,
            BasicSchemaStrategy::Number(_) => Kind::Number,
            BasicSchemaStrategy::String(_) => Kind::Str,
        }
    }

    /// A fresh strategy for the kind of a data value.
    pub fn new_for_object(object: &JsonValue) -> (r: Self)
        ensures
            strategy_view(r) == new_strategy(value_kind(json_of(*object))),
    {
        let k = kind_of_value(object);
        BasicSchemaStrategy::new_for_kind(k)
    }

    /// A fresh strategy for the kind that a schema fragment names, if it
    /// names one (a typeless fragment names none).
    pub fn new_for_schema(schema: &JsonValue) -> (r: Option<Self>)
        ensures
            match fragment_kind(json_of(*schema)) {
                Some(k) => r is Some && strategy_view(r->Some_0) == new_strategy(k),
                None => r is None,
            },
    {
        match schema_kind(schema) {
            Some(k) => Some(BasicSchemaStrategy::new_for_kind(k)),
            None => None,
        }
    }

    /// Whether this strategy describes the kind of a data value.
    pub fn match_object(&self, object: &JsonValue) -> (r: bool)
        ensures
            r == (strategy_kind(strategy_view(*self)) == value_kind(json_of(*object))),
    {
        self.kind() == kind_of_value(object)
    }

    /// Whether this strategy takes a schema fragment with a single type name.
    pub fn match_schema(&self, schema: &JsonValue) -> (r: bool)
        ensures
            r == (fragment_kind(json_of(*schema)) == Some(strategy_kind(strategy_view(*self)))),
    {
        match schema_kind(schema) {
            Some(k) => self.kind() == k,
            None => false,
        }
    }

    /// A fresh strategy of kind `k`.
    pub fn new_for_kind(k: Kind) -> (r: Self)
        ensures
            strategy_view(r) == new_strategy(k),
    {
        let r = match k {
            Kind::Object => BasicSchemaStrategy::Object(ObjectStrategy::new()),
            Kind::Array => BasicSchemaStrategy::List(ListStrategy::new()),
            Kind::Null => BasicSchemaStrategy::Null(NullStrategy { extra_keywords: Vec::new() }),
            Kind::Boolean => BasicSchemaStrategy::Boolean(
                BooleanStrategy { extra_keywords: Vec::new() },
            ),
            Kind::Number => BasicSchemaStrategy::Number(
                NumberStrategy { extra_keywords: Vec::new(), widened: false },
            ),
            Kind::Str => BasicSchemaStrategy::String(StringStrategy { extra_keywords: Vec::new() }),
        };
        assert(entries_of(Seq::<(String, JsonValue)>::empty()) =~= Seq::empty());
        r
    }

    /// A new strategy of kind `k` that takes over the placeholder `t`.
    pub fn from_placeholder(k: Kind, t: TypelessStrategy) -> (r: Self)
        ensures
            strategy_view(r) == absorbed(k, typeless_view(t)),
    {
        let ghost tv = typeless_view(t);
        let mut kw: Vec<(String, JsonValue)> = Vec::new();
        assert(entries_of(kw@) =~= Seq::empty());
        merge_entries(&mut kw, &t.extra_keywords);
        match k {
            Kind::Object => {
                proof {
                    lemma_entries_of(t.extra_keywords@);
                }
                let ri = find_name(&t.extra_keywords, "required");
                proof {
                    lemma_found_at(t.extra_keywords@, entries_of(t.extra_keywords@), "required"@, ri);
                }
                let mut required: Option<Vec<String>> = None;
                let mut force = false;
                if let Some(i) = ri {
                    if let JsonValue::Array(xs) = &t.extra_keywords[i].1 {
                        required = Some(names_of_list(xs));
                        force = xs.len() == 0;
                        proof {
                            lemma_json_seq_of(xs@);
                        }
                    }
                }
                let TypelessStrategy { extra_keywords: _, properties, pattern_properties, items: _ } = t;
                BasicSchemaStrategy::Object(
                    ObjectStrategy {
                        extra_keywords: kw,
                        properties,
                        pattern_properties,
                        required_properties: required,
                        include_empty_required: force,
                    },
                )
            },
            Kind::Array => {
                let TypelessStrategy { extra_keywords: _, properties: _, pattern_properties: _, items } = t;
                BasicSchemaStrategy::List(ListStrategy { items: *items })
            },
            Kind::Null => BasicSchemaStrategy::Null(NullStrategy { extra_keywords: kw }),
            Kind::Boolean => BasicSchemaStrategy::Boolean(BooleanStrategy { extra_keywords: kw }),
            Kind::Number => BasicSchemaStrategy::Number(
                NumberStrategy { extra_keywords: kw, widened: false },
            ),
            Kind::Str => BasicSchemaStrategy::String(StringStrategy { extra_keywords: kw }),
        }
    }

    /// Merges a data value of this strategy's kind.
    #[verifier::rlimit(100)]
    pub fn add_object(&mut self, v: &JsonValue)
        ensures
            strategy_view(*final(self)) == strategy_add_object(strategy_view(*old(self)), json_of(*v)),
        decreases v, 1nat, 0nat,
    {
        proof {
            if *self is Object {
                lemma_object_gets_object(object_view((*self)->Object_0), json_of(*v));
            } else if *self is List {
                lemma_list_gets_object(node_view((*self)->List_0.items), json_of(*v));
            } else {
                lemma_scalar_gets_object(strategy_view(*self), json_of(*v));
            }
        }
        match self {
            BasicSchemaStrategy::Object(o) => {
                if let JsonValue::Object(entries) = v {
                    o.add_object(entries);
                }
            },
            BasicSchemaStrategy::List(l) => {
                if let JsonValue::Array(items) = v {
                    l.add_object(items);
                }
            },
            BasicSchemaStrategy::Number(n) => {
                if let JsonValue::Real(_) = v {
                    n.widened = true;
                }
            },
            _ => {},
        }
    }
}

/// The characters of an optional type name.
pub open spec fn opt_text(ty: Option<&str>) -> Option<Seq<char>> {
    match ty {
        Some(t) => Some(t@),
        None => None,
    }
}

/// The distinct string members of a `required` list, in order.
pub fn names_of_list(xs: &Vec<JsonValue>) -> (r: Vec<String>)
    ensures
        names_view(r@) == names_of(json_seq_of(xs@)),
{
    let mut out: Vec<String> = Vec::new();
    let mut i: usize = 0;
    assert(json_seq_of(xs@.subrange(0, 0)) =~= Seq::empty());
    while i < xs.len()
        invariant
            i <= xs.len(),
            names_view(out@) == names_of(json_seq_of(xs@.subrange(0, i as int))),
        decreases xs.len() - i,
    {
        proof {
            assert(xs@.subrange(0, i + 1).subrange(0, i as int) =~= xs@.subrange(0, i as int));
            let next = json_seq_of(xs@.subrange(0, i + 1));
            assert(next.drop_last() =~= json_seq_of(xs@.subrange(0, i as int)));
            assert(xs@.subrange(0, i + 1)[i as int] == xs@[i as int]);
            assert(next.last() == json_of(xs@[i as int]));
        }
        if let JsonValue::Str(t) = &xs[i] {
            push_name(&mut out, t.as_str());
        }
        i = i + 1;
    }
    assert(xs@.subrange(0, xs.len() as int) =~= xs@);
    out
}

/// Merges each member of a `properties` (or `patternProperties`) object into
/// the child node of that name, created when missing.
pub fn merge_children(children: &mut Vec<(String, SchemaNode)>, pe: &Vec<(String, JsonValue)>)
    ensures
        children_view(final(children)@) == merged_children(children_view(old(children)@), entries_of(pe@)),
    decreases pe, 0nat, 0nat,
{
    let ghost c0 = children_view(children@);
    let mut j: usize = 0;
    assert(entries_of(pe@.subrange(0, 0)) =~= Seq::empty());
    while j < pe.len()
        invariant
            j <= pe.len(),
            children_view(children@) == merged_children(c0, entries_of(pe@.subrange(0, j as int))),
        decreases pe.len() - j,
    {
        let ghost prefix = entries_of(pe@.subrange(0, j as int));
        let ghost cur = children_view(children@);
        let k = pe[j].0.as_str();
        let v = &pe[j].1;
        proof {
            assert(pe@.subrange(0, j + 1).subrange(0, j as int) =~= pe@.subrange(0, j as int));
            let next = prefix.push((k@, json_of(*v)));
            assert(entries_of(pe@.subrange(0, j + 1)) == next);
            assert(next.subrange(0, next.len() - 1) =~= prefix);
            lemma_children_view(children@);
        }
        let found = find_name(children, k);
        proof {
            lemma_found_at(children@, children_view(children@), k@, found);
        }
        match found {
            Some(c) => {
                let ghost before = children@;
                children[c].1.merge_schema(v);
                proof {
                    lemma_children_view(before);
                    lemma_children_view(children@);
                    assert(children_view(children@) =~= cur.update(
                        c as int,
                        (k@, node_add_schema(cur[c as int].1, json_of(*v))),
                    ));
                }
            },
            None => {
                let mut child = SchemaNode::new();
                child.merge_schema(v);
                let name = k.to_string();
                proof {
                    lemma_children_push(children@, (name, child));
                }
                children.push((name, child));
            },
        }
        j = j + 1;
    }
    assert(pe@.subrange(0, pe.len() as int) =~= pe@);
}

impl ObjectStrategy {
    /// Merges a schema fragment of type `object`.
    pub fn add_schema(&mut self, e: &Vec<(String, JsonValue)>)
        ensures
            object_view(*final(self)) == object_add_schema(object_view(*old(self)), entries_of(e@)),
        decreases e, 0nat, 1nat,
    {
        let ghost o0 = object_view(*self);
        let ghost ev = entries_of(e@);
        proof {
            lemma_entries_of(e@);
        }
        merge_entries(&mut self.extra_keywords, e);
        let pi = find_name(e, "properties");
        proof {
            lemma_found_at(e@, ev, "properties"@, pi);
        }
        if let Some(i) = pi {
            if let JsonValue::Object(pe) = &e[i].1 {
                merge_children(&mut self.properties, pe);
            }
        }
        let qi = find_name(e, "patternProperties");
        proof {
            lemma_found_at(e@, ev, "patternProperties"@, qi);
        }
        if let Some(i) = qi {
            if let JsonValue::Object(pe) = &e[i].1 {
                merge_children(&mut self.pattern_properties, pe);
            }
        }
        let ri = find_name(e, "required");
        proof {
            lemma_found_at(e@, ev, "required"@, ri);
        }
        if let Some(i) = ri {
            if let JsonValue::Array(xs) = &e[i].1 {
                let names = names_of_list(xs);
                if xs.len() == 0 {
                    self.include_empty_required = true;
                }
                match &self.required_properties {
                    None => {
                        self.required_properties = Some(names);
                    },
                    Some(r) => {
                        let kept = keep_names(r, &names);
                        self.required_properties = Some(kept);
                    },
                }
                proof {
                    lemma_json_seq_of(xs@);
                }
            }
        }
    }
}

impl ListStrategy {
    /// Merges the `items` object of a schema fragment of type `array`.
    pub fn add_schema(&mut self, e: &Vec<(String, JsonValue)>)
        ensures
            StrategyModel::List(node_view(final(self).items)) == strategy_add_schema(
                StrategyModel::List(node_view(old(self).items)),
                entries_of(e@),
                None,
            ),
        decreases e, 0nat, 0nat,
    {
        proof {
            lemma_entries_of(e@);
        }
        let ii = find_name(e, "items");
        proof {
            lemma_found_at(e@, entries_of(e@), "items"@, ii);
        }
        if let Some(i) = ii {
            if let JsonValue::Object(_) = &e[i].1 {
                self.items.merge_schema(&e[i].1);
            }
        }
    }
}

impl BasicSchemaStrategy {
    /// Merges a schema fragment of this strategy's kind, whose single type
    /// name is `ty` (none for a typeless fragment).
    pub fn add_schema(&mut self, e: &Vec<(String, JsonValue)>, ty: Option<&str>)
        ensures
            strategy_view(*final(self)) == strategy_add_schema(
                strategy_view(*old(self)),
                entries_of(e@),
                opt_text(ty),
            ),
        decreases e, 1nat, 0nat,
    {
        match self {
            BasicSchemaStrategy::Object(o) => o.add_schema(e),
            BasicSchemaStrategy::List(l) => l.add_schema(e),
            BasicSchemaStrategy::Null(x) => merge_entries(&mut x.extra_keywords, e),
            BasicSchemaStrategy::Boolean(x) => merge_entries(&mut x.extra_keywords, e),
            BasicSchemaStrategy::Number(x) => {
                merge_entries(&mut x.extra_keywords, e);
                if let Some(t) = ty {
                    if crate::value::text_eq(t, "number") {
                        x.widened = true;
                    }
                }
            },
            BasicSchemaStrategy::String(x) => merge_entries(&mut x.extra_keywords, e),
        }
    }
}

/// String values, one per name.
pub fn strs_of(names: &Vec<String>) -> (r: Vec<JsonValue>)
    ensures
        json_seq_of(r@) == strs(names_view(names@)),
{
    let mut out: Vec<JsonValue> = Vec::new();
    let mut i: usize = 0;
    assert(json_seq_of(out@) =~= strs(names_view(names@)).subrange(0, 0));
    while i < names.len()
        invariant
            i <= names.len(),
            json_seq_of(out@) == strs(names_view(names@)).subrange(0, i as int),
        decreases names.len() - i,
    {
        let v = JsonValue::Str(names[i].clone());
        proof {
            let pre = out@;
            assert(pre.push(v).subrange(0, pre.len() as int) =~= pre);
            assert(json_seq_of(pre.push(v)) == json_seq_of(pre).push(json_of(v)));
            assert(strs(names_view(names@)).subrange(0, i + 1) =~= strs(names_view(names@)).subrange(
                0,
                i as int,
            ).push(Json::Str(names@[i as int]@)));
        }
        out.push(v);
        i = i + 1;
    }
    assert(strs(names_view(names@)).subrange(0, names.len() as int) =~= strs(names_view(names@)));
    out
}

/// Extra keywords with `type` set to `name`.
fn typed_keywords(kw: &Vec<(String, JsonValue)>, name: &str) -> (r: JsonValue)
    ensures
        json_of(r) == Json::Object(set_key(entries_of(kw@), "type"@, Json::Str(name@))),
{
    let mut e = copy_entries(kw);
    set_entry(&mut e, "type", JsonValue::Str(name.to_string()));
    JsonValue::Object(e)
}

/// The schema of each child node, under its name.
pub fn children_to_schema(props: &Vec<(String, SchemaNode)>) -> (r: Vec<(String, JsonValue)>)
    ensures
        entries_of(r@) == children_schemas(children_view(props@)),
    decreases props,
{
    let mut out: Vec<(String, JsonValue)> = Vec::new();
    let mut i: usize = 0;
    assert(children_view(props@.subrange(0, 0)) =~= Seq::empty());
    assert(entries_of(out@) =~= Seq::empty());
    while i < props.len()
        invariant
            i <= props.len(),
            entries_of(out@) == children_schemas(children_view(props@.subrange(0, i as int))),
        decreases props.len() - i,
    {
        let j = props[i].1.to_schema();
        let k = props[i].0.clone();
        proof {
            assert(props@.subrange(0, i + 1).subrange(0, i as int) =~= props@.subrange(0, i as int));
            let cv = children_view(props@.subrange(0, i + 1));
            assert(props@.subrange(0, i + 1)[i as int] == props@[i as int]);
            assert(cv.subrange(0, cv.len() - 1) =~= children_view(props@.subrange(0, i as int)));
            lemma_entries_push(out@, (k, j));
        }
        out.push((k, j));
        i = i + 1;
    }
    assert(props@.subrange(0, props.len() as int) =~= props@);
    out
}

impl ObjectStrategy {
    /// The object schema: extra keywords, `type`, the properties and pattern
    /// properties when there are any, and the sorted required names when
    /// there are any or an empty list was asked for.
    pub fn to_schema(&self) -> (r: JsonValue)
        ensures
            json_of(r) == object_schema(object_view(*self)),
        decreases self,
    {
        let mut e = copy_entries(&self.extra_keywords);
        set_entry(&mut e, "type", JsonValue::Str("object".to_string()));
        if self.properties.len() > 0 {
            let ps = children_to_schema(&self.properties);
            set_entry(&mut e, "properties", JsonValue::Object(ps));
        }
        if self.pattern_properties.len() > 0 {
            let ps = children_to_schema(&self.pattern_properties);
            set_entry(&mut e, "patternProperties", JsonValue::Object(ps));
        }
        proof {
            lemma_children_view(self.properties@);
            lemma_children_view(self.pattern_properties@);
        }
        let has_required = match &self.required_properties {
            Some(r) => r.len() > 0,
            None => false,
        };
        if has_required || self.include_empty_required {
            let sorted = match &self.required_properties {
                Some(r) => sort_texts(r),
                None => Vec::new(),
            };
            assert(names_view(Seq::<String>::empty()) =~= Seq::empty());
            set_entry(&mut e, "required", JsonValue::Array(strs_of(&sorted)));
        } else {
            remove_entry(&mut e, "required");
        }
        JsonValue::Object(e)
    }
}

impl ListStrategy {
    /// `type` `array`, with the items schema once the items node has received anything.
    pub fn to_schema(&self) -> (r: JsonValue)
        ensures
            json_of(r) == strategy_schema(StrategyModel::List(node_view(self.items))),
        decreases self,
    {
        proof {
            crate::node::lemma_strategies_view(self.items.strategies@);
        }
        let mut e: Vec<(String, JsonValue)> = Vec::new();
        let t = JsonValue::Str("array".to_string());
        let tk = "type".to_string();
        proof {
            assert(entries_of(e@) =~= Seq::empty());
            lemma_entries_push(e@, (tk, t));
        }
        e.push((tk, t));
        let ghost first = ("type"@, Json::Str("array"@));
        assert(entries_of(e@) =~= seq![first]);
        if self.items.strategies.len() > 0 || self.items.typeless.is_some() {
            let it = self.items.to_schema();
            let ik = "items".to_string();
            proof {
                lemma_entries_push(e@, (ik, it));
            }
            e.push((ik, it));
            assert(entries_of(e@) =~= seq![first, ("items"@, node_schema(node_view(self.items)))]);
        }
        JsonValue::Object(e)
    }
}

impl BasicSchemaStrategy {
    /// This strategy's own schema.
    pub fn to_schema(&self) -> (r: JsonValue)
        ensures
            json_of(r) == strategy_schema(strategy_view(*self)),
        decreases self,
    {
        match self {
            BasicSchemaStrategy::Object(o) => o.to_schema(),
            BasicSchemaStrategy::List(l) => l.to_schema(),
            BasicSchemaStrategy::Null(x) => typed_keywords(&x.extra_keywords, "null"),
            BasicSchemaStrategy::Boolean(x) => typed_keywords(&x.extra_keywords, "boolean"),
            BasicSchemaStrategy::Number(x) => {
                if x.widened {
                    typed_keywords(&x.extra_keywords, "number")
                } else {
                    typed_keywords(&x.extra_keywords, "integer")
                }
            },
            BasicSchemaStrategy::String(x) => typed_keywords(&x.extra_keywords, "string"),
        }
    }
}

/// The kind that a schema fragment with a single type name belongs to.
pub open spec fn fragment_kind(s: Json) -> Option<Kind> {
    match s {
        Json::Object(e) => match single_type(e) {
            Some(t) => type_kind(t, e),
            None => None,
        },
        _ => None,
    }
}

/// Computes `fragment_kind`.
pub fn schema_kind(schema: &JsonValue) -> (r: Option<Kind>)
    ensures
        r == fragment_kind(json_of(*schema)),
{
    match schema {
        JsonValue::Object(e) => match single_type_of(e) {
            Some(t) => kind_for_type(t, e),
            None => None,
        },
        _ => None,
    }
}

} // verus!
