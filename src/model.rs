use vstd::prelude::*;

use crate::pattern::pattern_search;
use crate::value::{has_key, key_pos, lookup, merge_keywords, remove_key, set_key, Entries, Json};

verus! {

/// The kinds a concrete strategy can have.
#[derive(Clone, Copy, PartialEq, Eq, Structural, Debug)]
pub enum Kind {
    Object,
    Array,
    Null,
    Boolean,
    Number,
    Str,
}

/// What an object strategy knows: extra keywords, the child node of each
/// exact property and of each pattern property, the required names (unset
/// until the first object or `required` list), and whether an empty
/// `required` list was asked for.
pub struct ObjectModel {
    pub keywords: Entries,
    pub properties: Seq<(Seq<char>, NodeModel)>,
    pub patterns: Seq<(Seq<char>, NodeModel)>,
    pub required: Option<Seq<Seq<char>>>,
    pub force_required: bool,
}

/// What one strategy knows. An array strategy holds the single node that
/// describes all of its elements; a number strategy also knows whether it
/// has widened from `integer` to `number`.
pub enum StrategyModel {
    Object(ObjectModel),
    List(NodeModel),
    Null(Entries),
    Boolean(Entries),
    Number(Entries, bool),
    Str(Entries),
}

/// The typeless placeholder: the keywords of the fragments without a type
/// (first write wins), and the nodes that the first `properties`,
/// `patternProperties` and `items` members among them build, so that a new
/// strategy takes over the placeholder as if the keywords were merged into it.
pub struct TypelessModel {
    pub keywords: Entries,
    pub properties: Seq<(Seq<char>, NodeModel)>,
    pub patterns: Seq<(Seq<char>, NodeModel)>,
    pub items: Box<NodeModel>,
}

/// What a schema node knows: the typeless placeholder, held until
/// the first concrete strategy appears, and the concrete strategies in the
/// order they were created.
pub struct NodeModel {
    pub typeless: Option<TypelessModel>,
    pub strategies: Seq<StrategyModel>,
}

pub open spec fn empty_node() -> NodeModel {
    NodeModel { typeless: None, strategies: Seq::empty() }
}

pub open spec fn empty_typeless() -> TypelessModel {
    TypelessModel {
        keywords: Seq::empty(),
        properties: Seq::empty(),
        patterns: Seq::empty(),
        items: Box::new(empty_node()),
    }
}

pub open spec fn empty_object() -> ObjectModel {
    ObjectModel {
        keywords: Seq::empty(),
        properties: Seq::empty(),
        patterns: Seq::empty(),
        required: None,
        force_required: false,
    }
}

pub open spec fn strategy_kind(s: StrategyModel) -> Kind {
    match s {
        StrategyModel::Object(_) => Kind::Object,
        StrategyModel::List(_) => Kind::Array,
        StrategyModel::Null(_) => Kind::Null,
        StrategyModel::Boolean(_) => Kind::Boolean,
        StrategyModel::Number(_, _) => Kind::Number,
        StrategyModel::Str(_) => Kind::Str,
    }
}

/// The kind of strategy that describes a data value.
pub open spec fn value_kind(v: Json) -> Kind {
    match v {
        Json::Object(_) => Kind::Object,
        Json::Array(_) => Kind::Array,
        Json::Null => Kind::Null,
        Json::Bool(_) => Kind::Boolean,
        Json::Integer(_) => Kind::Number,
        Json::Real(_) => Kind::Number,
        Json::Str(_) => Kind::Str,
    }
}

/// The kind of strategy that a fragment with members `e` and the single type
/// name `t` belongs to; an array fragment needs an object under `items`.
pub open spec fn type_kind(t: Seq<char>, e: Entries) -> Option<Kind> {
    if t == "object"@ {
        Some(Kind::Object)
    } else if t == "array"@ && lookup(e, "items"@) matches Some(Json::Object(_)) {
        Some(Kind::Array)
    } else if t == "null"@ {
        Some(Kind::Null)
    } else if t == "boolean"@ {
        Some(Kind::Boolean)
    } else if t == "integer"@ || t == "number"@ {
        Some(Kind::Number)
    } else if t == "string"@ {
        Some(Kind::Str)
    } else {
        None
    }
}

pub open spec fn has_kind(sts: Seq<StrategyModel>, k: Kind) -> bool {
    exists|i: int| 0 <= i < sts.len() && strategy_kind(sts[i]) == k
}

/// The position of the strategy of kind `k`, or -1.
pub open spec fn kind_pos(sts: Seq<StrategyModel>, k: Kind) -> int {
    if has_kind(sts, k) {
        choose|i: int| 0 <= i < sts.len() && strategy_kind(sts[i]) == k && forall|j: int|
            0 <= j < i ==> strategy_kind(sts[j]) != k
    } else {
        -1
    }
}

/// The position of the first pattern that matches `key`, or -1.
pub open spec fn pattern_pos(pats: Seq<(Seq<char>, NodeModel)>, key: Seq<char>) -> int {
    if exists|i: int| 0 <= i < pats.len() && pattern_search(pats[i].0, key) == Some(true) {
        choose|i: int|
            0 <= i < pats.len() && pattern_search(pats[i].0, key) == Some(true) && forall|j: int|
                0 <= j < i ==> pattern_search(pats[j].0, key) != Some(true)
    } else {
        -1
    }
}

pub open spec fn new_strategy(k: Kind) -> StrategyModel {
    match k {
        Kind::Object => StrategyModel::Object(empty_object()),
        Kind::Array => StrategyModel::List(empty_node()),
        Kind::Null => StrategyModel::Null(Seq::empty()),
        Kind::Boolean => StrategyModel::Boolean(Seq::empty()),
        Kind::Number => StrategyModel::Number(Seq::empty(), false),
        Kind::Str => StrategyModel::Str(Seq::empty()),
    }
}

/// A new strategy of kind `k` that takes over the placeholder `t`: its
/// keywords, and for an object the nodes of `properties` and
/// `patternProperties` and the names of a `required` list, for an array the
/// node of `items`.
pub open spec fn absorbed(k: Kind, t: TypelessModel) -> StrategyModel {
    let kw = merge_keywords(Seq::empty(), t.keywords);
    match k {
        Kind::Object => StrategyModel::Object(
            ObjectModel {
                keywords: kw,
                properties: t.properties,
                patterns: t.patterns,
                required: match array_member(t.keywords, "required"@) {
                    Some(xs) => Some(names_of(xs)),
                    None => None,
                },
                force_required: match array_member(t.keywords, "required"@) {
                    Some(xs) => xs.len() == 0,
                    None => false,
                },
            },
        ),
        Kind::Array => StrategyModel::List(*t.items),
        Kind::Null => StrategyModel::Null(kw),
        Kind::Boolean => StrategyModel::Boolean(kw),
        Kind::Number => StrategyModel::Number(kw, false),
        Kind::Str => StrategyModel::Str(kw),
    }
}

/// The strategy to feed for kind `k`: the active one, or a new one that
/// absorbs the typeless placeholder.
pub open spec fn strategy_for(n: NodeModel, k: Kind) -> StrategyModel {
    if has_kind(n.strategies, k) {
        n.strategies[kind_pos(n.strategies, k)]
    } else {
        match n.typeless {
            Some(t) => absorbed(k, t),
            None => new_strategy(k),
        }
    }
}

/// `n` with `s`, the fed strategy of kind `k`, put back in its place.
pub open spec fn put_strategy(n: NodeModel, k: Kind, s: StrategyModel) -> NodeModel {
    if has_kind(n.strategies, k) {
        NodeModel { strategies: n.strategies.update(kind_pos(n.strategies, k), s), ..n }
    } else {
        NodeModel { typeless: None, strategies: n.strategies.push(s) }
    }
}

// ---- merging a data value ----

pub open spec fn node_add_object(n: NodeModel, v: Json) -> NodeModel
    decreases v, 2nat, 0nat,
{
    let k = value_kind(v);
    put_strategy(n, k, strategy_add_object(strategy_for(n, k), v))
}

pub open spec fn strategy_add_object(s: StrategyModel, v: Json) -> StrategyModel
    decreases v, 1nat, 0nat,
{
    match s {
        StrategyModel::Object(o) => match v {
            Json::Object(entries) => StrategyModel::Object(object_add_object(o, entries)),
            _ => s,
        },
        StrategyModel::List(items) => match v {
            Json::Array(xs) => StrategyModel::List(node_add_items(items, xs)),
            _ => s,
        },
        StrategyModel::Number(kw, w) => StrategyModel::Number(kw, w || v is Real),
        _ => s,
    }
}

/// Every element of an array fed, in order, to the one items node.
pub open spec fn node_add_items(n: NodeModel, xs: Seq<Json>) -> NodeModel
    decreases xs, 0nat, 0nat,
{
    if xs.len() == 0 {
        n
    } else {
        node_add_object(node_add_items(n, xs.subrange(0, xs.len() - 1)), xs[xs.len() - 1])
    }
}

/// The names of `r` that are also in `names`, in the order of `r`.
pub open spec fn keep_listed(r: Seq<Seq<char>>, names: Seq<Seq<char>>) -> Seq<Seq<char>>
    decreases r.len(),
{
    if r.len() == 0 {
        r
    } else {
        let acc = keep_listed(r.drop_last(), names);
        if names.contains(r.last()) {
            acc.push(r.last())
        } else {
            acc
        }
    }
}

pub open spec fn add_name(names: Seq<Seq<char>>, k: Seq<char>) -> Seq<Seq<char>> {
    if names.contains(k) {
        names
    } else {
        names.push(k)
    }
}

pub open spec fn object_add_object(o: ObjectModel, entries: Entries) -> ObjectModel
    decreases entries, 1nat, 0nat,
{
    let (o1, seen) = object_add_members(o, entries);
    ObjectModel {
        required: match o.required {
            None => Some(seen),
            Some(r) => Some(keep_listed(r, seen)),
        },
        ..o1
    }
}

/// The members of an object fed in order: a member whose name is not an
/// exact property and that a pattern matches goes to that pattern's node;
/// any other goes to (a new, if need be) exact property and is recorded as
/// seen. A pattern that is not a valid expression matches nothing.
pub open spec fn object_add_members(o: ObjectModel, entries: Entries) -> (ObjectModel, Seq<
    Seq<char>,
>)
    decreases entries, 0nat, 0nat,
{
    if entries.len() == 0 {
        (o, Seq::empty())
    } else {
        let (o1, seen) = object_add_members(o, entries.subrange(0, entries.len() - 1));
        let k = entries[entries.len() - 1].0;
        let v = entries[entries.len() - 1].1;
        let p = pattern_pos(o1.patterns, k);
        if !has_key(o1.properties, k) && 0 <= p < o1.patterns.len() {
            (
                ObjectModel {
                    patterns: o1.patterns.update(
                        p,
                        (o1.patterns[p].0, node_add_object(o1.patterns[p].1, v)),
                    ),
                    ..o1
                },
                seen,
            )
        } else {
            let i = key_pos(o1.properties, k);
            let props = if 0 <= i < o1.properties.len() {
                o1.properties.update(i, (k, node_add_object(o1.properties[i].1, v)))
            } else {
                o1.properties.push((k, node_add_object(empty_node(), v)))
            };
            (ObjectModel { properties: props, ..o1 }, add_name(seen, k))
        }
    }
}

// ---- merging a schema fragment ----

/// The distinct string members of a `required` list, in order.
pub open spec fn names_of(xs: Seq<Json>) -> Seq<Seq<char>>
    decreases xs.len(),
{
    if xs.len() == 0 {
        Seq::empty()
    } else {
        let acc = names_of(xs.drop_last());
        match xs.last() {
            Json::Str(s) => add_name(acc, s),
            _ => acc,
        }
    }
}

/// The member under `k` of a fragment, when it is an array.
pub open spec fn array_member(e: Entries, k: Seq<char>) -> Option<Seq<Json>> {
    match lookup(e, k) {
        Some(Json::Array(m)) => Some(m),
        _ => None,
    }
}

/// The single type name of a fragment, when its `type` is a string.
pub open spec fn single_type(e: Entries) -> Option<Seq<char>> {
    match lookup(e, "type"@) {
        Some(Json::Str(t)) => Some(t),
        _ => None,
    }
}

pub open spec fn node_add_schema(n: NodeModel, s: Json) -> NodeModel
    decreases s, 4nat, 0nat,
{
    match s {
        Json::Object(e) => {
            let a = key_pos(e, "anyOf"@);
            let t = key_pos(e, "type"@);
            if 0 <= a < e.len() && e[a].1 is Array {
                node_add_schemas(n, e[a].1->Array_0)
            } else if 0 <= t < e.len() && e[t].1 is Array {
                node_add_typed(n, e, e[t].1->Array_0)
            } else {
                node_add_atomic(n, e, single_type(e))
            }
        },
        _ => n,
    }
}

/// The members of an `anyOf` list merged in order.
pub open spec fn node_add_schemas(n: NodeModel, xs: Seq<Json>) -> NodeModel
    decreases xs, 0nat, 0nat,
{
    if xs.len() == 0 {
        n
    } else {
        node_add_schema(node_add_schemas(n, xs.subrange(0, xs.len() - 1)), xs[xs.len() - 1])
    }
}

/// A fragment whose `type` is a list, merged once per listed type name.
pub open spec fn node_add_typed(n: NodeModel, e: Entries, types: Seq<Json>) -> NodeModel
    decreases e, 3nat, types.len(),
{
    if types.len() == 0 {
        n
    } else {
        let acc = node_add_typed(n, e, types.subrange(0, types.len() - 1));
        match types[types.len() - 1] {
            Json::Str(t) => node_add_atomic(acc, e, Some(t)),
            _ => acc,
        }
    }
}

/// A fragment with at most one type name merged into its strategy. A typeless
/// fragment goes to the placeholder while there is no concrete strategy, and
/// to the first concrete strategy after that.
pub open spec fn node_add_atomic(n: NodeModel, e: Entries, ty: Option<Seq<char>>) -> NodeModel
    decreases e, 2nat, 0nat,
{
    match ty {
        None => if n.strategies.len() == 0 {
            NodeModel {
                typeless: Some(
                    typeless_add(
                        match n.typeless {
                            Some(t) => t,
                            None => empty_typeless(),
                        },
                        e,
                    ),
                ),
                ..n
            }
        } else {
            NodeModel {
                strategies: n.strategies.update(0, strategy_add_schema(n.strategies[0], e, ty)),
                ..n
            }
        },
        Some(t) => match type_kind(t, e) {
            Some(k) => put_strategy(n, k, strategy_add_schema(strategy_for(n, k), e, ty)),
            None => n,
        },
    }
}

/// A typeless fragment merged into the placeholder: its keywords, and while
/// the placeholder has no `properties` (`patternProperties`, `items`)
/// keyword yet, the nodes that the fragment's object under that name builds.
pub open spec fn typeless_add(t: TypelessModel, e: Entries) -> TypelessModel
    decreases e, 1nat, 1nat,
{
    let pi = key_pos(e, "properties"@);
    let qi = key_pos(e, "patternProperties"@);
    let ii = key_pos(e, "items"@);
    TypelessModel {
        keywords: merge_keywords(t.keywords, e),
        properties: if !has_key(t.keywords, "properties"@) && 0 <= pi < e.len() && e[pi].1 is Object {
            merge_children(t.properties, e[pi].1->Object_0)
        } else {
            t.properties
        },
        patterns: if !has_key(t.keywords, "patternProperties"@) && 0 <= qi < e.len()
            && e[qi].1 is Object {
            merge_children(t.patterns, e[qi].1->Object_0)
        } else {
            t.patterns
        },
        items: if !has_key(t.keywords, "items"@) && 0 <= ii < e.len() && e[ii].1 is Object {
            Box::new(node_add_schema(*t.items, e[ii].1))
        } else {
            t.items
        },
    }
}

pub open spec fn strategy_add_schema(s: StrategyModel, e: Entries, ty: Option<Seq<char>>) -> StrategyModel
    decreases e, 1nat, 0nat,
{
    match s {
        StrategyModel::Object(o) => StrategyModel::Object(object_add_schema(o, e)),
        StrategyModel::List(items) => {
            let ii = key_pos(e, "items"@);
            if 0 <= ii < e.len() && e[ii].1 is Object {
                StrategyModel::List(node_add_schema(items, e[ii].1))
            } else {
                s
            }
        },
        StrategyModel::Null(kw) => StrategyModel::Null(merge_keywords(kw, e)),
        StrategyModel::Boolean(kw) => StrategyModel::Boolean(merge_keywords(kw, e)),
        StrategyModel::Number(kw, w) => StrategyModel::Number(
            merge_keywords(kw, e),
            w || ty == Some("number"@),
        ),
        StrategyModel::Str(kw) => StrategyModel::Str(merge_keywords(kw, e)),
    }
}

/// A fragment merged into an object strategy: its keywords, its
/// `properties` and `patternProperties` members into the child nodes, and its
/// `required` list intersected with the required names (an empty list also
/// asks for an explicit empty `required`).
pub open spec fn object_add_schema(o: ObjectModel, e: Entries) -> ObjectModel
    decreases e, 0nat, 1nat,
{
    let pi = key_pos(e, "properties"@);
    let qi = key_pos(e, "patternProperties"@);
    let props = if 0 <= pi < e.len() && e[pi].1 is Object {
        merge_children(o.properties, e[pi].1->Object_0)
    } else {
        o.properties
    };
    let pats = if 0 <= qi < e.len() && e[qi].1 is Object {
        merge_children(o.patterns, e[qi].1->Object_0)
    } else {
        o.patterns
    };
    let (required, force) = match array_member(e, "required"@) {
        Some(xs) => (
            match o.required {
                None => Some(names_of(xs)),
                Some(r) => Some(keep_listed(r, names_of(xs))),
            },
            o.force_required || xs.len() == 0,
        ),
        None => (o.required, o.force_required),
    };
    ObjectModel {
        keywords: merge_keywords(o.keywords, e),
        properties: props,
        patterns: pats,
        required: required,
        force_required: force,
    }
}

/// Each member of a `properties` (or `patternProperties`) object merged into
/// the child node of that name, created when missing.
pub open spec fn merge_children(props: Seq<(Seq<char>, NodeModel)>, pe: Entries) -> Seq<
    (Seq<char>, NodeModel),
>
    decreases pe, 0nat, 0nat,
{
    if pe.len() == 0 {
        props
    } else {
        let acc = merge_children(props, pe.subrange(0, pe.len() - 1));
        let k = pe[pe.len() - 1].0;
        let v = pe[pe.len() - 1].1;
        let i = key_pos(acc, k);
        if 0 <= i < acc.len() {
            acc.update(i, (k, node_add_schema(acc[i].1, v)))
        } else {
            acc.push((k, node_add_schema(empty_node(), v)))
        }
    }
}

// ---- which fragments are accepted ----

pub open spec fn known_type(t: Json, e: Entries) -> bool {
    match t {
        Json::Str(name) => type_kind(name, e) is Some,
        _ => false,
    }
}

pub open spec fn all_known_types(ts: Seq<Json>, e: Entries) -> bool {
    forall|i: int| 0 <= i < ts.len() ==> known_type(#[trigger] ts[i], e)
}

pub open spec fn all_strings(xs: Seq<Json>) -> bool {
    forall|i: int| 0 <= i < xs.len() ==> #[trigger] xs[i] is Str
}

/// A schema fragment that can be merged: an object; with an `anyOf` list,
/// each of its members can be merged; otherwise its `type`, if present, is a
/// known type name or a list of them (`array` only beside an object under
/// `items`), the members of its `properties` and `patternProperties` objects
/// and its `items` object can be merged, and its `required` list holds strings.
pub open spec fn schema_ok(s: Json) -> bool
    decreases s,
{
    match s {
        Json::Object(e) => {
            let a = key_pos(e, "anyOf"@);
            let t = key_pos(e, "type"@);
            let pi = key_pos(e, "properties"@);
            let qi = key_pos(e, "patternProperties"@);
            let ii = key_pos(e, "items"@);
            if 0 <= a < e.len() && e[a].1 is Array {
                forall|i: int|
                    0 <= i < e[a].1->Array_0.len() ==> schema_ok(#[trigger] e[a].1->Array_0[i])
            } else {
                &&& (0 <= t < e.len() ==> match e[t].1 {
                    Json::Array(ts) => all_known_types(ts, e),
                    other => known_type(other, e),
                })
                &&& (0 <= pi < e.len() && e[pi].1 is Object ==> forall|i: int|
                    0 <= i < e[pi].1->Object_0.len() ==> schema_ok(
                        #[trigger] e[pi].1->Object_0[i].1,
                    ))
                &&& (0 <= qi < e.len() && e[qi].1 is Object ==> forall|i: int|
                    0 <= i < e[qi].1->Object_0.len() ==> schema_ok(
                        #[trigger] e[qi].1->Object_0[i].1,
                    ))
                &&& (0 <= ii < e.len() && e[ii].1 is Object ==> schema_ok(e[ii].1))
                &&& (array_member(e, "required"@) matches Some(xs) ==> all_strings(xs))
            }
        },
        _ => false,
    }
}

// ---- assembling the schema ----

/// Strings ordered by their characters' code points, a prefix first.
pub open spec fn text_less(a: Seq<char>, b: Seq<char>) -> bool
    decreases a.len(),
{
    if a.len() == 0 {
        b.len() > 0
    } else if b.len() == 0 {
        false
    } else if a[0] != b[0] {
        (a[0] as u32) < (b[0] as u32)
    } else {
        text_less(a.subrange(1, a.len() as int), b.subrange(1, b.len() as int))
    }
}

/// Where `x` goes in `s`: before the first element greater than it.
pub open spec fn insert_pos(s: Seq<Seq<char>>, x: Seq<char>) -> int
    decreases s.len(),
{
    if s.len() == 0 {
        0
    } else if text_less(x, s[0]) {
        0
    } else {
        1 + insert_pos(s.subrange(1, s.len() as int), x)
    }
}

/// `names` in ascending order.
pub open spec fn sort_names(names: Seq<Seq<char>>) -> Seq<Seq<char>>
    decreases names.len(),
{
    if names.len() == 0 {
        names
    } else {
        let acc = sort_names(names.drop_last());
        acc.insert(insert_pos(acc, names.last()), names.last())
    }
}

pub open spec fn strs(names: Seq<Seq<char>>) -> Seq<Json> {
    names.map_values(|s: Seq<char>| Json::Str(s))
}

/// A schema that holds nothing but a single type name.
pub open spec fn is_pure_type(j: Json) -> bool {
    match j {
        Json::Object(e) => e.len() == 1 && e[0].0 == "type"@ && e[0].1 is Str,
        _ => false,
    }
}

pub open spec fn pure_type_name(j: Json) -> Seq<char> {
    j->Object_0[0].1->Str_0
}

pub open spec fn node_schema(n: NodeModel) -> Json
    decreases n,
{
    let locals = match n.typeless {
        Some(t) => seq![Json::Object(t.keywords)],
        None => Seq::empty(),
    } + strategies_schemas(n.strategies);
    assemble(locals)
}

/// The local schemas sorted out: pure type names are collected (once each)
/// into one `type` schema, sorted, after the other schemas; one schema stands
/// alone, none gives `{}`, several are wrapped in `anyOf`.
pub open spec fn assemble(locals: Seq<Json>) -> Json {
    let (kept, names) = split_locals(locals);
    let sorted = sort_names(names);
    let all = if sorted.len() == 0 {
        kept
    } else if sorted.len() == 1 {
        kept.push(Json::Object(seq![("type"@, Json::Str(sorted[0]))]))
    } else {
        kept.push(Json::Object(seq![("type"@, Json::Array(strs(sorted)))]))
    };
    if all.len() == 0 {
        Json::Object(Seq::empty())
    } else if all.len() == 1 {
        all[0]
    } else {
        Json::Object(seq![("anyOf"@, Json::Array(all))])
    }
}

pub open spec fn split_locals(locals: Seq<Json>) -> (Seq<Json>, Seq<Seq<char>>)
    decreases locals.len(),
{
    if locals.len() == 0 {
        (Seq::empty(), Seq::empty())
    } else {
        let (kept, names) = split_locals(locals.drop_last());
        let j = locals.last();
        if is_pure_type(j) {
            (kept, add_name(names, pure_type_name(j)))
        } else {
            (kept.push(j), names)
        }
    }
}

pub open spec fn strategies_schemas(sts: Seq<StrategyModel>) -> Seq<Json>
    decreases sts,
{
    if sts.len() == 0 {
        Seq::empty()
    } else {
        strategies_schemas(sts.subrange(0, sts.len() - 1)).push(
            strategy_schema(sts[sts.len() - 1]),
        )
    }
}

pub open spec fn strategy_schema(s: StrategyModel) -> Json
    decreases s,
{
    match s {
        StrategyModel::Object(o) => object_schema(o),
        StrategyModel::List(items) => if node_used(items) {
            Json::Object(seq![("type"@, Json::Str("array"@)), ("items"@, node_schema(items))])
        } else {
            Json::Object(seq![("type"@, Json::Str("array"@))])
        },
        StrategyModel::Null(kw) => Json::Object(set_key(kw, "type"@, Json::Str("null"@))),
        StrategyModel::Boolean(kw) => Json::Object(set_key(kw, "type"@, Json::Str("boolean"@))),
        StrategyModel::Number(kw, w) => Json::Object(
            set_key(kw, "type"@, Json::Str(if w { "number"@ } else { "integer"@ })),
        ),
        StrategyModel::Str(kw) => Json::Object(set_key(kw, "type"@, Json::Str("string"@))),
    }
}

/// A node that has received something.
pub open spec fn node_used(n: NodeModel) -> bool {
    n.typeless is Some || n.strategies.len() > 0
}

pub open spec fn object_schema(o: ObjectModel) -> Json
    decreases o,
{
    let e1 = set_key(o.keywords, "type"@, Json::Str("object"@));
    let e2 = if o.properties.len() > 0 {
        set_key(e1, "properties"@, Json::Object(children_schemas(o.properties)))
    } else {
        e1
    };
    let e3 = if o.patterns.len() > 0 {
        set_key(e2, "patternProperties"@, Json::Object(children_schemas(o.patterns)))
    } else {
        e2
    };
    let req = match o.required {
        Some(r) => r,
        None => Seq::empty(),
    };
    let e4 = if req.len() > 0 || o.force_required {
        set_key(e3, "required"@, Json::Array(strs(sort_names(req))))
    } else {
        remove_key(e3, "required"@)
    };
    Json::Object(e4)
}

pub open spec fn children_schemas(props: Seq<(Seq<char>, NodeModel)>) -> Entries
    decreases props,
{
    if props.len() == 0 {
        Seq::empty()
    } else {
        children_schemas(props.subrange(0, props.len() - 1)).push(
            (props[props.len() - 1].0, node_schema(props[props.len() - 1].1)),
        )
    }
}

// ---- one step of the merge of a data value, per kind of strategy ----

pub proof fn lemma_object_gets_object(o: ObjectModel, v: Json)
    ensures
        v is Object ==> strategy_add_object(StrategyModel::Object(o), v) == StrategyModel::Object(
            object_add_object(o, v->Object_0),
        ),
        !(v is Object) ==> strategy_add_object(StrategyModel::Object(o), v) == StrategyModel::Object(o),
{
}

pub proof fn lemma_list_gets_object(items: NodeModel, v: Json)
    ensures
        strategy_add_object(StrategyModel::List(items), v) == match v {
            Json::Array(xs) => StrategyModel::List(node_add_items(items, xs)),
            _ => StrategyModel::List(items),
        },
{
}

pub proof fn lemma_scalar_gets_object(s: StrategyModel, v: Json)
    requires
        !(s is Object),
        !(s is List),
    ensures
        strategy_add_object(s, v) == match s {
            StrategyModel::Number(kw, w) => StrategyModel::Number(kw, w || v is Real),
            _ => s,
        },
{
}

} // verus!
