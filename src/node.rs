use vstd::prelude::*;

use crate::model::{
    assemble, empty_node, has_kind, is_pure_type, kind_pos, node_add_atomic, node_add_object,
    node_add_schema, node_add_schemas, node_add_typed, node_schema, pure_type_name, put_strategy,
    schema_ok, single_type, sort_names, split_locals, strategies_schemas, strategy_add_schema,
    strategy_for, strategy_kind, strs, type_kind, value_kind, Kind, NodeModel, ObjectModel,
    StrategyModel, TypelessModel,
};
use crate::names::{names_view, push_name, sort_texts};
use crate::shape::{check_schema, SchemaError};
use crate::strategy::{opt_text, strs_of, BasicSchemaStrategy, ObjectStrategy, TypelessStrategy};
use crate::value::{
    copy_entries, entries_of, find_name, json_of, json_seq_of, lemma_entries_of, lemma_entries_push,
    lemma_found_at, lemma_json_seq_of, lemma_json_seq_push, text_eq, Json, JsonValue,
};
use crate::wf::{lemma_tree_add_object, lemma_tree_add_schema, tree_wf};

verus! {

/// The merged knowledge of the shapes seen at one position of a document:
/// the typeless placeholder while there is no concrete strategy,
/// and at most one concrete strategy per kind, in order of creation.
pub struct SchemaNode {
    pub strategies: Vec<BasicSchemaStrategy>,
    pub typeless: Option<TypelessStrategy>,
}

pub open spec fn node_view(n: SchemaNode) -> NodeModel
    decreases n,
{
    NodeModel {
        typeless: match n.typeless {
            Some(t) => Some(typeless_view(t)),
            None => None,
        },
        strategies: strategies_view(n.strategies@),
    }
}

pub open spec fn typeless_view(t: TypelessStrategy) -> TypelessModel
    decreases t,
{
    TypelessModel {
        keywords: entries_of(t.extra_keywords@),
        properties: children_view(t.properties@),
        patterns: children_view(t.pattern_properties@),
        items: Box::new(node_view(*t.items)),
    }
}

pub open spec fn strategies_view(s: Seq<BasicSchemaStrategy>) -> Seq<StrategyModel>
    decreases s,
{
    if s.len() == 0 {
        Seq::empty()
    } else {
        strategies_view(s.subrange(0, s.len() - 1)).push(strategy_view(s[s.len() - 1]))
    }
}

pub open spec fn object_view(o: ObjectStrategy) -> ObjectModel
    decreases o,
{
    ObjectModel {
        keywords: entries_of(o.extra_keywords@),
        properties: children_view(o.properties@),
        patterns: children_view(o.pattern_properties@),
        required: match o.required_properties {
            Some(r) => Some(names_view(r@)),
            None => None,
        },
        force_required: o.include_empty_required,
    }
}

pub open spec fn strategy_view(s: BasicSchemaStrategy) -> StrategyModel
    decreases s,
{
    match s {
        BasicSchemaStrategy::Object(o) => StrategyModel::Object(object_view(o)),
        BasicSchemaStrategy::List(l) => StrategyModel::List(node_view(l.items)),
        BasicSchemaStrategy::Null(x) => StrategyModel::Null(entries_of(x.extra_keywords@)),
        BasicSchemaStrategy::Boolean(x) => StrategyModel::Boolean(entries_of(x.extra_keywords@)),
        BasicSchemaStrategy::Number(x) => StrategyModel::Number(
            entries_of(x.extra_keywords@),
            x.widened,
        ),
        BasicSchemaStrategy::String(x) => StrategyModel::Str(entries_of(x.extra_keywords@)),
    }
}

pub open spec fn children_view(p: Seq<(String, SchemaNode)>) -> Seq<(Seq<char>, NodeModel)>
    decreases p,
{
    if p.len() == 0 {
        Seq::empty()
    } else {
        children_view(p.subrange(0, p.len() - 1)).push(
            (p[p.len() - 1].0@, node_view(p[p.len() - 1].1)),
        )
    }
}

impl View for SchemaNode {
    type V = NodeModel;

    open spec fn view(&self) -> NodeModel {
        node_view(*self)
    }
}

pub proof fn lemma_children_view(p: Seq<(String, SchemaNode)>)
    ensures
        children_view(p).len() == p.len(),
        forall|i: int|
            0 <= i < p.len() ==> #[trigger] children_view(p)[i] == (p[i].0@, node_view(p[i].1)),
    decreases p.len(),
{
    if p.len() > 0 {
        lemma_children_view(p.subrange(0, p.len() - 1));
    }
}

pub proof fn lemma_children_push(p: Seq<(String, SchemaNode)>, x: (String, SchemaNode))
    ensures
        children_view(p.push(x)) == children_view(p).push((x.0@, node_view(x.1))),
{
    assert(p.push(x).subrange(0, p.len() as int) =~= p);
}

pub proof fn lemma_strategies_view(s: Seq<BasicSchemaStrategy>)
    ensures
        strategies_view(s).len() == s.len(),
        forall|i: int| 0 <= i < s.len() ==> #[trigger] strategies_view(s)[i] == strategy_view(s[i]),
    decreases s.len(),
{
    if s.len() > 0 {
        lemma_strategies_view(s.subrange(0, s.len() - 1));
    }
}

pub proof fn lemma_strategies_push(s: Seq<BasicSchemaStrategy>, x: BasicSchemaStrategy)
    ensures
        strategies_view(s.push(x)) == strategies_view(s).push(strategy_view(x)),
{
    assert(s.push(x).subrange(0, s.len() as int) =~= s);
}

/// The kind of strategy that describes `v`.
pub fn kind_of_value(v: &JsonValue) -> (k: Kind)
    ensures
        k == value_kind(json_of(*v)),
{
    match v {
        JsonValue::Object(_) => Kind::Object,
        JsonValue::Array(_) => Kind::Array,
        JsonValue::Null => Kind::Null,
        JsonValue::Bool(_) => Kind::Boolean,
        JsonValue::Integer(_) => Kind::Number,
        JsonValue::Real(_) => Kind::Number,
        JsonValue::Str(_) => Kind::Str,
    }
}

impl SchemaNode {
    pub fn new() -> (r: Self)
        ensures
            r@ == empty_node(),
            tree_wf(r@),
    {
        let r = SchemaNode { strategies: Vec::new(), typeless: None };
        assert(strategies_view(r.strategies@) =~= Seq::empty());
        assert(tree_wf(empty_node()));
        r
    }

    /// The position of the active strategy of kind `k`.
    fn find_kind(&self, k: Kind) -> (r: Option<usize>)
        ensures
            r is Some <==> has_kind(self@.strategies, k),
            match r {
                Some(i) => i < self.strategies@.len() && i as int == kind_pos(self@.strategies, k),
                None => true,
            },
    {
        let ghost sts = self@.strategies;
        proof {
            lemma_strategies_view(self.strategies@);
        }
        let mut i: usize = 0;
        while i < self.strategies.len()
            invariant
                i <= self.strategies@.len(),
                sts == strategies_view(self.strategies@),
                sts.len() == self.strategies@.len(),
                forall|j: int| 0 <= j < sts.len() ==> #[trigger] sts[j] == strategy_view(self.strategies@[j]),
                forall|j: int| 0 <= j < i ==> strategy_kind(#[trigger] sts[j]) != k,
            decreases self.strategies@.len() - i,
        {
            if self.strategies[i].kind() == k {
                proof {
                    assert(strategy_kind(sts[i as int]) == k);
                    let c = choose|c: int|
                        0 <= c < sts.len() && strategy_kind(sts[c]) == k && forall|l: int|
                            0 <= l < c ==> strategy_kind(sts[l]) != k;
                    if c < i {
                        assert(strategy_kind(sts[c]) != k);
                    }
                    if i < c {
                        assert(strategy_kind(sts[i as int]) != k);
                    }
                }
                return Some(i);
            }
            i = i + 1;
        }
        proof {
            if has_kind(sts, k) {
                let c = choose|c: int| 0 <= c < sts.len() && strategy_kind(sts[c]) == k;
                assert(strategy_kind(sts[c]) != k);
            }
        }
        None
    }

    /// Merges a data value into the strategy of its kind, created (taking
    /// over the typeless placeholder) when missing.
    pub fn add_object(&mut self, v: &JsonValue)
        ensures
            final(self)@ == node_add_object(old(self)@, json_of(*v)),
            tree_wf(old(self)@) ==> tree_wf(final(self)@),
        decreases v, 2nat, 0nat,
    {
        proof {
            if tree_wf(self@) {
                lemma_tree_add_object(self@, json_of(*v));
            }
        }
        let k = kind_of_value(v);
        let pos = self.find_kind(k);
        let ghost n0 = self@;
        proof {
            lemma_strategies_view(self.strategies@);
        }
        match pos {
            Some(i) => {
                let ghost before = self.strategies@;
                self.strategies[i].add_object(v);
                proof {
                    lemma_strategies_view(self.strategies@);
                    assert(strategies_view(self.strategies@) =~= n0.strategies.update(
                        i as int,
                        crate::model::strategy_add_object(strategy_for(n0, k), json_of(*v)),
                    ));
                }
            },
            None => {
                let mut s = match self.typeless.take() {
                    Some(t) => BasicSchemaStrategy::from_placeholder(k, t),
                    None => BasicSchemaStrategy::new_for_kind(k),
                };
                s.add_object(v);
                proof {
                    lemma_strategies_push(self.strategies@, s);
                }
                self.strategies.push(s);
                self.typeless = None;
            },
        }
        assert(self@ == put_strategy(n0, k, crate::model::strategy_add_object(strategy_for(n0, k), json_of(*v))));
    }

    /// Merges a schema document, once it is known to be one that can be
    /// merged; otherwise leaves the node as it was and says why not.
    pub fn add_schema(&mut self, schema: &JsonValue) -> (r: Result<(), SchemaError>)
        ensures
            r == (if !(json_of(*schema) is Object) {
                Err(SchemaError::InvalidShape)
            } else if !schema_ok(json_of(*schema)) {
                Err(SchemaError::UnrecognizedKind)
            } else {
                Ok(())
            }),
            r is Ok ==> final(self)@ == node_add_schema(old(self)@, json_of(*schema)),
            r is Err ==> final(self)@ == old(self)@,
            tree_wf(old(self)@) ==> tree_wf(final(self)@),
    {
        proof {
            if tree_wf(self@) {
                lemma_tree_add_schema(self@, json_of(*schema));
            }
        }
        if let JsonValue::Object(_) = schema {
        } else {
            return Err(SchemaError::InvalidShape);
        }
        if !check_schema(schema) {
            return Err(SchemaError::UnrecognizedKind);
        }
        self.merge_schema(schema);
        Ok(())
    }

    /// Merges the schema of another node.
    pub fn add_schema_node(&mut self, node: &SchemaNode) -> (r: Result<(), SchemaError>)
        ensures
            r is Ok <==> schema_ok(node_schema(node@)),
            r is Err ==> r == Err::<(), SchemaError>(SchemaError::UnrecognizedKind),
            r is Ok ==> final(self)@ == node_add_schema(old(self)@, node_schema(node@)),
            r is Err ==> final(self)@ == old(self)@,
            tree_wf(old(self)@) ==> tree_wf(final(self)@),
    {
        let s = node.to_schema();
        proof {
            crate::laws::lemma_node_schema_is_object(node@);
        }
        self.add_schema(&s)
    }

    /// Merges a schema fragment: an `anyOf` list member by member, a list of
    /// type names once per name, anything else into the strategy its single
    /// type name (or its lack of one) selects.
    pub fn merge_schema(&mut self, s: &JsonValue)
        ensures
            final(self)@ == node_add_schema(old(self)@, json_of(*s)),
        decreases s, 4nat, 0nat,
    {
        if let JsonValue::Object(e) = s {
            let ghost ev = entries_of(e@);
            proof {
                lemma_entries_of(e@);
            }
            let a = find_name(e, "anyOf");
            let t = find_name(e, "type");
            proof {
                lemma_found_at(e@, ev, "anyOf"@, a);
                lemma_found_at(e@, ev, "type"@, t);
            }
            if let Some(ai) = a {
                if let JsonValue::Array(xs) = &e[ai].1 {
                    self.merge_schemas(xs);
                    return;
                }
            }
            if let Some(ti) = t {
                if let JsonValue::Array(ts) = &e[ti].1 {
                    self.merge_typed(e, ts);
                    return;
                }
            }
            let ty = single_type_of(e);
            self.merge_atomic(e, ty);
        }
    }

    fn merge_schemas(&mut self, xs: &Vec<JsonValue>)
        ensures
            final(self)@ == node_add_schemas(old(self)@, json_seq_of(xs@)),
        decreases xs, 0nat, 0nat,
    {
        let ghost n0 = self@;
        let mut i: usize = 0;
        assert(json_seq_of(xs@.subrange(0, 0)) =~= Seq::empty());
        while i < xs.len()
            invariant
                i <= xs.len(),
                self@ == node_add_schemas(n0, json_seq_of(xs@.subrange(0, i as int))),
            decreases xs.len() - i,
        {
            proof {
                assert(xs@.subrange(0, i + 1).subrange(0, i as int) =~= xs@.subrange(0, i as int));
                let next = json_seq_of(xs@.subrange(0, i + 1));
                assert(next.subrange(0, next.len() - 1) =~= json_seq_of(xs@.subrange(0, i as int)));
            }
            self.merge_schema(&xs[i]);
            i = i + 1;
        }
        assert(xs@.subrange(0, xs.len() as int) =~= xs@);
    }

    fn merge_typed(&mut self, e: &Vec<(String, JsonValue)>, ts: &Vec<JsonValue>)
        ensures
            final(self)@ == node_add_typed(old(self)@, entries_of(e@), json_seq_of(ts@)),
        decreases e, 3nat, 0nat,
    {
        let ghost n0 = self@;
        let mut i: usize = 0;
        assert(json_seq_of(ts@.subrange(0, 0)) =~= Seq::empty());
        while i < ts.len()
            invariant
                i <= ts.len(),
                self@ == node_add_typed(n0, entries_of(e@), json_seq_of(ts@.subrange(0, i as int))),
            decreases ts.len() - i,
        {
            proof {
                assert(ts@.subrange(0, i + 1).subrange(0, i as int) =~= ts@.subrange(0, i as int));
                let next = json_seq_of(ts@.subrange(0, i + 1));
                assert(next.subrange(0, next.len() - 1) =~= json_seq_of(ts@.subrange(0, i as int)));
                assert(ts@.subrange(0, i + 1)[i as int] == ts@[i as int]);
                assert(next[next.len() - 1] == json_of(ts@[i as int]));
            }
            if let JsonValue::Str(t) = &ts[i] {
                self.merge_atomic(e, Some(t.as_str()));
            }
            i = i + 1;
        }
        assert(ts@.subrange(0, ts.len() as int) =~= ts@);
    }

    fn merge_atomic(&mut self, e: &Vec<(String, JsonValue)>, ty: Option<&str>)
        ensures
            final(self)@ == node_add_atomic(old(self)@, entries_of(e@), opt_text(ty)),
        decreases e, 2nat, 0nat,
    {
        let ghost n0 = self@;
        proof {
            lemma_strategies_view(self.strategies@);
        }
        match ty {
            None => {
                if self.strategies.len() == 0 {
                    let mut t = match self.typeless.take() {
                        Some(t) => t,
                        None => TypelessStrategy::new(),
                    };
                    t.add_schema(e);
                    self.typeless = Some(t);
                } else {
                    self.strategies[0].add_schema(e, None);
                    proof {
                        lemma_strategies_view(self.strategies@);
                        assert(strategies_view(self.strategies@) =~= n0.strategies.update(
                            0,
                            strategy_add_schema(n0.strategies[0], entries_of(e@), None),
                        ));
                    }
                }
            },
            Some(t) => {
                let kind = kind_for_type(t, e);
                if let Some(k) = kind {
                    let pos = self.find_kind(k);
                    match pos {
                        Some(i) => {
                            self.strategies[i].add_schema(e, ty);
                            proof {
                                lemma_strategies_view(self.strategies@);
                                assert(strategies_view(self.strategies@) =~= n0.strategies.update(
                                    i as int,
                                    strategy_add_schema(strategy_for(n0, k), entries_of(e@), opt_text(ty)),
                                ));
                            }
                        },
                        None => {
                            let mut st = match self.typeless.take() {
                                Some(tl) => BasicSchemaStrategy::from_placeholder(k, tl),
                                None => BasicSchemaStrategy::new_for_kind(k),
                            };
                            st.add_schema(e, ty);
                            proof {
                                lemma_strategies_push(self.strategies@, st);
                            }
                            self.strategies.push(st);
                            self.typeless = None;
                        },
                    }
                }
            },
        }
    }
}

/// The single type name of a fragment, when its `type` is a string.
pub fn single_type_of(e: &Vec<(String, JsonValue)>) -> (r: Option<&str>)
    ensures
        opt_text(r) == single_type(entries_of(e@)),
{
    proof {
        lemma_entries_of(e@);
    }
    let t = find_name(e, "type");
    proof {
        lemma_found_at(e@, entries_of(e@), "type"@, t);
    }
    match t {
        Some(i) => match &e[i].1 {
            JsonValue::Str(name) => Some(name.as_str()),
            _ => None,
        },
        None => None,
    }
}

/// The kind of strategy that a fragment with members `e` and the single type
/// name `t` belongs to.
pub fn kind_for_type(t: &str, e: &Vec<(String, JsonValue)>) -> (r: Option<Kind>)
    ensures
        r == type_kind(t@, entries_of(e@)),
{
    if text_eq(t, "object") {
        return Some(Kind::Object);
    }
    if text_eq(t, "array") {
        proof {
            lemma_entries_of(e@);
        }
        let ii = find_name(e, "items");
        proof {
            lemma_found_at(e@, entries_of(e@), "items"@, ii);
        }
        if let Some(i) = ii {
            if let JsonValue::Object(_) = &e[i].1 {
                return Some(Kind::Array);
            }
        }
    }
    if text_eq(t, "null") {
        Some(Kind::Null)
    } else if text_eq(t, "boolean") {
        Some(Kind::Boolean)
    } else if text_eq(t, "integer") || text_eq(t, "number") {
        Some(Kind::Number)
    } else if text_eq(t, "string") {
        Some(Kind::Str)
    } else {
        None
    }
}

/// The type name of a schema that holds nothing else.
pub fn pure_type_of(j: &JsonValue) -> (r: Option<&str>)
    ensures
        match r {
            Some(t) => is_pure_type(json_of(*j)) && t@ == pure_type_name(json_of(*j)),
            None => !is_pure_type(json_of(*j)),
        },
{
    if let JsonValue::Object(e) = j {
        proof {
            lemma_entries_of(e@);
        }
        if e.len() == 1 && text_eq(e[0].0.as_str(), "type") {
            if let JsonValue::Str(t) = &e[0].1 {
                return Some(t.as_str());
            }
        }
    }
    None
}

/// Files one local schema: a pure type name joins `names`, anything else `kept`.
fn file_local(j: JsonValue, kept: &mut Vec<JsonValue>, names: &mut Vec<String>, Ghost(base): Ghost<Seq<Json>>)
    requires
        (json_seq_of(old(kept)@), names_view(old(names)@)) == split_locals(base),
    ensures
        (json_seq_of(final(kept)@), names_view(final(names)@)) == split_locals(base.push(json_of(j))),
{
    assert(base.push(json_of(j)).drop_last() =~= base);
    match pure_type_of(&j) {
        Some(t) => push_name(names, t),
        None => {
            proof {
                let pre = kept@;
                assert(pre.push(j).subrange(0, pre.len() as int) =~= pre);
            }
            kept.push(j);
        },
    }
}

/// Files the schema of each strategy, in order.
fn file_strategies(
    sts: &Vec<BasicSchemaStrategy>,
    kept: &mut Vec<JsonValue>,
    names: &mut Vec<String>,
    Ghost(base): Ghost<Seq<Json>>,
)
    requires
        (json_seq_of(old(kept)@), names_view(old(names)@)) == split_locals(base),
    ensures
        (json_seq_of(final(kept)@), names_view(final(names)@)) == split_locals(
            base + strategies_schemas(strategies_view(sts@)),
        ),
    decreases sts,
{
    let mut i: usize = 0;
    assert(strategies_view(sts@.subrange(0, 0)) =~= Seq::empty());
    assert(base + strategies_schemas(Seq::empty()) =~= base);
    while i < sts.len()
        invariant
            i <= sts.len(),
            (json_seq_of(kept@), names_view(names@)) == split_locals(
                base + strategies_schemas(strategies_view(sts@.subrange(0, i as int))),
            ),
        decreases sts.len() - i,
    {
        let j = sts[i].to_schema();
        proof {
            assert(sts@.subrange(0, i + 1).subrange(0, i as int) =~= sts@.subrange(0, i as int));
            assert(sts@.subrange(0, i + 1)[i as int] == sts@[i as int]);
            let sv = strategies_view(sts@.subrange(0, i + 1));
            assert(sv.subrange(0, sv.len() - 1) =~= strategies_view(sts@.subrange(0, i as int)));
            assert(base + strategies_schemas(sv) =~= (base + strategies_schemas(
                strategies_view(sts@.subrange(0, i as int)),
            )).push(json_of(j)));
        }
        file_local(j, kept, names, Ghost(base + strategies_schemas(strategies_view(sts@.subrange(0, i as int)))));
        i = i + 1;
    }
    assert(sts@.subrange(0, sts.len() as int) =~= sts@);
}

impl SchemaNode {
    /// The schema of everything merged so far: see `assemble`.
    pub fn to_schema(&self) -> (r: JsonValue)
        ensures
            json_of(r) == node_schema(self@),
        decreases self,
    {
        let mut kept: Vec<JsonValue> = Vec::new();
        let mut names: Vec<String> = Vec::new();
        let ghost head: Seq<Json> = match self@.typeless {
            Some(t) => seq![Json::Object(t.keywords)],
            None => Seq::empty(),
        };
        assert(json_seq_of(kept@) =~= Seq::empty());
        assert(names_view(names@) =~= Seq::empty());
        assert(split_locals(Seq::empty()) == (Seq::<Json>::empty(), Seq::<Seq<char>>::empty()));
        if let Some(t) = &self.typeless {
            let j = JsonValue::Object(copy_entries(&t.extra_keywords));
            assert(Seq::<Json>::empty().push(json_of(j)) =~= head);
            file_local(j, &mut kept, &mut names, Ghost(Seq::empty()));
        }
        file_strategies(&self.strategies, &mut kept, &mut names, Ghost(head));
        let sorted = sort_texts(&names);
        let ghost locals = head + strategies_schemas(strategies_view(self.strategies@));
        let ghost sv = sort_names(split_locals(locals).1);
        let ghost kept0 = split_locals(locals).0;
        let ghost all = if sv.len() == 0 {
            kept0
        } else if sv.len() == 1 {
            kept0.push(Json::Object(seq![("type"@, Json::Str(sv[0]))]))
        } else {
            kept0.push(Json::Object(seq![("type"@, Json::Array(strs(sv)))]))
        };
        assert(node_schema(self@) == assemble(locals));
        assert(sv == names_view(sorted@));
        assert(sorted@.len() == sv.len());
        if sorted.len() == 1 {
            let mut e: Vec<(String, JsonValue)> = Vec::new();
            let x = (String::from_str("type"), JsonValue::Str(sorted[0].clone()));
            proof {
                assert(entries_of(e@) =~= Seq::empty());
                lemma_entries_push(e@, x);
                assert(names_view(sorted@)[0] == sorted@[0]@);
            }
            e.push(x);
            assert(entries_of(e@) =~= seq![("type"@, Json::Str(sv[0]))]);
            let v = JsonValue::Object(e);
            proof {
                lemma_json_seq_push(kept@, v);
            }
            kept.push(v);
        } else if sorted.len() > 1 {
            let mut e: Vec<(String, JsonValue)> = Vec::new();
            let x = (String::from_str("type"), JsonValue::Array(strs_of(&sorted)));
            proof {
                assert(entries_of(e@) =~= Seq::empty());
                lemma_entries_push(e@, x);
            }
            e.push(x);
            assert(entries_of(e@) =~= seq![("type"@, Json::Array(strs(sv)))]);
            let v = JsonValue::Object(e);
            proof {
                lemma_json_seq_push(kept@, v);
            }
            kept.push(v);
        }
        assert(json_seq_of(kept@) == all);
        proof {
            lemma_json_seq_of(kept@);
        }
        if kept.len() == 0 {
            let e: Vec<(String, JsonValue)> = Vec::new();
            assert(entries_of(e@) =~= Seq::empty());
            JsonValue::Object(e)
        } else if kept.len() == 1 {
            let r = kept.pop().unwrap();
            r
        } else {
            let mut e: Vec<(String, JsonValue)> = Vec::new();
            let x = (String::from_str("anyOf"), JsonValue::Array(kept));
            proof {
                assert(entries_of(e@) =~= Seq::empty());
                lemma_entries_push(e@, x);
            }
            e.push(x);
            assert(entries_of(e@) =~= seq![("anyOf"@, Json::Array(all))]);
            JsonValue::Object(e)
        }
    }
}

} // verus!
