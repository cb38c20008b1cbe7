use vstd::prelude::*;

use crate::laws::{
    law_empty_placeholder_consistent, law_placeholder_add_consistent, placeholder_consistent,
};
use crate::model::{
    empty_node, empty_typeless, has_kind, kind_pos, merge_children, node_add_atomic, node_add_items,
    node_add_object, node_add_schema, node_add_schemas, node_add_typed, object_add_members,
    object_add_object, object_add_schema, pattern_pos, put_strategy, single_type,
    strategy_add_object, strategy_add_schema, strategy_for, strategy_kind, type_kind, typeless_add,
    value_kind, Kind, NodeModel, ObjectModel, StrategyModel, TypelessModel,
};
use crate::value::{has_key, key_pos, lemma_key_pos_range, Entries, Json};

verus! {

/// No two strategies share a kind.
pub open spec fn kinds_distinct(sts: Seq<StrategyModel>) -> bool {
    forall|i: int, j: int|
        0 <= i < sts.len() && 0 <= j < sts.len() && i != j ==> strategy_kind(sts[i])
            != strategy_kind(sts[j])
}

/// A well-formed node: the typeless placeholder only while there is no
/// concrete strategy, and at most one strategy per kind.
pub open spec fn node_wf(n: NodeModel) -> bool {
    &&& (n.typeless is Some ==> n.strategies.len() == 0)
    &&& kinds_distinct(n.strategies)
}

proof fn lemma_kind_pos(sts: Seq<StrategyModel>, k: Kind)
    requires
        has_kind(sts, k),
    ensures
        0 <= kind_pos(sts, k) < sts.len(),
        strategy_kind(sts[kind_pos(sts, k)]) == k,
{
    let i = choose|i: int| 0 <= i < sts.len() && strategy_kind(sts[i]) == k;
    lemma_first_kind(sts, k, i);
}

proof fn lemma_first_kind(sts: Seq<StrategyModel>, k: Kind, i: int)
    requires
        0 <= i < sts.len(),
        strategy_kind(sts[i]) == k,
    ensures
        exists|c: int|
            0 <= c < sts.len() && strategy_kind(sts[c]) == k && forall|l: int|
                0 <= l < c ==> strategy_kind(sts[l]) != k,
    decreases i,
{
    if exists|j: int| 0 <= j < i && strategy_kind(sts[j]) == k {
        let j = choose|j: int| 0 <= j < i && strategy_kind(sts[j]) == k;
        lemma_first_kind(sts, k, j);
    } else {
        assert(forall|l: int| 0 <= l < i ==> strategy_kind(sts[l]) != k);
    }
}

/// Where strategies have distinct kinds, the one of kind `k` is the one at `p`.
pub proof fn lemma_kind_pos_unique(sts: Seq<StrategyModel>, k: Kind, p: int)
    requires
        kinds_distinct(sts),
        0 <= p < sts.len(),
        strategy_kind(sts[p]) == k,
    ensures
        has_kind(sts, k),
        kind_pos(sts, k) == p,
{
    lemma_kind_pos(sts, k);
}

proof fn lemma_strategy_for(n: NodeModel, k: Kind)
    requires
        node_wf(n),
    ensures
        strategy_kind(strategy_for(n, k)) == k,
{
    if has_kind(n.strategies, k) {
        lemma_kind_pos(n.strategies, k);
    }
}

proof fn lemma_put_strategy(n: NodeModel, k: Kind, s: StrategyModel)
    requires
        node_wf(n),
        strategy_kind(s) == k,
    ensures
        node_wf(put_strategy(n, k, s)),
{
    let r = put_strategy(n, k, s);
    if has_kind(n.strategies, k) {
        lemma_kind_pos(n.strategies, k);
        let p = kind_pos(n.strategies, k);
        assert(kinds_distinct(r.strategies)) by {
            assert forall|i: int, j: int|
                0 <= i < r.strategies.len() && 0 <= j < r.strategies.len() && i != j implies strategy_kind(
                r.strategies[i],
            ) != strategy_kind(r.strategies[j]) by {
                assert(strategy_kind(r.strategies[i]) == strategy_kind(n.strategies[i]));
                assert(strategy_kind(r.strategies[j]) == strategy_kind(n.strategies[j]));
            }
        }
    } else {
        assert(kinds_distinct(r.strategies)) by {
            assert forall|i: int, j: int|
                0 <= i < r.strategies.len() && 0 <= j < r.strategies.len() && i != j implies strategy_kind(
                r.strategies[i],
            ) != strategy_kind(r.strategies[j]) by {
                if i < n.strategies.len() && j < n.strategies.len() {
                    assert(r.strategies[i] == n.strategies[i]);
                    assert(r.strategies[j] == n.strategies[j]);
                } else if i < n.strategies.len() {
                    assert(r.strategies[i] == n.strategies[i]);
                    assert(strategy_kind(n.strategies[i]) != k);
                } else {
                    assert(r.strategies[j] == n.strategies[j]);
                    assert(strategy_kind(n.strategies[j]) != k);
                }
            }
        }
    }
}

proof fn lemma_strategy_add_object_kind(s: StrategyModel, v: Json)
    ensures
        strategy_kind(strategy_add_object(s, v)) == strategy_kind(s),
{
}

proof fn lemma_strategy_add_schema_kind(s: StrategyModel, e: Entries, ty: Option<Seq<char>>)
    ensures
        strategy_kind(strategy_add_schema(s, e, ty)) == strategy_kind(s),
{
}

/// Merging a schema fragment keeps a node well-formed.
pub proof fn lemma_add_schema_wf(n: NodeModel, s: Json)
    requires
        node_wf(n),
    ensures
        node_wf(node_add_schema(n, s)),
    decreases s, 4nat, 0nat,
{
    match s {
        Json::Object(e) => {
            let a = key_pos(e, "anyOf"@);
            let t = key_pos(e, "type"@);
            if 0 <= a < e.len() && e[a].1 is Array {
                lemma_add_schemas_wf(n, e[a].1->Array_0);
            } else if 0 <= t < e.len() && e[t].1 is Array {
                lemma_add_typed_wf(n, e, e[t].1->Array_0);
            } else {
                lemma_add_atomic_wf(n, e, single_type(e));
            }
        },
        _ => {},
    }
}

proof fn lemma_add_schemas_wf(n: NodeModel, xs: Seq<Json>)
    requires
        node_wf(n),
    ensures
        node_wf(node_add_schemas(n, xs)),
    decreases xs, 0nat, 0nat,
{
    if xs.len() > 0 {
        lemma_add_schemas_wf(n, xs.subrange(0, xs.len() - 1));
        lemma_add_schema_wf(node_add_schemas(n, xs.subrange(0, xs.len() - 1)), xs[xs.len() - 1]);
    }
}

proof fn lemma_add_typed_wf(n: NodeModel, e: Entries, types: Seq<Json>)
    requires
        node_wf(n),
    ensures
        node_wf(node_add_typed(n, e, types)),
    decreases e, 3nat, types.len(),
{
    if types.len() > 0 {
        lemma_add_typed_wf(n, e, types.subrange(0, types.len() - 1));
        match types[types.len() - 1] {
            Json::Str(t) => lemma_add_atomic_wf(
                node_add_typed(n, e, types.subrange(0, types.len() - 1)),
                e,
                Some(t),
            ),
            _ => {},
        }
    }
}

proof fn lemma_add_atomic_wf(n: NodeModel, e: Entries, ty: Option<Seq<char>>)
    requires
        node_wf(n),
    ensures
        node_wf(node_add_atomic(n, e, ty)),
{
    match ty {
        None => {
            if n.strategies.len() > 0 {
                lemma_strategy_add_schema_kind(n.strategies[0], e, ty);
                let r = node_add_atomic(n, e, ty);
                assert(kinds_distinct(r.strategies)) by {
                    assert forall|i: int, j: int|
                        0 <= i < r.strategies.len() && 0 <= j < r.strategies.len() && i != j implies strategy_kind(
                        r.strategies[i],
                    ) != strategy_kind(r.strategies[j]) by {
                        assert(strategy_kind(r.strategies[i]) == strategy_kind(n.strategies[i]));
                        assert(strategy_kind(r.strategies[j]) == strategy_kind(n.strategies[j]));
                    }
                }
            }
        },
        Some(t) => match type_kind(t, e) {
            Some(k) => {
                lemma_strategy_for(n, k);
                lemma_strategy_add_schema_kind(strategy_for(n, k), e, ty);
                lemma_put_strategy(n, k, strategy_add_schema(strategy_for(n, k), e, ty));
            },
            None => {},
        },
    }
}

/// No two children share a name.
pub open spec fn names_unique(p: Seq<(Seq<char>, NodeModel)>) -> bool {
    forall|i: int, j: int| 0 <= i < p.len() && 0 <= j < p.len() && i != j ==> p[i].0 != p[j].0
}

/// A well-formed tree: this node and every node below it well-formed, and
/// the children of each object strategy named once each.
pub open spec fn tree_wf(n: NodeModel) -> bool
    decreases n,
{
    &&& node_wf(n)
    &&& forall|i: int| 0 <= i < n.strategies.len() ==> strategy_tree_wf(#[trigger] n.strategies[i])
    &&& n.typeless matches Some(t) ==> typeless_tree_wf(t)
}

/// The nodes a placeholder holds are those its keywords build, and form
/// well-formed trees, named once each.
pub open spec fn typeless_tree_wf(t: TypelessModel) -> bool
    decreases t,
{
    &&& placeholder_consistent(t)
    &&& names_unique(t.properties)
    &&& names_unique(t.patterns)
    &&& forall|i: int| 0 <= i < t.properties.len() ==> tree_wf(#[trigger] t.properties[i].1)
    &&& forall|i: int| 0 <= i < t.patterns.len() ==> tree_wf(#[trigger] t.patterns[i].1)
    &&& tree_wf(*t.items)
}

pub open spec fn strategy_tree_wf(s: StrategyModel) -> bool
    decreases s,
{
    match s {
        StrategyModel::Object(o) => {
            &&& names_unique(o.properties)
            &&& names_unique(o.patterns)
            &&& forall|i: int| 0 <= i < o.properties.len() ==> tree_wf(#[trigger] o.properties[i].1)
            &&& forall|i: int| 0 <= i < o.patterns.len() ==> tree_wf(#[trigger] o.patterns[i].1)
        },
        StrategyModel::List(items) => tree_wf(items),
        _ => true,
    }
}

pub open spec fn children_tree_wf(p: Seq<(Seq<char>, NodeModel)>) -> bool {
    names_unique(p) && forall|i: int| 0 <= i < p.len() ==> tree_wf(#[trigger] p[i].1)
}

/// What a child merge keeps, when every child of a well-formed tree stays one.
pub open spec fn merge_keeps_tree(v: Json) -> bool {
    forall|c: NodeModel| tree_wf(c) ==> #[trigger] tree_wf(node_add_object(c, v))
}

proof fn lemma_tree_step_children(o1: ObjectModel, r: ObjectModel, k: Seq<char>, v: Json)
    requires
        children_tree_wf(o1.properties),
        children_tree_wf(o1.patterns),
        step_shape(o1, r, k, v),
        merge_keeps_tree(v),
    ensures
        children_tree_wf(r.properties),
        children_tree_wf(r.patterns),
{
    reveal(step_shape);
    let p = pattern_pos(o1.patterns, k);
    let i = key_pos(o1.properties, k);
    lemma_key_pos_range(o1.properties, k);
    assert(tree_wf(empty_node()));
    if 0 <= p < o1.patterns.len() && r.properties == o1.properties && r.patterns
        == o1.patterns.update(p, (o1.patterns[p].0, node_add_object(o1.patterns[p].1, v))) {
        assert(tree_wf(node_add_object(o1.patterns[p].1, v)));
        let q = r.patterns;
        assert forall|a: int, b: int| 0 <= a < q.len() && 0 <= b < q.len() && a != b implies q[a].0
            != q[b].0 by {
            assert(q[a].0 == o1.patterns[a].0);
            assert(q[b].0 == o1.patterns[b].0);
        }
        assert forall|a: int| 0 <= a < q.len() implies tree_wf(#[trigger] q[a].1) by {
            if a != p {
                assert(q[a] == o1.patterns[a]);
            }
        }
    } else if 0 <= i < o1.properties.len() {
        assert(tree_wf(node_add_object(o1.properties[i].1, v)));
        let q = r.properties;
        assert forall|a: int, b: int| 0 <= a < q.len() && 0 <= b < q.len() && a != b implies q[a].0
            != q[b].0 by {
            assert(q[a].0 == o1.properties[a].0);
            assert(q[b].0 == o1.properties[b].0);
        }
        assert forall|a: int| 0 <= a < q.len() implies tree_wf(#[trigger] q[a].1) by {
            if a != i {
                assert(q[a] == o1.properties[a]);
            }
        }
    } else {
        assert(tree_wf(node_add_object(empty_node(), v)));
        let q = r.properties;
        assert(!has_key(o1.properties, k));
        assert forall|a: int, b: int| 0 <= a < q.len() && 0 <= b < q.len() && a != b implies q[a].0
            != q[b].0 by {
            if a < o1.properties.len() && b < o1.properties.len() {
                assert(q[a] == o1.properties[a] && q[b] == o1.properties[b]);
            } else if a < o1.properties.len() {
                assert(q[a] == o1.properties[a]);
                assert(o1.properties[a].0 != k);
            } else {
                assert(q[b] == o1.properties[b]);
                assert(o1.properties[b].0 != k);
            }
        }
        assert forall|a: int| 0 <= a < q.len() implies tree_wf(#[trigger] q[a].1) by {
            if a < o1.properties.len() {
                assert(q[a] == o1.properties[a]);
            }
        }
    }
}

proof fn lemma_tree_members(o: ObjectModel, entries: Entries)
    requires
        children_tree_wf(o.properties),
        children_tree_wf(o.patterns),
        forall|i: int| 0 <= i < entries.len() ==> merge_keeps_tree(#[trigger] entries[i].1),
    ensures
        children_tree_wf(object_add_members(o, entries).0.properties),
        children_tree_wf(object_add_members(o, entries).0.patterns),
    decreases entries.len(),
{
    if entries.len() > 0 {
        let prev = entries.subrange(0, entries.len() - 1);
        assert forall|i: int| 0 <= i < prev.len() implies merge_keeps_tree(#[trigger] prev[i].1) by {
            assert(prev[i] == entries[i]);
        }
        lemma_tree_members(o, prev);
        lemma_member_step(o, entries);
        assert(merge_keeps_tree(entries[entries.len() - 1].1));
        lemma_tree_step_children(
            object_add_members(o, prev).0,
            object_add_members(o, entries).0,
            entries[entries.len() - 1].0,
            entries[entries.len() - 1].1,
        );
    }
}

/// How one member changes an object strategy's children (see `object_add_members`).
#[verifier::opaque]
pub open spec fn step_shape(o1: ObjectModel, r: ObjectModel, k: Seq<char>, v: Json) -> bool {
    let p = pattern_pos(o1.patterns, k);
    let i = key_pos(o1.properties, k);
    ||| (0 <= p < o1.patterns.len() && r.properties == o1.properties && r.patterns
        == o1.patterns.update(p, (o1.patterns[p].0, node_add_object(o1.patterns[p].1, v))))
    ||| (r.patterns == o1.patterns && 0 <= i < o1.properties.len() && r.properties
        == o1.properties.update(i, (k, node_add_object(o1.properties[i].1, v))))
    ||| (r.patterns == o1.patterns && !(0 <= i < o1.properties.len()) && r.properties
        == o1.properties.push((k, node_add_object(empty_node(), v))))
}

/// One step of `object_add_members`: the last member goes to its pattern's
/// node, to its exact property's node, or to a new exact property.
proof fn lemma_member_step(o: ObjectModel, entries: Entries)
    requires
        entries.len() > 0,
    ensures
        step_shape(
            object_add_members(o, entries.subrange(0, entries.len() - 1)).0,
            object_add_members(o, entries).0,
            entries[entries.len() - 1].0,
            entries[entries.len() - 1].1,
        ),
{
    reveal(step_shape);
}

proof fn lemma_tree_strategy_for(n: NodeModel, k: Kind)
    requires
        tree_wf(n),
    ensures
        strategy_tree_wf(strategy_for(n, k)),
{
    if has_kind(n.strategies, k) {
        lemma_kind_pos(n.strategies, k);
    } else {
        assert(tree_wf(empty_node()));
        match n.typeless {
            Some(t) => {
                assert(typeless_tree_wf(t));
                assert(children_tree_wf(t.properties));
                assert(children_tree_wf(t.patterns));
            },
            None => {},
        }
    }
}

proof fn lemma_tree_put(n: NodeModel, k: Kind, s: StrategyModel)
    requires
        tree_wf(n),
        strategy_tree_wf(s),
        strategy_kind(s) == k,
    ensures
        tree_wf(put_strategy(n, k, s)),
{
    lemma_put_strategy(n, k, s);
    let r = put_strategy(n, k, s);
    if has_kind(n.strategies, k) {
        lemma_kind_pos(n.strategies, k);
        let p = kind_pos(n.strategies, k);
        assert forall|i: int| 0 <= i < r.strategies.len() implies strategy_tree_wf(
            #[trigger] r.strategies[i],
        ) by {
            if i != p {
                assert(r.strategies[i] == n.strategies[i]);
            }
        }
    } else {
        assert forall|i: int| 0 <= i < r.strategies.len() implies strategy_tree_wf(
            #[trigger] r.strategies[i],
        ) by {
            if i < n.strategies.len() {
                assert(r.strategies[i] == n.strategies[i]);
            }
        }
    }
}

/// Merging a data value keeps every node of a well-formed tree well-formed.
pub proof fn lemma_tree_add_object(n: NodeModel, v: Json)
    requires
        tree_wf(n),
    ensures
        tree_wf(node_add_object(n, v)),
    decreases v, 2nat, 0nat,
{
    let k = value_kind(v);
    lemma_strategy_for(n, k);
    lemma_tree_strategy_for(n, k);
    lemma_tree_strategy_add_object(strategy_for(n, k), v);
    lemma_strategy_add_object_kind(strategy_for(n, k), v);
    lemma_tree_put(n, k, strategy_add_object(strategy_for(n, k), v));
}

proof fn lemma_tree_strategy_add_object(s: StrategyModel, v: Json)
    requires
        strategy_tree_wf(s),
    ensures
        strategy_tree_wf(strategy_add_object(s, v)),
    decreases v, 1nat, 0nat,
{
    match s {
        StrategyModel::Object(o) => match v {
            Json::Object(entries) => {
                lemma_tree_object_add_object(o, entries);
            },
            _ => {},
        },
        StrategyModel::List(items) => match v {
            Json::Array(xs) => {
                lemma_tree_add_items(items, xs);
            },
            _ => {},
        },
        _ => {},
    }
}

proof fn lemma_tree_add_items(n: NodeModel, xs: Seq<Json>)
    requires
        tree_wf(n),
    ensures
        tree_wf(node_add_items(n, xs)),
    decreases xs, 0nat, 0nat,
{
    if xs.len() > 0 {
        lemma_tree_add_items(n, xs.subrange(0, xs.len() - 1));
        lemma_tree_add_object(node_add_items(n, xs.subrange(0, xs.len() - 1)), xs[xs.len() - 1]);
    }
}

proof fn lemma_tree_object_add_object(o: ObjectModel, entries: Entries)
    requires
        strategy_tree_wf(StrategyModel::Object(o)),
    ensures
        strategy_tree_wf(StrategyModel::Object(object_add_object(o, entries))),
    decreases entries, 1nat, 0nat,
{
    assert forall|i: int| 0 <= i < entries.len() implies merge_keeps_tree(#[trigger] entries[i].1) by {
        assert forall|c: NodeModel| tree_wf(c) implies #[trigger] tree_wf(
            node_add_object(c, entries[i].1),
        ) by {
            lemma_tree_add_object(c, entries[i].1);
        }
    }
    lemma_tree_members(o, entries);
    let r = object_add_object(o, entries);
    assert(r.properties == object_add_members(o, entries).0.properties);
    assert(r.patterns == object_add_members(o, entries).0.patterns);
}

/// What a child merge keeps, when every child of a well-formed tree stays one.
pub open spec fn schema_keeps_tree(v: Json) -> bool {
    forall|c: NodeModel| tree_wf(c) ==> #[trigger] tree_wf(node_add_schema(c, v))
}

proof fn lemma_tree_merge_children(props: Seq<(Seq<char>, NodeModel)>, pe: Entries)
    requires
        children_tree_wf(props),
        forall|i: int| 0 <= i < pe.len() ==> schema_keeps_tree(#[trigger] pe[i].1),
    ensures
        children_tree_wf(merge_children(props, pe)),
    decreases pe.len(),
{
    if pe.len() > 0 {
        let prev = pe.subrange(0, pe.len() - 1);
        assert forall|i: int| 0 <= i < prev.len() implies schema_keeps_tree(#[trigger] prev[i].1) by {
            assert(prev[i] == pe[i]);
        }
        lemma_tree_merge_children(props, prev);
        let acc = merge_children(props, prev);
        let k = pe[pe.len() - 1].0;
        let v = pe[pe.len() - 1].1;
        assert(schema_keeps_tree(v));
        let i = key_pos(acc, k);
        lemma_key_pos_range(acc, k);
        assert(tree_wf(empty_node()));
        let q = merge_children(props, pe);
        if 0 <= i < acc.len() {
            assert(q == acc.update(i, (k, node_add_schema(acc[i].1, v))));
            assert(tree_wf(node_add_schema(acc[i].1, v)));
            assert forall|a: int, b: int| 0 <= a < q.len() && 0 <= b < q.len() && a != b implies q[a].0
                != q[b].0 by {
                assert(q[a].0 == acc[a].0);
                assert(q[b].0 == acc[b].0);
            }
            assert forall|a: int| 0 <= a < q.len() implies tree_wf(#[trigger] q[a].1) by {
                if a != i {
                    assert(q[a] == acc[a]);
                }
            }
        } else {
            assert(q == acc.push((k, node_add_schema(empty_node(), v))));
            assert(tree_wf(node_add_schema(empty_node(), v)));
            assert(!has_key(acc, k));
            assert forall|a: int, b: int| 0 <= a < q.len() && 0 <= b < q.len() && a != b implies q[a].0
                != q[b].0 by {
                if a < acc.len() && b < acc.len() {
                    assert(q[a] == acc[a] && q[b] == acc[b]);
                } else if a < acc.len() {
                    assert(q[a] == acc[a]);
                    assert(acc[a].0 != k);
                } else {
                    assert(q[b] == acc[b]);
                    assert(acc[b].0 != k);
                }
            }
            assert forall|a: int| 0 <= a < q.len() implies tree_wf(#[trigger] q[a].1) by {
                if a < acc.len() {
                    assert(q[a] == acc[a]);
                }
            }
        }
    }
}

/// Merging a schema fragment keeps every node of a well-formed tree well-formed.
pub proof fn lemma_tree_add_schema(n: NodeModel, s: Json)
    requires
        tree_wf(n),
    ensures
        tree_wf(node_add_schema(n, s)),
    decreases s, 4nat, 0nat,
{
    match s {
        Json::Object(e) => {
            let a = key_pos(e, "anyOf"@);
            let t = key_pos(e, "type"@);
            if 0 <= a < e.len() && e[a].1 is Array {
                lemma_tree_add_schemas(n, e[a].1->Array_0);
            } else if 0 <= t < e.len() && e[t].1 is Array {
                lemma_tree_add_typed(n, e, e[t].1->Array_0);
            } else {
                lemma_tree_add_atomic(n, e, single_type(e));
            }
        },
        _ => {},
    }
}

proof fn lemma_tree_add_schemas(n: NodeModel, xs: Seq<Json>)
    requires
        tree_wf(n),
    ensures
        tree_wf(node_add_schemas(n, xs)),
    decreases xs, 0nat, 0nat,
{
    if xs.len() > 0 {
        lemma_tree_add_schemas(n, xs.subrange(0, xs.len() - 1));
        lemma_tree_add_schema(node_add_schemas(n, xs.subrange(0, xs.len() - 1)), xs[xs.len() - 1]);
    }
}

proof fn lemma_tree_add_typed(n: NodeModel, e: Entries, types: Seq<Json>)
    requires
        tree_wf(n),
    ensures
        tree_wf(node_add_typed(n, e, types)),
    decreases e, 3nat, types.len(),
{
    if types.len() > 0 {
        lemma_tree_add_typed(n, e, types.subrange(0, types.len() - 1));
        match types[types.len() - 1] {
            Json::Str(t) => lemma_tree_add_atomic(
                node_add_typed(n, e, types.subrange(0, types.len() - 1)),
                e,
                Some(t),
            ),
            _ => {},
        }
    }
}

proof fn lemma_tree_add_atomic(n: NodeModel, e: Entries, ty: Option<Seq<char>>)
    requires
        tree_wf(n),
    ensures
        tree_wf(node_add_atomic(n, e, ty)),
    decreases e, 2nat, 0nat,
{
    lemma_add_atomic_wf(n, e, ty);
    match ty {
        None => {
            if n.strategies.len() == 0 {
                let t0 = match n.typeless {
                    Some(t) => t,
                    None => empty_typeless(),
                };
                assert(tree_wf(empty_node()));
                law_empty_placeholder_consistent();
                assert(typeless_tree_wf(t0));
                lemma_tree_typeless_add(t0, e);
            }
            if n.strategies.len() > 0 {
                lemma_tree_strategy_add_schema(n.strategies[0], e, ty);
                let r = node_add_atomic(n, e, ty);
                assert forall|i: int| 0 <= i < r.strategies.len() implies strategy_tree_wf(
                    #[trigger] r.strategies[i],
                ) by {
                    if i != 0 {
                        assert(r.strategies[i] == n.strategies[i]);
                    }
                }
            }
        },
        Some(t) => match type_kind(t, e) {
            Some(k) => {
                lemma_strategy_for(n, k);
                lemma_tree_strategy_for(n, k);
                lemma_tree_strategy_add_schema(strategy_for(n, k), e, ty);
                lemma_strategy_add_schema_kind(strategy_for(n, k), e, ty);
                lemma_tree_put(n, k, strategy_add_schema(strategy_for(n, k), e, ty));
            },
            None => {},
        },
    }
}

proof fn lemma_tree_strategy_add_schema(s: StrategyModel, e: Entries, ty: Option<Seq<char>>)
    requires
        strategy_tree_wf(s),
    ensures
        strategy_tree_wf(strategy_add_schema(s, e, ty)),
    decreases e, 1nat, 0nat,
{
    match s {
        StrategyModel::Object(o) => {
            lemma_tree_object_add_schema(o, e);
        },
        StrategyModel::List(items) => {
            let ii = key_pos(e, "items"@);
            if 0 <= ii < e.len() && e[ii].1 is Object {
                lemma_tree_add_schema(items, e[ii].1);
            }
        },
        _ => {},
    }
}

proof fn lemma_tree_object_add_schema(o: ObjectModel, e: Entries)
    requires
        strategy_tree_wf(StrategyModel::Object(o)),
    ensures
        strategy_tree_wf(StrategyModel::Object(object_add_schema(o, e))),
    decreases e, 0nat, 1nat,
{
    let pi = key_pos(e, "properties"@);
    let qi = key_pos(e, "patternProperties"@);
    if 0 <= pi < e.len() && e[pi].1 is Object {
        let pe = e[pi].1->Object_0;
        assert forall|i: int| 0 <= i < pe.len() implies schema_keeps_tree(#[trigger] pe[i].1) by {
            assert forall|c: NodeModel| tree_wf(c) implies #[trigger] tree_wf(
                node_add_schema(c, pe[i].1),
            ) by {
                lemma_tree_add_schema(c, pe[i].1);
            }
        }
        lemma_tree_merge_children(o.properties, pe);
    }
    if 0 <= qi < e.len() && e[qi].1 is Object {
        let pe = e[qi].1->Object_0;
        assert forall|i: int| 0 <= i < pe.len() implies schema_keeps_tree(#[trigger] pe[i].1) by {
            assert forall|c: NodeModel| tree_wf(c) implies #[trigger] tree_wf(
                node_add_schema(c, pe[i].1),
            ) by {
                lemma_tree_add_schema(c, pe[i].1);
            }
        }
        lemma_tree_merge_children(o.patterns, pe);
    }
}

proof fn lemma_tree_typeless_add(t: TypelessModel, e: Entries)
    requires
        typeless_tree_wf(t),
    ensures
        typeless_tree_wf(typeless_add(t, e)),
    decreases e, 1nat, 1nat,
{
    let pi = key_pos(e, "properties"@);
    let qi = key_pos(e, "patternProperties"@);
    let ii = key_pos(e, "items"@);
    assert(children_tree_wf(t.properties));
    assert(children_tree_wf(t.patterns));
    if 0 <= pi < e.len() && e[pi].1 is Object {
        let pe = e[pi].1->Object_0;
        assert forall|i: int| 0 <= i < pe.len() implies schema_keeps_tree(#[trigger] pe[i].1) by {
            assert forall|c: NodeModel| tree_wf(c) implies #[trigger] tree_wf(
                node_add_schema(c, pe[i].1),
            ) by {
                lemma_tree_add_schema(c, pe[i].1);
            }
        }
        lemma_tree_merge_children(t.properties, pe);
    }
    if 0 <= qi < e.len() && e[qi].1 is Object {
        let pe = e[qi].1->Object_0;
        assert forall|i: int| 0 <= i < pe.len() implies schema_keeps_tree(#[trigger] pe[i].1) by {
            assert forall|c: NodeModel| tree_wf(c) implies #[trigger] tree_wf(
                node_add_schema(c, pe[i].1),
            ) by {
                lemma_tree_add_schema(c, pe[i].1);
            }
        }
        lemma_tree_merge_children(t.patterns, pe);
    }
    if 0 <= ii < e.len() && e[ii].1 is Object {
        lemma_tree_add_schema(*t.items, e[ii].1);
    }
    law_placeholder_add_consistent(t, e);
    let r = typeless_add(t, e);
    assert(children_tree_wf(r.properties));
    assert(children_tree_wf(r.patterns));
}

} // verus!
