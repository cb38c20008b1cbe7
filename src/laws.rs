use vstd::prelude::*;

use crate::builder::{base_schema, builder_schema, UriModel};
use crate::model::{
    absorbed, add_name, assemble, children_schemas, empty_node, empty_object, empty_typeless,
    has_kind, insert_pos, is_pure_type, keep_listed, kind_pos, merge_children, new_strategy,
    node_add_atomic, node_add_items, node_add_object, node_add_schema, node_add_typed, node_schema,
    object_add_members, object_add_object, object_add_schema, object_schema, pattern_pos,
    pure_type_name, put_strategy, single_type, sort_names, split_locals, strategies_schemas,
    strategy_add_object, strategy_add_schema, strategy_for, strategy_kind, strategy_schema, strs,
    type_kind, typeless_add, value_kind, Kind, NodeModel, ObjectModel, StrategyModel, TypelessModel,
};
use crate::value::{
    has_key, is_first_key, key_pos, lemma_key_pos, lemma_key_pos_range, lemma_remove_key, lookup,
    merge_keywords, remove_key, set_key, Entries, Json,
};
use crate::wf::{lemma_add_schema_wf, lemma_kind_pos_unique, node_wf};

verus! {

proof fn lemma_strategies_schemas_objects(sts: Seq<StrategyModel>)
    ensures
        forall|i: int|
            0 <= i < strategies_schemas(sts).len() ==> #[trigger] strategies_schemas(sts)[i] is Object,
        strategies_schemas(sts).len() == sts.len(),
    decreases sts.len(),
{
    if sts.len() > 0 {
        lemma_strategies_schemas_objects(sts.subrange(0, sts.len() - 1));
        let s = sts[sts.len() - 1];
        assert(strategy_schema(s) is Object);
    }
}

proof fn lemma_split_locals_objects(locals: Seq<Json>)
    requires
        forall|i: int| 0 <= i < locals.len() ==> #[trigger] locals[i] is Object,
    ensures
        forall|i: int|
            0 <= i < split_locals(locals).0.len() ==> #[trigger] split_locals(locals).0[i] is Object,
    decreases locals.len(),
{
    if locals.len() > 0 {
        lemma_split_locals_objects(locals.drop_last());
    }
}

/// Every node's schema is an object.
pub proof fn lemma_node_schema_is_object(n: NodeModel)
    ensures
        node_schema(n) is Object,
{
    let head: Seq<Json> = match n.typeless {
        Some(t) => seq![Json::Object(t.keywords)],
        None => Seq::empty(),
    };
    lemma_strategies_schemas_objects(n.strategies);
    let locals = head + strategies_schemas(n.strategies);
    assert forall|i: int| 0 <= i < locals.len() implies #[trigger] locals[i] is Object by {
        if i < head.len() {
            assert(locals[i] == head[i]);
        } else {
            assert(locals[i] == strategies_schemas(n.strategies)[i - head.len()]);
        }
    }
    lemma_split_locals_objects(locals);
    assert(node_schema(n) == assemble(locals));
}

/// Every value in `xs` is a number.
pub open spec fn all_numbers(xs: Seq<Json>) -> bool {
    forall|i: int| 0 <= i < xs.len() ==> (#[trigger] xs[i] is Integer || xs[i] is Real)
}

/// Some value in `xs` is a number that is not integral.
pub open spec fn some_fraction(xs: Seq<Json>) -> bool {
    exists|i: int| 0 <= i < xs.len() && #[trigger] xs[i] is Real
}

proof fn lemma_numbers_node(xs: Seq<Json>)
    requires
        xs.len() > 0,
        all_numbers(xs),
    ensures
        node_add_items(empty_node(), xs) == (NodeModel {
            typeless: None,
            strategies: seq![StrategyModel::Number(Seq::empty(), some_fraction(xs))],
        }),
    decreases xs.len(),
{
    let prev = xs.subrange(0, xs.len() - 1);
    let x = xs[xs.len() - 1];
    assert(x is Integer || x is Real);
    assert(value_kind(x) == Kind::Number);
    if xs.len() == 1 {
        assert(prev =~= Seq::<Json>::empty());
        assert(node_add_items(empty_node(), prev) == empty_node());
        assert(!has_kind(empty_node().strategies, Kind::Number));
        assert(some_fraction(xs) == (x is Real)) by {
            if x is Real {
                assert(xs[0] is Real);
            }
        }
        assert(node_add_object(empty_node(), x).strategies =~= seq![
            StrategyModel::Number(Seq::empty(), some_fraction(xs)),
        ]);
    } else {
        assert(all_numbers(prev)) by {
            assert forall|i: int| 0 <= i < prev.len() implies (#[trigger] prev[i] is Integer
                || prev[i] is Real) by {
                assert(prev[i] == xs[i]);
            }
        }
        lemma_numbers_node(prev);
        let n = node_add_items(empty_node(), prev);
        let w = some_fraction(prev);
        assert(strategy_kind(n.strategies[0]) == Kind::Number);
        assert(has_kind(n.strategies, Kind::Number));
        assert(kind_pos(n.strategies, Kind::Number) == 0) by {
            let c = choose|c: int|
                0 <= c < n.strategies.len() && strategy_kind(n.strategies[c]) == Kind::Number
                    && forall|l: int| 0 <= l < c ==> strategy_kind(n.strategies[l]) != Kind::Number;
            assert(c == 0);
        }
        assert(some_fraction(xs) == (w || x is Real)) by {
            if w {
                let i = choose|i: int| 0 <= i < prev.len() && #[trigger] prev[i] is Real;
                assert(xs[i] == prev[i]);
            }
            if some_fraction(xs) && !(x is Real) {
                let i = choose|i: int| 0 <= i < xs.len() && #[trigger] xs[i] is Real;
                assert(prev[i] == xs[i]);
            }
            if x is Real {
                assert(xs[xs.len() - 1] is Real);
            }
        }
        assert(node_add_object(n, x).strategies =~= seq![
            StrategyModel::Number(Seq::empty(), some_fraction(xs)),
        ]);
    }
}

/// Numeric widening: after a non-empty sequence of numbers is merged into a
/// fresh node, the schema is `{"type": "number"}` when some number is not
/// integral and `{"type": "integer"}` otherwise, whatever their order.
pub proof fn law_number_widening(xs: Seq<Json>)
    requires
        xs.len() > 0,
        all_numbers(xs),
    ensures
        node_schema(node_add_items(empty_node(), xs)) == Json::Object(
            seq![("type"@, Json::Str(if some_fraction(xs) { "number"@ } else { "integer"@ }))],
        ),
{
    lemma_numbers_node(xs);
    let n = node_add_items(empty_node(), xs);
    let s = n.strategies[0];
    let name = if some_fraction(xs) { "number"@ } else { "integer"@ };
    let local = Json::Object(seq![("type"@, Json::Str(name))]);
    assert(set_key(Seq::empty(), "type"@, Json::Str(name)) =~= seq![("type"@, Json::Str(name))]);
    assert(strategy_schema(s) == local);
    assert(n.strategies.subrange(0, 0) =~= Seq::<StrategyModel>::empty());
    assert(strategies_schemas(n.strategies) =~= seq![local]);
    let locals = Seq::<Json>::empty() + strategies_schemas(n.strategies);
    assert(locals =~= seq![local]);
    assert(locals.drop_last() =~= Seq::<Json>::empty());
    assert(split_locals(locals.drop_last()) == (Seq::<Json>::empty(), Seq::<Seq<char>>::empty()));
    assert(is_pure_type(local));
    assert(pure_type_name(local) == name);
    assert(!Seq::<Seq<char>>::empty().contains(name));
    assert(add_name(Seq::empty(), name) =~= seq![name]);
    assert(split_locals(locals) == (Seq::<Json>::empty(), seq![name]));
    assert(seq![name].drop_last() =~= Seq::<Seq<char>>::empty());
    assert(sort_names(Seq::<Seq<char>>::empty()) == Seq::<Seq<char>>::empty());
    assert(insert_pos(Seq::empty(), name) == 0);
    assert(Seq::<Seq<char>>::empty().insert(0, name) =~= seq![name]);
    assert(sort_names(seq![name]) =~= seq![name]);
    assert(node_schema(n) == assemble(locals));
}

proof fn lemma_members_seen(o: ObjectModel, entries: Entries)
    requires
        o.patterns.len() == 0,
    ensures
        object_add_members(o, entries).0.patterns.len() == 0,
        object_add_members(o, entries).0.required == o.required,
        forall|k: Seq<char>| #[trigger]
            object_add_members(o, entries).1.contains(k) <==> has_key(entries, k),
    decreases entries.len(),
{
    if entries.len() > 0 {
        let prev = entries.subrange(0, entries.len() - 1);
        lemma_members_seen(o, prev);
        let (o1, seen) = object_add_members(o, prev);
        let k = entries[entries.len() - 1].0;
        assert(pattern_pos(o1.patterns, k) == -1);
        assert forall|x: Seq<char>| #[trigger]
            object_add_members(o, entries).1.contains(x) <==> has_key(entries, x) by {
            assert(object_add_members(o, entries).1 == add_name(seen, k));
            assert(seen.contains(x) <==> has_key(prev, x));
            if !seen.contains(k) {
                let out = seen.push(k);
                if seen.contains(x) {
                    let i = choose|i: int| 0 <= i < seen.len() && seen[i] == x;
                    assert(out[i] == x);
                }
                if out.contains(x) && x != k {
                    let i = choose|i: int| 0 <= i < out.len() && out[i] == x;
                    assert(seen[i] == x);
                }
                assert(out[seen.len() as int] == k);
            }
            if has_key(entries, x) && x != k {
                let i = choose|i: int| 0 <= i < entries.len() && entries[i].0 == x;
                assert(prev[i].0 == x);
            }
            if has_key(prev, x) {
                let i = choose|i: int| 0 <= i < prev.len() && prev[i].0 == x;
                assert(entries[i].0 == x);
            }
            if x == k {
                assert(entries[entries.len() - 1].0 == x);
            }
        }
    } else {
        assert forall|x: Seq<char>| #[trigger]
            object_add_members(o, entries).1.contains(x) <==> has_key(entries, x) by {
            assert(!Seq::<Seq<char>>::empty().contains(x));
        }
    }
}

proof fn lemma_keep_listed(r: Seq<Seq<char>>, names: Seq<Seq<char>>)
    ensures
        forall|x: Seq<char>| #[trigger]
            keep_listed(r, names).contains(x) <==> r.contains(x) && names.contains(x),
    decreases r.len(),
{
    if r.len() > 0 {
        lemma_keep_listed(r.drop_last(), names);
        assert forall|x: Seq<char>| #[trigger]
            keep_listed(r, names).contains(x) <==> r.contains(x) && names.contains(x) by {
            let acc = keep_listed(r.drop_last(), names);
            if r.contains(x) && x != r.last() {
                let i = choose|i: int| 0 <= i < r.len() && r[i] == x;
                assert(r.drop_last()[i] == x);
            }
            if r.drop_last().contains(x) {
                let i = choose|i: int| 0 <= i < r.drop_last().len() && r.drop_last()[i] == x;
                assert(r[i] == x);
            }
            if names.contains(r.last()) {
                assert(acc.push(r.last()).contains(x) <==> acc.contains(x) || x == r.last()) by {
                    if acc.contains(x) {
                        let i = choose|i: int| 0 <= i < acc.len() && acc[i] == x;
                        assert(acc.push(r.last())[i] == x);
                    }
                    if acc.push(r.last()).contains(x) && x != r.last() {
                        let i = choose|i: int|
                            0 <= i < acc.push(r.last()).len() && acc.push(r.last())[i] == x;
                        assert(acc[i] == x);
                    }
                    assert(acc.push(r.last())[acc.len() as int] == r.last());
                }
            }
            if x == r.last() {
                assert(r[r.len() - 1] == x);
            }
        }
    } else {
        assert forall|x: Seq<char>| #[trigger]
            keep_listed(r, names).contains(x) <==> r.contains(x) && names.contains(x) by {
            assert(!r.contains(x));
        }
    }
}

proof fn lemma_insert_pos_range(s: Seq<Seq<char>>, x: Seq<char>)
    ensures
        0 <= insert_pos(s, x) <= s.len(),
    decreases s.len(),
{
    if s.len() > 0 {
        lemma_insert_pos_range(s.subrange(1, s.len() as int), x);
    }
}

/// Sorting keeps exactly the names there were.
pub proof fn lemma_sort_names_contains(names: Seq<Seq<char>>)
    ensures
        forall|x: Seq<char>| #[trigger] sort_names(names).contains(x) <==> names.contains(x),
    decreases names.len(),
{
    if names.len() > 0 {
        let prev = names.drop_last();
        let y = names.last();
        lemma_sort_names_contains(prev);
        let acc = sort_names(prev);
        let p = insert_pos(acc, y);
        lemma_insert_pos_range(acc, y);
        let out = acc.insert(p, y);
        assert forall|x: Seq<char>| #[trigger] sort_names(names).contains(x) <==> names.contains(x) by {
            assert(sort_names(names) == out);
            if out.contains(x) {
                let i = choose|i: int| 0 <= i < out.len() && out[i] == x;
                if i < p {
                    assert(acc[i] == x);
                } else if i > p {
                    assert(acc[i - 1] == x);
                }
            }
            if acc.contains(x) {
                let i = choose|i: int| 0 <= i < acc.len() && acc[i] == x;
                if i < p {
                    assert(out[i] == x);
                } else {
                    assert(out[i + 1] == x);
                }
            }
            if x == y {
                assert(out[p] == x);
                assert(names[names.len() - 1] == x);
            }
            if names.contains(x) && x != y {
                let i = choose|i: int| 0 <= i < names.len() && names[i] == x;
                assert(prev[i] == x);
            }
            if prev.contains(x) {
                let i = choose|i: int| 0 <= i < prev.len() && prev[i] == x;
                assert(names[i] == x);
            }
        }
    }
}

pub open spec fn objects(objs: Seq<Entries>) -> Seq<Json> {
    objs.map_values(|e: Entries| Json::Object(e))
}

/// Every object of `objs` has a member named `k`.
pub open spec fn in_every(objs: Seq<Entries>, k: Seq<char>) -> bool {
    forall|i: int| 0 <= i < objs.len() ==> has_key(#[trigger] objs[i], k)
}

#[verifier::spinoff_prover]
#[verifier::rlimit(60)]
proof fn lemma_objects_node(objs: Seq<Entries>)
    requires
        objs.len() > 0,
    ensures
        ({
            let n = node_add_items(empty_node(), objects(objs));
            &&& n.typeless is None
            &&& n.strategies.len() == 1
            &&& n.strategies[0] is Object
            &&& n.strategies[0]->Object_0.patterns.len() == 0
            &&& n.strategies[0]->Object_0.required is Some
            &&& forall|k: Seq<char>| #[trigger]
                n.strategies[0]->Object_0.required->Some_0.contains(k) <==> in_every(objs, k)
        }),
    decreases objs.len(),
{
    let prev = objs.subrange(0, objs.len() - 1);
    let e = objs[objs.len() - 1];
    let xs = objects(objs);
    assert(xs.subrange(0, xs.len() - 1) =~= objects(prev));
    assert(xs[xs.len() - 1] == Json::Object(e));
    if objs.len() == 1 {
        assert(objects(prev) =~= Seq::<Json>::empty());
        assert(node_add_items(empty_node(), objects(prev)) == empty_node());
        assert(!has_kind(empty_node().strategies, Kind::Object));
        lemma_members_seen(empty_object(), e);
        let o = object_add_object(empty_object(), e);
        assert(strategy_add_object(StrategyModel::Object(empty_object()), Json::Object(e))
            == StrategyModel::Object(o));
        assert(node_add_object(empty_node(), Json::Object(e)).strategies =~= seq![
            StrategyModel::Object(o),
        ]);
        assert forall|k: Seq<char>| #[trigger] o.required->Some_0.contains(k) <==> in_every(objs, k) by {
            if has_key(e, k) {
                assert forall|i: int| 0 <= i < objs.len() implies has_key(#[trigger] objs[i], k) by {
                    assert(i == 0);
                }
            }
            if in_every(objs, k) {
                assert(has_key(objs[0], k));
            }
        }
    } else {
        lemma_objects_node(prev);
        let n = node_add_items(empty_node(), objects(prev));
        let o = n.strategies[0]->Object_0;
        assert(strategy_kind(n.strategies[0]) == Kind::Object);
        assert(has_kind(n.strategies, Kind::Object));
        assert(kind_pos(n.strategies, Kind::Object) == 0) by {
            let c = choose|c: int|
                0 <= c < n.strategies.len() && strategy_kind(n.strategies[c]) == Kind::Object
                    && forall|l: int| 0 <= l < c ==> strategy_kind(n.strategies[l]) != Kind::Object;
            assert(c == 0);
        }
        lemma_members_seen(o, e);
        let seen = object_add_members(o, e).1;
        lemma_keep_listed(o.required->Some_0, seen);
        let o2 = object_add_object(o, e);
        assert(node_add_object(n, Json::Object(e)).strategies =~= seq![StrategyModel::Object(o2)]);
        assert forall|k: Seq<char>| #[trigger] o2.required->Some_0.contains(k) <==> in_every(objs, k) by {
            if in_every(prev, k) && has_key(e, k) {
                assert forall|i: int| 0 <= i < objs.len() implies has_key(#[trigger] objs[i], k) by {
                    if i < objs.len() - 1 {
                        assert(objs[i] == prev[i]);
                    }
                }
            }
            if in_every(objs, k) {
                assert forall|i: int| 0 <= i < prev.len() implies has_key(#[trigger] prev[i], k) by {
                    assert(objs[i] == prev[i]);
                }
                assert(has_key(objs[objs.len() - 1], k));
            }
        }
    }
}

/// Required-set convergence: after a non-empty sequence of objects is merged
/// into a fresh node, its one (object) strategy requires a name, in the
/// sorted list that its schema emits, exactly when every object has a member
/// of that name.
pub proof fn law_required_intersection(objs: Seq<Entries>)
    requires
        objs.len() > 0,
    ensures
        ({
            let n = node_add_items(empty_node(), objects(objs));
            &&& n.strategies.len() == 1
            &&& n.strategies[0] is Object
            &&& n.strategies[0]->Object_0.required is Some
            &&& forall|k: Seq<char>| #[trigger]
                sort_names(n.strategies[0]->Object_0.required->Some_0).contains(k) <==> in_every(
                    objs,
                    k,
                )
        }),
{
    lemma_objects_node(objs);
    let n = node_add_items(empty_node(), objects(objs));
    lemma_sort_names_contains(n.strategies[0]->Object_0.required->Some_0);
}

proof fn lemma_merge_keeps_keys(kw: Entries, e: Entries, k: Seq<char>)
    requires
        has_key(kw, k),
    ensures
        has_key(merge_keywords(kw, e), k),
    decreases e.len(),
{
    if e.len() > 0 {
        lemma_merge_keeps_keys(kw, e.drop_last(), k);
        let acc = merge_keywords(kw, e.drop_last());
        let i = choose|i: int| 0 <= i < acc.len() && acc[i].0 == k;
        assert(acc.push(e.last())[i].0 == k);
    }
}

proof fn lemma_merge_has_keys(kw: Entries, e: Entries)
    ensures
        forall|i: int|
            0 <= i < e.len() && e[i].0 != "type"@ ==> has_key(merge_keywords(kw, e), #[trigger] e[i].0),
    decreases e.len(),
{
    if e.len() > 0 {
        let prev = e.drop_last();
        lemma_merge_has_keys(kw, prev);
        let acc = merge_keywords(kw, prev);
        let m = merge_keywords(kw, e);
        assert forall|i: int| 0 <= i < e.len() && e[i].0 != "type"@ implies has_key(
            m,
            #[trigger] e[i].0,
        ) by {
            if i < e.len() - 1 {
                assert(prev[i] == e[i]);
                assert(has_key(acc, e[i].0));
                if m != acc {
                    let j = choose|j: int| 0 <= j < acc.len() && acc[j].0 == e[i].0;
                    assert(m[j].0 == e[i].0);
                }
            } else if !has_key(acc, e[i].0) {
                assert(m[acc.len() as int].0 == e[i].0);
            }
        }
    }
}

proof fn lemma_merge_known_keys(acc: Entries, e: Entries)
    requires
        forall|i: int| 0 <= i < e.len() ==> #[trigger] e[i].0 == "type"@ || has_key(acc, e[i].0),
    ensures
        merge_keywords(acc, e) == acc,
    decreases e.len(),
{
    if e.len() > 0 {
        let prev = e.drop_last();
        assert forall|i: int| 0 <= i < prev.len() implies #[trigger] prev[i].0 == "type"@ || has_key(
            acc,
            prev[i].0,
        ) by {
            assert(prev[i] == e[i]);
        }
        lemma_merge_known_keys(acc, prev);
        assert(e.last() == e[e.len() - 1]);
    }
}

/// Merging the same keywords a second time changes nothing (first write wins).
pub proof fn law_keywords_idempotent(kw: Entries, e: Entries)
    ensures
        merge_keywords(merge_keywords(kw, e), e) == merge_keywords(kw, e),
{
    lemma_merge_has_keys(kw, e);
    let m = merge_keywords(kw, e);
    assert forall|i: int| 0 <= i < e.len() implies #[trigger] e[i].0 == "type"@ || has_key(
        m,
        e[i].0,
    ) by {}
    lemma_merge_known_keys(m, e);
}

/// Intersecting the required names with the same list a second time changes
/// nothing, and a list intersected with itself is unchanged.
pub proof fn law_required_idempotent(r: Seq<Seq<char>>, names: Seq<Seq<char>>)
    ensures
        keep_listed(keep_listed(r, names), names) == keep_listed(r, names),
        keep_listed(r, r) == r,
{
    let kept = keep_listed(r, names);
    lemma_keep_listed(r, names);
    assert forall|i: int| 0 <= i < kept.len() implies names.contains(#[trigger] kept[i]) by {
        assert(kept.contains(kept[i]));
    }
    lemma_keep_all(kept, names);
    assert forall|i: int| 0 <= i < r.len() implies r.contains(#[trigger] r[i]) by {}
    lemma_keep_all(r, r);
}

proof fn lemma_keep_all(r: Seq<Seq<char>>, names: Seq<Seq<char>>)
    requires
        forall|i: int| 0 <= i < r.len() ==> names.contains(#[trigger] r[i]),
    ensures
        keep_listed(r, names) == r,
    decreases r.len(),
{
    if r.len() > 0 {
        assert forall|i: int| 0 <= i < r.drop_last().len() implies names.contains(
            #[trigger] r.drop_last()[i],
        ) by {
            assert(r.drop_last()[i] == r[i]);
        }
        lemma_keep_all(r.drop_last(), names);
        assert(names.contains(r[r.len() - 1]));
        assert(r.drop_last().push(r.last()) =~= r);
    }
}

/// Order independence of the required names: two non-empty sequences of
/// objects with the same set of objects, merged into fresh nodes, give object
/// strategies whose emitted required lists hold the same names.
pub proof fn law_required_order_free(objs1: Seq<Entries>, objs2: Seq<Entries>)
    requires
        objs1.len() > 0,
        objs2.len() > 0,
        objs1.to_set() == objs2.to_set(),
    ensures
        ({
            let o1 = node_add_items(empty_node(), objects(objs1)).strategies[0]->Object_0;
            let o2 = node_add_items(empty_node(), objects(objs2)).strategies[0]->Object_0;
            forall|k: Seq<char>| #[trigger]
                sort_names(o1.required->Some_0).contains(k) <==> sort_names(
                    o2.required->Some_0,
                ).contains(k)
        }),
{
    law_required_intersection(objs1);
    law_required_intersection(objs2);
    assert forall|k: Seq<char>| in_every(objs1, k) <==> in_every(objs2, k) by {
        if in_every(objs1, k) {
            lemma_in_every_set(objs1, objs2, k);
        }
        if in_every(objs2, k) {
            lemma_in_every_set(objs2, objs1, k);
        }
    }
}

proof fn lemma_in_every_set(a: Seq<Entries>, b: Seq<Entries>, k: Seq<char>)
    requires
        a.to_set() == b.to_set(),
        in_every(a, k),
    ensures
        in_every(b, k),
{
    assert forall|i: int| 0 <= i < b.len() implies has_key(#[trigger] b[i], k) by {
        assert(b.to_set().contains(b[i]));
        assert(a.to_set().contains(b[i]));
        let j = choose|j: int| 0 <= j < a.len() && a[j] == b[i];
        assert(has_key(a[j], k));
    }
}

/// Order independence of numeric widening: two non-empty sequences of
/// numbers with the same set of values, merged into fresh nodes, give the
/// same schema.
pub proof fn law_widening_order_free(xs1: Seq<Json>, xs2: Seq<Json>)
    requires
        xs1.len() > 0,
        xs2.len() > 0,
        all_numbers(xs1),
        all_numbers(xs2),
        xs1.to_set() == xs2.to_set(),
    ensures
        node_schema(node_add_items(empty_node(), xs1)) == node_schema(
            node_add_items(empty_node(), xs2),
        ),
{
    law_number_widening(xs1);
    law_number_widening(xs2);
    assert(some_fraction(xs1) == some_fraction(xs2)) by {
        if some_fraction(xs1) {
            let i = choose|i: int| 0 <= i < xs1.len() && #[trigger] xs1[i] is Real;
            assert(xs1.to_set().contains(xs1[i]));
            let j = choose|j: int| 0 <= j < xs2.len() && xs2[j] == xs1[i];
            assert(xs2[j] is Real);
        }
        if some_fraction(xs2) {
            let i = choose|i: int| 0 <= i < xs2.len() && #[trigger] xs2[i] is Real;
            assert(xs2.to_set().contains(xs2[i]));
            let j = choose|j: int| 0 <= j < xs1.len() && xs1[j] == xs2[i];
            assert(xs1[j] is Real);
        }
    }
}

/// A schema fragment with a single type name of a scalar kind (`null`,
/// `boolean`, `integer`, `number` or `string`) and no `anyOf` list.
pub open spec fn scalar_fragment(s: Json) -> bool {
    match s {
        Json::Object(e) => {
            let a = key_pos(e, "anyOf"@);
            &&& !(0 <= a < e.len() && e[a].1 is Array)
            &&& single_type(e) is Some
            &&& match type_kind(single_type(e)->Some_0, e) {
                Some(Kind::Null) | Some(Kind::Boolean) | Some(Kind::Number) | Some(Kind::Str) => true,
                _ => false,
            }
        },
        _ => false,
    }
}

/// Idempotence for scalar fragments: merging such a fragment into a
/// well-formed node a second time leaves the node as the first merge left it.
pub proof fn law_scalar_fragment_idempotent(n: NodeModel, s: Json)
    requires
        node_wf(n),
        scalar_fragment(s),
    ensures
        node_add_schema(node_add_schema(n, s), s) == node_add_schema(n, s),
{
    let e = s->Object_0;
    let t = single_type(e)->Some_0;
    let k = type_kind(t, e)->Some_0;
    let ty = Some(t);
    lemma_key_pos_range(e, "type"@);
    assert(!(0 <= key_pos(e, "type"@) < e.len() && e[key_pos(e, "type"@)].1 is Array));
    let n1 = node_add_schema(n, s);
    assert(n1 == node_add_atomic(n, e, ty));
    let s1 = strategy_add_schema(strategy_for(n, k), e, ty);
    assert(n1 == put_strategy(n, k, s1));
    lemma_add_schema_wf(n, s);
    let p = if has_kind(n.strategies, k) {
        kind_pos(n.strategies, k)
    } else {
        n.strategies.len() as int
    };
    if has_kind(n.strategies, k) {
        lemma_kind_pos_unique(n.strategies, k, kind_pos(n.strategies, k));
        let c = choose|c: int| 0 <= c < n.strategies.len() && strategy_kind(n.strategies[c]) == k;
        lemma_kind_pos_unique(n.strategies, k, c);
    }
    assert(n1.strategies[p] == s1);
    assert(strategy_kind(s1) == k) by {
        if has_kind(n.strategies, k) {
            let c = choose|c: int| 0 <= c < n.strategies.len() && strategy_kind(n.strategies[c]) == k;
            lemma_kind_pos_unique(n.strategies, k, c);
        }
    }
    lemma_kind_pos_unique(n1.strategies, k, p);
    assert(strategy_for(n1, k) == s1);
    let s0 = strategy_for(n, k);
    assert(strategy_add_schema(s1, e, ty) == s1) by {
        match s0 {
            StrategyModel::Null(kw) => law_keywords_idempotent(kw, e),
            StrategyModel::Boolean(kw) => law_keywords_idempotent(kw, e),
            StrategyModel::Number(kw, w) => law_keywords_idempotent(kw, e),
            StrategyModel::Str(kw) => law_keywords_idempotent(kw, e),
            _ => {},
        }
    }
    assert(node_add_schema(n1, s) == node_add_atomic(n1, e, ty));
    assert(n1.strategies.update(p, s1) =~= n1.strategies);
}

/// The type name a scalar strategy emits.
pub open spec fn scalar_name(s: StrategyModel) -> Seq<char> {
    match s {
        StrategyModel::Null(_) => "null"@,
        StrategyModel::Boolean(_) => "boolean"@,
        StrategyModel::Number(_, w) => if w {
            "number"@
        } else {
            "integer"@
        },
        StrategyModel::Str(_) => "string"@,
        _ => Seq::empty(),
    }
}

/// A scalar strategy without extra keywords.
pub open spec fn bare_scalar(s: StrategyModel) -> bool {
    match s {
        StrategyModel::Null(kw) => kw.len() == 0,
        StrategyModel::Boolean(kw) => kw.len() == 0,
        StrategyModel::Number(kw, _) => kw.len() == 0,
        StrategyModel::Str(kw) => kw.len() == 0,
        _ => false,
    }
}

/// A node that holds only scalar strategies without extra keywords (at least one).
pub open spec fn bare_scalar_node(n: NodeModel) -> bool {
    &&& n.typeless is None
    &&& n.strategies.len() > 0
    &&& forall|i: int| 0 <= i < n.strategies.len() ==> bare_scalar(#[trigger] n.strategies[i])
}

proof fn lemma_bare_scalar_schemas(sts: Seq<StrategyModel>)
    requires
        forall|i: int| 0 <= i < sts.len() ==> bare_scalar(#[trigger] sts[i]),
    ensures
        strategies_schemas(sts).len() == sts.len(),
        forall|i: int|
            0 <= i < sts.len() ==> #[trigger] strategies_schemas(sts)[i] == Json::Object(
                seq![("type"@, Json::Str(scalar_name(sts[i])))],
            ),
    decreases sts.len(),
{
    if sts.len() > 0 {
        let prev = sts.subrange(0, sts.len() - 1);
        assert forall|i: int| 0 <= i < prev.len() implies bare_scalar(#[trigger] prev[i]) by {
            assert(prev[i] == sts[i]);
        }
        lemma_bare_scalar_schemas(prev);
        let s = sts[sts.len() - 1];
        assert(bare_scalar(s));
        let name = scalar_name(s);
        assert(set_key(Seq::empty(), "type"@, Json::Str(name)) =~= seq![("type"@, Json::Str(name))]);
        match s {
            StrategyModel::Null(kw) => assert(kw =~= Seq::empty()),
            StrategyModel::Boolean(kw) => assert(kw =~= Seq::empty()),
            StrategyModel::Number(kw, _) => assert(kw =~= Seq::empty()),
            StrategyModel::Str(kw) => assert(kw =~= Seq::empty()),
            _ => {},
        }
        assert(strategy_schema(s) == Json::Object(seq![("type"@, Json::Str(name))]));
        assert forall|i: int| 0 <= i < sts.len() implies #[trigger] strategies_schemas(sts)[i]
            == Json::Object(seq![("type"@, Json::Str(scalar_name(sts[i])))]) by {
            if i < sts.len() - 1 {
                assert(prev[i] == sts[i]);
            }
        }
    }
}

/// Locals that are all pure type names: nothing is kept, and the names are
/// those of the locals.
proof fn lemma_pure_locals(locals: Seq<Json>)
    requires
        forall|i: int| 0 <= i < locals.len() ==> is_pure_type(#[trigger] locals[i]),
    ensures
        split_locals(locals).0.len() == 0,
        forall|x: Seq<char>| #[trigger]
            split_locals(locals).1.contains(x) <==> exists|i: int|
                0 <= i < locals.len() && pure_type_name(locals[i]) == x,
    decreases locals.len(),
{
    if locals.len() > 0 {
        let prev = locals.drop_last();
        assert forall|i: int| 0 <= i < prev.len() implies is_pure_type(#[trigger] prev[i]) by {
            assert(prev[i] == locals[i]);
        }
        lemma_pure_locals(prev);
        let j = locals.last();
        assert(is_pure_type(locals[locals.len() - 1]));
        let names = split_locals(prev).1;
        let y = pure_type_name(j);
        assert forall|x: Seq<char>| #[trigger] split_locals(locals).1.contains(x) <==> exists|i: int|
            0 <= i < locals.len() && pure_type_name(locals[i]) == x by {
            assert(split_locals(locals).1 == add_name(names, y));
            if !names.contains(y) {
                let out = names.push(y);
                if names.contains(x) {
                    let i = choose|i: int| 0 <= i < names.len() && names[i] == x;
                    assert(out[i] == x);
                }
                if out.contains(x) && x != y {
                    let i = choose|i: int| 0 <= i < out.len() && out[i] == x;
                    assert(names[i] == x);
                }
                assert(out[names.len() as int] == y);
            }
            if exists|i: int| 0 <= i < locals.len() && pure_type_name(locals[i]) == x {
                let i = choose|i: int| 0 <= i < locals.len() && pure_type_name(locals[i]) == x;
                if i < locals.len() - 1 {
                    assert(prev[i] == locals[i]);
                }
            }
            if names.contains(x) {
                let i = choose|i: int| 0 <= i < prev.len() && pure_type_name(prev[i]) == x;
                assert(locals[i] == prev[i]);
            }
            if x == y {
                assert(pure_type_name(locals[locals.len() - 1]) == x);
            }
        }
    } else {
        assert forall|x: Seq<char>| #[trigger] split_locals(locals).1.contains(x) <==> exists|i: int|
            0 <= i < locals.len() && pure_type_name(locals[i]) == x by {
            assert(!Seq::<Seq<char>>::empty().contains(x));
        }
    }
}

/// The kind names are told apart by their length or their first character.
proof fn lemma_kind_names()
    ensures
        "object"@.len() == 6 && "object"@[0] == 'o',
        "array"@.len() == 5,
        "null"@.len() == 4,
        "boolean"@.len() == 7 && "boolean"@[0] == 'b',
        "integer"@.len() == 7 && "integer"@[0] == 'i',
        "number"@.len() == 6 && "number"@[0] == 'n',
        "string"@.len() == 6 && "string"@[0] == 's',
{
    reveal_strlit("object");
    reveal_strlit("array");
    reveal_strlit("null");
    reveal_strlit("boolean");
    reveal_strlit("integer");
    reveal_strlit("number");
    reveal_strlit("string");
}

proof fn lemma_scalar_name_kind(s: StrategyModel, e: Entries)
    requires
        bare_scalar(s),
    ensures
        type_kind(scalar_name(s), e) == Some(strategy_kind(s)),
{
    lemma_kind_names();
    let x = scalar_name(s);
    assert(x != "object"@ ==> true);
    match s {
        StrategyModel::Null(_) => {
            assert(x != "object"@ && x != "array"@);
        },
        StrategyModel::Boolean(_) => {
            assert(x != "object"@ && x != "array"@ && x != "null"@);
        },
        StrategyModel::Number(_, w) => {
            if w {
                assert(x[0] != "object"@[0]);
                assert(x != "object"@ && x != "array"@ && x != "null"@ && x != "boolean"@);
            } else {
                assert(x[0] != "boolean"@[0]);
                assert(x != "object"@ && x != "array"@ && x != "null"@ && x != "boolean"@);
            }
        },
        StrategyModel::Str(_) => {
            assert(x[0] != "object"@[0]);
            assert(x[0] != "number"@[0]);
            assert(x != "object"@ && x != "array"@ && x != "null"@ && x != "boolean"@);
            assert(x != "integer"@ && x != "number"@);
        },
        _ => {},
    }
}

proof fn lemma_bare_scalar_absorbs(s: StrategyModel, e: Entries)
    requires
        bare_scalar(s),
        e.len() == 1,
        e[0].0 == "type"@,
    ensures
        strategy_add_schema(s, e, Some(scalar_name(s))) == s,
{
    lemma_kind_names();
    assert("integer"@[0] != "number"@[0]);
    assert(e.drop_last() =~= Seq::<(Seq<char>, Json)>::empty());
    assert(e.last().0 == "type"@);
    let empty = Seq::<(Seq<char>, Json)>::empty();
    assert(merge_keywords(empty, e) == merge_keywords(empty, e.drop_last()));
    match s {
        StrategyModel::Null(kw) => assert(kw =~= empty),
        StrategyModel::Boolean(kw) => assert(kw =~= empty),
        StrategyModel::Number(kw, w) => {
            assert(kw =~= empty);
            assert(!w ==> scalar_name(s) != "number"@);
        },
        StrategyModel::Str(kw) => assert(kw =~= empty),
        _ => {},
    }
}

/// Merging the one-member fragment `{"type": x}`, where `x` is the name of a
/// bare scalar strategy of a well-formed node, leaves the node as it was.
proof fn lemma_own_name_absorbed(n: NodeModel, i: int, e: Entries)
    requires
        node_wf(n),
        bare_scalar_node(n),
        0 <= i < n.strategies.len(),
        e.len() == 1,
        e[0].0 == "type"@,
    ensures
        node_add_atomic(n, e, Some(scalar_name(n.strategies[i]))) == n,
{
    let s = n.strategies[i];
    let x = scalar_name(s);
    assert(bare_scalar(s));
    let k = strategy_kind(s);
    lemma_scalar_name_kind(s, e);
    lemma_kind_pos_unique(n.strategies, k, i);
    assert(strategy_for(n, k) == s);
    lemma_bare_scalar_absorbs(s, e);
    assert(n.strategies.update(i, s) =~= n.strategies);
}

/// A strategy's type name, seen as the name of a strategy of `n`.
pub open spec fn names_a_strategy(n: NodeModel, x: Seq<char>) -> bool {
    exists|i: int| 0 <= i < n.strategies.len() && scalar_name(n.strategies[i]) == x
}

proof fn lemma_typed_absorbed(n: NodeModel, e: Entries, ts: Seq<Json>)
    requires
        node_wf(n),
        bare_scalar_node(n),
        e.len() == 1,
        e[0].0 == "type"@,
        forall|j: int|
            0 <= j < ts.len() ==> (#[trigger] ts[j] is Str && names_a_strategy(n, ts[j]->Str_0)),
    ensures
        node_add_typed(n, e, ts) == n,
    decreases ts.len(),
{
    if ts.len() > 0 {
        let prev = ts.subrange(0, ts.len() - 1);
        assert forall|j: int| 0 <= j < prev.len() implies (#[trigger] prev[j] is Str
            && names_a_strategy(n, prev[j]->Str_0)) by {
            assert(prev[j] == ts[j]);
        }
        lemma_typed_absorbed(n, e, prev);
        let last = ts[ts.len() - 1];
        assert(last is Str && names_a_strategy(n, last->Str_0));
        let i = choose|i: int| 0 <= i < n.strategies.len() && scalar_name(n.strategies[i]) == last->Str_0;
        lemma_own_name_absorbed(n, i, e);
    }
}

/// Idempotence for nodes of bare scalars: merging the schema of a well-formed
/// node that holds only scalar strategies without extra keywords back into
/// that node leaves the node as it was.
pub proof fn law_scalar_schema_absorbed(n: NodeModel)
    requires
        node_wf(n),
        bare_scalar_node(n),
    ensures
        node_add_schema(n, node_schema(n)) == n,
{
    let sts = n.strategies;
    lemma_bare_scalar_schemas(sts);
    let locals = Seq::<Json>::empty() + strategies_schemas(sts);
    assert(locals =~= strategies_schemas(sts));
    assert forall|i: int| 0 <= i < locals.len() implies is_pure_type(#[trigger] locals[i]) by {
        assert(locals[i] == Json::Object(seq![("type"@, Json::Str(scalar_name(sts[i])))]));
    }
    lemma_pure_locals(locals);
    let names = split_locals(locals).1;
    let sorted = sort_names(names);
    lemma_sort_names_contains(names);
    assert forall|x: Seq<char>| #[trigger] sorted.contains(x) implies names_a_strategy(n, x) by {
        let i = choose|i: int| 0 <= i < locals.len() && pure_type_name(locals[i]) == x;
        assert(locals[i] == Json::Object(seq![("type"@, Json::Str(scalar_name(sts[i])))]));
    }
    assert(pure_type_name(locals[0]) == scalar_name(sts[0])) by {
        assert(locals[0] == Json::Object(seq![("type"@, Json::Str(scalar_name(sts[0])))]));
    }
    assert(names.contains(scalar_name(sts[0])));
    assert(sorted.contains(scalar_name(sts[0])));
    assert(sorted.len() > 0);
    assert(node_schema(n) == assemble(locals));
    assert(split_locals(locals).0 =~= Seq::<Json>::empty());
    reveal_strlit("type");
    reveal_strlit("anyOf");
    let sch = node_schema(n);
    let e = sch->Object_0;
    assert(e.len() == 1 && e[0].0 == "type"@);
    assert(!has_key(e, "anyOf"@)) by {
        assert("type"@.len() != "anyOf"@.len());
    }
    assert(is_first_key(e, "type"@, 0));
    lemma_key_pos(e, "type"@, 0);
    lemma_key_pos_range(e, "anyOf"@);
    if sorted.len() == 1 {
        assert(sorted.contains(sorted[0]));
        assert(single_type(e) == Some(sorted[0]));
        let i = choose|i: int| 0 <= i < n.strategies.len() && scalar_name(n.strategies[i]) == sorted[0];
        lemma_own_name_absorbed(n, i, e);
    } else {
        let ts = strs(sorted);
        assert forall|j: int| 0 <= j < ts.len() implies (#[trigger] ts[j] is Str && names_a_strategy(
            n,
            ts[j]->Str_0,
        )) by {
            assert(ts[j] == Json::Str(sorted[j]));
            assert(sorted.contains(sorted[j]));
        }
        lemma_typed_absorbed(n, e, ts);
    }
}

proof fn lemma_lookup_push(s: Entries, x: (Seq<char>, Json), name: Seq<char>)
    ensures
        lookup(s.push(x), name) == if has_key(s, name) {
            lookup(s, name)
        } else if x.0 == name {
            Some(x.1)
        } else {
            None
        },
{
    let r = s.push(x);
    lemma_key_pos_range(s, name);
    if has_key(s, name) {
        let i = key_pos(s, name);
        assert(r[i] == s[i]);
        assert forall|j: int| 0 <= j < i implies r[j].0 != name by {
            assert(r[j] == s[j]);
        }
        assert(is_first_key(r, name, i));
        lemma_key_pos(r, name, i);
        assert(has_key(r, name));
    } else if x.0 == name {
        assert forall|j: int| 0 <= j < s.len() implies r[j].0 != name by {
            assert(r[j] == s[j]);
        }
        assert(r[s.len() as int] == x);
        assert(is_first_key(r, name, s.len() as int));
        lemma_key_pos(r, name, s.len() as int);
        assert(has_key(r, name));
    } else {
        assert(!has_key(r, name)) by {
            if has_key(r, name) {
                let j = choose|j: int| 0 <= j < r.len() && r[j].0 == name;
                if j < s.len() {
                    assert(r[j] == s[j]);
                }
            }
        }
    }
}

/// A keyword other than `type` keeps its first value: the merged keywords
/// hold the old value if there was one, else the fragment's.
pub proof fn lemma_merge_lookup(kw: Entries, e: Entries, name: Seq<char>)
    requires
        name != "type"@,
    ensures
        lookup(merge_keywords(kw, e), name) == if has_key(kw, name) {
            lookup(kw, name)
        } else {
            lookup(e, name)
        },
    decreases e.len(),
{
    if e.len() == 0 {
        assert(!has_key(e, name));
    } else {
        let prev = e.drop_last();
        let x = e.last();
        lemma_merge_lookup(kw, prev, name);
        let acc = merge_keywords(kw, prev);
        assert(prev.push(x) =~= e);
        lemma_lookup_push(prev, x, name);
        lemma_lookup_push(acc, x, name);
        lemma_key_pos_range(acc, name);
        lemma_key_pos_range(kw, name);
        lemma_key_pos_range(prev, name);
        if x.0 != "type"@ && has_key(acc, x.0) && x.0 == name {
            assert(has_key(acc, name));
        }
    }
}

/// The object under `name` in keywords `kw`, when that member is an object.
pub open spec fn object_under(kw: Entries, name: Seq<char>) -> Option<Entries> {
    match lookup(kw, name) {
        Some(Json::Object(pe)) => Some(pe),
        _ => None,
    }
}

/// A placeholder whose nodes are those that its keywords' `properties`,
/// `patternProperties` and `items` objects build from empty nodes.
pub open spec fn placeholder_consistent(t: TypelessModel) -> bool {
    &&& t.properties == match object_under(t.keywords, "properties"@) {
        Some(pe) => merge_children(Seq::empty(), pe),
        None => Seq::empty(),
    }
    &&& t.patterns == match object_under(t.keywords, "patternProperties"@) {
        Some(pe) => merge_children(Seq::empty(), pe),
        None => Seq::empty(),
    }
    &&& *t.items == match object_under(t.keywords, "items"@) {
        Some(pe) => node_add_schema(empty_node(), Json::Object(pe)),
        None => empty_node(),
    }
}

/// The empty placeholder is consistent.
pub proof fn law_empty_placeholder_consistent()
    ensures
        placeholder_consistent(empty_typeless()),
{
}

/// Merging a typeless fragment keeps a placeholder consistent.
pub proof fn law_placeholder_add_consistent(t: TypelessModel, e: Entries)
    requires
        placeholder_consistent(t),
    ensures
        placeholder_consistent(typeless_add(t, e)),
{
    reveal_strlit("type");
    reveal_strlit("properties");
    reveal_strlit("patternProperties");
    reveal_strlit("items");
    assert("properties"@.len() != "type"@.len());
    assert("patternProperties"@.len() != "type"@.len());
    assert("items"@.len() != "type"@.len());
    lemma_merge_lookup(t.keywords, e, "properties"@);
    lemma_merge_lookup(t.keywords, e, "patternProperties"@);
    lemma_merge_lookup(t.keywords, e, "items"@);
    lemma_key_pos_range(e, "properties"@);
    lemma_key_pos_range(e, "patternProperties"@);
    lemma_key_pos_range(e, "items"@);
    lemma_key_pos_range(t.keywords, "properties"@);
    lemma_key_pos_range(t.keywords, "patternProperties"@);
    lemma_key_pos_range(t.keywords, "items"@);
}

/// Taking over a consistent placeholder gives the strategy that merging the
/// placeholder's keywords, as one typeless fragment, into a new strategy of
/// that kind gives.
pub proof fn law_placeholder_absorbed(k: Kind, t: TypelessModel)
    requires
        placeholder_consistent(t),
    ensures
        absorbed(k, t) == strategy_add_schema(new_strategy(k), t.keywords, None),
{
    let kw = t.keywords;
    lemma_key_pos_range(kw, "properties"@);
    lemma_key_pos_range(kw, "patternProperties"@);
    lemma_key_pos_range(kw, "items"@);
    match k {
        Kind::Object => {
            assert(object_add_schema(empty_object(), kw).properties == t.properties);
            assert(object_add_schema(empty_object(), kw).patterns == t.patterns);
        },
        _ => {},
    }
}

/// An object strategy's schema has a `required` member exactly when it has
/// required names or an empty list was asked for, and then its value is the
/// sorted names; a `required` among the extra keywords never shows through.
pub proof fn law_object_required_member(o: ObjectModel)
    ensures
        ({
            let e = object_schema(o)->Object_0;
            let req = match o.required {
                Some(r) => r,
                None => Seq::empty(),
            };
            &&& (has_key(e, "required"@) <==> (req.len() > 0 || o.force_required))
            &&& (req.len() > 0 || o.force_required) ==> lookup(e, "required"@) == Some(
                Json::Array(strs(sort_names(req))),
            )
        }),
{
    let e1 = set_key(o.keywords, "type"@, Json::Str("object"@));
    let e2 = if o.properties.len() > 0 {
        set_key(e1, "properties"@, Json::Object(children_schemas(o.properties)))
    } else {
        e1
    };
    let e3 = if o.patterns.len() > 0 {
        set_key(e2, "patternProperties"@, Json::Object(children_schemas(o.patterns)))
    } else {
        e2
    };
    let req = match o.required {
        Some(r) => r,
        None => Seq::empty(),
    };
    lemma_remove_key(e3, "required"@);
    let v = Json::Array(strs(sort_names(req)));
    lemma_lookup_push(remove_key(e3, "required"@), ("required"@, v), "required"@);
    assert(remove_key(e3, "required"@).push(("required"@, v))[remove_key(e3, "required"@).len() as int].0
        == "required"@);
}

/// In a builder's schema the root node's members win: each key of the root
/// schema has the root's value, and `$schema` has the builder's value only
/// where the root schema has none.
pub proof fn law_root_keys_win(u: UriModel, n: NodeModel)
    ensures
        ({
            let e = node_schema(n)->Object_0;
            let r = builder_schema(u, n)->Object_0;
            &&& forall|k: Seq<char>| has_key(e, k) ==> #[trigger] lookup(r, k) == lookup(e, k)
            &&& !has_key(e, "$schema"@) ==> lookup(r, "$schema"@) == lookup(
                base_schema(u),
                "$schema"@,
            )
            &&& forall|k: Seq<char>| has_key(r, k) ==> has_key(e, k) || k == "$schema"@
        }),
{
    lemma_node_schema_is_object(n);
    let e = node_schema(n)->Object_0;
    let b = base_schema(u);
    if !has_key(e, "$schema"@) {
        let r = e + b;
        assert forall|k: Seq<char>| has_key(e, k) implies #[trigger] lookup(r, k) == lookup(e, k) by {
            lemma_key_pos_range(e, k);
            let i = key_pos(e, k);
            assert forall|j: int| 0 <= j < i implies r[j].0 != k by {
                assert(r[j] == e[j]);
            }
            assert(r[i] == e[i]);
            assert(is_first_key(r, k, i));
            lemma_key_pos(r, k, i);
        }
        if b.len() > 0 {
            assert(b =~= seq![b[0]]);
            assert(r =~= e.push(b[0]));
            lemma_lookup_push(e, b[0], "$schema"@);
            assert(is_first_key(b, "$schema"@, 0));
            lemma_key_pos(b, "$schema"@, 0);
        } else {
            assert(r =~= e);
        }
        assert forall|k: Seq<char>| has_key(r, k) implies has_key(e, k) || k == "$schema"@ by {
            let j = choose|j: int| 0 <= j < r.len() && r[j].0 == k;
            if j < e.len() {
                assert(r[j] == e[j]);
            } else {
                assert(r[j] == b[j - e.len()]);
            }
        }
    }
}

} // verus!
