use vstd::prelude::*;

verus! {

/// A parsed JSON document: the tagged union that both data documents and
/// schema documents are made of. Integral numbers are held exactly; any
/// other number keeps the text it was written with.
pub enum JsonValue {
    Null,
    Bool(bool),
    Integer(i128),
    Real(String),
    Str(String),
    Array(Vec<JsonValue>),
    Object(Vec<(String, JsonValue)>),
}

/// The mathematical value of a `JsonValue`.
pub enum Json {
    Null,
    Bool(bool),
    Integer(int),
    Real(Seq<char>),
    Str(Seq<char>),
    Array(Seq<Json>),
    Object(Seq<(Seq<char>, Json)>),
}

/// An object's members, in order: the shape of a schema document and of the
/// keyword maps that strategies accumulate.
pub type Entries = Seq<(Seq<char>, Json)>;

pub open spec fn json_of(v: JsonValue) -> Json
    decreases v,
{
    match v {
        JsonValue::Null => Json::Null,
        JsonValue::Bool(b) => Json::Bool(b),
        JsonValue::Integer(n) => Json::Integer(n as int),
        JsonValue::Real(s) => Json::Real(s@),
        JsonValue::Str(s) => Json::Str(s@),
        JsonValue::Array(items) => Json::Array(json_seq_of(items@)),
        JsonValue::Object(entries) => Json::Object(entries_of(entries@)),
    }
}

pub open spec fn json_seq_of(items: Seq<JsonValue>) -> Seq<Json>
    decreases items,
{
    if items.len() == 0 {
        Seq::empty()
    } else {
        json_seq_of(items.subrange(0, items.len() - 1)).push(json_of(items[items.len() - 1]))
    }
}

pub open spec fn entries_of(entries: Seq<(String, JsonValue)>) -> Entries
    decreases entries,
{
    if entries.len() == 0 {
        Seq::empty()
    } else {
        entries_of(entries.subrange(0, entries.len() - 1)).push(
            (entries[entries.len() - 1].0@, json_of(entries[entries.len() - 1].1)),
        )
    }
}

pub proof fn lemma_json_seq_of(items: Seq<JsonValue>)
    ensures
        json_seq_of(items).len() == items.len(),
        forall|i: int| 0 <= i < items.len() ==> #[trigger] json_seq_of(items)[i] == json_of(items[i]),
    decreases items.len(),
{
    if items.len() > 0 {
        lemma_json_seq_of(items.subrange(0, items.len() - 1));
    }
}

pub proof fn lemma_entries_of(entries: Seq<(String, JsonValue)>)
    ensures
        entries_of(entries).len() == entries.len(),
        forall|i: int|
            0 <= i < entries.len() ==> #[trigger] entries_of(entries)[i] == (
                entries[i].0@,
                json_of(entries[i].1),
            ),
    decreases entries.len(),
{
    if entries.len() > 0 {
        lemma_entries_of(entries.subrange(0, entries.len() - 1));
    }
}

/// `k` is a key of `kw`.
pub open spec fn has_key<V>(kw: Seq<(Seq<char>, V)>, k: Seq<char>) -> bool {
    exists|i: int| 0 <= i < kw.len() && kw[i].0 == k
}

/// `i` is the first position of key `k` in `kw`.
pub open spec fn is_first_key<V>(kw: Seq<(Seq<char>, V)>, k: Seq<char>, i: int) -> bool {
    0 <= i < kw.len() && kw[i].0 == k && forall|j: int| 0 <= j < i ==> kw[j].0 != k
}

/// The first position of key `k` in `kw`, or -1.
pub open spec fn key_pos<V>(kw: Seq<(Seq<char>, V)>, k: Seq<char>) -> int {
    if has_key(kw, k) {
        choose|i: int| is_first_key(kw, k, i)
    } else {
        -1
    }
}

pub proof fn lemma_key_pos<V>(kw: Seq<(Seq<char>, V)>, k: Seq<char>, i: int)
    requires
        is_first_key(kw, k, i),
    ensures
        key_pos(kw, k) == i,
{
    let j = choose|j: int| is_first_key(kw, k, j);
    assert(is_first_key(kw, k, i));
    assert(is_first_key(kw, k, j));
    if j < i {
        assert(kw[j].0 != k);
    }
    if i < j {
        assert(kw[i].0 != k);
    }
}

pub proof fn lemma_key_pos_range<V>(kw: Seq<(Seq<char>, V)>, k: Seq<char>)
    ensures
        has_key(kw, k) ==> is_first_key(kw, k, key_pos(kw, k)),
        !has_key(kw, k) <==> key_pos(kw, k) == -1,
{
    if has_key(kw, k) {
        let i = choose|i: int| 0 <= i < kw.len() && kw[i].0 == k;
        lemma_first_exists(kw, k, i);
    }
}

proof fn lemma_first_exists<V>(kw: Seq<(Seq<char>, V)>, k: Seq<char>, i: int)
    requires
        0 <= i < kw.len(),
        kw[i].0 == k,
    ensures
        exists|j: int| is_first_key(kw, k, j),
    decreases i,
{
    if exists|j: int| 0 <= j < i && kw[j].0 == k {
        let j = choose|j: int| 0 <= j < i && kw[j].0 == k;
        lemma_first_exists(kw, k, j);
    } else {
        assert(is_first_key(kw, k, i));
    }
}

/// The value under key `k`, if there is one (the first, for a repeated key).
pub open spec fn lookup(kw: Entries, k: Seq<char>) -> Option<Json> {
    if has_key(kw, k) {
        Some(kw[key_pos(kw, k)].1)
    } else {
        None
    }
}

/// `kw` with `k` bound to `v` alone: every member under `k` removed, then
/// `(k, v)` appended.
pub open spec fn set_key(kw: Entries, k: Seq<char>, v: Json) -> Entries {
    remove_key(kw, k).push((k, v))
}

/// `kw` without any member under key `k`, the others in order.
pub open spec fn remove_key(kw: Entries, k: Seq<char>) -> Entries
    decreases kw.len(),
{
    if kw.len() == 0 {
        kw
    } else {
        let acc = remove_key(kw.drop_last(), k);
        if kw.last().0 == k {
            acc
        } else {
            acc.push(kw.last())
        }
    }
}

/// No member of `remove_key(kw, k)` is under `k`.
pub proof fn lemma_remove_key(kw: Entries, k: Seq<char>)
    ensures
        !has_key(remove_key(kw, k), k),
        forall|j: Seq<char>| j != k ==> (has_key(remove_key(kw, k), j) <==> has_key(kw, j)),
    decreases kw.len(),
{
    if kw.len() > 0 {
        let prev = kw.drop_last();
        lemma_remove_key(prev, k);
        let acc = remove_key(prev, k);
        let r = remove_key(kw, k);
        assert forall|j: Seq<char>| j != k implies (has_key(r, j) <==> has_key(kw, j)) by {
            if has_key(kw, j) {
                let i = choose|i: int| 0 <= i < kw.len() && kw[i].0 == j;
                if i < kw.len() - 1 {
                    assert(prev[i] == kw[i]);
                    assert(has_key(prev, j));
                    assert(has_key(acc, j));
                    let a = choose|a: int| 0 <= a < acc.len() && acc[a].0 == j;
                    if r != acc {
                        assert(r[a] == acc[a]);
                    }
                } else {
                    assert(r[acc.len() as int].0 == j);
                }
            }
            if has_key(r, j) {
                let a = choose|a: int| 0 <= a < r.len() && r[a].0 == j;
                if a < acc.len() {
                    assert(r[a] == acc[a]);
                    assert(has_key(acc, j));
                    assert(has_key(prev, j));
                    let i = choose|i: int| 0 <= i < prev.len() && prev[i].0 == j;
                    assert(prev[i] == kw[i]);
                } else {
                    assert(kw[kw.len() - 1].0 == j);
                }
            }
        }
        if has_key(r, k) {
            let a = choose|a: int| 0 <= a < r.len() && r[a].0 == k;
            if a < acc.len() {
                assert(r[a] == acc[a]);
            }
        }
    }
}

/// Extra keywords merged first-write-wins: each member of `entries` whose key
/// is not `type` and not yet present is appended, in order.
pub open spec fn merge_keywords(kw: Entries, entries: Entries) -> Entries
    decreases entries.len(),
{
    if entries.len() == 0 {
        kw
    } else {
        let acc = merge_keywords(kw, entries.drop_last());
        let (k, v) = entries.last();
        if k == "type"@ || has_key(acc, k) {
            acc
        } else {
            acc.push((k, v))
        }
    }
}

/// Characters equal, one by one.
pub fn text_eq(a: &str, b: &str) -> (r: bool)
    ensures
        r == (a@ == b@),
{
    let n = a.unicode_len();
    let m = b.unicode_len();
    if n != m {
        return false;
    }
    let mut i: usize = 0;
    while i < n
        invariant
            n == a@.len(),
            m == b@.len(),
            n == m,
            i <= n,
            a@.subrange(0, i as int) == b@.subrange(0, i as int),
        decreases n - i,
    {
        if a.get_char(i) != b.get_char(i) {
            assert(a@[i as int] != b@[i as int]);
            return false;
        }
        assert(a@.subrange(0, i + 1) == a@.subrange(0, i as int).push(a@[i as int]));
        assert(b@.subrange(0, i + 1) == b@.subrange(0, i as int).push(b@[i as int]));
        i = i + 1;
    }
    assert(a@ == a@.subrange(0, n as int));
    assert(b@ == b@.subrange(0, n as int));
    true
}

/// A copy of `v` with the same value.
pub fn copy_value(v: &JsonValue) -> (r: JsonValue)
    ensures
        json_of(r) == json_of(*v),
    decreases v,
{
    match v {
        JsonValue::Null => JsonValue::Null,
        JsonValue::Bool(b) => JsonValue::Bool(*b),
        JsonValue::Integer(n) => JsonValue::Integer(*n),
        JsonValue::Real(s) => JsonValue::Real(s.clone()),
        JsonValue::Str(s) => JsonValue::Str(s.clone()),
        JsonValue::Array(items) => JsonValue::Array(copy_items(items)),
        JsonValue::Object(entries) => {
            let out = copy_entries(entries);
            JsonValue::Object(out)
        },
    }
}

/// A copy of an array's items with the same value.
pub fn copy_items(items: &Vec<JsonValue>) -> (r: Vec<JsonValue>)
    ensures
        json_seq_of(r@) == json_seq_of(items@),
    decreases items,
{
    let mut out: Vec<JsonValue> = Vec::new();
    let mut i: usize = 0;
    while i < items.len()
        invariant
            i <= items.len(),
            json_seq_of(out@) == json_seq_of(items@.subrange(0, i as int)),
        decreases items.len() - i,
    {
        let c = copy_value(&items[i]);
        proof {
            let pre = out@;
            assert(pre.push(c).subrange(0, pre.len() as int) == pre);
            assert(items@.subrange(0, i + 1).subrange(0, i as int) == items@.subrange(0, i as int));
        }
        out.push(c);
        i = i + 1;
    }
    assert(items@.subrange(0, items.len() as int) == items@);
    out
}

/// A copy of an object's members with the same value.
pub fn copy_entries(entries: &Vec<(String, JsonValue)>) -> (r: Vec<(String, JsonValue)>)
    ensures
        entries_of(r@) == entries_of(entries@),
    decreases entries,
{
    let mut out: Vec<(String, JsonValue)> = Vec::new();
    let mut i: usize = 0;
    while i < entries.len()
        invariant
            i <= entries.len(),
            entries_of(out@) == entries_of(entries@.subrange(0, i as int)),
        decreases entries.len() - i,
    {
        let c = copy_value(&entries[i].1);
        let k = entries[i].0.clone();
        proof {
            let pre = out@;
            assert(pre.push((k, c)).subrange(0, pre.len() as int) == pre);
            assert(entries@.subrange(0, i + 1).subrange(0, i as int) == entries@.subrange(
                0,
                i as int,
            ));
        }
        out.push((k, c));
        i = i + 1;
    }
    assert(entries@.subrange(0, entries.len() as int) == entries@);
    out
}

/// `r` is where `find_name` reports key `k` in `e`: its first position, or none.
pub open spec fn found_at<V>(e: Seq<(String, V)>, k: Seq<char>, r: Option<usize>) -> bool {
    match r {
        Some(i) => i < e.len() && e[i as int].0@ == k && forall|j: int|
            0 <= j < i ==> e[j].0@ != k,
        None => forall|j: int| 0 <= j < e.len() ==> e[j].0@ != k,
    }
}

/// The first position of key `k` among the members of `e`.
pub fn find_name<V>(e: &Vec<(String, V)>, k: &str) -> (r: Option<usize>)
    ensures
        found_at(e@, k@, r),
{
    let mut i: usize = 0;
    while i < e.len()
        invariant
            i <= e.len(),
            forall|j: int| 0 <= j < i ==> e@[j].0@ != k@,
        decreases e.len() - i,
    {
        if text_eq(e[i].0.as_str(), k) {
            return Some(i);
        }
        i = i + 1;
    }
    None
}

/// What `found_at` says of the members, said of a view `w` with the same keys.
pub proof fn lemma_found_at<V, W>(e: Seq<(String, V)>, w: Seq<(Seq<char>, W)>, k: Seq<char>, r: Option<usize>)
    requires
        found_at(e, k, r),
        w.len() == e.len(),
        forall|i: int| 0 <= i < e.len() ==> #[trigger] w[i].0 == e[i].0@,
    ensures
        r is Some <==> has_key(w, k),
        match r {
            Some(i) => key_pos(w, k) == i && 0 <= i < w.len(),
            None => key_pos(w, k) == -1,
        },
{
    match r {
        Some(i) => {
            assert(w[i as int].0 == k);
            assert forall|j: int| 0 <= j < i implies w[j].0 != k by {
                assert(w[j].0 == e[j].0@);
            }
            assert(is_first_key(w, k, i as int));
            lemma_key_pos(w, k, i as int);
        },
        None => {
            assert(!has_key(w, k)) by {
                if has_key(w, k) {
                    let j = choose|j: int| 0 <= j < w.len() && w[j].0 == k;
                    assert(w[j].0 == e[j].0@);
                }
            }
        },
    }
}

pub proof fn lemma_json_seq_push(s: Seq<JsonValue>, x: JsonValue)
    ensures
        json_seq_of(s.push(x)) == json_seq_of(s).push(json_of(x)),
{
    assert(s.push(x).subrange(0, s.len() as int) =~= s);
}

pub proof fn lemma_entries_push(e: Seq<(String, JsonValue)>, x: (String, JsonValue))
    ensures
        entries_of(e.push(x)) == entries_of(e).push((x.0@, json_of(x.1))),
{
    assert(e.push(x).subrange(0, e.len() as int) =~= e);
}

/// Merges extra keywords first-write-wins, leaving out `type`.
pub fn merge_entries(kw: &mut Vec<(String, JsonValue)>, e: &Vec<(String, JsonValue)>)
    ensures
        entries_of(final(kw)@) == merge_keywords(entries_of(old(kw)@), entries_of(e@)),
{
    let ghost start = entries_of(kw@);
    let mut i: usize = 0;
    while i < e.len()
        invariant
            i <= e.len(),
            entries_of(kw@) == merge_keywords(start, entries_of(e@.subrange(0, i as int))),
        decreases e.len() - i,
    {
        let ghost prefix = entries_of(e@.subrange(0, i as int));
        proof {
            assert(e@.subrange(0, i + 1).subrange(0, i as int) =~= e@.subrange(0, i as int));
            assert(entries_of(e@.subrange(0, i + 1)) == prefix.push((e@[i as int].0@, json_of(e@[i as int].1))));
            assert(prefix.push((e@[i as int].0@, json_of(e@[i as int].1))).drop_last() =~= prefix);
            lemma_entries_of(kw@);
        }
        let k = &e[i].0;
        if !text_eq(k.as_str(), "type") {
            let found = find_name(kw, k.as_str());
            proof {
                lemma_found_at(kw@, entries_of(kw@), k@, found);
            }
            if found.is_none() {
                let c = copy_value(&e[i].1);
                let kc = k.clone();
                proof {
                    lemma_entries_push(kw@, (kc, c));
                }
                kw.push((kc, c));
            }
        }
        i = i + 1;
    }
    assert(e@.subrange(0, e.len() as int) =~= e@);
}

/// Binds `k` to `v` alone: every member under `k` removed, then `(k, v)` appended.
pub fn set_entry(kw: &mut Vec<(String, JsonValue)>, k: &str, v: JsonValue)
    ensures
        entries_of(final(kw)@) == set_key(entries_of(old(kw)@), k@, json_of(v)),
{
    remove_entry(kw, k);
    let ks = k.to_string();
    proof {
        lemma_entries_push(kw@, (ks, v));
    }
    kw.push((ks, v));
}

/// Removes every member under `k`.
pub fn remove_entry(kw: &mut Vec<(String, JsonValue)>, k: &str)
    ensures
        entries_of(final(kw)@) == remove_key(entries_of(old(kw)@), k@),
{
    let mut out: Vec<(String, JsonValue)> = Vec::new();
    let ghost start = kw@;
    assert(entries_of(out@) =~= Seq::empty());
    assert(entries_of(start.subrange(0, 0)) =~= Seq::empty());
    while kw.len() > 0
        invariant
            kw@.len() <= start.len(),
            kw@ == start.subrange(start.len() - kw@.len(), start.len() as int),
            entries_of(out@) == remove_key(
                entries_of(start.subrange(0, start.len() - kw@.len())),
                k@,
            ),
        decreases kw@.len(),
    {
        let ghost done = start.len() - kw@.len();
        let m = kw.remove(0);
        proof {
            assert(start[done] == m);
            assert(kw@ =~= start.subrange(done + 1, start.len() as int));
            let pre = start.subrange(0, done);
            let nxt = start.subrange(0, done + 1);
            assert(nxt.subrange(0, done) =~= pre);
            assert(entries_of(nxt) == entries_of(pre).push((m.0@, json_of(m.1))));
            assert(entries_of(nxt).drop_last() =~= entries_of(pre));
        }
        if !text_eq(m.0.as_str(), k) {
            proof {
                lemma_entries_push(out@, m);
            }
            out.push(m);
        }
    }
    assert(start.subrange(0, start.len() as int) =~= start);
    *kw = out;
}

} // verus!
