use vstd::prelude::*;

use crate::model::{add_name, insert_pos, keep_listed, sort_names, text_less};

verus! {

/// The characters of each name.
pub open spec fn names_view(v: Seq<String>) -> Seq<Seq<char>> {
    v.map_values(|s: String| s@)
}

/// Whether `a` sorts before `b`, comparing code points.
pub fn text_before(a: &str, b: &str) -> (r: bool)
    ensures
        r == text_less(a@, b@),
{
    let n = a.unicode_len();
    let m = b.unicode_len();
    let mut i: usize = 0;
    assert(a@.subrange(0, n as int) =~= a@);
    assert(b@.subrange(0, m as int) =~= b@);
    while i < n && i < m
        invariant
            n == a@.len(),
            m == b@.len(),
            i <= n,
            i <= m,
            a@.subrange(0, i as int) == b@.subrange(0, i as int),
            text_less(a@, b@) == text_less(
                a@.subrange(i as int, n as int),
                b@.subrange(i as int, m as int),
            ),
        decreases n - i,
    {
        let x = a.get_char(i);
        let y = b.get_char(i);
        let ghost sa = a@.subrange(i as int, n as int);
        let ghost sb = b@.subrange(i as int, m as int);
        assert(sa[0] == x && sb[0] == y);
        if x != y {
            return (x as u32) < (y as u32);
        }
        assert(sa.subrange(1, sa.len() as int) == a@.subrange(i + 1, n as int));
        assert(sb.subrange(1, sb.len() as int) == b@.subrange(i + 1, m as int));
        assert(a@.subrange(0, i + 1) == a@.subrange(0, i as int).push(x));
        assert(b@.subrange(0, i + 1) == b@.subrange(0, i as int).push(y));
        i = i + 1;
    }
    i == n && i < m
}

/// Whether `names` holds `x`.
pub fn contains_name(names: &Vec<String>, x: &str) -> (r: bool)
    ensures
        r == names_view(names@).contains(x@),
{
    let mut i: usize = 0;
    while i < names.len()
        invariant
            i <= names.len(),
            forall|j: int| 0 <= j < i ==> names@[j]@ != x@,
        decreases names.len() - i,
    {
        if crate::value::text_eq(names[i].as_str(), x) {
            assert(names_view(names@)[i as int] == x@);
            return true;
        }
        i = i + 1;
    }
    assert(!names_view(names@).contains(x@)) by {
        if names_view(names@).contains(x@) {
            let j = choose|j: int| 0 <= j < names@.len() && names_view(names@)[j] == x@;
            assert(names@[j]@ == x@);
        }
    }
    false
}

/// Appends `x` unless `names` holds it already.
pub fn push_name(names: &mut Vec<String>, x: &str)
    ensures
        names_view(final(names)@) == add_name(names_view(old(names)@), x@),
{
    if !contains_name(names, x) {
        let s = x.to_string();
        names.push(s);
        assert(names_view(names@) =~= names_view(old(names)@).push(x@));
    }
}

/// The names of `r` that `names` also holds, in the order of `r`.
pub fn keep_names(r: &Vec<String>, names: &Vec<String>) -> (out: Vec<String>)
    ensures
        names_view(out@) == keep_listed(names_view(r@), names_view(names@)),
{
    let mut out: Vec<String> = Vec::new();
    let mut i: usize = 0;
    while i < r.len()
        invariant
            i <= r.len(),
            names_view(out@) == keep_listed(
                names_view(r@).subrange(0, i as int),
                names_view(names@),
            ),
        decreases r.len() - i,
    {
        let ghost rv = names_view(r@);
        assert(rv.subrange(0, i + 1).drop_last() =~= rv.subrange(0, i as int));
        assert(rv.subrange(0, i + 1).last() == r@[i as int]@);
        if contains_name(names, r[i].as_str()) {
            let s = r[i].clone();
            out.push(s);
            assert(names_view(out@) =~= keep_listed(rv.subrange(0, i as int), names_view(names@)).push(
                r@[i as int]@,
            ));
        }
        i = i + 1;
    }
    assert(names_view(r@).subrange(0, r.len() as int) =~= names_view(r@));
    out
}

proof fn lemma_insert_pos(s: Seq<Seq<char>>, x: Seq<char>, i: int)
    requires
        0 <= i <= s.len(),
        forall|j: int| 0 <= j < i ==> !text_less(x, #[trigger] s[j]),
        i == s.len() || text_less(x, s[i]),
    ensures
        insert_pos(s, x) == i,
    decreases s.len(),
{
    if s.len() > 0 && i > 0 {
        let t = s.subrange(1, s.len() as int);
        assert forall|j: int| 0 <= j < i - 1 implies !text_less(x, #[trigger] t[j]) by {
            assert(t[j] == s[j + 1]);
        }
        assert(!text_less(x, s[0]));
        if i < s.len() {
            assert(t[i - 1] == s[i]);
        }
        lemma_insert_pos(t, x, i - 1);
    }
}

/// `names` in ascending order.
pub fn sort_texts(names: &Vec<String>) -> (out: Vec<String>)
    ensures
        names_view(out@) == sort_names(names_view(names@)),
{
    let mut out: Vec<String> = Vec::new();
    let mut i: usize = 0;
    while i < names.len()
        invariant
            i <= names.len(),
            names_view(out@) == sort_names(names_view(names@).subrange(0, i as int)),
        decreases names.len() - i,
    {
        let ghost nv = names_view(names@);
        assert(nv.subrange(0, i + 1).drop_last() =~= nv.subrange(0, i as int));
        assert(nv.subrange(0, i + 1).last() == names@[i as int]@);
        let x = names[i].as_str();
        let mut p: usize = 0;
        while p < out.len() && !text_before(x, out[p].as_str())
            invariant
                p <= out.len(),
                forall|j: int| 0 <= j < p ==> !text_less(x@, #[trigger] names_view(out@)[j]),
            decreases out.len() - p,
        {
            p = p + 1;
        }
        proof {
            lemma_insert_pos(names_view(out@), x@, p as int);
        }
        let s = names[i].clone();
        let ghost pre = out@;
        out.insert(p, s);
        assert(names_view(out@) =~= names_view(pre).insert(p as int, x@));
        i = i + 1;
    }
    assert(names_view(names@).subrange(0, names.len() as int) =~= names_view(names@));
    out
}

} // verus!
