use vstd::prelude::*;
use vstd::slice::slice_subrange;

verus! {

/// How a raw buffer is cut into documents: at an explicit delimiter byte
/// (else where the brace depth returns to zero), and whether a buffer that
/// is one array is unwrapped into its elements.
pub struct BuildConfig {
    pub delimiter: Option<u8>,
    pub ignore_outer_array: bool,
}

pub open spec fn is_open(b: u8) -> bool {
    b == 0x7b || b == 0x5b
}

pub open spec fn is_close(b: u8) -> bool {
    b == 0x7d || b == 0x5d
}

/// The position of the first `{` or `[`, or the length.
pub open spec fn first_open(d: Seq<u8>) -> int
    decreases d.len(),
{
    if d.len() == 0 {
        0
    } else if is_open(d[0]) {
        0
    } else {
        1 + first_open(d.subrange(1, d.len() as int))
    }
}

/// The position just after the last `}` or `]`, or zero.
pub open spec fn last_close_end(d: Seq<u8>) -> int
    decreases d.len(),
{
    if d.len() == 0 {
        0
    } else if is_close(d[d.len() - 1]) {
        d.len() as int
    } else {
        last_close_end(d.subrange(0, d.len() - 1))
    }
}

/// The range that trimming keeps: from the first opening bracket to the
/// last closing one, or an empty range at the end when there is no such pair.
pub open spec fn trim_bounds(d: Seq<u8>) -> (int, int) {
    let s = first_open(d);
    let e = last_close_end(d);
    if s < e {
        (s, e)
    } else {
        (d.len() as int, d.len() as int)
    }
}

/// A buffer that starts with `[` and ends with `]`.
pub open spec fn is_array_text(d: Seq<u8>) -> bool {
    d.len() > 0 && d[0] == 0x5b && d[d.len() - 1] == 0x5d
}

/// The pieces between occurrences of `delim`, as ranges: the closed pieces
/// of the first `n` bytes and where the open one starts.
pub open spec fn delim_scan(d: Seq<u8>, delim: u8, n: int) -> (Seq<(int, int)>, int)
    decreases n,
{
    if n <= 0 {
        (Seq::empty(), 0)
    } else {
        let (ps, st) = delim_scan(d, delim, n - 1);
        if d[n - 1] == delim {
            (ps.push((st, n - 1)), n)
        } else {
            (ps, st)
        }
    }
}

/// `d` split at every `delim`, the last piece included even when empty.
pub open spec fn delim_pieces(d: Seq<u8>, delim: u8) -> Seq<(int, int)> {
    let (ps, st) = delim_scan(d, delim, d.len() as int);
    ps.push((st, d.len() as int))
}

/// The closed pieces of the first `n` bytes, where the open one starts, and
/// the brace depth: a piece closes after a `}` that brings the depth to zero.
pub open spec fn depth_scan(d: Seq<u8>, n: int) -> (Seq<(int, int)>, int, int)
    decreases n,
{
    if n <= 0 {
        (Seq::empty(), 0, 0)
    } else {
        let (ps, st, depth) = depth_scan(d, n - 1);
        let b = d[n - 1];
        let depth2 = if b == 0x7b {
            depth + 1
        } else if b == 0x7d {
            depth - 1
        } else {
            depth
        };
        if b == 0x7d && depth2 == 0 {
            (ps.push((st, n)), n, depth2)
        } else {
            (ps, st, depth2)
        }
    }
}

/// `d` cut after each `}` that closes the outermost object; a non-empty
/// rest is the last piece.
pub open spec fn depth_pieces(d: Seq<u8>) -> Seq<(int, int)> {
    let (ps, st, _) = depth_scan(d, d.len() as int);
    if st < d.len() {
        ps.push((st, d.len() as int))
    } else {
        ps
    }
}

pub open spec fn shift(ps: Seq<(int, int)>, by: int) -> Seq<(int, int)> {
    ps.map_values(|p: (int, int)| (p.0 + by, p.1 + by))
}

/// The pieces of a buffer before each is trimmed, as ranges of the buffer.
pub open spec fn pieces_of(d: Seq<u8>, delimiter: Option<u8>, unwrap: bool) -> Seq<(int, int)> {
    let (s, e) = trim_bounds(d);
    let t = d.subrange(s, e);
    if is_array_text(t) && unwrap {
        shift(depth_pieces(t.subrange(1, t.len() - 1)), s + 1)
    } else if is_array_text(t) {
        seq![(s, e)]
    } else if t.len() == 0 {
        Seq::empty()
    } else {
        match delimiter {
            Some(b) => shift(delim_pieces(t, b), s),
            None => shift(depth_pieces(t), s),
        }
    }
}

/// Each piece trimmed, the empty ones left out.
pub open spec fn trimmed_pieces(d: Seq<u8>, ps: Seq<(int, int)>) -> Seq<(int, int)>
    decreases ps.len(),
{
    if ps.len() == 0 {
        Seq::empty()
    } else {
        let acc = trimmed_pieces(d, ps.drop_last());
        let (a, b) = ps.last();
        let (s, e) = trim_bounds(d.subrange(a, b));
        if s < e {
            acc.push((a + s, a + e))
        } else {
            acc
        }
    }
}

/// The documents of a buffer, as ranges of it.
pub open spec fn documents(d: Seq<u8>, delimiter: Option<u8>, unwrap: bool) -> Seq<(int, int)> {
    trimmed_pieces(d, pieces_of(d, delimiter, unwrap))
}

pub open spec fn ranges_view(r: Seq<(usize, usize)>) -> Seq<(int, int)> {
    r.map_values(|p: (usize, usize)| (p.0 as int, p.1 as int))
}

/// The range that trimming keeps.
pub fn trim_range(data: &[u8]) -> (r: (usize, usize))
    ensures
        (r.0 as int, r.1 as int) == trim_bounds(data@),
        r.0 <= r.1 <= data@.len(),
{
    let n = data.len();
    let mut s: usize = 0;
    assert(data@.subrange(0, n as int) =~= data@);
    while s < n && !(data[s] == 0x7b || data[s] == 0x5b)
        invariant
            n == data@.len(),
            s <= n,
            first_open(data@) == s + first_open(data@.subrange(s as int, n as int)),
        decreases n - s,
    {
        let ghost rest = data@.subrange(s as int, n as int);
        assert(rest.subrange(1, rest.len() as int) =~= data@.subrange(s + 1, n as int));
        s = s + 1;
    }
    let mut e: usize = n;
    while e > 0 && !(data[e - 1] == 0x7d || data[e - 1] == 0x5d)
        invariant
            n == data@.len(),
            e <= n,
            last_close_end(data@) == last_close_end(data@.subrange(0, e as int)),
        decreases e,
    {
        let ghost pre = data@.subrange(0, e as int);
        assert(pre.subrange(0, pre.len() - 1) =~= data@.subrange(0, e - 1));
        e = e - 1;
    }
    if s < e {
        (s, e)
    } else {
        (n, n)
    }
}

/// The data without surrounding whitespace and other bytes before the first
/// opening bracket or after the last closing one.
pub fn trim_to_object(data: &[u8]) -> (r: &[u8])
    ensures
        r@ == data@.subrange(trim_bounds(data@).0, trim_bounds(data@).1),
{
    let (s, e) = trim_range(data);
    slice_subrange(data, s, e)
}

/// Whether the (trimmed) data is one array.
pub fn is_json_object_array(data: &[u8]) -> (r: bool)
    ensures
        r == is_array_text(data@),
{
    data.len() > 0 && data[0] == 0x5b && data[data.len() - 1] == 0x5d
}

/// The bytes between the brackets of an array.
pub fn get_json_array_elements(data: &[u8]) -> (r: &[u8])
    requires
        is_array_text(data@),
    ensures
        r@ == data@.subrange(1, data@.len() - 1),
{
    slice_subrange(data, 1, data.len() - 1)
}

/// The pieces between occurrences of `delim`.
pub fn split_at_delimiter(data: &[u8], delim: u8) -> (r: Vec<(usize, usize)>)
    ensures
        ranges_view(r@) == delim_pieces(data@, delim),
        forall|j: int| #![trigger r@[j]] 0 <= j < r@.len() ==> r@[j].0 <= r@[j].1 <= data@.len(),
{
    let mut out: Vec<(usize, usize)> = Vec::new();
    let mut st: usize = 0;
    let mut i: usize = 0;
    assert(ranges_view(out@) =~= Seq::empty());
    while i < data.len()
        invariant
            i <= data@.len(),
            st <= i,
            (ranges_view(out@), st as int) == delim_scan(data@, delim, i as int),
            forall|j: int| #![trigger out@[j]] 0 <= j < out@.len() ==> out@[j].0 <= out@[j].1 <= i,
        decreases data.len() - i,
    {
        if data[i] == delim {
            let ghost pre = out@;
            out.push((st, i));
            assert(forall|j: int| 0 <= j < pre.len() ==> out@[j] == pre[j]);
            assert(ranges_view(out@) =~= ranges_view(pre).push((st as int, i as int)));
            st = i + 1;
        }
        i = i + 1;
    }
    let ghost pre = out@;
    out.push((st, data.len()));
    assert(ranges_view(out@) =~= ranges_view(pre).push((st as int, data@.len() as int)));
    out
}

/// The pieces that end where the brace depth returns to zero on a `}`.
pub fn split_at_depth_zero(data: &[u8]) -> (r: Vec<(usize, usize)>)
    ensures
        ranges_view(r@) == depth_pieces(data@),
        forall|j: int| #![trigger r@[j]] 0 <= j < r@.len() ==> r@[j].0 <= r@[j].1 <= data@.len(),
{
    let mut out: Vec<(usize, usize)> = Vec::new();
    let mut st: usize = 0;
    let mut depth: i128 = 0;
    let mut i: usize = 0;
    assert(ranges_view(out@) =~= Seq::empty());
    while i < data.len()
        invariant
            i <= data@.len(),
            st <= i,
            -(i as int) <= depth <= i as int,
            (ranges_view(out@), st as int, depth as int) == depth_scan(data@, i as int),
            forall|j: int| #![trigger out@[j]] 0 <= j < out@.len() ==> out@[j].0 <= out@[j].1 <= i,
        decreases data.len() - i,
    {
        let b = data[i];
        if b == 0x7b {
            depth = depth + 1;
        } else if b == 0x7d {
            depth = depth - 1;
        }
        if b == 0x7d && depth == 0 {
            let ghost pre = out@;
            out.push((st, i + 1));
            assert(forall|j: int| 0 <= j < pre.len() ==> out@[j] == pre[j]);
            assert(ranges_view(out@) =~= ranges_view(pre).push((st as int, i + 1)));
            st = i + 1;
        }
        i = i + 1;
    }
    if st < data.len() {
        let ghost pre = out@;
        out.push((st, data.len()));
        assert(ranges_view(out@) =~= ranges_view(pre).push((st as int, data@.len() as int)));
    }
    out
}

/// `ps` moved `by` bytes further.
fn shift_ranges(ps: Vec<(usize, usize)>, by: usize, Ghost(bound): Ghost<int>) -> (r: Vec<(usize, usize)>)
    requires
        forall|i: int| #![trigger ps@[i]] 0 <= i < ps@.len() ==> ps@[i].1 + by <= bound,
        forall|i: int| #![trigger ps@[i]] 0 <= i < ps@.len() ==> ps@[i].0 <= ps@[i].1,
        bound <= usize::MAX,
    ensures
        ranges_view(r@) == shift(ranges_view(ps@), by as int),
        forall|j: int| #![trigger r@[j]] 0 <= j < r@.len() ==> r@[j].0 <= r@[j].1 <= bound,
{
    let mut out: Vec<(usize, usize)> = Vec::new();
    let mut i: usize = 0;
    while i < ps.len()
        invariant
            i <= ps@.len(),
            forall|j: int| #![trigger ps@[j]] 0 <= j < ps@.len() ==> ps@[j].1 + by <= bound,
            forall|j: int| #![trigger ps@[j]] 0 <= j < ps@.len() ==> ps@[j].0 <= ps@[j].1,
            bound <= usize::MAX,
            ranges_view(out@) == shift(ranges_view(ps@), by as int).subrange(0, i as int),
            forall|j: int| #![trigger out@[j]] 0 <= j < out@.len() ==> out@[j].0 <= out@[j].1 <= bound,
        decreases ps.len() - i,
    {
        let (a, b) = ps[i];
        assert(b + by <= bound);
        let ghost pre = out@;
        assert(ranges_view(ps@)[i as int] == (a as int, b as int));
        assert(shift(ranges_view(ps@), by as int)[i as int] == (a + by, b + by));
        out.push((a + by, b + by));
        assert(ranges_view(out@) =~= ranges_view(pre).push((a + by, b + by)));
        assert(ranges_view(out@) =~= shift(ranges_view(ps@), by as int).subrange(0, i + 1));
        i = i + 1;
    }
    assert(shift(ranges_view(ps@), by as int).subrange(0, ps@.len() as int) =~= shift(
        ranges_view(ps@),
        by as int,
    ));
    out
}

/// The documents of a buffer, as ranges of it: the trimmed buffer is split
/// into pieces (an array unwrapped into its elements when asked for, kept
/// whole otherwise; any other buffer cut at the delimiter or where the brace
/// depth returns to zero), and each piece is trimmed, the empty ones dropped.
pub fn document_ranges(data: &[u8], config: &BuildConfig) -> (r: Vec<(usize, usize)>)
    ensures
        ranges_view(r@) == documents(data@, config.delimiter, config.ignore_outer_array),
        forall|j: int| #![trigger r@[j]] 0 <= j < r@.len() ==> r@[j].0 < r@[j].1 <= data@.len(),
{
    let n = data.len();
    assert(data@.len() == n as int);
    let (s, e) = trim_range(data);
    let t = slice_subrange(data, s, e);
    let array = is_json_object_array(t);
    let pieces: Vec<(usize, usize)> = if array && config.ignore_outer_array {
        let inner = get_json_array_elements(t);
        let ps = split_at_depth_zero(inner);
        assert(inner@.len() + s + 1 <= data@.len());
        shift_ranges(ps, s + 1, Ghost(data@.len() as int))
    } else if array {
        let mut ps: Vec<(usize, usize)> = Vec::new();
        ps.push((s, e));
        assert(ranges_view(ps@) =~= seq![(s as int, e as int)]);
        ps
    } else if t.len() == 0 {
        let ps: Vec<(usize, usize)> = Vec::new();
        assert(ranges_view(ps@) =~= Seq::empty());
        ps
    } else {
        match config.delimiter {
            Some(b) => {
                let ps = split_at_delimiter(t, b);
                assert(t@.len() + s <= data@.len());
                shift_ranges(ps, s, Ghost(data@.len() as int))
            },
            None => {
                let ps = split_at_depth_zero(t);
                assert(t@.len() + s <= data@.len());
                shift_ranges(ps, s, Ghost(data@.len() as int))
            },
        }
    };
    assert(ranges_view(pieces@) == pieces_of(data@, config.delimiter, config.ignore_outer_array));
    let ghost pv = ranges_view(pieces@);
    let mut out: Vec<(usize, usize)> = Vec::new();
    let mut i: usize = 0;
    assert(ranges_view(out@) =~= Seq::empty());
    while i < pieces.len()
        invariant
            i <= pieces@.len(),
            pv == ranges_view(pieces@),
            forall|j: int| #![trigger pieces@[j]] 0 <= j < pieces@.len() ==> pieces@[j].0 <= pieces@[j].1 <= data@.len(),
            ranges_view(out@) == trimmed_pieces(data@, pv.subrange(0, i as int)),
            forall|j: int| #![trigger out@[j]] 0 <= j < out@.len() ==> out@[j].0 < out@[j].1 <= data@.len(),
        decreases pieces.len() - i,
    {
        let (a, b) = pieces[i];
        let sub = slice_subrange(data, a, b);
        let (x, y) = trim_range(sub);
        proof {
            assert(pv.subrange(0, i + 1).drop_last() =~= pv.subrange(0, i as int));
            assert(pv[i as int] == (a as int, b as int));
        }
        if x < y {
            let ghost pre = out@;
            out.push((a + x, a + y));
            assert(ranges_view(out@) =~= ranges_view(pre).push((a + x, a + y)));
        }
        i = i + 1;
    }
    assert(pv.subrange(0, pieces@.len() as int) =~= pv);
    out
}

/// The delimiter byte that a name stands for: `newline`, `tab` or `space`.
pub fn delimiter_from_name(name: &str) -> (r: Option<u8>)
    ensures
        r == (if name@ == "newline"@ {
            Some(0x0au8)
        } else if name@ == "tab"@ {
            Some(0x09u8)
        } else if name@ == "space"@ {
            Some(0x20u8)
        } else {
            None
        }),
{
    if crate::value::text_eq(name, "newline") {
        Some(0x0a)
    } else if crate::value::text_eq(name, "tab") {
        Some(0x09)
    } else if crate::value::text_eq(name, "space") {
        Some(0x20)
    } else {
        None
    }
}

} // verus!
