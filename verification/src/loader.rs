//! Building a graph from the two comma-separated tables: a node table whose
//! first row is a header, and a headerless edge table.

use vstd::prelude::*;
use crate::geopoint::{GeoPoint, PointModel, spec_dist};
use crate::graph::{WBDGraph, graph_wf, wf_at};

verus! {

/// Why a load was aborted. Any of these discards all partial state.
#[derive(Clone, Copy, Debug, PartialEq, Eq, Structural)]
pub enum LoadErr {
    /// An input could not be read at all (raised by callers that do I/O).
    UnreadableInput,
    /// A row does not have enough fields.
    MalformedRow,
    /// A coordinate, id, or edge endpoint is not a valid integer.
    NumericParseFailure,
    /// A dense-id field does not match its row's 0-based ordinal.
    MisalignedId,
    /// An edge references an id outside the loaded vertex range.
    InvalidEdgeIndex,
}

/// The views of a sequence of byte vectors.
pub open spec fn seq_of(v: Seq<Vec<u8>>) -> Seq<Seq<u8>> {
    v.map_values(|p: Vec<u8>| p@)
}

/// Splitting `s` at every occurrence of `sep`: one part more than there are
/// separators, in order, each part free of the separator.
pub open spec fn spec_split(s: Seq<u8>, sep: u8) -> Seq<Seq<u8>>
    decreases s.len(),
{
    if s.len() == 0 {
        seq![Seq::<u8>::empty()]
    } else if s[0] == sep {
        seq![Seq::<u8>::empty()] + spec_split(s.drop_first(), sep)
    } else {
        let rest = spec_split(s.drop_first(), sep);
        seq![seq![s[0]] + rest[0]] + rest.drop_first()
    }
}

proof fn lemma_split_len(s: Seq<u8>, sep: u8)
    ensures
        spec_split(s, sep).len() >= 1,
    decreases s.len(),
{
    if s.len() > 0 {
        lemma_split_len(s.drop_first(), sep);
    }
}

spec fn split_inv(s: Seq<u8>, sep: u8, done: Seq<Seq<u8>>, cur: Seq<u8>, i: int) -> bool {
    let tail = spec_split(s.skip(i), sep);
    spec_split(s, sep) == done + seq![cur + tail[0]] + tail.drop_first()
}

/// Split a byte string at every occurrence of `sep`.
fn split_bytes(s: &Vec<u8>, sep: u8) -> (parts: Vec<Vec<u8>>)
    ensures
        seq_of(parts@) == spec_split(s@, sep),
{
    let mut parts: Vec<Vec<u8>> = Vec::new();
    let mut cur: Vec<u8> = Vec::new();
    let mut i: usize = 0;
    proof {
        assert(s@.skip(0) =~= s@);
        lemma_split_len(s@, sep);
        assert(seq![spec_split(s@, sep)[0]] + spec_split(s@, sep).drop_first() =~= spec_split(
            s@,
            sep,
        ));
        assert(Seq::<u8>::empty() + spec_split(s@, sep)[0] =~= spec_split(s@, sep)[0]);
        assert(seq_of(parts@) =~= Seq::<Seq<u8>>::empty());
        assert(split_inv(s@, sep, seq_of(parts@), cur@, 0));
    }
    while i < s.len()
        invariant
            i <= s@.len(),
            split_inv(s@, sep, seq_of(parts@), cur@, i as int),
        decreases s@.len() - i,
    {
        let ghost t = s@.skip(i as int);
        let ghost t1 = s@.skip(i as int + 1);
        let ghost st = spec_split(t, sep);
        let ghost st1 = spec_split(t1, sep);
        let ghost done0 = seq_of(parts@);
        let ghost cur0 = cur@;
        proof {
            assert(t.len() > 0);
            assert(t[0] == s@[i as int]);
            assert(t.drop_first() =~= t1);
            lemma_split_len(t1, sep);
        }
        if s[i] == sep {
            parts.push(cur);
            cur = Vec::new();
            proof {
                assert(st == seq![Seq::<u8>::empty()] + st1);
                assert(st[0] =~= Seq::<u8>::empty());
                assert(st.drop_first() =~= st1);
                assert(cur0 + st[0] =~= cur0);
                assert(seq_of(parts@) =~= done0.push(cur0));
                assert(seq![st1[0]] + st1.drop_first() =~= st1);
                assert(done0 + seq![cur0 + st[0]] + st.drop_first() =~= done0.push(cur0) + seq![
                    Seq::<u8>::empty() + st1[0],
                ] + st1.drop_first());
                assert(split_inv(s@, sep, seq_of(parts@), cur@, i as int + 1));
            }
        } else {
            cur.push(s[i]);
            proof {
                assert(st == seq![seq![t[0]] + st1[0]] + st1.drop_first());
                assert(st[0] == seq![t[0]] + st1[0]);
                assert(st.drop_first() =~= st1.drop_first());
                assert(cur0 + (seq![t[0]] + st1[0]) =~= cur@ + st1[0]);
                assert(done0 + seq![cur0 + st[0]] + st.drop_first() =~= done0 + seq![cur@ + st1[0]]
                    + st1.drop_first());
                assert(split_inv(s@, sep, seq_of(parts@), cur@, i as int + 1));
            }
        }
        i = i + 1;
    }
    proof {
        let tail = spec_split(s@.skip(i as int), sep);
        assert(s@.skip(i as int) =~= Seq::<u8>::empty());
        assert(tail == seq![Seq::<u8>::empty()]);
        assert(cur@ + tail[0] =~= cur@);
        assert(tail.drop_first() =~= Seq::<Seq<u8>>::empty());
        assert(spec_split(s@, sep) =~= seq_of(parts@) + seq![cur@]);
    }
    let ghost done1 = seq_of(parts@);
    parts.push(cur);
    proof {
        assert(seq_of(parts@) =~= done1.push(cur@));
        assert(seq_of(parts@) =~= spec_split(s@, sep));
    }
    parts
}

/// A line with a trailing carriage return loses it.
pub open spec fn strip_cr(l: Seq<u8>) -> Seq<u8> {
    if l.len() > 0 && l.last() == 13 {
        l.drop_last()
    } else {
        l
    }
}

/// The non-empty lines among `ls[i..]`, each with any trailing carriage
/// return removed.
pub open spec fn spec_clean(ls: Seq<Seq<u8>>, i: int) -> Seq<Seq<u8>>
    decreases ls.len() - i,
        when 0 <= i <= ls.len()
{
    if i >= ls.len() {
        Seq::<Seq<u8>>::empty()
    } else {
        let l = strip_cr(ls[i]);
        if l.len() == 0 {
            spec_clean(ls, i + 1)
        } else {
            seq![l] + spec_clean(ls, i + 1)
        }
    }
}

/// The data lines of a table: split at newlines, trailing carriage returns
/// stripped, empty lines dropped.
pub open spec fn spec_lines(t: Seq<u8>) -> Seq<Seq<u8>> {
    spec_clean(spec_split(t, 10), 0)
}

spec fn clean_inv(ls: Seq<Seq<u8>>, out: Seq<Seq<u8>>, i: int) -> bool {
    spec_clean(ls, 0) == out + spec_clean(ls, i)
}

/// Split a table into its data lines.
fn clean_lines(text: &Vec<u8>) -> (r: Vec<Vec<u8>>)
    ensures
        seq_of(r@) == spec_lines(text@),
{
    let raw = split_bytes(text, 10);
    let ghost ls = seq_of(raw@);
    let mut out: Vec<Vec<u8>> = Vec::new();
    let mut k: usize = 0;
    proof {
        assert(seq_of(out@) =~= Seq::<Seq<u8>>::empty());
        assert(spec_clean(ls, 0) =~= Seq::<Seq<u8>>::empty() + spec_clean(ls, 0));
    }
    while k < raw.len()
        invariant
            k <= raw@.len(),
            ls == seq_of(raw@),
            clean_inv(ls, seq_of(out@), k as int),
        decreases raw@.len() - k,
    {
        let ghost out0 = seq_of(out@);
        let lr = &raw[k];
        proof {
            assert(lr@ == ls[k as int]);
        }
        let m: usize = if lr.len() > 0 && lr[lr.len() - 1] == 13 {
            lr.len() - 1
        } else {
            lr.len()
        };
        proof {
            assert(lr@.take(m as int) =~= strip_cr(ls[k as int]));
        }
        if m > 0 {
            let mut line: Vec<u8> = Vec::new();
            let mut j: usize = 0;
            while j < m
                invariant
                    j <= m,
                    m <= lr@.len(),
                    line@ == lr@.take(j as int),
                decreases m - j,
            {
                let ghost l0 = line@;
                line.push(lr[j]);
                proof {
                    assert(line@ =~= lr@.take(j as int + 1));
                }
                j = j + 1;
            }
            proof {
                assert(line@ == strip_cr(ls[k as int]));
            }
            out.push(line);
            proof {
                assert(seq_of(out@) =~= out0.push(strip_cr(ls[k as int])));
                assert(out0 + spec_clean(ls, k as int) =~= seq_of(out@) + spec_clean(
                    ls,
                    k as int + 1,
                ));
            }
        } else {
            proof {
                assert(strip_cr(ls[k as int]).len() == 0);
                assert(spec_clean(ls, k as int) == spec_clean(ls, k as int + 1));
            }
        }
        k = k + 1;
    }
    proof {
        assert(spec_clean(ls, k as int) =~= Seq::<Seq<u8>>::empty());
        assert(seq_of(out@) + spec_clean(ls, k as int) =~= seq_of(out@));
    }
    out
}

/// An ASCII decimal digit.
pub open spec fn is_digit(b: u8) -> bool {
    48 <= b <= 57
}

pub open spec fn all_digits(s: Seq<u8>) -> bool {
    forall|i: int| 0 <= i < s.len() ==> is_digit(#[trigger] s[i])
}

/// The value of a string of decimal digits.
pub open spec fn digits_val(s: Seq<u8>) -> int
    decreases s.len(),
{
    if s.len() == 0 {
        0
    } else {
        digits_val(s.drop_last()) * 10 + (s.last() - 48)
    }
}

/// A field parses as an unsigned integer exactly when it is a non-empty,
/// all-digit string whose value fits the machine word.
pub open spec fn spec_parse_uint(s: Seq<u8>) -> Option<int> {
    if s.len() >= 1 && all_digits(s) && digits_val(s) <= usize::MAX as int {
        Option::Some(digits_val(s))
    } else {
        Option::None
    }
}

proof fn lemma_digits_nonneg(s: Seq<u8>)
    requires
        all_digits(s),
    ensures
        digits_val(s) >= 0,
    decreases s.len(),
{
    if s.len() > 0 {
        lemma_digits_nonneg(s.drop_last());
    }
}

proof fn lemma_digits_prefix(s: Seq<u8>, j: int)
    requires
        all_digits(s),
        0 <= j <= s.len(),
    ensures
        digits_val(s.take(j)) <= digits_val(s),
    decreases s.len() - j,
{
    if j == s.len() {
        assert(s.take(j) =~= s);
    } else {
        lemma_digits_prefix(s, j + 1);
        assert(s.take(j + 1).drop_last() =~= s.take(j));
        assert(s.take(j + 1).last() == s[j]);
        lemma_digits_nonneg(s.take(j));
        assert(digits_val(s.take(j + 1)) == digits_val(s.take(j)) * 10 + (s[j] - 48));
    }
}

/// Parse a field as an unsigned integer.
fn parse_uint(s: &Vec<u8>) -> (r: Option<usize>)
    ensures
        match r {
            Option::Some(v) => spec_parse_uint(s@) == Option::Some(v as int),
            Option::None => spec_parse_uint(s@) is None,
        },
{
    if s.len() == 0 {
        return Option::None;
    }
    let mut acc: usize = 0;
    let mut i: usize = 0;
    proof {
        assert(s@.take(0) =~= Seq::<u8>::empty());
    }
    while i < s.len()
        invariant
            i <= s@.len(),
            s@.len() >= 1,
            all_digits(s@.take(i as int)),
            acc as int == digits_val(s@.take(i as int)),
        decreases s@.len() - i,
    {
        let b = s[i];
        if b < 48 || b > 57 {
            assert(!is_digit(s@[i as int]));
            return Option::None;
        }
        let d: usize = (b - 48) as usize;
        proof {
            assert(s@.take(i as int + 1).drop_last() =~= s@.take(i as int));
            assert(s@.take(i as int + 1).last() == s@[i as int]);
        }
        match acc.checked_mul(10) {
            Option::Some(a10) => {
                match a10.checked_add(d) {
                    Option::Some(a2) => {
                        acc = a2;
                    },
                    Option::None => {
                        proof {
                            if all_digits(s@) {
                                lemma_digits_prefix(s@, i as int + 1);
                            }
                        }
                        return Option::None;
                    },
                }
            },
            Option::None => {
                proof {
                    if all_digits(s@) {
                        lemma_digits_prefix(s@, i as int + 1);
                        lemma_digits_nonneg(s@.take(i as int + 1));
                    }
                }
                return Option::None;
            },
        }
        i = i + 1;
    }
    proof {
        assert(s@.take(i as int) =~= s@);
    }
    Option::Some(acc)
}

/// The fields of a row: the row split at every comma.
pub open spec fn spec_fields(l: Seq<u8>) -> Seq<Seq<u8>> {
    spec_split(l, 44)
}

/// The coordinates read from the node rows `rows[i..]`, or the first error.
/// Each row needs at least six fields; field 5 is the dense id and must equal
/// the row's ordinal, field 0 the x and field 2 the y coordinate.
pub open spec fn spec_node_rows(rows: Seq<Seq<u8>>, i: int) -> Result<
    Seq<(usize, usize)>,
    LoadErr,
>
    decreases rows.len() - i,
        when 0 <= i <= rows.len()
{
    if i >= rows.len() {
        Result::Ok(Seq::<(usize, usize)>::empty())
    } else {
        let f = spec_fields(rows[i]);
        if f.len() < 6 {
            Result::Err(LoadErr::MalformedRow)
        } else {
            match spec_parse_uint(f[5]) {
                Option::None => Result::Err(LoadErr::NumericParseFailure),
                Option::Some(id) => if id != i {
                    Result::Err(LoadErr::MisalignedId)
                } else {
                    match spec_parse_uint(f[0]) {
                        Option::None => Result::Err(LoadErr::NumericParseFailure),
                        Option::Some(x) => match spec_parse_uint(f[2]) {
                            Option::None => Result::Err(LoadErr::NumericParseFailure),
                            Option::Some(y) => match spec_node_rows(rows, i + 1) {
                                Result::Err(e) => Result::Err(e),
                                Result::Ok(rest) => Result::Ok(
                                    seq![((x as usize), (y as usize))] + rest,
                                ),
                            },
                        },
                    }
                },
            }
        }
    }
}

/// The edges read from the edge rows `rows[i..]`, or the first error. Each
/// row needs at least two fields, both endpoints valid ids under `n`.
pub open spec fn spec_edge_rows(rows: Seq<Seq<u8>>, n: int, i: int) -> Result<
    Seq<(usize, usize)>,
    LoadErr,
>
    decreases rows.len() - i,
        when 0 <= i <= rows.len()
{
    if i >= rows.len() {
        Result::Ok(Seq::<(usize, usize)>::empty())
    } else {
        let f = spec_fields(rows[i]);
        if f.len() < 2 {
            Result::Err(LoadErr::MalformedRow)
        } else {
            match spec_parse_uint(f[0]) {
                Option::None => Result::Err(LoadErr::NumericParseFailure),
                Option::Some(src) => match spec_parse_uint(f[1]) {
                    Option::None => Result::Err(LoadErr::NumericParseFailure),
                    Option::Some(dst) => if src >= n || dst >= n {
                        Result::Err(LoadErr::InvalidEdgeIndex)
                    } else {
                        match spec_edge_rows(rows, n, i + 1) {
                            Result::Err(e) => Result::Err(e),
                            Result::Ok(rest) => Result::Ok(
                                seq![((src as usize), (dst as usize))] + rest,
                            ),
                        }
                    },
                },
            }
        }
    }
}

/// The vertices before any edge is applied: one per coordinate pair, the
/// dense id equal to the position, the adjacency empty.
pub open spec fn init_points(coords: Seq<(usize, usize)>) -> Seq<PointModel> {
    Seq::new(
        coords.len(),
        |i: int|
            PointModel {
                id: i as usize,
                x: coords[i].0,
                y: coords[i].1,
                neighbors: Seq::<usize>::empty(),
                weights: Seq::<usize>::empty(),
            },
    )
}

/// The weight of the edge between `s` and `d`: the clamped integer Euclidean
/// distance between their coordinates.
pub open spec fn edge_weight(g: Seq<PointModel>, s: usize, d: usize) -> usize {
    spec_dist(
        g[s as int].x as int,
        g[s as int].y as int,
        g[d as int].x as int,
        g[d as int].y as int,
    ) as usize
}

/// Append one adjacency entry to vertex `a`.
pub open spec fn half_link(g: Seq<PointModel>, a: int, nb: usize, w: usize) -> Seq<PointModel> {
    g.update(
        a,
        PointModel {
            id: g[a].id,
            x: g[a].x,
            y: g[a].y,
            neighbors: g[a].neighbors.push(nb),
            weights: g[a].weights.push(w),
        },
    )
}

/// Apply the undirected edges `edges[i..]`: each produces two aligned
/// adjacency entries, one on each endpoint.
pub open spec fn apply_edges(g: Seq<PointModel>, edges: Seq<(usize, usize)>, i: int) -> Seq<
    PointModel,
>
    decreases edges.len() - i,
        when 0 <= i <= edges.len()
{
    if i >= edges.len() {
        g
    } else {
        let s = edges[i].0;
        let d = edges[i].1;
        let w = edge_weight(g, s, d);
        apply_edges(half_link(half_link(g, s as int, d, w), d as int, s, w), edges, i + 1)
    }
}

/// What importing the two tables yields: the node table's first line is a
/// header; its remaining lines give the vertices, the edge table's lines the
/// edges; the first error aborts the whole load.
pub open spec fn spec_import(nt: Seq<u8>, et: Seq<u8>) -> Result<Seq<PointModel>, LoadErr> {
    let nl = spec_lines(nt);
    let data = if nl.len() >= 1 {
        nl.drop_first()
    } else {
        nl
    };
    match spec_node_rows(data, 0) {
        Result::Err(e) => Result::Err(e),
        Result::Ok(coords) => match spec_edge_rows(spec_lines(et), coords.len() as int, 0) {
            Result::Err(e) => Result::Err(e),
            Result::Ok(edges) => Result::Ok(apply_edges(init_points(coords), edges, 0)),
        },
    }
}

spec fn nodes_inv(data: Seq<Seq<u8>>, cacc: Seq<(usize, usize)>, k: int) -> bool {
    spec_node_rows(data, 0) == (match spec_node_rows(data, k) {
        Result::Ok(rest) => Result::<Seq<(usize, usize)>, LoadErr>::Ok(cacc + rest),
        Result::Err(e) => Result::<Seq<(usize, usize)>, LoadErr>::Err(e),
    })
}

spec fn edges_inv(rows: Seq<Seq<u8>>, n: int, eacc: Seq<(usize, usize)>, k: int) -> bool {
    spec_edge_rows(rows, n, 0) == (match spec_edge_rows(rows, n, k) {
        Result::Ok(rest) => Result::<Seq<(usize, usize)>, LoadErr>::Ok(eacc + rest),
        Result::Err(e) => Result::<Seq<(usize, usize)>, LoadErr>::Err(e),
    })
}

/// The current points agree with the loaded coordinates.
spec fn coords_match(g: Seq<PointModel>, coords: Seq<(usize, usize)>) -> bool {
    &&& g.len() == coords.len()
    &&& forall|i: int|
        0 <= i < g.len() ==> (#[trigger] g[i]).x == coords[i].0 && g[i].y == coords[i].1
}

impl WBDGraph {
    /// Build a graph from the contents of the node table and the edge table.
    /// Returns the fully populated store, or the first error, discarding all
    /// partial state.
    #[verifier::loop_isolation(false)]
    pub fn import_twitch_csv(node_table: &Vec<u8>, edge_table: &Vec<u8>) -> (r: Result<
        WBDGraph,
        LoadErr,
    >)
        ensures
            match r {
                Result::Ok(g) => spec_import(node_table@, edge_table@) == Result::<
                    Seq<PointModel>,
                    LoadErr,
                >::Ok(g@) && graph_wf(g@),
                Result::Err(e) => spec_import(node_table@, edge_table@) == Result::<
                    Seq<PointModel>,
                    LoadErr,
                >::Err(e),
            },
    {
        let ghost nl = spec_lines(node_table@);
        let ghost data = if nl.len() >= 1 {
            nl.drop_first()
        } else {
            nl
        };
        let nlines = clean_lines(node_table);
        let n_data: usize = if nlines.len() >= 1 {
            nlines.len() - 1
        } else {
            0
        };
        proof {
            if nl.len() == 0 {
                assert(data =~= nl);
            }
        }
        let mut pts: Vec<GeoPoint> = Vec::new();
        let ghost mut cacc: Seq<(usize, usize)> = Seq::<(usize, usize)>::empty();
        let mut k: usize = 0;
        proof {
            assert(pts@.map_values(|p: GeoPoint| p@) =~= init_points(cacc));
            if spec_node_rows(data, 0) is Ok {
                let rest = spec_node_rows(data, 0)->Ok_0;
                assert(cacc + rest =~= rest);
            }
            assert(nodes_inv(data, cacc, 0));
        }
        while k < n_data
            invariant
                k <= n_data,
                data.len() == n_data,
                n_data == (if nl.len() >= 1 { nl.len() - 1 } else { 0 }),
                nl == spec_lines(node_table@),
                data == (if nl.len() >= 1 { nl.drop_first() } else { nl }),
                seq_of(nlines@) == nl,
                nlines@.len() == nl.len(),
                pts@.len() == k,
                cacc.len() == k,
                pts@.map_values(|p: GeoPoint| p@) == init_points(cacc),
                nodes_inv(data, cacc, k as int),
            decreases n_data - k,
        {
            let ghost f = spec_fields(data[k as int]);
            let row = &nlines[k + 1];
            proof {
                assert(row@ == nl[k as int + 1]);
                assert(data[k as int] == nl[k as int + 1]);
            }
            let fields = split_bytes(row, 44);
            proof {
                assert(seq_of(fields@) == f);
            }
            if fields.len() < 6 {
                proof {
                    assert(spec_node_rows(data, k as int) == Result::<
                        Seq<(usize, usize)>,
                        LoadErr,
                    >::Err(LoadErr::MalformedRow));
                }
                return Result::Err(LoadErr::MalformedRow);
            }
            let ido = parse_uint(&fields[5]);
            proof {
                assert(fields@[5]@ == f[5]);
            }
            let idv: usize = match ido {
                Option::Some(v) => v,
                Option::None => {
                    return Result::Err(LoadErr::NumericParseFailure);
                },
            };
            if idv != k {
                proof {
                    assert(spec_node_rows(data, k as int) == Result::<
                        Seq<(usize, usize)>,
                        LoadErr,
                    >::Err(LoadErr::MisalignedId));
                }
                return Result::Err(LoadErr::MisalignedId);
            }
            let xo = parse_uint(&fields[0]);
            proof {
                assert(fields@[0]@ == f[0]);
            }
            let xv: usize = match xo {
                Option::Some(v) => v,
                Option::None => {
                    return Result::Err(LoadErr::NumericParseFailure);
                },
            };
            let yo = parse_uint(&fields[2]);
            proof {
                assert(fields@[2]@ == f[2]);
            }
            let yv: usize = match yo {
                Option::Some(v) => v,
                Option::None => {
                    return Result::Err(LoadErr::NumericParseFailure);
                },
            };
            let ghost pm0 = pts@.map_values(|p: GeoPoint| p@);
            pts.push(GeoPoint::new(k, xv, yv));
            proof {
                let cacc1 = cacc.push((xv, yv));
                let pm1 = pts@.map_values(|p: GeoPoint| p@);
                assert forall|t: int| 0 <= t < pm1.len() implies pm1[t] == init_points(cacc1)[t] by {
                    if t < k as int {
                        assert(pm0[t] == init_points(cacc)[t]);
                        assert(cacc1[t] == cacc[t]);
                    }
                }
                assert(pm1 =~= init_points(cacc1));
                let nr1 = spec_node_rows(data, k as int + 1);
                assert(spec_node_rows(data, k as int) == (match nr1 {
                    Result::Err(e) => Result::<Seq<(usize, usize)>, LoadErr>::Err(e),
                    Result::Ok(rest) => Result::<Seq<(usize, usize)>, LoadErr>::Ok(
                        seq![((xv as usize), (yv as usize))] + rest,
                    ),
                }));
                if nr1 is Ok {
                    assert(cacc + (seq![(xv, yv)] + nr1->Ok_0) =~= cacc1 + nr1->Ok_0);
                }
                cacc = cacc1;
                assert(nodes_inv(data, cacc, k as int + 1));
            }
            k = k + 1;
        }
        proof {
            assert(spec_node_rows(data, n_data as int) == Result::<
                Seq<(usize, usize)>,
                LoadErr,
            >::Ok(Seq::<(usize, usize)>::empty()));
            assert(cacc + Seq::<(usize, usize)>::empty() =~= cacc);
            assert(spec_node_rows(data, 0) == Result::<Seq<(usize, usize)>, LoadErr>::Ok(cacc));
        }
        let ghost coords = cacc;
        let n = pts.len();

        let ghost el = spec_lines(edge_table@);
        let elines = clean_lines(edge_table);
        let mut edges: Vec<(usize, usize)> = Vec::new();
        let ghost mut eacc: Seq<(usize, usize)> = Seq::<(usize, usize)>::empty();
        let mut k2: usize = 0;
        proof {
            if spec_edge_rows(el, n as int, 0) is Ok {
                let rest = spec_edge_rows(el, n as int, 0)->Ok_0;
                assert(eacc + rest =~= rest);
            }
            assert(edges_inv(el, n as int, eacc, 0));
        }
        while k2 < elines.len()
            invariant
                k2 <= elines@.len(),
                el == spec_lines(edge_table@),
                seq_of(elines@) == el,
                elines@.len() == el.len(),
                n == coords.len(),
                edges@ == eacc,
                forall|j: int|
                    0 <= j < eacc.len() ==> (#[trigger] eacc[j]).0 < n && eacc[j].1 < n,
                edges_inv(el, n as int, eacc, k2 as int),
            decreases elines@.len() - k2,
        {
            let ghost f = spec_fields(el[k2 as int]);
            let row = &elines[k2];
            proof {
                assert(row@ == el[k2 as int]);
            }
            let fields = split_bytes(row, 44);
            proof {
                assert(seq_of(fields@) == f);
            }
            if fields.len() < 2 {
                proof {
                    assert(spec_edge_rows(el, n as int, k2 as int) == Result::<
                        Seq<(usize, usize)>,
                        LoadErr,
                    >::Err(LoadErr::MalformedRow));
                }
                return Result::Err(LoadErr::MalformedRow);
            }
            let so = parse_uint(&fields[0]);
            proof {
                assert(fields@[0]@ == f[0]);
            }
            let sv: usize = match so {
                Option::Some(v) => v,
                Option::None => {
                    return Result::Err(LoadErr::NumericParseFailure);
                },
            };
            let dvo = parse_uint(&fields[1]);
            proof {
                assert(fields@[1]@ == f[1]);
            }
            let dv: usize = match dvo {
                Option::Some(v) => v,
                Option::None => {
                    return Result::Err(LoadErr::NumericParseFailure);
                },
            };
            if sv >= n || dv >= n {
                proof {
                    assert(spec_edge_rows(el, n as int, k2 as int) == Result::<
                        Seq<(usize, usize)>,
                        LoadErr,
                    >::Err(LoadErr::InvalidEdgeIndex));
                }
                return Result::Err(LoadErr::InvalidEdgeIndex);
            }
            edges.push((sv, dv));
            proof {
                let eacc1 = eacc.push((sv, dv));
                let er1 = spec_edge_rows(el, n as int, k2 as int + 1);
                if er1 is Ok {
                    assert(eacc + (seq![(sv, dv)] + er1->Ok_0) =~= eacc1 + er1->Ok_0);
                }
                eacc = eacc1;
                assert(edges_inv(el, n as int, eacc, k2 as int + 1));
            }
            k2 = k2 + 1;
        }
        proof {
            assert(spec_edge_rows(el, n as int, elines@.len() as int) == Result::<
                Seq<(usize, usize)>,
                LoadErr,
            >::Ok(Seq::<(usize, usize)>::empty()));
            assert(eacc + Seq::<(usize, usize)>::empty() =~= eacc);
            assert(spec_edge_rows(el, n as int, 0) == Result::<Seq<(usize, usize)>, LoadErr>::Ok(
                eacc,
            ));
        }

        let ghost einit = init_points(coords);
        proof {
            assert(forall|i: int| 0 <= i < einit.len() ==> #[trigger] wf_at(einit, i));
            assert(graph_wf(einit));
            assert(coords_match(einit, coords));
        }
        let mut j: usize = 0;
        while j < edges.len()
            invariant
                j <= edges@.len(),
                edges@ == eacc,
                n == coords.len(),
                forall|t: int|
                    0 <= t < eacc.len() ==> (#[trigger] eacc[t]).0 < n && eacc[t].1 < n,
                pts@.len() == n,
                graph_wf(pts@.map_values(|p: GeoPoint| p@)),
                coords_match(pts@.map_values(|p: GeoPoint| p@), coords),
                apply_edges(pts@.map_values(|p: GeoPoint| p@), eacc, j as int) == apply_edges(
                    einit,
                    eacc,
                    0,
                ),
            decreases edges@.len() - j,
        {
            let ghost g0 = pts@.map_values(|p: GeoPoint| p@);
            let pr = edges[j];
            let s = pr.0;
            let d = pr.1;
            let w = pts[s].distance_to(&pts[d]);
            proof {
                assert(w == edge_weight(g0, s, d));
            }
            let ghost g1 = half_link(g0, s as int, d, w);
            let ghost g2 = half_link(g1, d as int, s, w);
            {
                let p = &mut pts[s];
                p.neighbors.push(d);
                p.weights.push(w);
            }
            proof {
                assert(pts@.map_values(|p: GeoPoint| p@) =~= g1);
            }
            {
                let p = &mut pts[d];
                p.neighbors.push(s);
                p.weights.push(w);
            }
            proof {
                assert(pts@.map_values(|p: GeoPoint| p@) =~= g2);
                assert(apply_edges(g0, eacc, j as int) == apply_edges(g2, eacc, j as int + 1));
                assert(coords_match(g2, coords));
                assert forall|i: int| 0 <= i < g2.len() implies #[trigger] wf_at(g2, i) by {
                    assert(wf_at(g0, i));
                }
                assert(graph_wf(g2));
            }
            j = j + 1;
        }
        proof {
            assert(apply_edges(pts@.map_values(|p: GeoPoint| p@), eacc, eacc.len() as int)
                == pts@.map_values(|p: GeoPoint| p@));
        }
        let g = WBDGraph { points: pts };
        proof {
            assert(g@ == apply_edges(einit, eacc, 0));
        }
        Result::Ok(g)
    }
}

/// A node row is well formed and aligned at position `j`.
pub open spec fn node_row_ok(rows: Seq<Seq<u8>>, j: int) -> bool {
    let f = spec_fields(rows[j]);
    &&& f.len() >= 6
    &&& spec_parse_uint(f[5]) == Option::Some(j)
    &&& spec_parse_uint(f[0]) is Some
    &&& spec_parse_uint(f[2]) is Some
}

proof fn lemma_node_rows_misaligned_from(rows: Seq<Seq<u8>>, k: int, i: int)
    requires
        0 <= i <= k < rows.len(),
        forall|j: int| i <= j < k ==> #[trigger] node_row_ok(rows, j),
        spec_fields(rows[k]).len() >= 6,
        spec_parse_uint(spec_fields(rows[k])[5]) is Some,
        spec_parse_uint(spec_fields(rows[k])[5]) != Option::<int>::Some(k),
    ensures
        spec_node_rows(rows, i) == Result::<Seq<(usize, usize)>, LoadErr>::Err(
            LoadErr::MisalignedId,
        ),
    decreases k - i,
{
    if i < k {
        assert(node_row_ok(rows, i));
        lemma_node_rows_misaligned_from(rows, k, i + 1);
    }
}

/// A node table whose dense-id field departs from the 0-based row ordinal at
/// some row, every earlier row being well formed and aligned, is rejected
/// with `MisalignedId`.
pub proof fn lemma_misaligned_id_rejected(rows: Seq<Seq<u8>>, k: int)
    requires
        0 <= k < rows.len(),
        forall|j: int| 0 <= j < k ==> #[trigger] node_row_ok(rows, j),
        spec_fields(rows[k]).len() >= 6,
        spec_parse_uint(spec_fields(rows[k])[5]) is Some,
        spec_parse_uint(spec_fields(rows[k])[5]) != Option::<int>::Some(k),
    ensures
        spec_node_rows(rows, 0) == Result::<Seq<(usize, usize)>, LoadErr>::Err(
            LoadErr::MisalignedId,
        ),
{
    lemma_node_rows_misaligned_from(rows, k, 0);
}

} // verus!
