//! The translation pass: canonicalizes qubit coordinates, visits time rows
//! in ascending order, dispatches each vertex on (role, degree) to circuit
//! instructions, tracks measurement records, and finally cross-references
//! the records against the supplied correlation surfaces ("webs") to emit
//! parity-check instructions.
//!
//! Every step is specified by a spec-level pipeline (`stim_instrs`,
//! `render_spec`), so the translation is a mathematical function of its
//! input: the executable functions are proved to return exactly its value.

use vstd::prelude::*;
use vstd::pervasive::VecAdditionalExecFns;
use crate::coord::{coord_is_nan, coord_key};
use crate::diagram::{
    Diagram, DiagramV, Role, degree, has_invalid_coord, lemma_nbrs_in_range, nbrs, neighbors_of,
    qkeys, rkeys,
};
use crate::keys::{
    find_key, insert_key, key_index, lemma_sorted_keys_props, spec_sorted_keys, strictly_sorted,
};
use crate::instr::{Instr, InstrV, instrs_view, lemma_instrs_view_push, render_instrs, render_spec};

verus! {

/// A Pauli label carried by a web edge.
#[derive(Clone, Copy, PartialEq, Eq, Structural, Debug)]
pub enum Pauli {
    X,
    Z,
}

/// One entry of a web: an unordered vertex pair (an edge of the diagram)
/// and the Pauli operator that edge contributes.
#[derive(Clone, Copy, PartialEq, Eq, Structural, Debug)]
pub struct WebEntry {
    pub a: usize,
    pub b: usize,
    pub pauli: Pauli,
}

/// A correlation surface: its edge/Pauli entries, in encounter order.
#[derive(Clone, Debug)]
pub struct Web {
    pub entries: Vec<WebEntry>,
}

/// The mathematical view of a list of webs.
pub open spec fn webs_view(ws: Seq<Web>) -> Seq<Seq<WebEntry>> {
    ws.map_values(|w: Web| w.entries@)
}

/// Every web entry names existing vertices.
pub open spec fn webs_wf(d: DiagramV, ws: Seq<Seq<WebEntry>>) -> bool {
    forall|i: int, j: int|
        0 <= i < ws.len() && 0 <= j < ws[i].len() ==> (#[trigger] ws[i][j]).a < d.verts.len()
            && ws[i][j].b < d.verts.len()
}

/// The one hard failure of the translation.
#[derive(Clone, Copy, PartialEq, Eq, Structural, Debug)]
pub enum TranslateError {
    /// A vertex carries an unorderable (NaN) `qubit` or `row` coordinate.
    InvalidCoordinate,
}

/// The canonical qubit table: the strictly sorted distinct qubit keys.
/// A coordinate's canonical qubit index is its position in this table.
pub open spec fn qtable(d: DiagramV) -> Seq<u64> {
    spec_sorted_keys(qkeys(d))
}

/// The row table: the strictly sorted distinct row keys, fixing the order
/// in which time rows are visited.
pub open spec fn rtable(d: DiagramV) -> Seq<u64> {
    spec_sorted_keys(rkeys(d))
}

/// The canonical qubit index of vertex `v`.
pub open spec fn canon_q(d: DiagramV, v: usize) -> usize {
    key_index(qtable(d), coord_key(d.verts[v as int].qubit)) as usize
}

/// Vertex `v` emits a measure-and-reset: degree one, not a boundary, and
/// its single neighbor lies in a strictly earlier row.
pub open spec fn measures(d: DiagramV, v: usize) -> bool {
    &&& degree(d, v) == 1
    &&& d.verts[v as int].role != Role::Boundary
    &&& coord_key(d.verts[nbrs(d, v)[0] as int].row) < coord_key(d.verts[v as int].row)
}

/// The controlled instructions of a degree-3 Z-spider `v`, one per
/// neighbor among the first `j` whose canonical qubit differs from `v`'s.
pub open spec fn cnot_upto(d: DiagramV, v: usize, j: int) -> Seq<InstrV>
    decreases j,
{
    if j <= 0 {
        Seq::empty()
    } else {
        let prev = cnot_upto(d, v, j - 1);
        let w = nbrs(d, v)[j - 1];
        if canon_q(d, w) != canon_q(d, v) {
            prev.push(InstrV::Controlled { control: canon_q(d, v), target: canon_q(d, w) })
        } else {
            prev
        }
    }
}

/// The instructions vertex `v` contributes, by (role, degree) dispatch:
/// boundaries and degree-2 vertices contribute nothing; a degree-1 spider
/// emits a basis change (Z only) and, when its neighbor is earlier, a
/// measure-and-reset; a degree-3 Z-spider emits the controlled
/// instructions (its X-spider partner emits nothing, avoiding double
/// emission); any other degree yields one comment-only diagnostic.
pub open spec fn vertex_instrs(d: DiagramV, v: usize) -> Seq<InstrV> {
    let deg = degree(d, v);
    let role = d.verts[v as int].role;
    if role == Role::Boundary {
        if deg == 0 || deg >= 4 {
            seq![InstrV::Diagnostic { degree: deg as usize, vertex: v }]
        } else {
            Seq::empty()
        }
    } else if deg == 1 {
        let base = if role == Role::ZSpider {
            seq![InstrV::BasisChange { qubit: canon_q(d, v) }]
        } else {
            Seq::empty()
        };
        if measures(d, v) {
            base.push(InstrV::MeasureReset { qubit: canon_q(d, v) })
        } else {
            base
        }
    } else if deg == 2 {
        Seq::empty()
    } else if deg == 3 {
        if role == Role::ZSpider {
            cnot_upto(d, v, 3)
        } else {
            Seq::empty()
        }
    } else {
        seq![InstrV::Diagnostic { degree: deg as usize, vertex: v }]
    }
}

/// The vertices of the row with key `rk` among indices below `n`, in
/// ascending index order: the deterministic processing order within a row.
pub open spec fn row_verts_upto(d: DiagramV, rk: u64, n: int) -> Seq<usize>
    decreases n,
{
    if n <= 0 {
        Seq::empty()
    } else {
        let prev = row_verts_upto(d, rk, n - 1);
        if coord_key(d.verts[n - 1].row) == rk {
            prev.push((n - 1) as usize)
        } else {
            prev
        }
    }
}

/// All vertices of the row with key `rk`, in ascending index order.
pub open spec fn row_verts(d: DiagramV, rk: u64) -> Seq<usize> {
    row_verts_upto(d, rk, d.verts.len() as int)
}

/// The instructions of a list of vertices, in order.
pub open spec fn emit_verts(d: DiagramV, vs: Seq<usize>) -> Seq<InstrV>
    decreases vs.len(),
{
    if vs.len() == 0 {
        Seq::empty()
    } else {
        emit_verts(d, vs.drop_last()) + vertex_instrs(d, vs.last())
    }
}

/// The instructions of the rows with keys `rt`, in order; every row ends
/// with a row-boundary marker, whatever it contributed.
pub open spec fn emit_rows(d: DiagramV, rt: Seq<u64>) -> Seq<InstrV>
    decreases rt.len(),
{
    if rt.len() == 0 {
        Seq::empty()
    } else {
        emit_rows(d, rt.drop_last()) + emit_verts(d, row_verts(d, rt.last())).push(InstrV::Tick)
    }
}

/// The processing order of all vertices of the rows with keys `rt`.
pub open spec fn order_upto(d: DiagramV, rt: Seq<u64>) -> Seq<usize>
    decreases rt.len(),
{
    if rt.len() == 0 {
        Seq::empty()
    } else {
        order_upto(d, rt.drop_last()) + row_verts(d, rt.last())
    }
}

/// The full processing order of the translation.
pub open spec fn proc_order(d: DiagramV) -> Seq<usize> {
    order_upto(d, rtable(d))
}

/// The measurement counter after processing `order`: the number of
/// measure-and-reset instructions emitted so far.
pub open spec fn counter_after(d: DiagramV, order: Seq<usize>) -> int
    decreases order.len(),
{
    if order.len() == 0 {
        0
    } else {
        counter_after(d, order.drop_last()) + if measures(d, order.last()) {
            1int
        } else {
            0int
        }
    }
}

/// The measurement record of vertex `v` after processing `order`: the
/// counter value at the moment `v` measured, if it did.
pub open spec fn rec_of(d: DiagramV, order: Seq<usize>, v: usize) -> Option<int>
    decreases order.len(),
{
    if order.len() == 0 {
        Option::None
    } else if order.last() == v && measures(d, v) {
        Option::Some(counter_after(d, order.drop_last()))
    } else {
        rec_of(d, order.drop_last(), v)
    }
}

/// The total number of measurement records of the whole translation.
pub open spec fn total_recs(d: DiagramV) -> int {
    counter_after(d, proc_order(d))
}

/// The counter never decreases and every recorded index stays below it.
pub proof fn lemma_rec_of_bound(d: DiagramV, order: Seq<usize>, v: usize)
    ensures
        0 <= counter_after(d, order),
        rec_of(d, order, v) matches Option::Some(k) ==> 0 <= k < counter_after(d, order),
    decreases order.len(),
{
    if order.len() > 0 {
        lemma_rec_of_bound(d, order.drop_last(), v);
    }
}

/// A vertex holds a record only once it has been processed.
pub proof fn lemma_rec_of_contains(d: DiagramV, order: Seq<usize>, v: usize)
    ensures
        rec_of(d, order, v) is Some ==> order.contains(v),
    decreases order.len(),
{
    if order.len() > 0 {
        lemma_rec_of_contains(d, order.drop_last(), v);
        if rec_of(d, order, v) is Some {
            if order.last() == v && measures(d, v) {
                assert(order[order.len() - 1] == v);
            } else {
                let i = choose|i: int| 0 <= i < order.drop_last().len() && order.drop_last()[i] == v;
                assert(order[i] == v);
            }
        }
    }
}

/// Every vertex listed for a row lies below the scanned bound and has
/// that row's key; the listing is strictly increasing, so no vertex is
/// listed twice.
pub proof fn lemma_row_verts_elems(d: DiagramV, rk: u64, n: int)
    requires
        n <= usize::MAX,
    ensures
        forall|j: int|
            0 <= j < row_verts_upto(d, rk, n).len() ==> (#[trigger] row_verts_upto(d, rk, n)[j])
                < n && coord_key(d.verts[row_verts_upto(d, rk, n)[j] as int].row) == rk,
        forall|j1: int, j2: int|
            0 <= j1 < j2 < row_verts_upto(d, rk, n).len() ==> #[trigger] row_verts_upto(
                d,
                rk,
                n,
            )[j1] < #[trigger] row_verts_upto(d, rk, n)[j2],
    decreases n,
{
    if n > 0 {
        lemma_row_verts_elems(d, rk, n - 1);
        let prev = row_verts_upto(d, rk, n - 1);
        assert forall|j: int| 0 <= j < row_verts_upto(d, rk, n).len() implies (
        #[trigger] row_verts_upto(d, rk, n)[j]) < n && coord_key(
            d.verts[row_verts_upto(d, rk, n)[j] as int].row,
        ) == rk by {
            if j < prev.len() {
                assert(row_verts_upto(d, rk, n)[j] == prev[j]);
            } else {
                assert(coord_key(d.verts[n - 1].row) == rk);
                assert(row_verts_upto(d, rk, n)[j] == (n - 1) as usize);
                assert((n - 1) as usize as int == n - 1);
            }
        }
        assert forall|j1: int, j2: int|
            0 <= j1 < j2 < row_verts_upto(d, rk, n).len() implies #[trigger] row_verts_upto(
            d,
            rk,
            n,
        )[j1] < #[trigger] row_verts_upto(d, rk, n)[j2] by {
            if j2 < prev.len() {
                assert(row_verts_upto(d, rk, n)[j1] == prev[j1]);
                assert(row_verts_upto(d, rk, n)[j2] == prev[j2]);
            } else {
                assert(row_verts_upto(d, rk, n)[j1] == prev[j1]);
                assert(prev[j1] < n - 1);
                assert(row_verts_upto(d, rk, n)[j2] == (n - 1) as usize);
            }
        }
    }
}

/// Every vertex in the processing order of the rows `rt` has its row key
/// in `rt`.
pub proof fn lemma_order_elems(d: DiagramV, rt: Seq<u64>)
    requires
        d.verts.len() <= usize::MAX,
    ensures
        forall|j: int|
            0 <= j < order_upto(d, rt).len() ==> rt.contains(
                coord_key(d.verts[(#[trigger] order_upto(d, rt)[j]) as int].row),
            ),
    decreases rt.len(),
{
    if rt.len() > 0 {
        let rest = rt.drop_last();
        lemma_order_elems(d, rest);
        lemma_row_verts_elems(d, rt.last(), d.verts.len() as int);
        let prev = order_upto(d, rest);
        let row = row_verts(d, rt.last());
        assert forall|j: int| 0 <= j < order_upto(d, rt).len() implies rt.contains(
            coord_key(d.verts[(#[trigger] order_upto(d, rt)[j]) as int].row),
        ) by {
            if j < prev.len() {
                assert(order_upto(d, rt)[j] == prev[j]);
                let rk = coord_key(d.verts[prev[j] as int].row);
                assert(rest.contains(rk));
                let m = choose|m: int| 0 <= m < rest.len() && rest[m] == rk;
                assert(rt[m] == rk);
            } else {
                assert(order_upto(d, rt)[j] == row[j - prev.len()]);
                assert(coord_key(d.verts[row[j - prev.len()] as int].row) == rt.last());
                assert(rt[rt.len() - 1] == rt.last());
            }
        }
    }
}

/// The processing order of strictly sorted row keys lists each vertex at
/// most once, and lists only existing vertices: rows have distinct keys,
/// and within a row the listing ascends.
pub proof fn lemma_order_no_dup(d: DiagramV, rt: Seq<u64>)
    requires
        strictly_sorted(rt),
        d.verts.len() <= usize::MAX,
    ensures
        order_upto(d, rt).no_duplicates(),
        forall|j: int|
            0 <= j < order_upto(d, rt).len() ==> (#[trigger] order_upto(d, rt)[j])
                < d.verts.len(),
    decreases rt.len(),
{
    if rt.len() > 0 {
        let rest = rt.drop_last();
        assert(strictly_sorted(rest));
        lemma_order_no_dup(d, rest);
        lemma_order_elems(d, rest);
        lemma_row_verts_elems(d, rt.last(), d.verts.len() as int);
        let a = order_upto(d, rest);
        let b = row_verts(d, rt.last());
        let full = order_upto(d, rt);
        assert forall|j1: int, j2: int|
            0 <= j1 < full.len() && 0 <= j2 < full.len() && j1 != j2 implies #[trigger] full[j1]
                != #[trigger] full[j2] by {
            if j1 < a.len() && j2 < a.len() {
                assert(full[j1] == a[j1] && full[j2] == a[j2]);
            } else if j1 >= a.len() && j2 >= a.len() {
                assert(full[j1] == b[j1 - a.len()] && full[j2] == b[j2 - a.len()]);
                if j1 < j2 {
                    assert(b[j1 - a.len()] < b[j2 - a.len()]);
                } else {
                    assert(b[j2 - a.len()] < b[j1 - a.len()]);
                }
            } else {
                // one index lies in an earlier row, the other in this one:
                // their row keys differ, so the vertices do
                let ja = if j1 < a.len() {
                    j1
                } else {
                    j2
                };
                let jb = if j1 < a.len() {
                    j2
                } else {
                    j1
                };
                assert(full[ja] == a[ja]);
                assert(full[jb] == b[jb - a.len()]);
                let ka = coord_key(d.verts[a[ja] as int].row);
                assert(rest.contains(ka));
                let m = choose|m: int| 0 <= m < rest.len() && rest[m] == ka;
                assert(rt[m] == ka);
                assert(rt[m] < rt[rt.len() - 1]);
                assert(coord_key(d.verts[b[jb - a.len()] as int].row) == rt.last());
            }
        }
        assert forall|j: int| 0 <= j < full.len() implies (#[trigger] full[j])
            < d.verts.len() by {
            if j < a.len() {
                assert(full[j] == a[j]);
            } else {
                assert(full[j] == b[j - a.len()]);
            }
        }
    }
}

/// Counting measurements splits over concatenation of processing orders.
pub proof fn lemma_counter_after_add(d: DiagramV, a: Seq<usize>, b: Seq<usize>)
    ensures
        counter_after(d, a + b) == counter_after(d, a) + counter_after(d, b),
    decreases b.len(),
{
    if b.len() == 0 {
        assert(a + b =~= a);
    } else {
        lemma_counter_after_add(d, a, b.drop_last());
        assert((a + b).drop_last() =~= a + b.drop_last());
        assert((a + b).last() == b.last());
    }
}

/// The counter counts a subset of the processed vertices.
pub proof fn lemma_counter_le_len(d: DiagramV, order: Seq<usize>)
    ensures
        0 <= counter_after(d, order) <= order.len(),
    decreases order.len(),
{
    if order.len() > 0 {
        lemma_counter_le_len(d, order.drop_last());
    }
}

/// A duplicate-free list of vertex indices below `n` has at most `n`
/// entries.
proof fn lemma_distinct_bounded_len(s: Seq<usize>, n: nat)
    requires
        s.no_duplicates(),
        forall|i: int| 0 <= i < s.len() ==> (#[trigger] s[i]) < n,
    ensures
        s.len() <= n,
{
    broadcast use vstd::set::group_set_axioms;

    let si = s.map_values(|v: usize| v as int);
    assert(si.no_duplicates()) by {
        assert forall|i: int, j: int|
            0 <= i < si.len() && 0 <= j < si.len() && i != j implies si[i] != si[j] by {
            assert(si[i] == s[i] as int && si[j] == s[j] as int);
            assert(s[i] != s[j]);
        }
    }
    si.unique_seq_to_set();
    vstd::set_lib::lemma_int_range(0, n as int);
    assert(si.to_set().subset_of(vstd::set_lib::set_int_range(0, n as int))) by {
        assert forall|x: int| si.to_set().contains(x) implies vstd::set_lib::set_int_range(
            0,
            n as int,
        ).contains(x) by {
            assert(si.contains(x));
            let i = choose|i: int| 0 <= i < si.len() && si[i] == x;
            assert(s[i] < n);
        }
    }
    vstd::set_lib::lemma_len_subset(si.to_set(), vstd::set_lib::set_int_range(0, n as int));
}

/// The total number of measurement records never exceeds the number of
/// vertices: every record belongs to a distinct vertex.
pub proof fn lemma_total_recs_bound(d: DiagramV)
    requires
        d.verts.len() <= usize::MAX,
    ensures
        0 <= total_recs(d) <= d.verts.len(),
{
    lemma_sorted_keys_props(rkeys(d));
    lemma_order_no_dup(d, rtable(d));
    lemma_counter_le_len(d, proc_order(d));
    lemma_distinct_bounded_len(proc_order(d), d.verts.len());
}

/// The number of filled measurement records.
pub open spec fn count_some(rv: Seq<Option<usize>>) -> int
    decreases rv.len(),
{
    if rv.len() == 0 {
        0
    } else {
        count_some(rv.drop_last()) + if rv.last() is Some {
            1int
        } else {
            0int
        }
    }
}

pub proof fn lemma_count_some_le(rv: Seq<Option<usize>>)
    ensures
        0 <= count_some(rv) <= rv.len(),
    decreases rv.len(),
{
    if rv.len() > 0 {
        lemma_count_some_le(rv.drop_last());
    }
}

pub proof fn lemma_count_some_update(rv: Seq<Option<usize>>, i: int, k: usize)
    requires
        0 <= i < rv.len(),
        rv[i] is None,
    ensures
        count_some(rv.update(i, Option::Some(k))) == count_some(rv) + 1,
    decreases rv.len(),
{
    let upd = rv.update(i, Option::Some(k));
    if i == rv.len() - 1 {
        assert(upd.drop_last() =~= rv.drop_last());
        assert(upd.last() == Option::Some(k));
        assert(rv.last() is None);
    } else {
        assert(upd.drop_last() =~= rv.drop_last().update(i, Option::Some(k)));
        assert(upd.last() == rv.last());
        lemma_count_some_update(rv.drop_last(), i, k);
    }
}

/// An executable record slot agrees with the spec-level record.
pub open spec fn opt_rec_match(o: Option<usize>, s: Option<int>) -> bool {
    match (o, s) {
        (Option::Some(k1), Option::Some(k2)) => k1 as int == k2,
        (Option::None, Option::None) => true,
        _ => false,
    }
}

/// The executable record vector agrees with the spec-level record map
/// after processing `order`.
pub open spec fn recs_match(d: DiagramV, order: Seq<usize>, rv: Seq<Option<usize>>) -> bool {
    forall|v: int|
        0 <= v < rv.len() ==> opt_rec_match(#[trigger] rv[v], rec_of(d, order, v as usize))
}

/// A Pauli label is consistent with an endpoint role under the duality
/// rule: an X label pairs with a Z-spider, a Z label with an X-spider.
pub open spec fn pauli_matches(p: Pauli, r: Role) -> bool {
    (p == Pauli::X && r == Role::ZSpider) || (p == Pauli::Z && r == Role::XSpider)
}

/// The parity-check terms endpoint `v` contributes for an edge labelled
/// `p`: one relative offset `total - record(v)` when `v` has degree one,
/// is no boundary, is role-consistent with `p`, and holds a record;
/// nothing otherwise.
pub open spec fn endpoint_terms(
    d: DiagramV,
    order: Seq<usize>,
    total: int,
    v: usize,
    p: Pauli,
) -> Seq<usize> {
    match rec_of(d, order, v) {
        Option::Some(k) => if degree(d, v) == 1 && d.verts[v as int].role != Role::Boundary
            && pauli_matches(p, d.verts[v as int].role) {
            seq![(total - k) as usize]
        } else {
            Seq::empty()
        },
        Option::None => Seq::empty(),
    }
}

/// The terms of one web entry: first endpoint, then second.
pub open spec fn entry_terms(d: DiagramV, order: Seq<usize>, total: int, e: WebEntry) -> Seq<
    usize,
> {
    endpoint_terms(d, order, total, e.a, e.pauli) + endpoint_terms(d, order, total, e.b, e.pauli)
}

/// The terms of a web's entries, in encounter order.
pub open spec fn web_terms(d: DiagramV, order: Seq<usize>, total: int, es: Seq<WebEntry>) -> Seq<
    usize,
>
    decreases es.len(),
{
    if es.len() == 0 {
        Seq::empty()
    } else {
        web_terms(d, order, total, es.drop_last()) + entry_terms(d, order, total, es.last())
    }
}

/// A web with terms yields one parity-check instruction; a web without
/// terms yields nothing.
pub open spec fn web_instrs(d: DiagramV, order: Seq<usize>, total: int, es: Seq<WebEntry>) -> Seq<
    InstrV,
> {
    if web_terms(d, order, total, es).len() == 0 {
        Seq::empty()
    } else {
        seq![InstrV::ParityCheck { offsets: web_terms(d, order, total, es) }]
    }
}

/// The parity-check instructions of all webs, in order.
pub open spec fn emit_webs(
    d: DiagramV,
    order: Seq<usize>,
    total: int,
    ws: Seq<Seq<WebEntry>>,
) -> Seq<InstrV>
    decreases ws.len(),
{
    if ws.len() == 0 {
        Seq::empty()
    } else {
        emit_webs(d, order, total, ws.drop_last()) + web_instrs(d, order, total, ws.last())
    }
}

/// The whole translation as a mathematical function: the row sweep's
/// instructions followed by the detector instructions.
pub open spec fn stim_instrs(d: DiagramV, ws: Seq<Seq<WebEntry>>) -> Seq<InstrV> {
    emit_rows(d, rtable(d)) + emit_webs(d, proc_order(d), total_recs(d), ws)
}

} // verus!

verus! {

/// Builds the canonical qubit table: the strictly sorted distinct qubit
/// keys of the diagram.
fn build_qtable(d: &Diagram) -> (t: Vec<u64>)
    ensures
        t@ == qtable(d@),
{
    let n = d.vertices.len();
    let mut t: Vec<u64> = Vec::new();
    let mut i: usize = 0;
    while i < n
        invariant
            n == d@.verts.len(),
            i <= n,
            t@ == spec_sorted_keys(qkeys(d@).subrange(0, i as int)),
        decreases n - i,
    {
        let k = d.vertices[i].qubit.key();
        t = insert_key(t, k);
        proof {
            let qs = qkeys(d@);
            assert(qs.subrange(0, i as int + 1).drop_last() =~= qs.subrange(0, i as int));
            assert(qs.subrange(0, i as int + 1).last() == coord_key(d@.verts[i as int].qubit));
            assert(t@ == spec_sorted_keys(qs.subrange(0, i as int + 1)));
        }
        i = i + 1;
    }
    proof {
        assert(qkeys(d@).subrange(0, n as int) =~= qkeys(d@));
    }
    t
}

/// Builds the row table: the strictly sorted distinct row keys of the
/// diagram.
fn build_rtable(d: &Diagram) -> (t: Vec<u64>)
    ensures
        t@ == rtable(d@),
{
    let n = d.vertices.len();
    let mut t: Vec<u64> = Vec::new();
    let mut i: usize = 0;
    while i < n
        invariant
            n == d@.verts.len(),
            i <= n,
            t@ == spec_sorted_keys(rkeys(d@).subrange(0, i as int)),
        decreases n - i,
    {
        let k = d.vertices[i].row.key();
        t = insert_key(t, k);
        proof {
            let rs = rkeys(d@);
            assert(rs.subrange(0, i as int + 1).drop_last() =~= rs.subrange(0, i as int));
            assert(rs.subrange(0, i as int + 1).last() == coord_key(d@.verts[i as int].row));
            assert(t@ == spec_sorted_keys(rs.subrange(0, i as int + 1)));
        }
        i = i + 1;
    }
    proof {
        assert(rkeys(d@).subrange(0, n as int) =~= rkeys(d@));
    }
    t
}

/// Emits the instructions of vertex `v` and updates the measurement
/// records: the (role, degree) dispatch.
fn process_vertex(
    d: &Diagram,
    qt: &Vec<u64>,
    v: usize,
    out: &mut Vec<Instr>,
    recs: &mut Vec<Option<usize>>,
    counter: &mut usize,
    Ghost(order): Ghost<Seq<usize>>,
)
    requires
        d@.wf(),
        v < d@.verts.len(),
        qt@ == qtable(d@),
        old(recs)@.len() == d@.verts.len(),
        recs_match(d@, order, old(recs)@),
        *old(counter) as int == counter_after(d@, order),
        *old(counter) as int == count_some(old(recs)@),
        rec_of(d@, order, v) is None,
    ensures
        instrs_view(final(out)@) == instrs_view(old(out)@) + vertex_instrs(d@, v),
        final(recs)@.len() == d@.verts.len(),
        recs_match(d@, order.push(v), final(recs)@),
        *final(counter) as int == counter_after(d@, order.push(v)),
        *final(counter) as int == count_some(final(recs)@),
{
    let n_verts = d.vertices.len();
    proof {
        assert(n_verts == d@.verts.len());
        assert(order.push(v).drop_last() =~= order);
        assert(order.push(v).last() == v);
        lemma_nbrs_in_range(d@, v, d@.edges.len() as int);
    }
    let nb = neighbors_of(d, v);
    let deg = nb.len();
    let role = d.vertices[v].role;
    let ghost base = instrs_view(old(out)@);
    if deg == 1 {
        if role == Role::Boundary {
            proof {
                assert(vertex_instrs(d@, v) =~= Seq::<InstrV>::empty());
                assert(instrs_view(out@) =~= base + vertex_instrs(d@, v));
            }
        } else {
            let k = d.vertices[v].qubit.key();
            proof {
                assert(qkeys(d@)[v as int] == k);
                assert(qkeys(d@).contains(k));
                lemma_sorted_keys_props(qkeys(d@));
            }
            let qid = find_key(qt, k);
            proof {
                assert(qid == canon_q(d@, v));
            }
            if role == Role::ZSpider {
                let ghost out_pre = out@;
                out.push(Instr::BasisChange { qubit: qid });
                proof {
                    lemma_instrs_view_push(out_pre, Instr::BasisChange { qubit: qid });
                }
            }
            let w = nb[0];
            let wrk = d.vertices[w].row.key();
            let vrk = d.vertices[v].row.key();
            if wrk < vrk {
                proof {
                    assert(measures(d@, v));
                }
                let ghost out_pre2 = out@;
                out.push(Instr::MeasureReset { qubit: qid });
                let c0 = *counter;
                proof {
                    lemma_instrs_view_push(out_pre2, Instr::MeasureReset { qubit: qid });
                    assert(old(recs)@[v as int] is None);
                    lemma_count_some_update(old(recs)@, v as int, c0);
                    lemma_count_some_le(old(recs)@.update(v as int, Option::Some(c0)));
                }
                recs.set(v, Option::Some(c0));
                *counter = c0 + 1;
                proof {
                    assert(instrs_view(out@) =~= base + vertex_instrs(d@, v));
                }
            } else {
                proof {
                    assert(!measures(d@, v));
                    assert(instrs_view(out@) =~= base + vertex_instrs(d@, v));
                }
            }
        }
    } else if deg == 2 {
        proof {
            assert(vertex_instrs(d@, v) =~= Seq::<InstrV>::empty());
            assert(instrs_view(out@) =~= base + vertex_instrs(d@, v));
        }
    } else if deg == 3 {
        if role == Role::ZSpider {
            let k = d.vertices[v].qubit.key();
            proof {
                assert(qkeys(d@)[v as int] == k);
                assert(qkeys(d@).contains(k));
                lemma_sorted_keys_props(qkeys(d@));
            }
            let qid = find_key(qt, k);
            proof {
                assert(qid == canon_q(d@, v));
            }
            let mut j: usize = 0;
            while j < 3
                invariant
                    j <= 3,
                    d@.wf(),
                    v < d@.verts.len(),
                    qt@ == qtable(d@),
                    nb@ == nbrs(d@, v),
                    nb@.len() == 3,
                    forall|l: int| 0 <= l < nb@.len() ==> #[trigger] nb@[l] < d@.verts.len(),
                    qid == canon_q(d@, v),
                    instrs_view(out@) == base + cnot_upto(d@, v, j as int),
                    base == instrs_view(old(out)@),
                decreases 3 - j,
            {
                let w = nb[j];
                let wk = d.vertices[w].qubit.key();
                proof {
                    assert(qkeys(d@)[w as int] == wk);
                    assert(qkeys(d@).contains(wk));
                    lemma_sorted_keys_props(qkeys(d@));
                }
                let wqid = find_key(qt, wk);
                proof {
                    assert(wqid == canon_q(d@, w));
                }
                if wqid != qid {
                    let ghost out_pre = out@;
                    out.push(Instr::Controlled { control: qid, target: wqid });
                    proof {
                        lemma_instrs_view_push(
                            out_pre,
                            Instr::Controlled { control: qid, target: wqid },
                        );
                        assert(instrs_view(out@) =~= base + cnot_upto(d@, v, j as int + 1));
                    }
                } else {
                    proof {
                        assert(cnot_upto(d@, v, j as int + 1) =~= cnot_upto(d@, v, j as int));
                    }
                }
                j = j + 1;
            }
            proof {
                assert(vertex_instrs(d@, v) == cnot_upto(d@, v, 3));
            }
        } else {
            proof {
                assert(vertex_instrs(d@, v) =~= Seq::<InstrV>::empty());
                assert(instrs_view(out@) =~= base + vertex_instrs(d@, v));
            }
        }
    } else {
        out.push(Instr::Diagnostic { degree: deg, vertex: v });
        proof {
            lemma_instrs_view_push(old(out)@, Instr::Diagnostic { degree: deg, vertex: v });
            assert(vertex_instrs(d@, v) =~= seq![
                InstrV::Diagnostic { degree: degree(d@, v) as usize, vertex: v },
            ]);
            assert(instrs_view(out@) =~= base + vertex_instrs(d@, v));
        }
    }
    proof {
        if !measures(d@, v) {
            assert(counter_after(d@, order.push(v)) == counter_after(d@, order));
            assert forall|u: int| 0 <= u < recs@.len() implies opt_rec_match(
                #[trigger] recs@[u],
                rec_of(d@, order.push(v), u as usize),
            ) by {
                assert(rec_of(d@, order.push(v), u as usize) == rec_of(d@, order, u as usize));
            }
        } else {
            assert(counter_after(d@, order.push(v)) == counter_after(d@, order) + 1);
            assert forall|u: int| 0 <= u < recs@.len() implies opt_rec_match(
                #[trigger] recs@[u],
                rec_of(d@, order.push(v), u as usize),
            ) by {
                if u == v as int {
                    assert(rec_of(d@, order.push(v), v) == Option::Some(counter_after(d@, order)));
                    assert(recs@[u] == Option::Some(*old(counter)));
                } else {
                    assert(rec_of(d@, order.push(v), u as usize) == rec_of(d@, order, u as usize));
                    assert(recs@[u] == old(recs)@[u]);
                }
            }
        }
    }
}

} // verus!

verus! {

/// Appends the parity-check terms endpoint `v` contributes for a web edge
/// labelled `p`: one relative record offset when `v` has degree one, is
/// no boundary, is role-consistent with the label, and holds a record.
fn push_endpoint(
    d: &Diagram,
    recs: &Vec<Option<usize>>,
    counter: usize,
    v: usize,
    p: Pauli,
    terms: &mut Vec<usize>,
    Ghost(order): Ghost<Seq<usize>>,
)
    requires
        d@.wf(),
        v < d@.verts.len(),
        recs@.len() == d@.verts.len(),
        recs_match(d@, order, recs@),
        counter as int == counter_after(d@, order),
    ensures
        final(terms)@ == old(terms)@ + endpoint_terms(d@, order, counter as int, v, p),
{
    let nb = neighbors_of(d, v);
    let deg = nb.len();
    let role = d.vertices[v].role;
    let slot = recs[v];
    proof {
        assert(opt_rec_match(recs@[v as int], rec_of(d@, order, v)));
    }
    match slot {
        Option::Some(k) => {
            let consistent = match (p, role) {
                (Pauli::X, Role::ZSpider) => true,
                (Pauli::Z, Role::XSpider) => true,
                _ => false,
            };
            if deg == 1 && consistent {
                proof {
                    lemma_rec_of_bound(d@, order, v);
                    assert(rec_of(d@, order, v) == Option::Some(k as int));
                    assert(k < counter);
                }
                terms.push(counter - k);
                proof {
                    assert(endpoint_terms(d@, order, counter as int, v, p) =~= seq![
                        (counter as int - k as int) as usize,
                    ]);
                    assert((counter as int - k as int) as usize == counter - k);
                    assert(final(terms)@ =~= old(terms)@ + endpoint_terms(
                        d@,
                        order,
                        counter as int,
                        v,
                        p,
                    ));
                }
            } else {
                proof {
                    assert(endpoint_terms(d@, order, counter as int, v, p)
                        =~= Seq::<usize>::empty());
                    assert(final(terms)@ =~= old(terms)@ + endpoint_terms(
                        d@,
                        order,
                        counter as int,
                        v,
                        p,
                    ));
                }
            }
        },
        Option::None => {
            proof {
                assert(rec_of(d@, order, v) is None);
                assert(final(terms)@ =~= old(terms)@ + endpoint_terms(
                    d@,
                    order,
                    counter as int,
                    v,
                    p,
                ));
            }
        },
    }
}

/// Translates a diagram and its correlation surfaces to the instruction
/// sequence: the whole pass as an executable function, returning exactly
/// the spec-level pipeline's value, or the one admissible failure when a
/// vertex coordinate is NaN.
pub fn translate(d: &Diagram, webs: &Vec<Web>) -> (r: Result<Vec<Instr>, TranslateError>)
    requires
        d@.wf(),
        webs_wf(d@, webs_view(webs@)),
    ensures
        match r {
            Result::Ok(instrs) => !has_invalid_coord(d@) && instrs_view(instrs@) == stim_instrs(
                d@,
                webs_view(webs@),
            ),
            Result::Err(e) => has_invalid_coord(d@) && e == TranslateError::InvalidCoordinate,
        },
{
    let n = d.vertices.len();
    let mut v0: usize = 0;
    while v0 < n
        invariant
            n == d@.verts.len(),
            v0 <= n,
            forall|u: int|
                0 <= u < v0 ==> !coord_is_nan((#[trigger] d@.verts[u]).qubit) && !coord_is_nan(
                    d@.verts[u].row,
                ),
        decreases n - v0,
    {
        if d.vertices[v0].qubit.is_nan() || d.vertices[v0].row.is_nan() {
            proof {
                assert(has_invalid_coord(d@));
            }
            return Result::Err(TranslateError::InvalidCoordinate);
        }
        v0 = v0 + 1;
    }
    proof {
        assert(!has_invalid_coord(d@));
    }
    let qt = build_qtable(d);
    let rt = build_rtable(d);
    let nrows = rt.len();
    let mut out: Vec<Instr> = Vec::new();
    let mut recs: Vec<Option<usize>> = Vec::new();
    let mut i0: usize = 0;
    while i0 < n
        invariant
            i0 <= n,
            recs@.len() == i0,
            count_some(recs@) == 0,
            forall|u: int| 0 <= u < i0 ==> (#[trigger] recs@[u]) is None,
        decreases n - i0,
    {
        let ghost r_pre = recs@;
        recs.push(Option::None);
        proof {
            assert(recs@.drop_last() =~= r_pre);
        }
        i0 = i0 + 1;
    }
    let mut counter: usize = 0;
    proof {
        assert(recs_match(d@, Seq::<usize>::empty(), recs@));
        assert(rt@.subrange(0, 0) =~= Seq::<u64>::empty());
        assert(instrs_view(out@) =~= emit_rows(d@, rt@.subrange(0, 0)));
        assert(order_upto(d@, rt@.subrange(0, 0)) =~= Seq::<usize>::empty());
        lemma_sorted_keys_props(rkeys(d@));
    }
    let mut ri: usize = 0;
    while ri < nrows
        invariant
            n == d@.verts.len(),
            d@.wf(),
            qt@ == qtable(d@),
            rt@ == rtable(d@),
            nrows == rt@.len(),
            ri <= nrows,
            recs@.len() == n,
            instrs_view(out@) == emit_rows(d@, rt@.subrange(0, ri as int)),
            recs_match(d@, order_upto(d@, rt@.subrange(0, ri as int)), recs@),
            counter as int == counter_after(d@, order_upto(d@, rt@.subrange(0, ri as int))),
            counter as int == count_some(recs@),
        decreases nrows - ri,
    {
        let rk = rt[ri];
        let ghost prefix_rows = rt@.subrange(0, ri as int);
        let ghost order0 = order_upto(d@, prefix_rows);
        let ghost out0 = instrs_view(out@);
        let mut v: usize = 0;
        while v < n
            invariant
                n == d@.verts.len(),
                d@.wf(),
                qt@ == qtable(d@),
                rt@ == rtable(d@),
                nrows == rt@.len(),
                ri < nrows,
                v <= n,
                rk == rt@[ri as int],
                prefix_rows == rt@.subrange(0, ri as int),
                order0 == order_upto(d@, prefix_rows),
                out0 == emit_rows(d@, prefix_rows),
                recs@.len() == n,
                instrs_view(out@) == out0 + emit_verts(d@, row_verts_upto(d@, rk, v as int)),
                recs_match(d@, order0 + row_verts_upto(d@, rk, v as int), recs@),
                counter as int == counter_after(d@, order0 + row_verts_upto(d@, rk, v as int)),
                counter as int == count_some(recs@),
            decreases n - v,
        {
            let ghost rvu = row_verts_upto(d@, rk, v as int);
            let ghost order_pre = order0 + rvu;
            if d.vertices[v].row.key() == rk {
                proof {
                    // v is met here for the first time: rows have distinct
                    // keys and earlier indices of this row lie below v
                    lemma_rec_of_contains(d@, order_pre, v);
                    if order_pre.contains(v) {
                        let idx = choose|idx: int|
                            0 <= idx < order_pre.len() && order_pre[idx] == v;
                        if idx < order0.len() {
                            lemma_order_elems(d@, prefix_rows);
                            assert(order0[idx] == v);
                            assert(prefix_rows.contains(coord_key(d@.verts[v as int].row)));
                            let m = choose|m: int|
                                0 <= m < prefix_rows.len() && prefix_rows[m] == rk;
                            assert(rt@[m] == rk);
                            lemma_sorted_keys_props(rkeys(d@));
                            assert(strictly_sorted(rt@));
                            assert(rt@[m] < rt@[ri as int]);
                            assert(false);
                        } else {
                            lemma_row_verts_elems(d@, rk, v as int);
                            assert(rvu[idx - order0.len()] == v);
                            assert(false);
                        }
                    }
                    assert(rec_of(d@, order_pre, v) is None);
                }
                process_vertex(d, &qt, v, &mut out, &mut recs, &mut counter, Ghost(order_pre));
                proof {
                    assert(row_verts_upto(d@, rk, v as int + 1) =~= rvu.push(v));
                    assert(order0 + row_verts_upto(d@, rk, v as int + 1) =~= order_pre.push(v));
                    assert((rvu.push(v)).drop_last() =~= rvu);
                    assert((rvu.push(v)).last() == v);
                    assert(emit_verts(d@, rvu.push(v)) == emit_verts(d@, rvu) + vertex_instrs(
                        d@,
                        v,
                    ));
                    assert(instrs_view(out@) =~= out0 + emit_verts(
                        d@,
                        row_verts_upto(d@, rk, v as int + 1),
                    ));
                }
            } else {
                proof {
                    assert(row_verts_upto(d@, rk, v as int + 1) == rvu);
                }
            }
            v = v + 1;
        }
        let ghost row_full = row_verts_upto(d@, rk, n as int);
        let ghost out_pre = out@;
        out.push(Instr::Tick);
        proof {
            lemma_instrs_view_push(out_pre, Instr::Tick);
            assert(row_verts(d@, rk) == row_full);
            let rows1 = rt@.subrange(0, ri as int + 1);
            assert(rows1.drop_last() =~= prefix_rows);
            assert(rows1.last() == rk);
            assert(emit_rows(d@, rows1) == emit_rows(d@, prefix_rows) + emit_verts(
                d@,
                row_verts(d@, rk),
            ).push(InstrV::Tick));
            assert(instrs_view(out@) =~= emit_rows(d@, rows1));
            assert(order_upto(d@, rows1) == order_upto(d@, prefix_rows) + row_verts(d@, rk));
        }
        ri = ri + 1;
    }
    proof {
        assert(rt@.subrange(0, nrows as int) =~= rt@);
    }
    let ghost order = order_upto(d@, rt@);
    let total = counter;
    let nwebs = webs.len();
    let mut wi: usize = 0;
    while wi < nwebs
        invariant
            n == d@.verts.len(),
            d@.wf(),
            webs_wf(d@, webs_view(webs@)),
            nwebs == webs@.len(),
            wi <= nwebs,
            recs@.len() == n,
            order == order_upto(d@, rtable(d@)),
            recs_match(d@, order, recs@),
            total as int == counter_after(d@, order),
            instrs_view(out@) == emit_rows(d@, rtable(d@)) + emit_webs(
                d@,
                order,
                total as int,
                webs_view(webs@).subrange(0, wi as int),
            ),
        decreases nwebs - wi,
    {
        let web: &Web = &webs[wi];
        let mut terms: Vec<usize> = Vec::new();
        let ne = web.entries.len();
        let mut ei: usize = 0;
        while ei < ne
            invariant
                n == d@.verts.len(),
                d@.wf(),
                webs_wf(d@, webs_view(webs@)),
                nwebs == webs@.len(),
                wi < nwebs,
                web.entries@ == webs@[wi as int].entries@,
                ne == web.entries@.len(),
                ei <= ne,
                recs@.len() == n,
                order == order_upto(d@, rtable(d@)),
                recs_match(d@, order, recs@),
                total as int == counter_after(d@, order),
                terms@ == web_terms(d@, order, total as int, web.entries@.subrange(0, ei as int)),
            decreases ne - ei,
        {
            let e = web.entries[ei];
            proof {
                assert(webs_view(webs@)[wi as int] == web.entries@);
                assert(webs_view(webs@)[wi as int][ei as int] == e);
                assert(e.a < d@.verts.len() && e.b < d@.verts.len());
            }
            let ghost t0 = terms@;
            push_endpoint(d, &recs, total, e.a, e.pauli, &mut terms, Ghost(order));
            push_endpoint(d, &recs, total, e.b, e.pauli, &mut terms, Ghost(order));
            proof {
                let es1 = web.entries@.subrange(0, ei as int + 1);
                assert(es1.drop_last() =~= web.entries@.subrange(0, ei as int));
                assert(es1.last() == e);
                assert(terms@ =~= t0 + entry_terms(d@, order, total as int, e));
                assert(terms@ =~= web_terms(d@, order, total as int, es1));
            }
            ei = ei + 1;
        }
        proof {
            assert(web.entries@.subrange(0, ne as int) =~= web.entries@);
        }
        let ghost wterms = web_terms(d@, order, total as int, web.entries@);
        let ghost ws1 = webs_view(webs@).subrange(0, wi as int + 1);
        proof {
            assert(ws1.drop_last() =~= webs_view(webs@).subrange(0, wi as int));
            assert(ws1.last() == web.entries@);
        }
        if terms.len() > 0 {
            let ghost tv = terms@;
            let ghost out_pre2 = out@;
            out.push(Instr::ParityCheck { offsets: terms });
            proof {
                assert(instrs_view(out@) =~= instrs_view(out_pre2).push(
                    InstrV::ParityCheck { offsets: tv },
                ));
                assert(web_instrs(d@, order, total as int, web.entries@) =~= seq![
                    InstrV::ParityCheck { offsets: wterms },
                ]);
                assert(instrs_view(out@) =~= emit_rows(d@, rtable(d@)) + emit_webs(
                    d@,
                    order,
                    total as int,
                    ws1,
                ));
            }
        } else {
            proof {
                assert(wterms.len() == 0);
                assert(web_instrs(d@, order, total as int, web.entries@)
                    =~= Seq::<InstrV>::empty());
                assert(instrs_view(out@) =~= emit_rows(d@, rtable(d@)) + emit_webs(
                    d@,
                    order,
                    total as int,
                    ws1,
                ));
            }
        }
        wi = wi + 1;
    }
    proof {
        assert(webs_view(webs@).subrange(0, nwebs as int) =~= webs_view(webs@));
        assert(instrs_view(out@) == stim_instrs(d@, webs_view(webs@)));
    }
    Result::Ok(out)
}

/// Translates a diagram plus its correlation surfaces to the final
/// program text: the instruction lines joined with line breaks.  Fails
/// with `InvalidCoordinate` exactly when some vertex carries a NaN
/// coordinate; every other input yields a program.
pub fn zx_to_stim(d: &Diagram, webs: &Vec<Web>) -> (r: Result<String, TranslateError>)
    requires
        d@.wf(),
        webs_wf(d@, webs_view(webs@)),
    ensures
        match r {
            Result::Ok(s) => !has_invalid_coord(d@) && s@ == render_spec(
                stim_instrs(d@, webs_view(webs@)),
            ),
            Result::Err(e) => has_invalid_coord(d@) && e == TranslateError::InvalidCoordinate,
        },
{
    match translate(d, webs) {
        Result::Ok(instrs) => Result::Ok(render_instrs(&instrs)),
        Result::Err(e) => Result::Err(e),
    }
}

} // verus!
