//! Laws of the translation, stated over the same spec functions that the
//! executable functions' contracts use, and proved once and for all.

use vstd::prelude::*;
use crate::diagram::{DiagramV, Role, degree, rkeys};
use crate::instr::InstrV;
use crate::translate::{
    WebEntry, canon_q, cnot_upto, counter_after, emit_rows, emit_verts, emit_webs, endpoint_terms,
    entry_terms, lemma_counter_after_add, lemma_rec_of_bound, lemma_total_recs_bound, measures,
    order_upto, proc_order, rec_of, row_verts, rtable, stim_instrs, total_recs, vertex_instrs,
    web_instrs, web_terms,
};
use crate::keys::{lemma_sorted_keys_props, strictly_sorted};

verus! {

/// The number of row-boundary markers in an instruction sequence.
pub open spec fn count_ticks(s: Seq<InstrV>) -> int
    decreases s.len(),
{
    if s.len() == 0 {
        0
    } else {
        count_ticks(s.drop_last()) + if s.last() is Tick {
            1int
        } else {
            0int
        }
    }
}

pub proof fn lemma_count_ticks_add(a: Seq<InstrV>, b: Seq<InstrV>)
    ensures
        count_ticks(a + b) == count_ticks(a) + count_ticks(b),
    decreases b.len(),
{
    if b.len() == 0 {
        assert(a + b =~= a);
    } else {
        lemma_count_ticks_add(a, b.drop_last());
        assert((a + b).drop_last() =~= a + b.drop_last());
        assert((a + b).last() == b.last());
    }
}

pub proof fn lemma_count_ticks_zero(s: Seq<InstrV>)
    requires
        forall|k: int| 0 <= k < s.len() ==> !((#[trigger] s[k]) is Tick),
    ensures
        count_ticks(s) == 0,
    decreases s.len(),
{
    if s.len() > 0 {
        assert(forall|k: int|
            0 <= k < s.drop_last().len() ==> #[trigger] s.drop_last()[k] == s[k]);
        lemma_count_ticks_zero(s.drop_last());
    }
}

/// Every controlled instruction of a degree-3 Z-spider's dispatch has
/// that spider's canonical qubit as control; in particular none is a
/// marker or a parity check.
pub proof fn lemma_cnot_upto_shapes(d: DiagramV, v: usize, j: int)
    ensures
        forall|k: int|
            0 <= k < cnot_upto(d, v, j).len() ==> ((#[trigger] cnot_upto(d, v, j)[k]) matches
                InstrV::Controlled { control, target } && control == canon_q(d, v)),
    decreases j,
{
    if j > 0 {
        lemma_cnot_upto_shapes(d, v, j - 1);
        let prev = cnot_upto(d, v, j - 1);
        assert forall|k: int| 0 <= k < cnot_upto(d, v, j).len() implies ((#[trigger] cnot_upto(
            d,
            v,
            j,
        )[k]) matches InstrV::Controlled { control, target } && control == canon_q(d, v)) by {
            if k < prev.len() {
                assert(cnot_upto(d, v, j)[k] == prev[k]);
            }
        }
    }
}

/// A vertex's dispatch never emits a row-boundary marker and never a
/// parity-check instruction: markers come only from closing a row, parity
/// checks only from the detector pass.
pub proof fn lemma_vertex_instr_shapes(d: DiagramV, v: usize)
    ensures
        forall|k: int|
            0 <= k < vertex_instrs(d, v).len() ==> !((#[trigger] vertex_instrs(d, v)[k]) is Tick)
                && !(vertex_instrs(d, v)[k] is ParityCheck),
{
    lemma_cnot_upto_shapes(d, v, 3);
}

pub proof fn lemma_emit_verts_shapes(d: DiagramV, vs: Seq<usize>)
    ensures
        forall|k: int|
            0 <= k < emit_verts(d, vs).len() ==> !((#[trigger] emit_verts(d, vs)[k]) is Tick) && !(
            emit_verts(d, vs)[k] is ParityCheck),
    decreases vs.len(),
{
    if vs.len() > 0 {
        lemma_emit_verts_shapes(d, vs.drop_last());
        lemma_vertex_instr_shapes(d, vs.last());
        let a = emit_verts(d, vs.drop_last());
        let b = vertex_instrs(d, vs.last());
        assert forall|k: int| 0 <= k < emit_verts(d, vs).len() implies !((#[trigger] emit_verts(
            d,
            vs,
        )[k]) is Tick) && !(emit_verts(d, vs)[k] is ParityCheck) by {
            if k < a.len() {
                assert(emit_verts(d, vs)[k] == a[k]);
            } else {
                assert(emit_verts(d, vs)[k] == b[k - a.len()]);
            }
        }
    }
}

/// The row sweep emits exactly one row-boundary marker per row and no
/// parity-check instruction.
pub proof fn lemma_emit_rows_props(d: DiagramV, rt: Seq<u64>)
    ensures
        count_ticks(emit_rows(d, rt)) == rt.len(),
        forall|k: int|
            0 <= k < emit_rows(d, rt).len() ==> !((#[trigger] emit_rows(d, rt)[k]) is ParityCheck),
    decreases rt.len(),
{
    if rt.len() > 0 {
        lemma_emit_rows_props(d, rt.drop_last());
        lemma_emit_verts_shapes(d, row_verts(d, rt.last()));
        let a = emit_rows(d, rt.drop_last());
        let b = emit_verts(d, row_verts(d, rt.last())).push(InstrV::Tick);
        lemma_count_ticks_add(a, b);
        assert(b.drop_last() =~= emit_verts(d, row_verts(d, rt.last())));
        lemma_count_ticks_zero(b.drop_last());
        assert(count_ticks(b) == 1);
        assert forall|k: int| 0 <= k < emit_rows(d, rt).len() implies !((#[trigger] emit_rows(
            d,
            rt,
        )[k]) is ParityCheck) by {
            if k < a.len() {
                assert(emit_rows(d, rt)[k] == a[k]);
            } else {
                assert(emit_rows(d, rt)[k] == b[k - a.len()]);
                if k - a.len() < b.len() - 1 {
                    assert(b[k - a.len()] == b.drop_last()[k - a.len()]);
                }
            }
        }
    }
}

/// Every term the detector pass collects is a strictly positive offset
/// not exceeding the total measurement count.
pub proof fn lemma_web_terms_bounded(d: DiagramV, order: Seq<usize>, total: int, es: Seq<WebEntry>)
    requires
        total == counter_after(d, order),
        total <= usize::MAX,
    ensures
        forall|j: int|
            0 <= j < web_terms(d, order, total, es).len() ==> 1 <= (#[trigger] web_terms(
                d,
                order,
                total,
                es,
            )[j]) <= total,
    decreases es.len(),
{
    if es.len() > 0 {
        lemma_web_terms_bounded(d, order, total, es.drop_last());
        let a = web_terms(d, order, total, es.drop_last());
        let e = es.last();
        lemma_rec_of_bound(d, order, e.a);
        lemma_rec_of_bound(d, order, e.b);
        assert forall|j: int| 0 <= j < web_terms(d, order, total, es).len() implies 1 <= (
        #[trigger] web_terms(d, order, total, es)[j]) <= total by {
            if j < a.len() {
                assert(web_terms(d, order, total, es)[j] == a[j]);
            } else {
                let b = entry_terms(d, order, total, e);
                assert(web_terms(d, order, total, es)[j] == b[j - a.len()]);
            }
        }
    }
}

/// The detector pass emits no row-boundary marker at all.
pub proof fn lemma_emit_webs_no_ticks(
    d: DiagramV,
    order: Seq<usize>,
    total: int,
    ws: Seq<Seq<WebEntry>>,
)
    ensures
        count_ticks(emit_webs(d, order, total, ws)) == 0,
    decreases ws.len(),
{
    if ws.len() > 0 {
        lemma_emit_webs_no_ticks(d, order, total, ws.drop_last());
        let a = emit_webs(d, order, total, ws.drop_last());
        let b = web_instrs(d, order, total, ws.last());
        lemma_count_ticks_add(a, b);
        if web_terms(d, order, total, ws.last()).len() != 0 {
            assert(b.len() == 1);
            assert(b.last() == b[0]);
            assert(!(b[0] is Tick));
            assert(b.drop_last() =~= Seq::<InstrV>::empty());
            assert(count_ticks(b.drop_last()) == 0);
            assert(count_ticks(b) == 0);
        } else {
            assert(count_ticks(b) == 0);
        }
    }
}

/// Every offset of every parity-check instruction the detector pass
/// emits lies in `1 ..= total`.
pub proof fn lemma_emit_webs_props(
    d: DiagramV,
    order: Seq<usize>,
    total: int,
    ws: Seq<Seq<WebEntry>>,
)
    requires
        total == counter_after(d, order),
        total <= usize::MAX,
    ensures
        forall|k: int, j: int|
            0 <= k < emit_webs(d, order, total, ws).len() && 0 <= j < offsets_of(
                #[trigger] emit_webs(d, order, total, ws)[k],
            ).len() ==> 1 <= (#[trigger] offsets_of(emit_webs(d, order, total, ws)[k])[j])
                <= total,
    decreases ws.len(),
{
    if ws.len() == 0 {
    } else {
        lemma_emit_webs_props(d, order, total, ws.drop_last());
        lemma_web_terms_bounded(d, order, total, ws.last());
        let a = emit_webs(d, order, total, ws.drop_last());
        let b = web_instrs(d, order, total, ws.last());
        assert forall|k: int, j: int|
            0 <= k < emit_webs(d, order, total, ws).len() && 0 <= j < offsets_of(
                #[trigger] emit_webs(d, order, total, ws)[k],
            ).len() implies 1 <= (#[trigger] offsets_of(emit_webs(d, order, total, ws)[k])[j])
                <= total by {
            if k < a.len() {
                assert(emit_webs(d, order, total, ws)[k] == a[k]);
            } else {
                assert(emit_webs(d, order, total, ws)[k] == b[k - a.len()]);
            }
        }
    }
}

/// The number of measure-and-reset instructions in an instruction
/// sequence: the measurement records the sequence produces.
pub open spec fn count_mr(s: Seq<InstrV>) -> int
    decreases s.len(),
{
    if s.len() == 0 {
        0
    } else {
        count_mr(s.drop_last()) + if s.last() is MeasureReset {
            1int
        } else {
            0int
        }
    }
}

pub proof fn lemma_count_mr_push(s: Seq<InstrV>, x: InstrV)
    ensures
        count_mr(s.push(x)) == count_mr(s) + if x is MeasureReset {
            1int
        } else {
            0int
        },
{
    assert(s.push(x).drop_last() =~= s);
    assert(s.push(x).last() == x);
}

pub proof fn lemma_count_mr_single(x: InstrV)
    ensures
        count_mr(seq![x]) == if x is MeasureReset {
            1int
        } else {
            0int
        },
{
    assert(seq![x] =~= Seq::<InstrV>::empty().push(x));
    lemma_count_mr_push(Seq::empty(), x);
}

pub proof fn lemma_count_mr_add(a: Seq<InstrV>, b: Seq<InstrV>)
    ensures
        count_mr(a + b) == count_mr(a) + count_mr(b),
    decreases b.len(),
{
    if b.len() == 0 {
        assert(a + b =~= a);
    } else {
        lemma_count_mr_add(a, b.drop_last());
        assert((a + b).drop_last() =~= a + b.drop_last());
        assert((a + b).last() == b.last());
    }
}

pub proof fn lemma_count_mr_zero(s: Seq<InstrV>)
    requires
        forall|k: int| 0 <= k < s.len() ==> !((#[trigger] s[k]) is MeasureReset),
    ensures
        count_mr(s) == 0,
    decreases s.len(),
{
    if s.len() > 0 {
        assert(forall|k: int|
            0 <= k < s.drop_last().len() ==> #[trigger] s.drop_last()[k] == s[k]);
        lemma_count_mr_zero(s.drop_last());
    }
}

/// A vertex's dispatch emits exactly one measure-and-reset when the
/// vertex measures, none otherwise.
pub proof fn lemma_vertex_mr_count(d: DiagramV, v: usize)
    ensures
        count_mr(vertex_instrs(d, v)) == if measures(d, v) {
            1int
        } else {
            0int
        },
{
    let deg = degree(d, v);
    let role = d.verts[v as int].role;
    if role == Role::Boundary {
        if deg == 0 || deg >= 4 {
            lemma_count_mr_single(InstrV::Diagnostic { degree: deg as usize, vertex: v });
        }
    } else if deg == 1 {
        let base = if role == Role::ZSpider {
            seq![InstrV::BasisChange { qubit: canon_q(d, v) }]
        } else {
            Seq::<InstrV>::empty()
        };
        if role == Role::ZSpider {
            lemma_count_mr_single(InstrV::BasisChange { qubit: canon_q(d, v) });
        }
        assert(count_mr(base) == 0);
        if measures(d, v) {
            lemma_count_mr_push(base, InstrV::MeasureReset { qubit: canon_q(d, v) });
        }
    } else if deg == 3 && role == Role::ZSpider {
        lemma_cnot_upto_shapes(d, v, 3);
        assert(forall|k: int|
            0 <= k < cnot_upto(d, v, 3).len() ==> !((#[trigger] cnot_upto(d, v, 3)[k])
                is MeasureReset));
        lemma_count_mr_zero(cnot_upto(d, v, 3));
    } else if deg != 2 && deg != 3 {
        lemma_count_mr_single(InstrV::Diagnostic { degree: deg as usize, vertex: v });
    }
}

pub proof fn lemma_emit_verts_mr(d: DiagramV, vs: Seq<usize>)
    ensures
        count_mr(emit_verts(d, vs)) == counter_after(d, vs),
    decreases vs.len(),
{
    if vs.len() > 0 {
        lemma_emit_verts_mr(d, vs.drop_last());
        lemma_vertex_mr_count(d, vs.last());
        lemma_count_mr_add(emit_verts(d, vs.drop_last()), vertex_instrs(d, vs.last()));
    }
}

pub proof fn lemma_emit_rows_mr(d: DiagramV, rt: Seq<u64>)
    ensures
        count_mr(emit_rows(d, rt)) == counter_after(d, order_upto(d, rt)),
    decreases rt.len(),
{
    if rt.len() > 0 {
        lemma_emit_rows_mr(d, rt.drop_last());
        lemma_emit_verts_mr(d, row_verts(d, rt.last()));
        let a = emit_rows(d, rt.drop_last());
        let row = emit_verts(d, row_verts(d, rt.last()));
        lemma_count_mr_add(a, row.push(InstrV::Tick));
        lemma_count_mr_push(row, InstrV::Tick);
        lemma_counter_after_add(d, order_upto(d, rt.drop_last()), row_verts(d, rt.last()));
    }
}

pub proof fn lemma_emit_webs_no_mr(d: DiagramV, order: Seq<usize>, total: int, ws: Seq<
    Seq<WebEntry>,
>)
    ensures
        count_mr(emit_webs(d, order, total, ws)) == 0,
    decreases ws.len(),
{
    if ws.len() > 0 {
        lemma_emit_webs_no_mr(d, order, total, ws.drop_last());
        let a = emit_webs(d, order, total, ws.drop_last());
        let b = web_instrs(d, order, total, ws.last());
        lemma_count_mr_add(a, b);
        if web_terms(d, order, total, ws.last()).len() != 0 {
            lemma_count_mr_single(
                InstrV::ParityCheck { offsets: web_terms(d, order, total, ws.last()) },
            );
        }
    }
}

/// The total record count the detector pass works against is exactly the
/// number of measure-and-reset instructions in the translation's output.
pub proof fn lemma_measurement_count(d: DiagramV, ws: Seq<Seq<WebEntry>>)
    ensures
        count_mr(stim_instrs(d, ws)) == total_recs(d),
{
    lemma_count_mr_add(
        emit_rows(d, rtable(d)),
        emit_webs(d, proc_order(d), total_recs(d), ws),
    );
    lemma_emit_rows_mr(d, rtable(d));
    lemma_emit_webs_no_mr(d, proc_order(d), total_recs(d), ws);
}

/// The offsets carried by a parity-check instruction; empty for every
/// other instruction form.
pub open spec fn offsets_of(i: InstrV) -> Seq<usize> {
    match i {
        InstrV::ParityCheck { offsets } => offsets,
        _ => Seq::empty(),
    }
}

/// For every diagram and every web list, the translation emits exactly
/// one row-boundary marker per distinct `row` coordinate value.
pub proof fn lemma_row_marker_count(d: DiagramV, ws: Seq<Seq<WebEntry>>)
    ensures
        count_ticks(stim_instrs(d, ws)) == rkeys(d).to_set().len(),
{
    broadcast use vstd::set::group_set_axioms;

    let rt = rtable(d);
    lemma_count_ticks_add(
        emit_rows(d, rt),
        emit_webs(d, proc_order(d), total_recs(d), ws),
    );
    lemma_emit_rows_props(d, rt);
    lemma_emit_webs_no_ticks(d, proc_order(d), total_recs(d), ws);
    lemma_sorted_keys_props(rkeys(d));
    assert(rt.no_duplicates()) by {
        assert forall|i: int, j: int|
            0 <= i < rt.len() && 0 <= j < rt.len() && i != j implies rt[i] != rt[j] by {
            if i < j {
                assert(rt[i] < rt[j]);
            } else {
                assert(rt[j] < rt[i]);
            }
        }
    }
    rt.unique_seq_to_set();
    assert(rt.to_set() =~= rkeys(d).to_set()) by {
        assert(forall|x: u64| rt.contains(x) <==> rkeys(d).contains(x));
    }
}

/// The counter is a count and so never negative.
pub proof fn lemma_counter_nonneg(d: DiagramV, order: Seq<usize>)
    ensures
        counter_after(d, order) >= 0,
    decreases order.len(),
{
    if order.len() > 0 {
        lemma_counter_nonneg(d, order.drop_last());
    }
}

/// Determinism: the translation output is a function of the (diagram,
/// webs) pair alone; two translations of the same pair are identical.
pub proof fn lemma_translation_deterministic(
    d: DiagramV,
    ws: Seq<Seq<WebEntry>>,
    out1: Seq<InstrV>,
    out2: Seq<InstrV>,
)
    requires
        out1 == stim_instrs(d, ws),
        out2 == stim_instrs(d, ws),
    ensures
        out1 == out2,
{
}

/// A boundary vertex, whatever its degree, never contributes an
/// instruction: at most a comment-only diagnostic line, and at the
/// supported degrees nothing at all.
pub proof fn lemma_boundary_contributes_nothing(d: DiagramV, v: usize)
    requires
        d.verts[v as int].role == Role::Boundary,
    ensures
        forall|k: int|
            0 <= k < vertex_instrs(d, v).len() ==> (#[trigger] vertex_instrs(d, v)[k])
                is Diagnostic,
        1 <= degree(d, v) <= 3 ==> vertex_instrs(d, v) == Seq::<InstrV>::empty(),
{
}

/// A degree-2 vertex of any role contributes no instruction.
pub proof fn lemma_degree_two_contributes_nothing(d: DiagramV, v: usize)
    requires
        degree(d, v) == 2,
    ensures
        vertex_instrs(d, v) == Seq::<InstrV>::empty(),
{
}

/// A degree-3 X-spider never directly emits a controlled instruction: it
/// emits nothing; the controlled instructions come from its Z-spider
/// control neighbor, whose dispatch emits only controlled instructions
/// with its own canonical qubit as control.
pub proof fn lemma_x_spider_defers(d: DiagramV, v: usize)
    requires
        degree(d, v) == 3,
        d.verts[v as int].role == Role::XSpider,
    ensures
        vertex_instrs(d, v) == Seq::<InstrV>::empty(),
{
}

/// The control side of the degree-3 dispatch: a degree-3 Z-spider emits
/// only controlled instructions, each with its own canonical qubit as
/// control.
pub proof fn lemma_z_spider_controls(d: DiagramV, v: usize)
    requires
        degree(d, v) == 3,
        d.verts[v as int].role == Role::ZSpider,
    ensures
        forall|k: int|
            0 <= k < vertex_instrs(d, v).len() ==> ((#[trigger] vertex_instrs(d, v)[k]) matches
                InstrV::Controlled { control, target } && control == canon_q(d, v)),
{
    lemma_cnot_upto_shapes(d, v, 3);
}

/// Every relative record offset referenced by a parity-check instruction
/// of the translation is strictly positive and does not exceed the total
/// measurement count — the number of measure-and-reset instructions in
/// the output (`lemma_measurement_count`), final by the time detectors
/// are emitted.  The one hypothesis is the machine limit every
/// representable diagram meets: its vertex list fits in memory.
pub proof fn lemma_detector_offsets_bounded(d: DiagramV, ws: Seq<Seq<WebEntry>>, k: int)
    requires
        d.verts.len() <= usize::MAX,
        0 <= k < stim_instrs(d, ws).len(),
    ensures
        forall|j: int|
            0 <= j < offsets_of(#[trigger] stim_instrs(d, ws)[k]).len() ==> 1 <= (
            #[trigger] offsets_of(stim_instrs(d, ws)[k])[j]) <= total_recs(d),
        total_recs(d) <= d.verts.len(),
{
    lemma_total_recs_bound(d);
    let rows = emit_rows(d, rtable(d));
    let dets = emit_webs(d, proc_order(d), total_recs(d), ws);
    lemma_emit_rows_props(d, rtable(d));
    lemma_counter_nonneg(d, proc_order(d));
    lemma_emit_webs_props(d, proc_order(d), total_recs(d), ws);
    assert forall|j: int|
        0 <= j < offsets_of(#[trigger] stim_instrs(d, ws)[k]).len() implies 1 <= (
    #[trigger] offsets_of(stim_instrs(d, ws)[k])[j]) <= total_recs(d) by {
        if k < rows.len() {
            assert(stim_instrs(d, ws)[k] == rows[k]);
            assert(!(rows[k] is ParityCheck));
            assert(offsets_of(rows[k]) =~= Seq::<usize>::empty());
        } else {
            assert(stim_instrs(d, ws)[k] == dets[k - rows.len()]);
        }
    }
}

} // verus!
