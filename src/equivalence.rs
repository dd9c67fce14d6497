//! Renaming a circuit's wires into the global space keeps what it computes.

use vstd::prelude::*;
use crate::circuit::{GateType, GateView, CircuitView, run, assignment, gate_value, arity_ok};
use crate::deps::Binding;
use crate::lut::LUT;
use crate::sop_sim::{row_of, lemma_sop_simulates};
use crate::unify::{local_shape, map_wire, map_gates, merged, unified, first_fresh, fresh_count, max_circuit_id, max_wire};

verus! {

/// The renaming sends distinct gate outputs to distinct wires, none of
/// which is the wire of an input's binding.
pub open spec fn renaming_ok(c: CircuitView, b: Seq<Binding>, base: int) -> bool {
    &&& local_shape(c)
    &&& b.len() == c.inputs.len()
    &&& forall|j: int| 0 <= j < b.len() ==> (#[trigger] b[j]).wire() < base && b[j].wire() != c.id
    &&& c.id < base
    &&& base + c.gates.len() - 1 <= usize::MAX
}

proof fn lemma_rename_injective(c: CircuitView, b: Seq<Binding>, base: int, w1: usize, w2: usize)
    requires
        renaming_ok(c, b, base),
        w1 < w2 < c.inputs.len() + c.gates.len(),
        w2 >= c.inputs.len(),
    ensures
        map_wire(c, b, base, w1) != map_wire(c, b, base, w2),
{
    assert(c.gates[c.gates.len() - 1].output == c.inputs.len() + c.gates.len() - 1);
    if w1 < c.inputs.len() {
        assert(b[w1 as int].wire() < base);
    }
}

/// Simulating the first `k` renamed gates under wire values that give each
/// binding's wire the value of its input reproduces, on each renamed wire,
/// what the first `k` gates of `c` give that wire.
proof fn lemma_rename_prefix(c: CircuitView, b: Seq<Binding>, base: int, a: Seq<bool>, e: spec_fn(usize) -> bool, k: int)
    requires
        renaming_ok(c, b, base),
        a.len() == c.inputs.len(),
        forall|j: int| 0 <= j < a.len() ==> e(#[trigger] b[j].wire()) == a[j],
        0 <= k <= c.gates.len(),
    ensures
        forall|w: usize| (w as int) < c.inputs.len() + k ==>
            #[trigger] run(map_gates(c, b, base).take(k), e)(map_wire(c, b, base, w)) == run(c.gates.take(k), assignment(a))(w),
    decreases k,
{
    let n = c.inputs.len();
    let mg = map_gates(c, b, base);
    if k == 0 {
        assert(mg.take(0) =~= Seq::<GateView>::empty());
        assert(c.gates.take(0) =~= Seq::<GateView>::empty());
        assert forall|w: usize| (w as int) < n implies
            #[trigger] run(mg.take(0), e)(map_wire(c, b, base, w)) == run(c.gates.take(0), assignment(a))(w) by {
            assert(e(b[w as int].wire()) == a[w as int]);
        }
    } else {
        lemma_rename_prefix(c, b, base, a, e, k - 1);
        let g = c.gates[k - 1];
        let mgk = mg[k - 1];
        assert(c.gates.take(k).drop_last() =~= c.gates.take(k - 1));
        assert(mg.take(k).drop_last() =~= mg.take(k - 1));
        assert(c.gates.take(k).last() == g);
        assert(mg.take(k).last() == mgk);
        assert(g.output == n + k - 1);
        assert(arity_ok(g));
        let r = run(c.gates.take(k - 1), assignment(a));
        let mr = run(mg.take(k - 1), e);
        assert forall|q: int| 0 <= q < g.operands.len() implies
            #[trigger] mr(mgk.operands[q]) == r(g.operands[q]) by {
            assert(g.operands[q] < n + k - 1);
            assert(mgk.operands[q] == map_wire(c, b, base, g.operands[q]));
        }
        assert(gate_value(mgk, mr) == gate_value(g, r)) by {
            if g.kind == GateType::NOT {
                assert(mr(mgk.operands[0]) == r(g.operands[0]));
            } else if g.kind == GateType::AND {
                if gate_value(g, r) {
                    assert forall|q: int| 0 <= q < mgk.operands.len() implies #[trigger] mr(mgk.operands[q]) by {
                        assert(r(g.operands[q]));
                    }
                }
                if gate_value(mgk, mr) {
                    assert forall|q: int| 0 <= q < g.operands.len() implies #[trigger] r(g.operands[q]) by {
                        assert(mr(mgk.operands[q]));
                    }
                }
            } else if g.kind == GateType::OR {
                if gate_value(g, r) {
                    let q = choose|q: int| 0 <= q < g.operands.len() && #[trigger] r(g.operands[q]);
                    assert(mr(mgk.operands[q]));
                }
                if gate_value(mgk, mr) {
                    let q = choose|q: int| 0 <= q < mgk.operands.len() && #[trigger] mr(mgk.operands[q]);
                    assert(r(g.operands[q]));
                }
            }
        }
        assert forall|w: usize| (w as int) < n + k implies
            #[trigger] run(mg.take(k), e)(map_wire(c, b, base, w)) == run(c.gates.take(k), assignment(a))(w) by {
            if (w as int) < n + k - 1 {
                lemma_rename_injective(c, b, base, w, g.output);
            }
        }
    }
}

/// Flattening one table whose inputs are all bound to primary inputs of the
/// network gives a circuit that, on the circuit's id, computes what the
/// table's own sum-of-products circuit computes on its output: the table's
/// bit for the row that the inputs select.
pub proof fn lemma_single_lut_roundtrip(l: LUT, b: Seq<Binding>, prims: Seq<usize>, a: Seq<bool>, e: spec_fn(usize) -> bool)
    requires
        l.wf(),
        l.fits(),
        unified(seq![l.sop()], seq![b], prims) is Ok,
        forall|j: int| 0 <= j < b.len() ==> (#[trigger] b[j]) is PrimaryInput && prims.contains(b[j].wire()),
        a.len() == l.n(),
        forall|j: int| 0 <= j < a.len() ==> e(#[trigger] b[j].wire()) == a[j],
    ensures
        run(unified(seq![l.sop()], seq![b], prims)->Ok_0.gates, e)(l.id)
            == run(l.sop().gates, assignment(a))(l.sop().gates.last().output),
        run(unified(seq![l.sop()], seq![b], prims)->Ok_0.gates, e)(l.id)
            == (row_of(a) < l.table@.len() && l.table@[row_of(a) as int] == 1),
{
    let c = l.sop();
    let cs = seq![c];
    let bs = seq![b];
    let start = first_fresh(cs, prims);
    assert(local_shape(cs[0]));
    assert(bs[0].len() == cs[0].inputs.len());
    assert(fresh_count(cs, 0) == 0);
    assert(start + fresh_count(cs, 1) <= usize::MAX);
    assert(c.id <= max_circuit_id(cs, 1));
    assert forall|j: int| 0 <= j < b.len() implies (#[trigger] b[j]).wire() < start && b[j].wire() != c.id by {
        let k = choose|k: int| 0 <= k < prims.len() && prims[k] == b[j].wire();
        lemma_max_wire_bound(prims, prims.len() as int, k);
        assert(cs[0].id != prims[k]);
    }
    assert(renaming_ok(c, b, start));
    let mg = map_gates(c, b, start);
    assert(cs[0] == c && bs[0] == b);
    assert(merged(cs, bs, start, 0) == Seq::<GateView>::empty());
    assert(merged(cs, bs, start, 1) == Seq::<GateView>::empty() + mg);
    assert(merged(cs, bs, start, 1) =~= mg);
    assert(mg.take(c.gates.len() as int) =~= mg);
    assert(c.gates.take(c.gates.len() as int) =~= c.gates);
    lemma_rename_prefix(c, b, start, a, e, c.gates.len() as int);
    let last = c.gates.last().output;
    assert(c.gates[c.gates.len() - 1].output == c.inputs.len() + c.gates.len() - 1);
    assert(map_wire(c, b, start, last) == c.id);
    lemma_sop_simulates(l, a);
}

proof fn lemma_max_wire_bound(ws: Seq<usize>, i: int, k: int)
    requires
        0 <= k < i <= ws.len(),
    ensures
        ws[k] <= max_wire(ws, i),
    decreases i,
{
    if k < i - 1 {
        lemma_max_wire_bound(ws, i - 1, k);
    }
}

} // verus!
