//! The sum-of-products circuit computes its table.

use vstd::prelude::*;
use crate::circuit::{GateType, GateView, run, assignment, gate_value, arity_ok, lemma_run_append, lemma_run_frame};
use crate::unify::local_shape;
use crate::lut::{pow2, lsb_bits, row_literal, literals, term, terms, term_wires, sop_gates, LUT};

verus! {

/// The row that an input assignment selects: input 0 is the most significant bit.
pub open spec fn row_of(a: Seq<bool>) -> nat
    decreases a.len(),
{
    if a.len() == 0 { 0 } else { 2 * row_of(a.drop_last()) + if a.last() { 1nat } else { 0nat } }
}

proof fn lemma_lsb_len(i: nat, n: nat)
    ensures
        lsb_bits(i, n).len() == n,
    decreases n,
{
    if n > 0 {
        lemma_lsb_len(i / 2, (n - 1) as nat);
    }
}

/// An assignment selects row `i` exactly when every input matches the
/// corresponding bit of `i`.
proof fn lemma_minterm(a: Seq<bool>, i: nat)
    requires
        i < pow2(a.len()),
    ensures
        (row_of(a) == i) <==> (forall|j: int| 0 <= j < a.len() ==> a[j] == #[trigger] row_literal(i, a.len(), j as nat)),
    decreases a.len(),
{
    let n = a.len();
    if n > 0 {
        let p = a.drop_last();
        lemma_minterm(p, i / 2);
        assert(lsb_bits(i, n) == seq![i % 2 == 1] + lsb_bits(i / 2, (n - 1) as nat));
        assert forall|j: int| 0 <= j < n - 1 implies #[trigger] row_literal(i, n, j as nat) == row_literal(i / 2, (n - 1) as nat, j as nat) by {
            let tail = lsb_bits(i / 2, (n - 1) as nat);
            lemma_lsb_len(i / 2, (n - 1) as nat);
            assert((seq![i % 2 == 1] + tail)[n - 1 - j] == tail[n - 2 - j]);
        }
        assert(row_literal(i, n, (n - 1) as nat) == (i % 2 == 1));
        if row_of(a) == i {
            assert forall|j: int| 0 <= j < n implies a[j] == #[trigger] row_literal(i, n, j as nat) by {
                if j < n - 1 {
                    assert(p[j] == a[j]);
                }
            }
        }
        if forall|j: int| 0 <= j < n ==> a[j] == #[trigger] row_literal(i, n, j as nat) {
            assert forall|j: int| 0 <= j < p.len() implies p[j] == #[trigger] row_literal(i / 2, p.len(), j as nat) by {
                assert(a[j] == row_literal(i, n, j as nat));
            }
            assert(a[n - 1] == row_literal(i, n, (n - 1) as nat));
        }
    }
}

/// The NOT gates of the literals drive `w0, w0 + 1, ..`, read wires below
/// their outputs, and each operand of the AND is a wire below the next free one.
proof fn lemma_literals_shape(i: nat, n: nat, j: nat, w0: nat)
    requires
        j <= n <= w0,
        w0 + j <= usize::MAX,
    ensures
        forall|k: int| 0 <= k < literals(i, n, j, w0).0.len() ==> (#[trigger] literals(i, n, j, w0).0[k]).output == w0 + k,
        forall|k: int| 0 <= k < literals(i, n, j, w0).0.len() ==> (#[trigger] literals(i, n, j, w0).0[k]).kind == GateType::NOT,
        forall|k: int| 0 <= k < literals(i, n, j, w0).0.len() ==> (#[trigger] literals(i, n, j, w0).0[k]).operands.len() == 1,
        forall|k: int| 0 <= k < literals(i, n, j, w0).0.len() ==> (#[trigger] literals(i, n, j, w0).0[k]).operands[0] < n,
        forall|q: int| 0 <= q < literals(i, n, j, w0).1.len() ==> (#[trigger] literals(i, n, j, w0).1[q]) < w0 + literals(i, n, j, w0).0.len(),
        literals(i, n, j, w0).1.len() == j,
        literals(i, n, j, w0).0.len() <= j,
    decreases j,
{
    if j > 0 {
        lemma_literals_shape(i, n, (j - 1) as nat, w0);
    }
}

/// Under wire values that give input `q` the value `a[q]`, each AND operand
/// of row `i`'s term is true exactly when its input matches row `i`.
proof fn lemma_literals_value(a: Seq<bool>, i: nat, j: nat, w0: nat, e: spec_fn(usize) -> bool)
    requires
        j <= a.len() <= w0,
        w0 + a.len() <= usize::MAX,
        forall|q: int| 0 <= q < a.len() ==> #[trigger] e(q as usize) == a[q],
    ensures
        forall|q: int| 0 <= q < j ==> #[trigger] run(literals(i, a.len(), j, w0).0, e)(literals(i, a.len(), j, w0).1[q])
            == (a[q] == row_literal(i, a.len(), q as nat)),
    decreases j,
{
    let n = a.len();
    if j > 0 {
        let prev = literals(i, n, (j - 1) as nat, w0);
        let cur = literals(i, n, j, w0);
        lemma_literals_value(a, i, (j - 1) as nat, w0, e);
        lemma_literals_shape(i, n, (j - 1) as nat, w0);
        let pe = run(prev.0, e);
        assert(pe((j - 1) as usize) == a[j - 1]) by {
            lemma_run_frame(prev.0, e, (j - 1) as usize);
        }
        if !row_literal(i, n, (j - 1) as nat) {
            let w = (w0 + prev.0.len()) as usize;
            assert(cur.0.drop_last() =~= prev.0);
            assert forall|q: int| 0 <= q < j implies #[trigger] run(cur.0, e)(cur.1[q]) == (a[q] == row_literal(i, n, q as nat)) by {
                if q < j - 1 {
                    assert(cur.1[q] == prev.1[q]);
                    assert(prev.1[q] < w);
                }
            }
        }
    }
}

/// The gates of a term drive `w0, w0 + 1, ..`.
proof fn lemma_term_shape(i: nat, n: nat, w0: nat)
    requires
        n <= w0,
        w0 + n + 2 <= usize::MAX,
    ensures
        term(i, n, w0).len() >= 1,
        forall|k: int| 0 <= k < term(i, n, w0).len() ==> (#[trigger] term(i, n, w0)[k]).output == w0 + k,
{
    if n > 0 {
        lemma_literals_shape(i, n, n, w0);
    }
}

/// The last gate of row `i`'s term is true exactly when the inputs select row `i`.
proof fn lemma_term_value(a: Seq<bool>, i: nat, w0: nat, e: spec_fn(usize) -> bool)
    requires
        a.len() <= w0,
        w0 + a.len() + 2 <= usize::MAX,
        i < pow2(a.len()),
        forall|q: int| 0 <= q < a.len() ==> #[trigger] e(q as usize) == a[q],
    ensures
        run(term(i, a.len(), w0), e)(term(i, a.len(), w0).last().output) == (row_of(a) == i),
{
    let n = a.len();
    let t = term(i, n, w0);
    lemma_minterm(a, i);
    if n == 0 {
        assert(t.drop_last() =~= seq![t[0]]);
        assert(seq![t[0]].drop_last() =~= Seq::<GateView>::empty());
        assert(pow2(0) == 1);
        assert(i == 0);
        assert(row_of(a) == 0);
        let z = run(seq![t[0]], e);
        assert(z(w0 as usize) == false);
        assert(t.last().operands[0] == w0 as usize);
    } else {
        let l = literals(i, n, n, w0);
        lemma_literals_value(a, i, n, w0, e);
        lemma_literals_shape(i, n, n, w0);
        assert(t.drop_last() =~= l.0);
        assert(t.last() == GateView { kind: GateType::AND, operands: l.1, output: (w0 + l.0.len()) as usize });
        let le = run(l.0, e);
        let g = t.last();
        assert(gate_value(g, le) <==> forall|q: int| 0 <= q < n ==> a[q] == #[trigger] row_literal(i, n, q as nat)) by {
            if gate_value(g, le) {
                assert(g.operands == l.1);
                assert(g.kind == GateType::AND);
                assert forall|q: int| 0 <= q < n implies a[q] == #[trigger] row_literal(i, n, q as nat) by {
                    assert(le(g.operands[q]));
                }
            }
        }
    }
}

/// What the first `r` rows' terms compute: the terms' gates drive `n, n + 1, ..`,
/// the inputs keep their values, and some term is true exactly when the
/// selected row is among the first `r` and its bit is 1.
proof fn lemma_terms_value(t: Seq<u8>, a: Seq<bool>, r: nat)
    requires
        r <= t.len() <= pow2(a.len()),
        t.len() * (a.len() + 2) + a.len() + 2 <= usize::MAX,
    ensures
        forall|k: int| 0 <= k < terms(t, a.len(), r).len() ==> (#[trigger] terms(t, a.len(), r)[k]).output == a.len() + k,
        forall|q: int| 0 <= q < term_wires(t, a.len(), r).len() ==> (#[trigger] term_wires(t, a.len(), r)[q]) < a.len() + terms(t, a.len(), r).len(),
        forall|q: int| 0 <= q < a.len() ==> #[trigger] run(terms(t, a.len(), r), assignment(a))(q as usize) == a[q],
        (exists|q: int| 0 <= q < term_wires(t, a.len(), r).len() && #[trigger] run(terms(t, a.len(), r), assignment(a))(term_wires(t, a.len(), r)[q]))
            <==> (row_of(a) < r && t[row_of(a) as int] == 1),
    decreases r,
{
    let n = a.len();
    let e0 = assignment(a);
    if r > 0 {
        let r0 = (r - 1) as nat;
        lemma_terms_value(t, a, r0);
        crate::lut::lemma_terms_len(t, n, r);
        crate::lut::lemma_terms_len(t, n, r0);
        assert(r * (n + 2) <= t.len() * (n + 2)) by (nonlinear_arith)
            requires r <= t.len();
        assert(r0 * (n + 2) + (n + 2) == r * (n + 2)) by (nonlinear_arith)
            requires r0 + 1 == r;
        let g = terms(t, n, r0);
        let o = term_wires(t, n, r0);
        let pe = run(g, e0);
        if t[r - 1] == 1 {
            let tm = term(r0, n, n + g.len());
            let g2 = terms(t, n, r);
            let o2 = term_wires(t, n, r);
            assert(g2 == g + tm);
            lemma_term_shape(r0, n, n + g.len());
            assert forall|k: int| 0 <= k < g2.len() implies (#[trigger] g2[k]).output == n + k by {
                if k >= g.len() {
                    assert(g2[k] == tm[k - g.len()]);
                }
            }
            assert forall|x: usize| #[trigger] run(g2, e0)(x) == run(tm, pe)(x) by {
                lemma_run_append(g, tm, e0, x);
            }
            assert forall|q: int| 0 <= q < n implies #[trigger] run(g2, e0)(q as usize) == a[q] by {
                lemma_run_frame(tm, pe, q as usize);
            }
            assert forall|q: int| 0 <= q < o.len() implies #[trigger] run(g2, e0)(o[q]) == pe(o[q]) by {
                lemma_run_frame(tm, pe, o[q]);
            }
            assert forall|q: int| 0 <= q < n implies #[trigger] pe(q as usize) == a[q] by {}
            assert(r0 < pow2(n));
            lemma_term_value(a, r0, n + g.len(), pe);
            assert(o2 == o.push((n + g2.len() - 1) as usize));
            assert(tm.last().output == n + g2.len() - 1);
            let v = run(g2, e0);
            if exists|q: int| 0 <= q < o2.len() && #[trigger] v(o2[q]) {
                let q = choose|q: int| 0 <= q < o2.len() && #[trigger] v(o2[q]);
                if q < o.len() {
                    assert(pe(o[q]));
                }
            }
            if row_of(a) < r && t[row_of(a) as int] == 1 {
                if row_of(a) < r0 {
                    let q = choose|q: int| 0 <= q < o.len() && #[trigger] pe(o[q]);
                    assert(v(o2[q]));
                } else {
                    assert(v(o2[o.len() as int]));
                }
            }
        } else {
            if row_of(a) < r && t[row_of(a) as int] == 1 {
                assert(row_of(a) < r0);
            }
        }
    }
}

/// The synthesized circuit's output, for every assignment of its inputs, is
/// the table's bit for the selected row (false for rows past the table).
pub proof fn lemma_sop_simulates(l: LUT, a: Seq<bool>)
    requires
        l.wf(),
        l.fits(),
        a.len() == l.n(),
    ensures
        run(l.sop().gates, assignment(a))(l.sop().gates.last().output)
            == (row_of(a) < l.table@.len() && l.table@[row_of(a) as int] == 1),
{
    let n = a.len();
    let t = l.table@;
    lemma_width_rows(l.width as nat);
    lemma_terms_value(t, a, t.len());
    let g = terms(t, n, t.len());
    let o = term_wires(t, n, t.len());
    let s = sop_gates(t, n);
    assert(s.drop_last() == g);
    assert(l.sop().gates == s);
    let v = run(g, assignment(a));
    assert(run(s, assignment(a))(s.last().output) == gate_value(s.last(), v));
    if o.len() > 0 {
        assert(s.last().operands == o && s.last().kind == GateType::OR);
        if gate_value(s.last(), v) {
            let q = choose|q: int| 0 <= q < o.len() && #[trigger] v(s.last().operands[q]);
            assert(v(o[q]));
        }
        if row_of(a) < t.len() && t[row_of(a) as int] == 1 {
            let q = choose|q: int| 0 <= q < o.len() && #[trigger] v(o[q]);
            assert(v(s.last().operands[q]));
        }
    }
}

/// A table of `w` rows fits in the rows that `bit_width(w)` inputs select.
proof fn lemma_width_rows(w: nat)
    ensures
        w <= pow2(crate::lut::bit_width(w)),
    decreases w,
{
    if w > 1 {
        lemma_width_rows(((w + 1) / 2) as nat);
    }
}

/// Gate `k` of the first `r` rows' terms drives wire `n + k`, reads only
/// wires below it, and has the operands its kind asks for.
proof fn lemma_terms_shape(t: Seq<u8>, n: nat, r: nat)
    requires
        r <= t.len(),
        t.len() * (n + 2) + n + 2 <= usize::MAX,
    ensures
        forall|k: int| 0 <= k < terms(t, n, r).len() ==> (#[trigger] terms(t, n, r)[k]).output == n + k,
        forall|k: int| 0 <= k < terms(t, n, r).len() ==> arity_ok(#[trigger] terms(t, n, r)[k]),
        forall|k: int, m: int| 0 <= k < terms(t, n, r).len() && 0 <= m < terms(t, n, r)[k].operands.len()
            ==> #[trigger] terms(t, n, r)[k].operands[m] < n + k,
        forall|q: int| 0 <= q < term_wires(t, n, r).len() ==> (#[trigger] term_wires(t, n, r)[q]) < n + terms(t, n, r).len(),
    decreases r,
{
    if r > 0 {
        let r0 = (r - 1) as nat;
        lemma_terms_shape(t, n, r0);
        crate::lut::lemma_terms_len(t, n, r);
        crate::lut::lemma_terms_len(t, n, r0);
        assert(r * (n + 2) <= t.len() * (n + 2)) by (nonlinear_arith)
            requires r <= t.len();
        assert(r0 * (n + 2) + (n + 2) == r * (n + 2)) by (nonlinear_arith)
            requires r0 + 1 == r;
        let g = terms(t, n, r0);
        if t[r - 1] == 1 {
            let w0 = n + g.len();
            let tm = term(r0, n, w0);
            let g2 = terms(t, n, r);
            assert(g2 == g + tm);
            lemma_term_shape(r0, n, w0);
            if n > 0 {
                lemma_literals_shape(r0, n, n, w0);
            }
            let l = literals(r0, n, n, w0);
            assert forall|k: int| 0 <= k < g2.len() implies
                arity_ok(#[trigger] g2[k]) && g2[k].output == n + k
                && forall|m: int| 0 <= m < g2[k].operands.len() ==> #[trigger] g2[k].operands[m] < n + k by {
                if k >= g.len() {
                    let i = k - g.len();
                    assert(g2[k] == tm[i]);
                    if n > 0 && i < l.0.len() {
                        assert(tm[i] == l.0[i]);
                    }
                } else {
                    assert(g2[k] == g[k]);
                }
            }
        }
    }
}

/// The circuit that synthesis builds is numbered locally: inputs `0 .. n`,
/// gate `k` driving wire `n + k` from wires below it, its output last.
pub proof fn lemma_sop_local(l: LUT)
    requires
        l.wf(),
        l.fits(),
    ensures
        local_shape(l.sop()),
{
    let n = l.n();
    let t = l.table@;
    lemma_terms_shape(t, n, t.len());
    crate::lut::lemma_terms_len(t, n, t.len());
    let g = terms(t, n, t.len());
    let s = sop_gates(t, n);
    assert(s.drop_last() == g);
    assert forall|k: int| 0 <= k < s.len() implies
        arity_ok(#[trigger] s[k]) && s[k].output == n + k
        && forall|m: int| 0 <= m < s[k].operands.len() ==> #[trigger] s[k].operands[m] < n + k by {
        if k < g.len() {
            assert(s[k] == g[k]);
        }
    }
    assert(l.sop().inputs.len() == n);
}

} // verus!
