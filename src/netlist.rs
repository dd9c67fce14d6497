//! A whole network description: table lines, then a line of outputs.

use vstd::prelude::*;
use crate::text::{ParseError, tokens, number, char_views, chars_of, split_tokens, parse_number};
use crate::circuit::{Circuit, CircuitView};
use crate::lut::{LUT, lut_fields, bit_width, input_wires, sop_gates};
use crate::deps::{Binding, all_bind, bindings_of, parse_dep_chars, add_primaries, collect_primary_inputs};
use crate::unify::{UnifyError, unified, unify, circuit_views, binding_views};

verus! {

/// Why a network description yields no circuit.
#[derive(Clone, Copy, PartialEq, Eq, Structural, Debug)]
pub enum NetlistError {
    /// The text is malformed.
    Parse(ParseError),
    /// A table's circuit would number wires beyond `usize`.
    TooLarge,
    /// The circuits cannot be merged.
    Unify(UnifyError),
}

/// The merged circuit and the wires declared as outputs.
#[derive(Debug)]
pub struct Netlist {
    pub circuit: Circuit,
    pub outputs: Vec<usize>,
}

/// Splitting at newlines from the left: the lines completed so far and the line in progress.
pub open spec fn line_scan(s: Seq<char>) -> (Seq<Seq<char>>, Seq<char>)
    decreases s.len(),
{
    if s.len() == 0 {
        (seq![], seq![])
    } else {
        let p = line_scan(s.drop_last());
        if s.last() == '\n' { (p.0.push(p.1), seq![]) } else { (p.0, p.1.push(s.last())) }
    }
}

/// The lines of `s`; a final newline ends the last line rather than starting an empty one.
pub open spec fn lines(s: Seq<char>) -> Seq<Seq<char>> {
    let p = line_scan(s);
    if p.1.len() > 0 { p.0.push(p.1) } else { p.0 }
}

/// `p` is the position of the first `:` in `l`.
pub open spec fn is_first_colon(l: Seq<char>, p: int) -> bool {
    0 <= p < l.len() && l[p] == ':' && forall|k: int| 0 <= k < p ==> l[k] != ':'
}

pub open spec fn has_colon(l: Seq<char>) -> bool {
    exists|p: int| is_first_colon(l, p)
}

pub open spec fn first_colon(l: Seq<char>) -> int {
    choose|p: int| is_first_colon(l, p)
}

/// The fields of a table and the bindings of its inputs.
pub type LineView = ((usize, usize, Seq<u8>), Seq<Binding>);

/// A table line `deps : table`: its table is read first, then its references.
pub open spec fn line_parse(l: Seq<char>) -> Result<LineView, ParseError> {
    if !has_colon(l) {
        Err(ParseError::MissingDelimiter)
    } else {
        let p = first_colon(l);
        let lf = lut_fields(tokens(l.skip(p + 1)));
        if lf is Err {
            Err(lf->Err_0)
        } else if !all_bind(tokens(l.take(p))) {
            Err(ParseError::BadReference)
        } else {
            Ok((lf->Ok_0, bindings_of(tokens(l.take(p)))))
        }
    }
}

/// The table lines read in order, stopping at the first that is rejected.
pub open spec fn parse_lines(ls: Seq<Seq<char>>) -> Result<Seq<LineView>, ParseError>
    decreases ls.len(),
{
    if ls.len() == 0 {
        Ok(seq![])
    } else {
        match parse_lines(ls.drop_last()) {
            Err(e) => Err(e),
            Ok(v) => match line_parse(ls.last()) {
                Err(e) => Err(e),
                Ok(x) => Ok(v.push(x)),
            },
        }
    }
}

/// The numbers of the output line, when every token is one.
pub open spec fn out_numbers(toks: Seq<Seq<char>>) -> Option<Seq<usize>> {
    if forall|k: int| 0 <= k < toks.len() ==> (#[trigger] number(toks[k])) is Some {
        Some(Seq::new(toks.len(), |k: int| number(toks[k])->0))
    } else {
        None
    }
}

/// The circuit that synthesis builds for table fields `f`.
pub open spec fn sop_of(f: (usize, usize, Seq<u8>)) -> CircuitView {
    CircuitView { id: f.0, inputs: input_wires(bit_width(f.1 as nat)), gates: sop_gates(f.2, bit_width(f.1 as nat)) }
}

/// The wires of `sop_of(f)` fit in `usize`.
pub open spec fn fields_fit(f: (usize, usize, Seq<u8>)) -> bool {
    f.2.len() * (bit_width(f.1 as nat) + 2) + bit_width(f.1 as nat) + 2 <= usize::MAX
}

/// The primary inputs named by the first `i` lines, each once, in order of first mention.
pub open spec fn primaries_of(v: Seq<LineView>, i: int) -> Seq<usize>
    decreases i,
{
    if i <= 0 { seq![] } else { add_primaries(primaries_of(v, i - 1), v[i - 1].1) }
}

/// The merged circuit and outputs that a network description denotes, or
/// why there are none.
pub open spec fn netlist_of(text: Seq<char>) -> Result<(CircuitView, Seq<usize>), NetlistError> {
    let ls = lines(text);
    if ls.len() == 0 {
        Err(NetlistError::Parse(ParseError::MissingOutputLine))
    } else {
        match parse_lines(ls.drop_last()) {
            Err(e) => Err(NetlistError::Parse(e)),
            Ok(v) => {
                if out_numbers(tokens(ls.last())) is None {
                    Err(NetlistError::Parse(ParseError::BadNumber))
                } else if exists|k: int| 0 <= k < v.len() && !fields_fit(#[trigger] v[k].0) {
                    Err(NetlistError::TooLarge)
                } else {
                    match unified(
                        Seq::new(v.len(), |k: int| sop_of(v[k].0)),
                        Seq::new(v.len(), |k: int| v[k].1),
                        primaries_of(v, v.len() as int),
                    ) {
                        Err(e) => Err(NetlistError::Unify(e)),
                        Ok(c) => Ok((c, out_numbers(tokens(ls.last()))->0)),
                    }
                }
            },
        }
    }
}

/// Splits `s` at newlines.
pub fn split_lines(s: &Vec<char>) -> (r: Vec<Vec<char>>)
    ensures
        char_views(r@) == lines(s@),
{
    let mut ls: Vec<Vec<char>> = Vec::new();
    let mut cur: Vec<char> = Vec::new();
    let mut i: usize = 0;
    assert(s@.take(0) =~= Seq::<char>::empty());
    assert(char_views(ls@) =~= Seq::<Seq<char>>::empty());
    while i < s.len()
        invariant
            i <= s@.len(),
            (char_views(ls@), cur@) == line_scan(s@.take(i as int)),
        decreases s@.len() - i,
    {
        let c = s[i];
        assert(s@.take(i + 1).drop_last() =~= s@.take(i as int));
        if c == '\n' {
            let ghost before = char_views(ls@);
            let ghost piece = cur@;
            ls.push(cur);
            assert(char_views(ls@) =~= before.push(piece));
            cur = Vec::new();
        } else {
            cur.push(c);
        }
        i = i + 1;
    }
    assert(s@.take(s@.len() as int) =~= s@);
    if cur.len() > 0 {
        let ghost before = char_views(ls@);
        let ghost piece = cur@;
        ls.push(cur);
        assert(char_views(ls@) =~= before.push(piece));
    }
    ls
}

/// The characters `l[from .. to]`.
fn slice_chars(l: &Vec<char>, from: usize, to: usize) -> (r: Vec<char>)
    requires
        from <= to <= l@.len(),
    ensures
        r@ == l@.subrange(from as int, to as int),
{
    let mut r: Vec<char> = Vec::new();
    let mut i: usize = from;
    while i < to
        invariant
            from <= i <= to <= l@.len(),
            r@ == l@.subrange(from as int, i as int),
        decreases to - i,
    {
        r.push(l[i]);
        i = i + 1;
        assert(r@ =~= l@.subrange(from as int, i as int));
    }
    r
}

/// Reads one table line `deps : table`.
pub fn parse_line(l: &Vec<char>) -> (r: Result<(LUT, Vec<Binding>), ParseError>)
    ensures
        r is Ok ==> line_parse(l@) == Ok::<LineView, ParseError>(((r->Ok_0.0.id, r->Ok_0.0.width, r->Ok_0.0.table@), r->Ok_0.1@)),
        r is Ok ==> r->Ok_0.0.wf(),
        r is Err ==> line_parse(l@) == Err::<LineView, _>(r->Err_0),
{
    let mut p: usize = 0;
    while p < l.len() && l[p] != ':'
        invariant
            p <= l@.len(),
            forall|k: int| 0 <= k < p ==> l@[k] != ':',
        decreases l@.len() - p,
    {
        p = p + 1;
    }
    if p == l.len() {
        assert forall|q: int| !is_first_colon(l@, q) by {
            if 0 <= q < l@.len() {
                assert(l@[q] != ':');
            }
        }
        return Err(ParseError::MissingDelimiter);
    }
    assert(is_first_colon(l@, p as int));
    assert(first_colon(l@) == p) by {
        let q = first_colon(l@);
        assert(is_first_colon(l@, q));
        if q < p {
            assert(l@[q] != ':');
        } else if q > p {
            assert(l@[p as int] != ':');
        }
    }
    let deps = slice_chars(l, 0, p);
    let table = slice_chars(l, p + 1, l.len());
    assert(deps@ =~= l@.take(p as int));
    assert(table@ =~= l@.skip(p + 1));
    let lut = match LUT::from_chars(&table) {
        Ok(v) => v,
        Err(e) => { return Err(e); },
    };
    match parse_dep_chars(&deps) {
        Ok(bs) => Ok((lut, bs)),
        Err(e) => Err(e),
    }
}

/// Once a line is rejected, reading more lines keeps that rejection.
proof fn lemma_parse_lines_err(ls: Seq<Seq<char>>, m: int)
    requires
        0 <= m <= ls.len(),
        parse_lines(ls.take(m)) is Err,
    ensures
        parse_lines(ls) == parse_lines(ls.take(m)),
    decreases ls.len() - m,
{
    if m < ls.len() {
        assert(ls.take(m + 1).drop_last() =~= ls.take(m));
        lemma_parse_lines_err(ls, m + 1);
    } else {
        assert(ls.take(m) =~= ls);
    }
}

/// The fields and bindings of the lines read so far.
pub open spec fn lines_view(luts: Seq<LUT>, binds: Seq<Vec<Binding>>) -> Seq<LineView> {
    Seq::new(luts.len(), |j: int| ((luts[j].id, luts[j].width, luts[j].table@), binds[j]@))
}

/// Reads a network description and builds its merged circuit: every line
/// but the last is a table line `deps : id width bits`, the last lists the
/// output wires.
pub fn build(text: &str) -> (r: Result<Netlist, NetlistError>)
    ensures
        r is Ok ==> netlist_of(text@) == Ok::<_, NetlistError>((r->Ok_0.circuit@, r->Ok_0.outputs@)),
        r is Err ==> netlist_of(text@) == Err::<(CircuitView, Seq<usize>), _>(r->Err_0),
{
    let chars = chars_of(text);
    let ls = split_lines(&chars);
    let ghost lv = lines(text@);
    assert(forall|k: int| 0 <= k < ls@.len() ==> #[trigger] ls@[k]@ == lv[k]);
    if ls.len() == 0 {
        return Err(NetlistError::Parse(ParseError::MissingOutputLine));
    }
    let nl: usize = ls.len() - 1;
    let mut luts: Vec<LUT> = Vec::new();
    let mut binds: Vec<Vec<Binding>> = Vec::new();
    let mut k: usize = 0;
    assert(lv.take(0) =~= Seq::<Seq<char>>::empty());
    assert(lines_view(luts@, binds@) =~= Seq::<LineView>::empty());
    while k < nl
        invariant
            k <= nl == ls@.len() - 1,
            lv == lines(text@),
            ls@.len() == lv.len(),
            forall|j: int| 0 <= j < ls@.len() ==> #[trigger] ls@[j]@ == lv[j],
            luts@.len() == k && binds@.len() == k,
            forall|j: int| 0 <= j < k ==> (#[trigger] luts@[j]).wf(),
            parse_lines(lv.take(k as int)) == Ok::<_, ParseError>(lines_view(luts@, binds@)),
        decreases nl - k,
    {
        assert(lv.take(k + 1).drop_last() =~= lv.take(k as int));
        assert(lv.take(k + 1).last() == ls@[k as int]@);
        match parse_line(&ls[k]) {
            Ok((lut, b)) => {
                let ghost before = lines_view(luts@, binds@);
                luts.push(lut);
                binds.push(b);
                assert(lines_view(luts@, binds@) =~= before.push(((lut.id, lut.width, lut.table@), b@)));
            },
            Err(e) => {
                assert(lv.drop_last().take(k + 1) =~= lv.take(k + 1));
                proof { lemma_parse_lines_err(lv.drop_last(), k as int + 1); }
                return Err(NetlistError::Parse(e));
            },
        }
        k = k + 1;
    }
    let ghost v = lines_view(luts@, binds@);
    assert(lv.drop_last() =~= lv.take(nl as int));
    assert(parse_lines(lv.drop_last()) == Ok::<_, ParseError>(v));
    assert(lv.last() == ls@[nl as int]@);
    let otoks = split_tokens(&ls[nl]);
    let ghost ov = tokens(lv.last());
    assert(forall|j: int| 0 <= j < otoks@.len() ==> #[trigger] otoks@[j]@ == ov[j]);
    let mut outputs: Vec<usize> = Vec::new();
    let mut k: usize = 0;
    while k < otoks.len()
        invariant
            k <= otoks@.len() == ov.len(),
            forall|j: int| 0 <= j < otoks@.len() ==> #[trigger] otoks@[j]@ == ov[j],
            forall|j: int| 0 <= j < k ==> (#[trigger] number(ov[j])) is Some,
            outputs@ == Seq::new(k as nat, |j: int| number(ov[j])->0),
            lv == lines(text@),
            lv.len() > 0,
            ov == tokens(lv.last()),
            parse_lines(lv.drop_last()) == Ok::<_, ParseError>(v),
        decreases otoks@.len() - k,
    {
        assert(otoks@[k as int]@ == ov[k as int]);
        match parse_number(&otoks[k]) {
            Some(o) => { outputs.push(o); },
            None => {
                assert(number(ov[k as int]) is None);
                return Err(NetlistError::Parse(ParseError::BadNumber));
            },
        }
        k = k + 1;
        assert(outputs@ =~= Seq::new(k as nat, |j: int| number(ov[j])->0));
    }
    assert(out_numbers(ov) == Some(outputs@));
    let mut k: usize = 0;
    while k < luts.len()
        invariant
            k <= luts@.len() == v.len(),
            v == lines_view(luts@, binds@),
            forall|j: int| 0 <= j < luts@.len() ==> (#[trigger] luts@[j]).wf(),
            forall|j: int| 0 <= j < k ==> fields_fit(#[trigger] v[j].0),
            lv == lines(text@),
            lv.len() > 0,
            parse_lines(lv.drop_last()) == Ok::<_, ParseError>(v),
            out_numbers(tokens(lv.last())) == Some(outputs@),
        decreases luts@.len() - k,
    {
        if !luts[k].check_fits() {
            assert(!fields_fit(v[k as int].0));
            return Err(NetlistError::TooLarge);
        }
        k = k + 1;
    }
    let ghost cs = Seq::new(v.len(), |j: int| sop_of(v[j].0));
    let ghost bs = Seq::new(v.len(), |j: int| v[j].1);
    let mut circuits: Vec<Circuit> = Vec::new();
    let mut k: usize = 0;
    while k < luts.len()
        invariant
            k <= luts@.len() == v.len(),
            v == lines_view(luts@, binds@),
            cs == Seq::new(v.len(), |j: int| sop_of(v[j].0)),
            forall|j: int| 0 <= j < luts@.len() ==> (#[trigger] luts@[j]).wf(),
            forall|j: int| 0 <= j < luts@.len() ==> fields_fit(#[trigger] v[j].0),
            circuit_views(circuits@) == cs.take(k as int),
        decreases luts@.len() - k,
    {
        assert(fields_fit(v[k as int].0));
        assert(v[k as int].0 == (luts@[k as int].id, luts@[k as int].width, luts@[k as int].table@));
        let c = luts[k].to_circuit();
        assert(c@ == cs[k as int]);
        let ghost before = circuit_views(circuits@);
        let ghost cview = c@;
        circuits.push(c);
        assert(circuit_views(circuits@) =~= before.push(cview));
        k = k + 1;
        assert(circuit_views(circuits@) =~= cs.take(k as int));
    }
    assert(cs.take(v.len() as int) =~= cs);
    assert(binding_views(binds@) =~= bs);
    let mut prims: Vec<usize> = Vec::new();
    let mut k: usize = 0;
    while k < binds.len()
        invariant
            k <= binds@.len() == v.len(),
            v == lines_view(luts@, binds@),
            prims@ == primaries_of(v, k as int),
        decreases binds@.len() - k,
    {
        collect_primary_inputs(&mut prims, &binds[k]);
        k = k + 1;
    }
    match unify(&circuits, &binds, &prims) {
        Ok(c) => Ok(Netlist { circuit: c, outputs }),
        Err(e) => Err(NetlistError::Unify(e)),
    }
}

} // verus!
