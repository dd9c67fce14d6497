//! Dependency tokens: what drives each input of a circuit.

use vstd::prelude::*;
use crate::text::{ParseError, number, tokens, chars_of, split_tokens, parse_number};

verus! {

/// What drives one input of a circuit.
#[derive(Clone, Copy, PartialEq, Eq, Structural, Debug)]
pub enum Binding {
    /// The primary input with this id.
    PrimaryInput(usize),
    /// The output of the circuit with this id.
    CircuitOutput(usize),
}

impl Binding {
    /// The global wire that carries the bound value.
    pub open spec fn wire(self) -> usize {
        match self {
            Binding::PrimaryInput(p) => p,
            Binding::CircuitOutput(c) => c,
        }
    }

    /// The global wire that carries the bound value.
    pub fn wire_id(&self) -> (r: usize)
        ensures
            r == self.wire(),
    {
        match self {
            Binding::PrimaryInput(p) => *p,
            Binding::CircuitOutput(c) => *c,
        }
    }
}

/// A reference token: a marker character followed by a decimal id. The
/// marker `I` names a primary input; any other names a circuit's output.
pub open spec fn binding_of(t: Seq<char>) -> Option<Binding> {
    if t.len() >= 2 && number(t.skip(1)) is Some {
        if t[0] == 'I' {
            Some(Binding::PrimaryInput(number(t.skip(1))->0))
        } else {
            Some(Binding::CircuitOutput(number(t.skip(1))->0))
        }
    } else {
        None
    }
}

/// Reads one reference token.
pub fn parse_binding(t: &Vec<char>) -> (r: Option<Binding>)
    ensures
        r == binding_of(t@),
{
    if t.len() < 2 {
        return None;
    }
    let mut rest: Vec<char> = Vec::new();
    let mut i: usize = 1;
    while i < t.len()
        invariant
            1 <= i <= t@.len(),
            rest@ == t@.subrange(1, i as int),
        decreases t@.len() - i,
    {
        rest.push(t[i]);
        i = i + 1;
        assert(rest@ =~= t@.subrange(1, i as int));
    }
    assert(rest@ =~= t@.skip(1));
    match parse_number(&rest) {
        Some(v) => {
            if t[0] == 'I' {
                Some(Binding::PrimaryInput(v))
            } else {
                Some(Binding::CircuitOutput(v))
            }
        },
        None => None,
    }
}

/// Whether every token is a reference.
pub open spec fn all_bind(toks: Seq<Seq<char>>) -> bool {
    forall|k: int| 0 <= k < toks.len() ==> (#[trigger] binding_of(toks[k])) is Some
}

/// The bindings that the tokens name, in order.
pub open spec fn bindings_of(toks: Seq<Seq<char>>) -> Seq<Binding> {
    Seq::new(toks.len(), |k: int| binding_of(toks[k])->0)
}

/// Reads the whitespace-separated reference tokens of `s`, one binding per
/// circuit input, in input order.
pub fn parse_deps(s: &str) -> (r: Result<Vec<Binding>, ParseError>)
    ensures
        r is Ok <==> all_bind(tokens(s@)),
        r is Ok ==> r->Ok_0@ == bindings_of(tokens(s@)),
        r is Err ==> r->Err_0 == ParseError::BadReference,
{
    let chars = chars_of(s);
    parse_dep_chars(&chars)
}

/// Reads the reference tokens of `s`, given as characters.
pub fn parse_dep_chars(s: &Vec<char>) -> (r: Result<Vec<Binding>, ParseError>)
    ensures
        r is Ok <==> all_bind(tokens(s@)),
        r is Ok ==> r->Ok_0@ == bindings_of(tokens(s@)),
        r is Err ==> r->Err_0 == ParseError::BadReference,
{
    let toks = split_tokens(s);
    let ghost tv = tokens(s@);
    assert(forall|k: int| 0 <= k < toks@.len() ==> #[trigger] toks@[k]@ == tv[k]);
    let mut out: Vec<Binding> = Vec::new();
    let mut k: usize = 0;
    while k < toks.len()
        invariant
            k <= toks@.len(),
            tv == tokens(s@),
            toks@.len() == tv.len(),
            forall|j: int| 0 <= j < toks@.len() ==> #[trigger] toks@[j]@ == tv[j],
            forall|j: int| 0 <= j < k ==> (#[trigger] binding_of(tv[j])) is Some,
            out@ == Seq::new(k as nat, |j: int| binding_of(tv[j])->0),
        decreases toks@.len() - k,
    {
        assert(toks@[k as int]@ == tv[k as int]);
        match parse_binding(&toks[k]) {
            Some(b) => { out.push(b); },
            None => { return Err(ParseError::BadReference); },
        }
        k = k + 1;
        assert(out@ =~= Seq::new(k as nat, |j: int| binding_of(tv[j])->0));
    }
    Ok(out)
}

/// `acc` followed by the primary inputs named in `bs` that are not yet in it,
/// each once, in order of first mention.
pub open spec fn add_primaries(acc: Seq<usize>, bs: Seq<Binding>) -> Seq<usize>
    decreases bs.len(),
{
    if bs.len() == 0 {
        acc
    } else {
        let a = add_primaries(acc, bs.drop_last());
        match bs.last() {
            Binding::PrimaryInput(p) => if a.contains(p) { a } else { a.push(p) },
            Binding::CircuitOutput(_) => a,
        }
    }
}

/// Adds to `prims` the primary inputs of `bs` that it does not hold yet.
pub fn collect_primary_inputs(prims: &mut Vec<usize>, bs: &Vec<Binding>)
    ensures
        final(prims)@ == add_primaries(old(prims)@, bs@),
        old(prims)@.no_duplicates() ==> final(prims)@.no_duplicates(),
{
    let ghost prims0 = prims@;
    let mut k: usize = 0;
    while k < bs.len()
        invariant
            k <= bs@.len(),
            prims@ == add_primaries(prims0, bs@.take(k as int)),
            prims0.no_duplicates() ==> prims@.no_duplicates(),
        decreases bs@.len() - k,
    {
        assert(bs@.take(k + 1).drop_last() =~= bs@.take(k as int));
        match bs[k] {
            Binding::PrimaryInput(p) => {
                let mut found = false;
                let mut j: usize = 0;
                while j < prims.len()
                    invariant
                        j <= prims@.len(),
                        found <==> exists|m: int| 0 <= m < j && prims@[m] == p,
                    decreases prims@.len() - j,
                {
                    if prims[j] == p {
                        found = true;
                    }
                    j = j + 1;
                }
                if !found {
                    prims.push(p);
                } else {
                    assert(prims@.contains(p));
                }
            },
            Binding::CircuitOutput(_) => {},
        }
        k = k + 1;
    }
    assert(bs@.take(bs@.len() as int) =~= bs@);
}

} // verus!
