//! Whitespace-separated tokens and decimal numbers.

use vstd::prelude::*;

verus! {

/// Why a piece of input text was rejected.
#[derive(Clone, Copy, PartialEq, Eq, Structural, Debug)]
pub enum ParseError {
    /// A table line lacks its id or its row count.
    MissingField,
    /// An id or a row count is not a decimal number that fits in `usize`.
    BadNumber,
    /// An output bit is neither `0` nor `1`.
    BadBit,
    /// The number of output bits differs from the declared row count.
    BitCount,
    /// A dependency token is not a marker followed by a decimal number.
    BadReference,
    /// A table line has no `:` between its dependencies and its table.
    MissingDelimiter,
    /// The text has no final line of outputs.
    MissingOutputLine,
}

/// The characters that separate tokens.
pub open spec fn is_space(c: char) -> bool {
    c == ' ' || c == '\t' || c == '\n' || c == '\r'
}

/// Scanning `s` from the left: the tokens completed so far and the token in progress.
pub open spec fn scan(s: Seq<char>) -> (Seq<Seq<char>>, Seq<char>)
    decreases s.len(),
{
    if s.len() == 0 {
        (seq![], seq![])
    } else {
        let p = scan(s.drop_last());
        let c = s.last();
        if is_space(c) {
            if p.1.len() > 0 { (p.0.push(p.1), seq![]) } else { (p.0, seq![]) }
        } else {
            (p.0, p.1.push(c))
        }
    }
}

/// The maximal runs of non-space characters of `s`, in order.
pub open spec fn tokens(s: Seq<char>) -> Seq<Seq<char>> {
    let p = scan(s);
    if p.1.len() > 0 { p.0.push(p.1) } else { p.0 }
}

pub open spec fn char_views(v: Seq<Vec<char>>) -> Seq<Seq<char>> {
    v.map_values(|t: Vec<char>| t@)
}

/// The characters of `s`.
pub fn chars_of(s: &str) -> (r: Vec<char>)
    ensures
        r@ == s@,
{
    let len: usize = s.unicode_len();
    let mut r: Vec<char> = Vec::new();
    let mut i: usize = 0;
    while i < len
        invariant
            len == s@.len(),
            i <= len,
            r@ == s@.take(i as int),
        decreases len - i,
    {
        r.push(s.get_char(i));
        i = i + 1;
        assert(r@ =~= s@.take(i as int));
    }
    assert(r@ =~= s@);
    r
}

/// Splits `s` at whitespace.
pub fn split_tokens(s: &Vec<char>) -> (r: Vec<Vec<char>>)
    ensures
        char_views(r@) == tokens(s@),
{
    let mut toks: Vec<Vec<char>> = Vec::new();
    let mut cur: Vec<char> = Vec::new();
    let mut i: usize = 0;
    assert(s@.take(0) =~= Seq::<char>::empty());
    assert(char_views(toks@) =~= Seq::<Seq<char>>::empty());
    while i < s.len()
        invariant
            i <= s@.len(),
            (char_views(toks@), cur@) == scan(s@.take(i as int)),
        decreases s@.len() - i,
    {
        let c = s[i];
        assert(s@.take(i + 1).drop_last() =~= s@.take(i as int));
        if c == ' ' || c == '\t' || c == '\n' || c == '\r' {
            if cur.len() > 0 {
                let ghost before = char_views(toks@);
                let ghost piece = cur@;
                toks.push(cur);
                assert(char_views(toks@) =~= before.push(piece));
                cur = Vec::new();
            }
        } else {
            cur.push(c);
        }
        i = i + 1;
    }
    assert(s@.take(s@.len() as int) =~= s@);
    if cur.len() > 0 {
        let ghost before = char_views(toks@);
        let ghost piece = cur@;
        toks.push(cur);
        assert(char_views(toks@) =~= before.push(piece));
    }
    toks
}

pub open spec fn is_digit(c: char) -> bool {
    '0' <= c && c <= '9'
}

pub open spec fn digit_of(c: char) -> int {
    c as u32 as int - '0' as u32 as int
}

/// The decimal value of the digits `s`.
pub open spec fn digits_value(s: Seq<char>) -> int
    decreases s.len(),
{
    if s.len() == 0 { 0 } else { 10 * digits_value(s.drop_last()) + digit_of(s.last()) }
}

/// The number that `s` spells in decimal, when it is one and fits in `usize`.
pub open spec fn number(s: Seq<char>) -> Option<usize> {
    if s.len() > 0 && (forall|k: int| 0 <= k < s.len() ==> is_digit(#[trigger] s[k]))
        && digits_value(s) <= usize::MAX {
        Some(digits_value(s) as usize)
    } else {
        None
    }
}

proof fn lemma_digits_prefix(s: Seq<char>, k: int)
    requires
        0 <= k <= s.len(),
        forall|j: int| 0 <= j < s.len() ==> is_digit(#[trigger] s[j]),
    ensures
        0 <= digits_value(s.take(k)) <= digits_value(s),
    decreases s.len(),
{
    if k == s.len() {
        assert(s.take(k) =~= s);
        if s.len() > 0 {
            lemma_digits_prefix(s.drop_last(), k - 1);
        }
    } else {
        assert(s.drop_last().take(k) =~= s.take(k));
        lemma_digits_prefix(s.drop_last(), k);
        assert(is_digit(s[s.len() - 1]));
        lemma_digits_prefix(s.drop_last(), s.len() - 1);
        assert(s.drop_last().take(s.len() - 1) =~= s.drop_last());
    }
}

/// Reads a decimal number.
pub fn parse_number(tok: &Vec<char>) -> (r: Option<usize>)
    ensures
        r == number(tok@),
{
    if tok.len() == 0 {
        return None;
    }
    let mut v: usize = 0;
    let mut i: usize = 0;
    while i < tok.len()
        invariant
            i <= tok@.len(),
            tok@.len() > 0,
            v == digits_value(tok@.take(i as int)),
            forall|k: int| 0 <= k < i ==> is_digit(#[trigger] tok@[k]),
        decreases tok@.len() - i,
    {
        let c = tok[i];
        assert(tok@.take(i + 1).drop_last() =~= tok@.take(i as int));
        if !('0' <= c && c <= '9') {
            assert(!is_digit(tok@[i as int]));
            return None;
        }
        let d: usize = (c as u32 - '0' as u32) as usize;
        if v > (usize::MAX - d) / 10 {
            assert(v * 10 + d > usize::MAX) by (nonlinear_arith)
                requires v > (usize::MAX - d) / 10, d <= 9;
            proof {
                if forall|k: int| 0 <= k < tok@.len() ==> is_digit(#[trigger] tok@[k]) {
                    lemma_digits_prefix(tok@, i + 1);
                }
            }
            return None;
        }
        assert(v * 10 + d <= usize::MAX) by (nonlinear_arith)
            requires v <= (usize::MAX - d) / 10, d <= 9;
        v = v * 10 + d;
        i = i + 1;
    }
    assert(tok@.take(tok@.len() as int) =~= tok@);
    Some(v)
}

} // verus!
