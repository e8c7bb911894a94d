//! Per-cell escaping: the only bytes with meaning are LF and backslash.
use vstd::prelude::*;

verus! {

/// Line feed: separates cells, and a doubled one ends a row.
pub const LF: u8 = 0x0a;

/// Backslash: leads an escape pair.
pub const BS: u8 = 0x5c;

/// The letter `n`, which after a backslash stands for LF.
pub const LETTER_N: u8 = 0x6e;

/// The escaped form of one byte.
pub open spec fn escape_byte(b: u8) -> Seq<u8> {
    if b == BS {
        seq![BS, BS]
    } else if b == LF {
        seq![BS, LETTER_N]
    } else {
        seq![b]
    }
}

/// Each byte replaced by its escaped form.
pub open spec fn escape_body(s: Seq<u8>) -> Seq<u8>
    decreases s.len(),
{
    if s.len() == 0 {
        seq![]
    } else {
        escape_byte(s[0]) + escape_body(s.drop_first())
    }
}

/// The escaped cell: a lone backslash for the empty cell, else each byte escaped.
pub open spec fn escape_spec(s: Seq<u8>) -> Seq<u8> {
    if s.len() == 0 {
        seq![BS]
    } else {
        escape_body(s)
    }
}

/// The unescaped cell, read left to right: `\n` is LF, `\\` is a backslash,
/// a backslash before any other byte stays with that byte, and a backslash
/// at the very end is dropped.
pub open spec fn unescape_spec(s: Seq<u8>) -> Seq<u8>
    decreases s.len(),
{
    if s.len() == 0 {
        seq![]
    } else if s[0] != BS {
        seq![s[0]] + unescape_spec(s.drop_first())
    } else if s.len() == 1 {
        seq![]
    } else if s[1] == LETTER_N {
        seq![LF] + unescape_spec(s.subrange(2, s.len() as int))
    } else if s[1] == BS {
        seq![BS] + unescape_spec(s.subrange(2, s.len() as int))
    } else {
        seq![BS, s[1]] + unescape_spec(s.subrange(2, s.len() as int))
    }
}

pub open spec fn has_byte(s: Seq<u8>, b: u8) -> bool {
    exists|i: int| 0 <= i < s.len() && s[i] == b
}

/// Without a backslash, unescaping changes nothing.
pub proof fn lemma_unescape_plain(s: Seq<u8>)
    requires
        !has_byte(s, BS),
    ensures
        unescape_spec(s) == s,
    decreases s.len(),
{
    if s.len() > 0 {
        assert(s[0] != BS);
        let t = s.drop_first();
        assert(!has_byte(t, BS)) by {
            if has_byte(t, BS) {
                let i = choose|i: int| 0 <= i < t.len() && t[i] == BS;
                assert(s[i + 1] == BS);
            }
        }
        lemma_unescape_plain(t);
        assert(s =~= seq![s[0]] + t);
    }
}

/// Without LF or backslash, escaping the body changes nothing.
pub proof fn lemma_escape_plain(s: Seq<u8>)
    requires
        !has_byte(s, BS),
        !has_byte(s, LF),
    ensures
        escape_body(s) == s,
    decreases s.len(),
{
    if s.len() > 0 {
        assert(s[0] != BS && s[0] != LF);
        let t = s.drop_first();
        assert(!has_byte(t, BS) && !has_byte(t, LF)) by {
            if has_byte(t, BS) {
                let i = choose|i: int| 0 <= i < t.len() && t[i] == BS;
                assert(s[i + 1] == BS);
            }
            if has_byte(t, LF) {
                let i = choose|i: int| 0 <= i < t.len() && t[i] == LF;
                assert(s[i + 1] == LF);
            }
        }
        lemma_escape_plain(t);
        assert(s =~= seq![s[0]] + t);
    }
}

/// Escaping distributes over concatenation.
pub proof fn lemma_escape_body_concat(a: Seq<u8>, b: Seq<u8>)
    ensures
        escape_body(a + b) == escape_body(a) + escape_body(b),
    decreases a.len(),
{
    if a.len() == 0 {
        assert(a + b =~= b);
    } else {
        assert((a + b).drop_first() =~= a.drop_first() + b);
        lemma_escape_body_concat(a.drop_first(), b);
        assert(escape_body(a + b) =~= escape_body(a) + escape_body(b));
    }
}

/// The escaped body holds no LF, and it is empty only for the empty input.
pub proof fn lemma_escape_body_no_lf(s: Seq<u8>)
    ensures
        !has_byte(escape_body(s), LF),
        escape_body(s).len() >= s.len(),
    decreases s.len(),
{
    if s.len() > 0 {
        lemma_escape_body_no_lf(s.drop_first());
        let e = escape_body(s);
        let h = escape_byte(s[0]);
        let r = escape_body(s.drop_first());
        assert(e == h + r);
        if has_byte(e, LF) {
            let i = choose|i: int| 0 <= i < e.len() && e[i] == LF;
            if i < h.len() {
                assert(h[i] == LF);
            } else {
                assert(r[i - h.len()] == LF);
            }
        }
    }
}

/// The escaped cell is never empty and holds no LF.
pub proof fn lemma_escape_no_lf(s: Seq<u8>)
    ensures
        !has_byte(escape_spec(s), LF),
        escape_spec(s).len() > 0,
{
    lemma_escape_body_no_lf(s);
    if s.len() == 0 {
        if has_byte(seq![BS], LF) {
            let i = choose|i: int| 0 <= i < 1 && seq![BS][i] == LF;
        }
    }
}

/// Unescaping undoes escaping of the body, for every byte string.
pub proof fn lemma_unescape_escape_body(x: Seq<u8>)
    ensures
        unescape_spec(escape_body(x)) == x,
    decreases x.len(),
{
    if x.len() > 0 {
        let t = x.drop_first();
        lemma_unescape_escape_body(t);
        let r = escape_body(t);
        let e = escape_body(x);
        assert(e == escape_byte(x[0]) + r);
        if x[0] == BS {
            assert(e.subrange(2, e.len() as int) =~= r);
        } else if x[0] == LF {
            assert(e.subrange(2, e.len() as int) =~= r);
        } else {
            assert(e.drop_first() =~= r);
        }
        assert(x =~= seq![x[0]] + t);
    }
}

/// Escape laws: the empty cell and the lone backslash correspond, text
/// without a backslash unescapes to itself, and unescaping undoes escaping.
pub proof fn lemma_escape_laws(s: Seq<u8>, x: Seq<u8>)
    ensures
        unescape_spec(seq![BS]) == Seq::<u8>::empty(),
        escape_spec(Seq::<u8>::empty()) == seq![BS],
        !has_byte(s, BS) ==> unescape_spec(s) == s,
        unescape_spec(escape_spec(x)) == x,
{
    assert(unescape_spec(seq![BS]) =~= Seq::<u8>::empty());
    if !has_byte(s, BS) {
        lemma_unescape_plain(s);
    }
    lemma_unescape_escape_body(x);
}

fn contains_byte(s: &[u8], b: u8) -> (r: bool)
    ensures
        r == has_byte(s@, b),
{
    let mut i: usize = 0;
    while i < s.len()
        invariant
            i <= s@.len(),
            forall|j: int| 0 <= j < i ==> s@[j] != b,
        decreases s@.len() - i,
    {
        if s[i] == b {
            return true;
        }
        i = i + 1;
    }
    false
}

/// Appends the escaped form of `s` (without the empty-cell marker) to `out`.
pub fn escape_body_into(s: &[u8], out: &mut Vec<u8>)
    ensures
        final(out)@ == old(out)@ + escape_body(s@),
{
    let ghost start = out@;
    let mut i: usize = 0;
    assert(s@.subrange(0, s@.len() as int) =~= s@);
    while i < s.len()
        invariant
            i <= s@.len(),
            start + escape_body(s@) == out@ + escape_body(s@.subrange(i as int, s@.len() as int)),
        decreases s@.len() - i,
    {
        let ghost rest = s@.subrange(i as int, s@.len() as int);
        assert(rest.drop_first() =~= s@.subrange(i + 1, s@.len() as int));
        let b = s[i];
        let ghost before = out@;
        if b == BS {
            out.push(BS);
            out.push(BS);
        } else if b == LF {
            out.push(BS);
            out.push(LETTER_N);
        } else {
            out.push(b);
        }
        proof {
            let next = s@.subrange(i + 1, s@.len() as int);
            assert(escape_body(rest) == escape_byte(b) + escape_body(next));
            assert(out@ + escape_body(next) =~= before + escape_body(rest)) by {
                assert(out@ =~= before + escape_byte(b));
            }
        }
        i = i + 1;
    }
    assert(s@.subrange(s@.len() as int, s@.len() as int) =~= Seq::<u8>::empty());
    assert(out@ + Seq::<u8>::empty() =~= out@);
}

/// Appends the escaped form of one cell to `out`.
pub fn escape_into(s: &[u8], out: &mut Vec<u8>)
    ensures
        final(out)@ == old(out)@ + escape_spec(s@),
{
    if s.len() == 0 {
        out.push(BS);
    } else {
        escape_body_into(s, out);
    }
}

/// Escapes one cell.
pub fn escape_bytes(s: &[u8]) -> (r: Vec<u8>)
    ensures
        r@ == escape_spec(s@),
{
    if s.len() == 0 {
        let mut r = Vec::new();
        r.push(BS);
        assert(r@ =~= seq![BS]);
        return r;
    }
    if !contains_byte(s, LF) && !contains_byte(s, BS) {
        proof {
            lemma_escape_plain(s@);
        }
        return vstd::slice::slice_to_vec(s);
    }
    let mut r = Vec::new();
    escape_body_into(s, &mut r);
    assert(r@ =~= escape_body(s@));
    r
}

/// Unescapes one cell.
pub fn unescape_bytes(s: &[u8]) -> (r: Vec<u8>)
    ensures
        r@ == unescape_spec(s@),
{
    if s.len() == 1 && s[0] == BS {
        let r = Vec::new();
        assert(r@ =~= unescape_spec(s@));
        return r;
    }
    if !contains_byte(s, BS) {
        proof {
            lemma_unescape_plain(s@);
        }
        return vstd::slice::slice_to_vec(s);
    }
    let mut out: Vec<u8> = Vec::new();
    let mut escaped = false;
    let mut i: usize = 0;
    assert(s@.subrange(0, s@.len() as int) =~= s@);
    assert(out@ + unescape_spec(s@) =~= unescape_spec(s@));
    while i < s.len()
        invariant
            i <= s@.len(),
            unescape_spec(s@) == out@ + unescape_spec(
                if escaped {
                    seq![BS] + s@.subrange(i as int, s@.len() as int)
                } else {
                    s@.subrange(i as int, s@.len() as int)
                },
            ),
        decreases s@.len() - i,
    {
        let ghost rest = s@.subrange(i as int, s@.len() as int);
        let ghost next = s@.subrange(i + 1, s@.len() as int);
        assert(rest.drop_first() =~= next);
        let c = s[i];
        let ghost before = out@;
        if escaped {
            let ghost w = seq![BS] + rest;
            assert(w.subrange(2, w.len() as int) =~= next);
            assert(w[1] == c);
            if c == LETTER_N {
                out.push(LF);
            } else if c == BS {
                out.push(BS);
            } else {
                out.push(BS);
                out.push(c);
            }
            escaped = false;
            proof {
                assert(out@ + unescape_spec(next) =~= before + unescape_spec(w)) by {
                    if c == LETTER_N {
                        assert(out@ =~= before + seq![LF]);
                    } else if c == BS {
                        assert(out@ =~= before + seq![BS]);
                    } else {
                        assert(out@ =~= before + seq![BS, c]);
                    }
                }
            }
        } else if c == BS {
            escaped = true;
            assert(seq![BS] + next =~= rest);
        } else {
            out.push(c);
            assert(out@ + unescape_spec(next) =~= before + unescape_spec(rest)) by {
                assert(out@ =~= before + seq![c]);
            }
        }
        i = i + 1;
    }
    proof {
        let empty = s@.subrange(s@.len() as int, s@.len() as int);
        assert(empty =~= Seq::<u8>::empty());
        if escaped {
            assert(seq![BS] + empty =~= seq![BS]);
        }
        assert(out@ + Seq::<u8>::empty() =~= out@);
    }
    out
}

} // verus!
