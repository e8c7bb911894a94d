//! The validator: one scan over the raw bytes that reports structural
//! anomalies. It reads and never changes its input, so decoding is the same
//! with or without it, and decoding accepts every input it flags.
use vstd::prelude::*;
use crate::escape::{BS, LETTER_N, LF};

verus! {

/// What kind of anomaly a warning reports.
#[derive(Clone, Copy, Debug, PartialEq, Eq, Structural)]
pub enum WarningKind {
    /// A backslash followed by this byte, which is neither `n` nor a backslash.
    UnknownEscape(u8),
    /// A backslash that ends a line or the input, other than a lone
    /// backslash that makes up a whole line (the empty-cell marker).
    DanglingBackslash,
    /// Non-empty input whose last byte is not LF.
    NoTerminalLf,
}

/// One anomaly: its kind, its byte offset, and its 1-based line and column.
#[derive(Clone, Copy, Debug, PartialEq, Eq, Structural)]
pub struct Warning {
    pub kind: WarningKind,
    pub pos: usize,
    pub line: usize,
    pub col: usize,
}

/// The offset where the line holding offset `p` starts.
pub open spec fn line_start(b: Seq<u8>, p: int) -> int
    decreases p,
{
    if p <= 0 {
        0
    } else if b[p - 1] == LF {
        p
    } else {
        line_start(b, p - 1)
    }
}

/// The 1-based line of offset `p`: one more than the LF bytes before it.
pub open spec fn line_of(b: Seq<u8>, p: int) -> int
    decreases p,
{
    if p <= 0 {
        1
    } else if b[p - 1] == LF {
        line_of(b, p - 1) + 1
    } else {
        line_of(b, p - 1)
    }
}

/// `x` as a `usize`, held at `usize::MAX` above it.
pub open spec fn saturated(x: int) -> usize {
    if x > usize::MAX {
        usize::MAX
    } else {
        x as usize
    }
}

/// The warning of kind `kind` at offset `p`. The column is held at
/// `usize::MAX`, which only a buffer of `usize::MAX` bytes could pass.
pub open spec fn warning_at(b: Seq<u8>, kind: WarningKind, p: int) -> Warning {
    Warning {
        kind: kind,
        pos: p as usize,
        line: line_of(b, p) as usize,
        col: saturated(p - line_start(b, p) + 1),
    }
}

/// The warnings from offset `i` on.
pub open spec fn check_from(b: Seq<u8>, i: int) -> Seq<Warning>
    decreases b.len() - i,
{
    if i < 0 || i >= b.len() {
        if b.len() > 0 && b.last() != LF {
            seq![warning_at(b, WarningKind::NoTerminalLf, b.len() as int)]
        } else {
            seq![]
        }
    } else if b[i] != BS {
        check_from(b, i + 1)
    } else if i + 1 == b.len() || b[i + 1] == LF {
        if i == line_start(b, i) {
            check_from(b, i + 1)
        } else {
            seq![warning_at(b, WarningKind::DanglingBackslash, i)] + check_from(b, i + 1)
        }
    } else if b[i + 1] == LETTER_N || b[i + 1] == BS {
        check_from(b, i + 2)
    } else {
        seq![warning_at(b, WarningKind::UnknownEscape(b[i + 1]), i)] + check_from(b, i + 2)
    }
}

/// The warnings of a whole buffer, in order of offset.
pub open spec fn check_spec(b: Seq<u8>) -> Seq<Warning> {
    check_from(b, 0)
}

proof fn lemma_line_bounds(b: Seq<u8>, p: int)
    requires
        0 <= p <= b.len(),
    ensures
        0 <= line_start(b, p) <= p,
        1 <= line_of(b, p) <= p + 1,
        p > 0 && b[p - 1] != LF ==> line_of(b, p) <= p && line_start(b, p) < p,
        line_start(b, p) == 0 || b[line_start(b, p) - 1] == LF,
    decreases p,
{
    if p > 0 {
        lemma_line_bounds(b, p - 1);
    }
}

/// Lists the structural anomalies of `input`, each with its byte offset and
/// its 1-based line and column.
pub fn check(input: &[u8]) -> (r: Vec<Warning>)
    ensures
        r@ == check_spec(input@),
{
    let ghost b = input@;
    let n = input.len();
    let mut out: Vec<Warning> = Vec::new();
    let mut i: usize = 0;
    let mut breaks: usize = 0;
    let mut start: usize = 0;
    assert(out@ + check_from(b, 0) =~= check_from(b, 0));
    while i < n
        invariant
            b == input@,
            n == b.len(),
            i <= n,
            start == line_start(b, i as int),
            breaks + 1 == line_of(b, i as int),
            out@ + check_from(b, i as int) == check_spec(b),
        decreases n - i,
    {
        proof {
            lemma_line_bounds(b, i as int);
        }
        if input[i] == BS {
            if i + 1 == n || input[i + 1] == LF {
                let ghost before = out@;
                if i != start {
                    out.push(
                        Warning {
                            kind: WarningKind::DanglingBackslash,
                            pos: i,
                            line: breaks + 1,
                            col: i - start + 1,
                        },
                    );
                }
                proof {
                    let w = seq![warning_at(b, WarningKind::DanglingBackslash, i as int)];
                    if i != start {
                        assert(out@ == before + w);
                        assert(out@ + check_from(b, i + 1) =~= before + (w + check_from(b, i + 1)));
                    }
                }
                i = i + 1;
            } else {
                let next = input[i + 1];
                if next != LETTER_N && next != BS {
                    let ghost before = out@;
                    out.push(
                        Warning {
                            kind: WarningKind::UnknownEscape(next),
                            pos: i,
                            line: breaks + 1,
                            col: i - start + 1,
                        },
                    );
                    proof {
                        let w = seq![warning_at(b, WarningKind::UnknownEscape(next), i as int)];
                        assert(out@ == before + w);
                        assert(out@ + check_from(b, i + 2) =~= before + (w + check_from(b, i + 2)));
                    }
                }
                proof {
                    assert(line_start(b, i + 1) == line_start(b, i as int));
                    assert(line_of(b, i + 1) == line_of(b, i as int));
                    assert(line_of(b, i + 2) == line_of(b, i + 1));
                }
                i = i + 2;
            }
        } else {
            if input[i] == LF {
                breaks = breaks + 1;
                start = i + 1;
            }
            i = i + 1;
        }
    }
    proof {
        lemma_line_bounds(b, n as int);
    }
    if n > 0 && input[n - 1] != LF {
        assert(start < n) by {
            assert(b[n - 1] != LF);
        }
        out.push(
            Warning {
                kind: WarningKind::NoTerminalLf,
                pos: n,
                line: breaks + 1,
                col: (n - start).saturating_add(1),
            },
        );
    }
    assert(out@ =~= check_spec(b));
    out
}

} // verus!
