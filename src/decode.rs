//! The structural scan and the sequential decoder.
//!
//! The scan reads the input left to right. It holds the rows finished so far,
//! the row being built, and the bytes seen since the last LF. On an LF, those
//! bytes become a cell of the current row; if there were none, the LF ends the
//! row instead. The scan keeps cells as they stand in the input; decoding
//! then unescapes each of them.
use vstd::prelude::*;
use crate::escape::{unescape_bytes, unescape_spec, LF};

verus! {

/// What the scan holds between two bytes.
pub struct ScanState {
    pub rows: Seq<Seq<Seq<u8>>>,
    pub row: Seq<Seq<u8>>,
    pub cur: Seq<u8>,
}

pub open spec fn initial_state() -> ScanState {
    ScanState { rows: seq![], row: seq![], cur: seq![] }
}

/// The scan's reaction to one byte.
pub open spec fn step(st: ScanState, b: u8) -> ScanState {
    if b == LF {
        if st.cur.len() > 0 {
            ScanState { rows: st.rows, row: st.row.push(st.cur), cur: seq![] }
        } else {
            ScanState { rows: st.rows.push(st.row), row: seq![], cur: seq![] }
        }
    } else {
        ScanState { rows: st.rows, row: st.row, cur: st.cur.push(b) }
    }
}

/// The scan from state `st` over `bytes`.
pub open spec fn scan_from(st: ScanState, bytes: Seq<u8>) -> ScanState
    decreases bytes.len(),
{
    if bytes.len() == 0 {
        st
    } else {
        step(scan_from(st, bytes.drop_last()), bytes.last())
    }
}

pub open spec fn scan(bytes: Seq<u8>) -> ScanState {
    scan_from(initial_state(), bytes)
}

/// At the end of input an unterminated cell still counts, and a row that
/// holds cells is kept without its terminating blank line.
pub open spec fn finish(st: ScanState) -> Seq<Seq<Seq<u8>>> {
    let row = if st.cur.len() > 0 {
        st.row.push(st.cur)
    } else {
        st.row
    };
    if row.len() > 0 {
        st.rows.push(row)
    } else {
        st.rows
    }
}

/// The rows and cells of a buffer, each cell still escaped.
pub open spec fn structure_spec(bytes: Seq<u8>) -> Seq<Seq<Seq<u8>>> {
    finish(scan(bytes))
}

/// Every cell of a row unescaped.
pub open spec fn unescape_row(row: Seq<Seq<u8>>) -> Seq<Seq<u8>> {
    Seq::new(row.len(), |j: int| unescape_spec(row[j]))
}

/// Every cell of a document unescaped.
pub open spec fn unescape_doc(doc: Seq<Seq<Seq<u8>>>) -> Seq<Seq<Seq<u8>>> {
    Seq::new(doc.len(), |i: int| unescape_row(doc[i]))
}

/// The document that a byte buffer decodes to.
pub open spec fn decode_spec(bytes: Seq<u8>) -> Seq<Seq<Seq<u8>>> {
    unescape_doc(structure_spec(bytes))
}

/// A position where the scan has just finished a row: the start of input, or
/// right after an LF that is itself at the start or after another LF.
pub open spec fn row_start(bytes: Seq<u8>, p: int) -> bool {
    ||| p == 0
    ||| (1 <= p <= bytes.len() && bytes[p - 1] == LF && (p == 1 || bytes[p - 2] == LF))
}

pub proof fn lemma_scan_concat(st: ScanState, a: Seq<u8>, b: Seq<u8>)
    ensures
        scan_from(st, a + b) == scan_from(scan_from(st, a), b),
    decreases b.len(),
{
    if b.len() == 0 {
        assert(a + b =~= a);
    } else {
        assert((a + b).drop_last() =~= a + b.drop_last());
        assert((a + b).last() == b.last());
        lemma_scan_concat(st, a, b.drop_last());
    }
}

/// Rows finished before a scan starts stay in front of those it finishes.
pub proof fn lemma_scan_after_rows(rows: Seq<Seq<Seq<u8>>>, bytes: Seq<u8>)
    ensures
        scan_from(ScanState { rows: rows, row: seq![], cur: seq![] }, bytes) == (ScanState {
            rows: rows + scan(bytes).rows,
            row: scan(bytes).row,
            cur: scan(bytes).cur,
        }),
    decreases bytes.len(),
{
    if bytes.len() == 0 {
        assert(rows + Seq::<Seq<Seq<u8>>>::empty() =~= rows);
    } else {
        lemma_scan_after_rows(rows, bytes.drop_last());
        let s0 = scan(bytes.drop_last());
        assert(rows + s0.rows.push(s0.row) =~= (rows + s0.rows).push(s0.row));
    }
}

proof fn lemma_row_start_state(bytes: Seq<u8>, p: int)
    requires
        0 <= p <= bytes.len(),
        row_start(bytes, p),
    ensures
        scan(bytes.subrange(0, p)).row.len() == 0,
        scan(bytes.subrange(0, p)).cur.len() == 0,
{
    if p > 0 {
        let pre = bytes.subrange(0, p);
        let pre1 = bytes.subrange(0, p - 1);
        assert(pre.drop_last() =~= pre1);
        assert(pre.last() == LF);
        if p >= 2 {
            assert(pre1.drop_last() =~= bytes.subrange(0, p - 2));
            assert(pre1.last() == LF);
            assert(scan(pre1).cur.len() == 0);
        } else {
            assert(pre1 =~= Seq::<u8>::empty());
        }
    }
}

/// The structure splits at every row start: the rows before it and the rows
/// after it are found independently of each other.
pub proof fn lemma_structure_split(bytes: Seq<u8>, p: int)
    requires
        0 <= p <= bytes.len(),
        row_start(bytes, p),
    ensures
        structure_spec(bytes) == structure_spec(bytes.subrange(0, p)) + structure_spec(
            bytes.subrange(p, bytes.len() as int),
        ),
{
    let a = bytes.subrange(0, p);
    let b = bytes.subrange(p, bytes.len() as int);
    assert(a + b =~= bytes);
    lemma_scan_concat(initial_state(), a, b);
    lemma_row_start_state(bytes, p);
    let sa = scan(a);
    assert(sa == ScanState { rows: sa.rows, row: seq![], cur: seq![] }) by {
        assert(sa.row =~= Seq::<Seq<u8>>::empty());
        assert(sa.cur =~= Seq::<u8>::empty());
    }
    lemma_scan_after_rows(sa.rows, b);
    let sb = scan(b);
    let row = if sb.cur.len() > 0 {
        sb.row.push(sb.cur)
    } else {
        sb.row
    };
    if row.len() > 0 {
        assert((sa.rows + sb.rows).push(row) =~= sa.rows + sb.rows.push(row));
    }
}

pub proof fn lemma_unescape_doc_concat(a: Seq<Seq<Seq<u8>>>, b: Seq<Seq<Seq<u8>>>)
    ensures
        unescape_doc(a + b) == unescape_doc(a) + unescape_doc(b),
{
    assert(unescape_doc(a + b) =~= unescape_doc(a) + unescape_doc(b));
}

/// Decoding splits at every row start: the rows before it and the rows after
/// it are decoded independently of each other.
pub proof fn lemma_decode_split(bytes: Seq<u8>, p: int)
    requires
        0 <= p <= bytes.len(),
        row_start(bytes, p),
    ensures
        decode_spec(bytes) == decode_spec(bytes.subrange(0, p)) + decode_spec(
            bytes.subrange(p, bytes.len() as int),
        ),
{
    lemma_structure_split(bytes, p);
    lemma_unescape_doc_concat(
        structure_spec(bytes.subrange(0, p)),
        structure_spec(bytes.subrange(p, bytes.len() as int)),
    );
}

/// Decodes `input[lo..hi]` in one pass.
pub fn decode_range(input: &[u8], lo: usize, hi: usize) -> (r: Vec<Vec<Vec<u8>>>)
    requires
        lo <= hi <= input@.len(),
    ensures
        r.deep_view() == decode_spec(input@.subrange(lo as int, hi as int)),
{
    let mut data: Vec<Vec<Vec<u8>>> = Vec::new();
    let mut row: Vec<Vec<u8>> = Vec::new();
    let mut start: usize = lo;
    let mut pos: usize = lo;
    assert(input@.subrange(lo as int, lo as int) =~= Seq::<u8>::empty());
    assert(data.deep_view() =~= unescape_doc(Seq::<Seq<Seq<u8>>>::empty()));
    assert(row.deep_view() =~= unescape_row(Seq::<Seq<u8>>::empty()));
    while pos < hi
        invariant
            lo <= start <= pos <= hi <= input@.len(),
            data.deep_view() == unescape_doc(scan(input@.subrange(lo as int, pos as int)).rows),
            row.deep_view() == unescape_row(scan(input@.subrange(lo as int, pos as int)).row),
            input@.subrange(start as int, pos as int) == scan(
                input@.subrange(lo as int, pos as int),
            ).cur,
        decreases hi - pos,
    {
        let ghost prev = scan(input@.subrange(lo as int, pos as int));
        assert(input@.subrange(lo as int, pos + 1).drop_last() =~= input@.subrange(
            lo as int,
            pos as int,
        ));
        let b = input[pos];
        if b == LF {
            if pos > start {
                let cell = unescape_bytes(vstd::slice::slice_subrange(input, start, pos));
                assert(cell.deep_view() =~= cell@);
                let ghost old_row = row.deep_view();
                row.push(cell);
                assert(row.deep_view() =~= old_row.push(unescape_spec(prev.cur)));
                assert(row.deep_view() =~= unescape_row(prev.row.push(prev.cur)));
            } else {
                let ghost old_data = data.deep_view();
                let ghost row_view = row.deep_view();
                data.push(row);
                row = Vec::new();
                assert(data.deep_view() =~= old_data.push(row_view));
                assert(data.deep_view() =~= unescape_doc(prev.rows.push(prev.row)));
                assert(row.deep_view() =~= unescape_row(Seq::<Seq<u8>>::empty()));
            }
            start = pos + 1;
            assert(input@.subrange(start as int, pos + 1) =~= Seq::<u8>::empty());
        } else {
            assert(input@.subrange(start as int, pos + 1) =~= prev.cur.push(b));
        }
        pos = pos + 1;
    }
    let ghost st = scan(input@.subrange(lo as int, hi as int));
    let ghost last_row = if st.cur.len() > 0 {
        st.row.push(st.cur)
    } else {
        st.row
    };
    if start < hi {
        let cell = unescape_bytes(vstd::slice::slice_subrange(input, start, hi));
        assert(cell.deep_view() =~= cell@);
        let ghost old_row = row.deep_view();
        row.push(cell);
        assert(row.deep_view() =~= old_row.push(unescape_spec(st.cur)));
    }
    assert(row.deep_view() =~= unescape_row(last_row));
    if row.len() > 0 {
        let ghost old_data = data.deep_view();
        let ghost row_view = row.deep_view();
        data.push(row);
        assert(data.deep_view() =~= old_data.push(row_view));
        assert(data.deep_view() =~= unescape_doc(st.rows.push(last_row)));
    }
    data
}

/// Decodes a whole buffer in one sequential pass.
pub fn decode_sequential(input: &[u8]) -> (r: Vec<Vec<Vec<u8>>>)
    ensures
        r.deep_view() == decode_spec(input@),
{
    assert(input@.subrange(0, input@.len() as int) =~= input@);
    decode_range(input, 0, input.len())
}

} // verus!
