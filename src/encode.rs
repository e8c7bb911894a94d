//! The encoder: each cell escaped and followed by LF, each row followed by one more LF.
use vstd::prelude::*;
use crate::decode::{
    decode_spec, initial_state, lemma_scan_concat, scan, scan_from, step, structure_spec,
    unescape_doc, unescape_row, ScanState,
};
use crate::escape::{escape_into, escape_spec, has_byte, lemma_escape_laws, lemma_escape_no_lf, unescape_spec, LF};

verus! {

/// The encoded cells of a row, each followed by LF.
pub open spec fn encode_cells(row: Seq<Seq<u8>>) -> Seq<u8>
    decreases row.len(),
{
    if row.len() == 0 {
        seq![]
    } else {
        encode_cells(row.drop_last()) + escape_spec(row.last()) + seq![LF]
    }
}

/// An encoded row: its cells, then the terminating LF.
pub open spec fn encode_row(row: Seq<Seq<u8>>) -> Seq<u8> {
    encode_cells(row) + seq![LF]
}

/// The encoded document: its rows one after another.
pub open spec fn encode_spec(doc: Seq<Seq<Seq<u8>>>) -> Seq<u8>
    decreases doc.len(),
{
    if doc.len() == 0 {
        seq![]
    } else {
        encode_spec(doc.drop_last()) + encode_row(doc.last())
    }
}

/// Every cell of a row escaped.
pub open spec fn escape_row(row: Seq<Seq<u8>>) -> Seq<Seq<u8>> {
    Seq::new(row.len(), |j: int| escape_spec(row[j]))
}

/// Every cell of a document escaped.
pub open spec fn escape_doc(doc: Seq<Seq<Seq<u8>>>) -> Seq<Seq<Seq<u8>>> {
    Seq::new(doc.len(), |i: int| escape_row(doc[i]))
}

/// Bytes without LF only extend the pending cell.
proof fn lemma_scan_no_lf(st: ScanState, x: Seq<u8>)
    requires
        !has_byte(x, LF),
    ensures
        scan_from(st, x) == (ScanState { rows: st.rows, row: st.row, cur: st.cur + x }),
    decreases x.len(),
{
    if x.len() == 0 {
        assert(st.cur + x =~= st.cur);
    } else {
        let y = x.drop_last();
        assert(!has_byte(y, LF)) by {
            if has_byte(y, LF) {
                let i = choose|i: int| 0 <= i < y.len() && y[i] == LF;
                assert(x[i] == LF);
            }
        }
        assert(x.last() != LF) by {
            assert(x[x.len() - 1] == x.last());
        }
        lemma_scan_no_lf(st, y);
        assert(st.cur + y.push(x.last()) =~= (st.cur + y).push(x.last()));
        assert(y.push(x.last()) =~= x);
    }
}

proof fn lemma_scan_single_lf(st: ScanState)
    ensures
        scan_from(st, seq![LF]) == step(st, LF),
{
    assert(seq![LF].drop_last() =~= Seq::<u8>::empty());
    assert(seq![LF].last() == LF);
    assert(scan_from(st, Seq::<u8>::empty()) == st);
    assert(scan_from(st, seq![LF]) == step(scan_from(st, seq![LF].drop_last()), LF));
}

/// Scanning the encoded cells of a row adds exactly those cells, escaped, to the row.
proof fn lemma_scan_cells(rows: Seq<Seq<Seq<u8>>>, row0: Seq<Seq<u8>>, row: Seq<Seq<u8>>)
    ensures
        scan_from(ScanState { rows: rows, row: row0, cur: seq![] }, encode_cells(row)) == (
        ScanState { rows: rows, row: row0 + escape_row(row), cur: seq![] }),
    decreases row.len(),
{
    let st = ScanState { rows: rows, row: row0, cur: seq![] };
    if row.len() == 0 {
        assert(row0 + escape_row(row) =~= row0);
    } else {
        let r1 = row.drop_last();
        let c = row.last();
        lemma_scan_cells(rows, row0, r1);
        let e = escape_spec(c);
        lemma_scan_concat(st, encode_cells(r1) + e, seq![LF]);
        lemma_scan_concat(st, encode_cells(r1), e);
        let mid = ScanState { rows: rows, row: row0 + escape_row(r1), cur: seq![] };
        lemma_escape_no_lf(c);
        lemma_scan_no_lf(mid, e);
        assert(Seq::<u8>::empty() + e =~= e);
        let after = ScanState { rows: rows, row: row0 + escape_row(r1), cur: e };
        assert(scan_from(st, encode_cells(r1) + e) == after);
        lemma_scan_single_lf(after);
        assert((row0 + escape_row(r1)).push(e) =~= row0 + escape_row(row));
        assert(encode_cells(row) == encode_cells(r1) + e + seq![LF]);
    }
}

/// Scanning an encoded document finishes exactly its rows, with escaped cells.
proof fn lemma_scan_encoded(doc: Seq<Seq<Seq<u8>>>)
    ensures
        scan(encode_spec(doc)) == (ScanState { rows: escape_doc(doc), row: seq![], cur: seq![] }),
    decreases doc.len(),
{
    if doc.len() == 0 {
        assert(initial_state() == (ScanState { rows: escape_doc(doc), row: seq![], cur: seq![] }))
            by {
            assert(escape_doc(doc) =~= Seq::<Seq<Seq<u8>>>::empty());
        }
    } else {
        let d1 = doc.drop_last();
        let last = doc.last();
        lemma_scan_encoded(d1);
        let s1 = ScanState { rows: escape_doc(d1), row: seq![], cur: seq![] };
        lemma_scan_concat(initial_state(), encode_spec(d1), encode_row(last));
        lemma_scan_concat(s1, encode_cells(last), seq![LF]);
        lemma_scan_cells(escape_doc(d1), seq![], last);
        assert(Seq::<Seq<u8>>::empty() + escape_row(last) =~= escape_row(last));
        let mid = ScanState { rows: escape_doc(d1), row: escape_row(last), cur: seq![] };
        assert(scan_from(s1, encode_cells(last)) == mid);
        lemma_scan_single_lf(mid);
        assert(escape_doc(d1).push(escape_row(last)) =~= escape_doc(doc));
        assert(encode_spec(doc) == encode_spec(d1) + encode_row(last));
    }
}

/// Round trip: decoding an encoded document gives that document back.
pub proof fn lemma_round_trip(doc: Seq<Seq<Seq<u8>>>)
    ensures
        decode_spec(encode_spec(doc)) == doc,
{
    lemma_scan_encoded(doc);
    let e = escape_doc(doc);
    assert(structure_spec(encode_spec(doc)) == e);
    assert forall|i: int| 0 <= i < doc.len() implies #[trigger] unescape_row(e[i]) == doc[i] by {
        assert forall|j: int| 0 <= j < doc[i].len() implies #[trigger] unescape_spec(e[i][j])
            == doc[i][j] by {
            lemma_escape_laws(doc[i][j], doc[i][j]);
        }
        assert(unescape_row(e[i]) =~= doc[i]);
    }
    assert(unescape_doc(e) =~= doc);
}

/// Encodes a document.
pub fn encode_bytes(data: &[Vec<Vec<u8>>]) -> (r: Vec<u8>)
    ensures
        r@ == encode_spec(data.deep_view()),
{
    let ghost doc = data.deep_view();
    let mut out: Vec<u8> = Vec::new();
    let mut i: usize = 0;
    assert(doc.subrange(0, 0) =~= Seq::<Seq<Seq<u8>>>::empty());
    while i < data.len()
        invariant
            i <= data@.len(),
            doc == data.deep_view(),
            out@ == encode_spec(doc.subrange(0, i as int)),
        decreases data@.len() - i,
    {
        let row = &data[i];
        let ghost rv = row.deep_view();
        assert(rv == doc[i as int]);
        let ghost base = out@;
        let mut j: usize = 0;
        assert(rv.subrange(0, 0) =~= Seq::<Seq<u8>>::empty());
        assert(base + Seq::<u8>::empty() =~= base);
        while j < row.len()
            invariant
                j <= row@.len(),
                rv == row.deep_view(),
                out@ == base + encode_cells(rv.subrange(0, j as int)),
            decreases row@.len() - j,
        {
            let cell = &row[j];
            assert(cell.deep_view() =~= cell@);
            assert(rv[j as int] == cell@);
            escape_into(cell.as_slice(), &mut out);
            out.push(LF);
            assert(rv.subrange(0, j + 1).drop_last() =~= rv.subrange(0, j as int));
            assert(out@ =~= base + encode_cells(rv.subrange(0, j + 1)));
            j = j + 1;
        }
        out.push(LF);
        assert(rv.subrange(0, row@.len() as int) =~= rv);
        assert(doc.subrange(0, i + 1).drop_last() =~= doc.subrange(0, i as int));
        assert(out@ =~= encode_spec(doc.subrange(0, i + 1)));
        i = i + 1;
    }
    assert(doc.subrange(0, data@.len() as int) =~= doc);
    out
}

} // verus!
