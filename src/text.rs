//! The text interface: strings in, strings out, over the byte codec.
//!
//! The codec only ever splits at LF and only rewrites ASCII escape pairs, so
//! valid UTF-8 stays valid UTF-8 through every transform; the proofs below
//! show it, and each conversion back to text is then sure to succeed.
use vstd::prelude::*;
use vstd::utf8::{
    encode_utf8, encode_utf8_valid_utf8, is_char_boundary_iff_not_is_continuation_byte,
    is_leading_byte_width_1, partial_valid_utf8, partial_valid_utf8_extend_ascii_block,
    valid_utf8, valid_utf8_concat, valid_utf8_split,
};
use crate::decode::{decode_spec, scan, step, structure_spec};
use crate::encode::{encode_cells, encode_row, encode_spec};
use crate::escape::{
    escape_body, escape_byte, escape_bytes, escape_into, escape_spec, has_byte,
    lemma_escape_body_concat, lemma_escape_plain, lemma_unescape_plain, unescape_bytes,
    unescape_spec, BS, LETTER_N, LF,
};
use crate::parallel::decode_bytes;

verus! {

/// The UTF-8 bytes of each cell of a text document.
pub open spec fn utf8_doc(d: Seq<Vec<String>>) -> Seq<Seq<Seq<u8>>> {
    Seq::new(d.len(), |i: int| Seq::new(d[i]@.len(), |j: int| encode_utf8(d[i]@[j]@)))
}

pub open spec fn row_valid(row: Seq<Seq<u8>>) -> bool {
    forall|j: int| 0 <= j < row.len() ==> valid_utf8(#[trigger] row[j])
}

pub open spec fn doc_valid(doc: Seq<Seq<Seq<u8>>>) -> bool {
    forall|i: int| 0 <= i < doc.len() ==> row_valid(#[trigger] doc[i])
}

/// Relies on String::from_utf8: it succeeds exactly on valid UTF-8, and the
/// string then holds those bytes.
#[verifier::external_body]
fn string_from_utf8(bytes: Vec<u8>) -> (r: Option<String>)
    ensures
        r is Some <==> valid_utf8(bytes@),
        r matches Some(s) ==> encode_utf8(s@) == bytes@,
{
    String::from_utf8(bytes).ok()
}

proof fn lemma_ascii_valid(s: Seq<u8>)
    requires
        forall|i: int| 0 <= i < s.len() ==> s[i] < 0x80,
    ensures
        valid_utf8(s),
{
    assert(s.subrange(0, 0) =~= Seq::<u8>::empty());
    assert(partial_valid_utf8(s, 0));
    assert forall|i: int| 0 <= i < s.len() implies #[trigger] is_leading_byte_width_1(s[i]) by {}
    partial_valid_utf8_extend_ascii_block(s, 0, s.len() as int);
    assert(s.subrange(0, s.len() as int) =~= s);
}

/// Around an ASCII byte, valid UTF-8 splits into valid UTF-8.
proof fn lemma_valid_around_ascii(s: Seq<u8>, i: int)
    requires
        valid_utf8(s),
        0 <= i < s.len(),
        s[i] < 0x80,
    ensures
        valid_utf8(s.subrange(0, i)),
        valid_utf8(s.subrange(i + 1, s.len() as int)),
{
    is_char_boundary_iff_not_is_continuation_byte(s, i);
    valid_utf8_split(s, i);
    let t = s.subrange(i, s.len() as int);
    assert(t[0] == s[i]);
    assert(t.subrange(1, t.len() as int) =~= s.subrange(i + 1, s.len() as int));
}

/// A cell between two LF bytes (or the ends) of valid UTF-8 is valid UTF-8.
proof fn lemma_valid_span(s: Seq<u8>, a: int, k: int)
    requires
        valid_utf8(s),
        0 <= a <= k <= s.len(),
        a == 0 || s[a - 1] == LF,
        k == s.len() || s[k] == LF,
    ensures
        valid_utf8(s.subrange(a, k)),
{
    let c = if a == 0 {
        assert(s.subrange(0, s.len() as int) =~= s);
        s
    } else {
        lemma_valid_around_ascii(s, a - 1);
        s.subrange(a, s.len() as int)
    };
    assert(c =~= s.subrange(a, s.len() as int));
    if k == s.len() {
        assert(c =~= s.subrange(a, k));
    } else {
        assert(c[k - a] == LF);
        lemma_valid_around_ascii(c, k - a);
        assert(c.subrange(0, k - a) =~= s.subrange(a, k));
    }
}

spec fn first_index(s: Seq<u8>, b: u8) -> int
    decreases s.len(),
{
    if s.len() == 0 || s[0] == b {
        0
    } else {
        1 + first_index(s.drop_first(), b)
    }
}

proof fn lemma_first_index(s: Seq<u8>, b: u8)
    requires
        has_byte(s, b),
    ensures
        0 <= first_index(s, b) < s.len(),
        s[first_index(s, b)] == b,
        !has_byte(s.subrange(0, first_index(s, b)), b),
    decreases s.len(),
{
    if s[0] != b {
        let t = s.drop_first();
        assert(has_byte(t, b)) by {
            let i = choose|i: int| 0 <= i < s.len() && s[i] == b;
            assert(t[i - 1] == b);
        }
        lemma_first_index(t, b);
        let k = first_index(s, b);
        let pre = s.subrange(0, k);
        if has_byte(pre, b) {
            let i = choose|i: int| 0 <= i < pre.len() && pre[i] == b;
            if i > 0 {
                assert(t.subrange(0, k - 1)[i - 1] == b);
            }
        }
    } else {
        if has_byte(s.subrange(0, 0), b) {
            let i = choose|i: int| 0 <= i < 0 && s.subrange(0, 0)[i] == b;
        }
    }
}

/// Text without a backslash passes through unescaping unchanged.
proof fn lemma_unescape_prefix(a: Seq<u8>, b: Seq<u8>)
    requires
        !has_byte(a, BS),
    ensures
        unescape_spec(a + b) == a + unescape_spec(b),
    decreases a.len(),
{
    if a.len() == 0 {
        assert(a + b =~= b);
    } else {
        let t = a.drop_first();
        assert(a[0] != BS);
        assert(!has_byte(t, BS)) by {
            if has_byte(t, BS) {
                let i = choose|i: int| 0 <= i < t.len() && t[i] == BS;
                assert(a[i + 1] == BS);
            }
        }
        lemma_unescape_prefix(t, b);
        assert((a + b).drop_first() =~= t + b);
        assert((a + b)[0] == a[0]);
        assert(seq![a[0]] + (t + unescape_spec(b)) =~= a + unescape_spec(b));
    }
}

/// Unescaping keeps UTF-8 valid.
pub proof fn lemma_unescape_valid(s: Seq<u8>)
    requires
        valid_utf8(s),
    ensures
        valid_utf8(unescape_spec(s)),
    decreases s.len(),
{
    if !has_byte(s, BS) {
        lemma_unescape_plain(s);
    } else {
        lemma_first_index(s, BS);
        let k = first_index(s, BS);
        let a = s.subrange(0, k);
        let t = s.subrange(k, s.len() as int);
        assert(s =~= a + t);
        lemma_unescape_prefix(a, t);
        lemma_valid_around_ascii(s, k);
        assert(t[0] == BS);
        let rest1 = s.subrange(k + 1, s.len() as int);
        if t.len() == 1 {
            assert(unescape_spec(t) =~= Seq::<u8>::empty());
            assert(a + unescape_spec(t) =~= a);
        } else {
            let rest2 = s.subrange(k + 2, s.len() as int);
            assert(t.subrange(2, t.len() as int) =~= rest2);
            assert(t[1] == s[k + 1]);
            if t[1] == LETTER_N || t[1] == BS {
                lemma_valid_around_ascii(s, k + 1);
                lemma_unescape_valid(rest2);
                let head = if t[1] == LETTER_N {
                    seq![LF]
                } else {
                    seq![BS]
                };
                lemma_ascii_valid(head);
                valid_utf8_concat(head, unescape_spec(rest2));
                valid_utf8_concat(a, head + unescape_spec(rest2));
            } else {
                assert(rest1[0] == t[1]);
                assert(rest1.drop_first() =~= rest2);
                assert(unescape_spec(rest1) == seq![t[1]] + unescape_spec(rest2));
                assert(seq![BS, t[1]] + unescape_spec(rest2) =~= seq![BS] + unescape_spec(rest1));
                lemma_unescape_valid(rest1);
                lemma_ascii_valid(seq![BS]);
                valid_utf8_concat(seq![BS], unescape_spec(rest1));
                valid_utf8_concat(a, seq![BS] + unescape_spec(rest1));
            }
        }
    }
}

proof fn lemma_escape_body_valid(s: Seq<u8>)
    requires
        valid_utf8(s),
    ensures
        valid_utf8(escape_body(s)),
    decreases s.len(),
{
    if !has_byte(s, BS) && !has_byte(s, LF) {
        lemma_escape_plain(s);
    } else {
        let k = if has_byte(s, BS) {
            choose|i: int| 0 <= i < s.len() && s[i] == BS
        } else {
            choose|i: int| 0 <= i < s.len() && s[i] == LF
        };
        let a = s.subrange(0, k);
        let c = s.subrange(k, k + 1);
        let b = s.subrange(k + 1, s.len() as int);
        assert(s =~= a + c + b);
        lemma_valid_around_ascii(s, k);
        lemma_escape_body_valid(a);
        lemma_escape_body_valid(b);
        lemma_escape_body_concat(a + c, b);
        lemma_escape_body_concat(a, c);
        assert(c.drop_first() =~= Seq::<u8>::empty());
        assert(c[0] == s[k]);
        assert(escape_body(Seq::<u8>::empty()) =~= Seq::<u8>::empty());
        assert(escape_body(c) == escape_byte(c[0]) + escape_body(c.drop_first()));
        assert(escape_body(c) =~= escape_byte(s[k]));
        lemma_ascii_valid(escape_body(c));
        valid_utf8_concat(escape_body(a), escape_body(c));
        valid_utf8_concat(escape_body(a) + escape_body(c), escape_body(b));
    }
}

/// Escaping keeps UTF-8 valid.
pub proof fn lemma_escape_valid(s: Seq<u8>)
    requires
        valid_utf8(s),
    ensures
        valid_utf8(escape_spec(s)),
{
    if s.len() == 0 {
        lemma_ascii_valid(seq![BS]);
    } else {
        lemma_escape_body_valid(s);
    }
}

/// The scan over a prefix of valid UTF-8: every cell made so far is valid,
/// and the pending bytes run from the last LF (or the start) to the prefix's end.
proof fn lemma_scan_valid(s: Seq<u8>, k: int)
    requires
        valid_utf8(s),
        0 <= k <= s.len(),
    ensures
        doc_valid(scan(s.subrange(0, k)).rows),
        row_valid(scan(s.subrange(0, k)).row),
        k - scan(s.subrange(0, k)).cur.len() >= 0,
        scan(s.subrange(0, k)).cur == s.subrange(k - scan(s.subrange(0, k)).cur.len(), k),
        k - scan(s.subrange(0, k)).cur.len() == 0 || s[k - scan(s.subrange(0, k)).cur.len() - 1]
            == LF,
    decreases k,
{
    if k == 0 {
        assert(s.subrange(0, 0) =~= Seq::<u8>::empty());
    } else {
        lemma_scan_valid(s, k - 1);
        let pre = s.subrange(0, k);
        assert(pre.drop_last() =~= s.subrange(0, k - 1));
        let st = scan(s.subrange(0, k - 1));
        let b = s[k - 1];
        assert(scan(pre) == step(st, b));
        let a = k - 1 - st.cur.len();
        if b == LF {
            if st.cur.len() > 0 {
                lemma_valid_span(s, a, k - 1);
                let row = st.row.push(st.cur);
                assert(row_valid(row)) by {
                    assert forall|j: int| 0 <= j < row.len() implies valid_utf8(
                        #[trigger] row[j],
                    ) by {
                        if j < st.row.len() {
                            assert(row[j] == st.row[j]);
                        }
                    }
                }
            } else {
                let rows = st.rows.push(st.row);
                assert(doc_valid(rows)) by {
                    assert forall|i: int| 0 <= i < rows.len() implies row_valid(
                        #[trigger] rows[i],
                    ) by {
                        if i < st.rows.len() {
                            assert(rows[i] == st.rows[i]);
                        }
                    }
                }
            }
            assert(s.subrange(k, k) =~= Seq::<u8>::empty());
        } else {
            assert(st.cur.push(b) =~= s.subrange(a, k));
        }
    }
}

/// Every cell decoded from valid UTF-8 is valid UTF-8.
pub proof fn lemma_decode_valid(s: Seq<u8>)
    requires
        valid_utf8(s),
    ensures
        doc_valid(decode_spec(s)),
{
    lemma_structure_valid(s);
    let raw = structure_spec(s);
    let doc = decode_spec(s);
    assert forall|i: int| 0 <= i < doc.len() implies row_valid(#[trigger] doc[i]) by {
        assert(row_valid(raw[i]));
        assert forall|j: int| 0 <= j < doc[i].len() implies valid_utf8(#[trigger] doc[i][j]) by {
            assert(valid_utf8(raw[i][j]));
            lemma_unescape_valid(raw[i][j]);
        }
    }
}

/// Every raw cell of valid UTF-8 is valid UTF-8.
proof fn lemma_structure_valid(s: Seq<u8>)
    requires
        valid_utf8(s),
    ensures
        doc_valid(structure_spec(s)),
{
    lemma_scan_valid(s, s.len() as int);
    assert(s.subrange(0, s.len() as int) =~= s);
    let st = scan(s);
    let a = s.len() - st.cur.len();
    let row = if st.cur.len() > 0 {
        lemma_valid_span(s, a, s.len() as int);
        st.row.push(st.cur)
    } else {
        st.row
    };
    assert(row_valid(row)) by {
        assert forall|j: int| 0 <= j < row.len() implies valid_utf8(#[trigger] row[j]) by {
            if j < st.row.len() {
                assert(row[j] == st.row[j]);
            }
        }
    }
    let doc = structure_spec(s);
    if row.len() > 0 {
        assert forall|i: int| 0 <= i < doc.len() implies row_valid(#[trigger] doc[i]) by {
            if i < st.rows.len() {
                assert(doc[i] == st.rows[i]);
            }
        }
    }
}

proof fn lemma_encode_cells_valid(row: Seq<Seq<u8>>)
    requires
        row_valid(row),
    ensures
        valid_utf8(encode_cells(row)),
    decreases row.len(),
{
    if row.len() > 0 {
        let r1 = row.drop_last();
        assert(row_valid(r1)) by {
            assert forall|j: int| 0 <= j < r1.len() implies valid_utf8(#[trigger] r1[j]) by {
                assert(r1[j] == row[j]);
            }
        }
        lemma_encode_cells_valid(r1);
        assert(valid_utf8(row[row.len() - 1]));
        lemma_escape_valid(row.last());
        lemma_ascii_valid(seq![LF]);
        valid_utf8_concat(encode_cells(r1), escape_spec(row.last()));
        valid_utf8_concat(encode_cells(r1) + escape_spec(row.last()), seq![LF]);
    } else {
        lemma_ascii_valid(encode_cells(row));
    }
}

/// Encoding a document of valid UTF-8 cells gives valid UTF-8.
pub proof fn lemma_encode_valid(doc: Seq<Seq<Seq<u8>>>)
    requires
        doc_valid(doc),
    ensures
        valid_utf8(encode_spec(doc)),
    decreases doc.len(),
{
    if doc.len() > 0 {
        let d1 = doc.drop_last();
        assert(doc_valid(d1)) by {
            assert forall|i: int| 0 <= i < d1.len() implies row_valid(#[trigger] d1[i]) by {
                assert(d1[i] == doc[i]);
            }
        }
        lemma_encode_valid(d1);
        assert(row_valid(doc[doc.len() - 1]));
        lemma_encode_cells_valid(doc.last());
        lemma_ascii_valid(seq![LF]);
        valid_utf8_concat(encode_cells(doc.last()), seq![LF]);
        valid_utf8_concat(encode_spec(d1), encode_row(doc.last()));
    } else {
        lemma_ascii_valid(encode_spec(doc));
    }
}

fn text_from_valid(bytes: Vec<u8>) -> (r: String)
    requires
        valid_utf8(bytes@),
    ensures
        encode_utf8(r@) == bytes@,
{
    match string_from_utf8(bytes) {
        Some(s) => s,
        None => String::new(),
    }
}

/// Unescapes one cell of text.
pub fn unescape(s: &str) -> (r: String)
    ensures
        encode_utf8(r@) == unescape_spec(encode_utf8(s@)),
{
    let bytes = s.as_bytes();
    proof {
        encode_utf8_valid_utf8(s@);
        lemma_unescape_valid(bytes@);
    }
    text_from_valid(unescape_bytes(bytes))
}

/// Escapes one cell of text.
pub fn escape(s: &str) -> (r: String)
    ensures
        encode_utf8(r@) == escape_spec(encode_utf8(s@)),
{
    let bytes = s.as_bytes();
    proof {
        encode_utf8_valid_utf8(s@);
        lemma_escape_valid(bytes@);
    }
    text_from_valid(escape_bytes(bytes))
}

/// Decodes text into rows of text cells.
pub fn loads(s: &str) -> (r: Vec<Vec<String>>)
    ensures
        utf8_doc(r@) == decode_spec(encode_utf8(s@)),
{
    let bytes = s.as_bytes();
    proof {
        encode_utf8_valid_utf8(s@);
        lemma_decode_valid(bytes@);
    }
    let mut doc = decode_bytes(bytes);
    let ghost dv = doc.deep_view();
    let mut out: Vec<Vec<String>> = Vec::new();
    let mut i: usize = 0;
    while i < doc.len()
        invariant
            dv == decode_spec(encode_utf8(s@)),
            doc_valid(dv),
            doc@.len() == dv.len(),
            i <= doc@.len(),
            forall|k: int| i <= k < dv.len() ==> (#[trigger] doc@[k]).deep_view() == dv[k],
            utf8_doc(out@) == dv.subrange(0, i as int),
        decreases doc@.len() - i,
    {
        let mut row: Vec<Vec<u8>> = Vec::new();
        doc.set_and_swap(i, &mut row);
        let ghost rv = dv[i as int];
        assert(row.deep_view() == rv);
        assert(row_valid(rv));
        let mut cells: Vec<String> = Vec::new();
        let mut j: usize = 0;
        while j < row.len()
            invariant
                row@.len() == rv.len(),
                row_valid(rv),
                j <= row@.len(),
                forall|k: int| j <= k < rv.len() ==> (#[trigger] row@[k])@ == rv[k],
                cells@.len() == j,
                forall|k: int| 0 <= k < j ==> encode_utf8((#[trigger] cells@[k])@) == rv[k],
            decreases row@.len() - j,
        {
            assert(row.deep_view()[j as int] == row@[j as int].deep_view());
            let mut cell: Vec<u8> = Vec::new();
            row.set_and_swap(j, &mut cell);
            assert(valid_utf8(rv[j as int]));
            let text = text_from_valid(cell);
            cells.push(text);
            j = j + 1;
        }
        let ghost before = out@;
        let ghost cv = cells@;
        assert(before.len() == i) by {
            assert(utf8_doc(before).len() == i);
        }
        out.push(cells);
        assert(out@ == before.push(out@[i as int]));
        assert(out@[i as int]@ == cv);
        assert(utf8_doc(out@) =~= dv.subrange(0, i + 1)) by {
            assert forall|k: int| 0 <= k <= i implies #[trigger] utf8_doc(out@)[k] == dv[k] by {
                if k < i {
                    assert(utf8_doc(before)[k] == dv[k]);
                    assert(out@[k] == before[k]);
                    assert(utf8_doc(out@)[k] =~= utf8_doc(before)[k]);
                } else {
                    assert(utf8_doc(out@)[k] =~= rv);
                }
            }
        }
        i = i + 1;
    }
    assert(dv.subrange(0, dv.len() as int) =~= dv);
    out
}

/// Encodes rows of text cells into text.
pub fn dumps(data: &[Vec<String>]) -> (r: String)
    ensures
        encode_utf8(r@) == encode_spec(utf8_doc(data@)),
{
    let ghost doc = utf8_doc(data@);
    let mut out: Vec<u8> = Vec::new();
    let mut i: usize = 0;
    assert(doc.subrange(0, 0) =~= Seq::<Seq<Seq<u8>>>::empty());
    while i < data.len()
        invariant
            i <= data@.len(),
            doc == utf8_doc(data@),
            out@ == encode_spec(doc.subrange(0, i as int)),
        decreases data@.len() - i,
    {
        let row = &data[i];
        let ghost rv = doc[i as int];
        let ghost base = out@;
        let mut j: usize = 0;
        assert(rv.subrange(0, 0) =~= Seq::<Seq<u8>>::empty());
        assert(base + Seq::<u8>::empty() =~= base);
        while j < row.len()
            invariant
                j <= row@.len(),
                row@.len() == rv.len(),
                i < data@.len(),
                rv == doc[i as int],
                doc == utf8_doc(data@),
                row == data@[i as int],
                out@ == base + encode_cells(rv.subrange(0, j as int)),
            decreases row@.len() - j,
        {
            let text = row[j].as_str();
            assert(text@ == data@[i as int]@[j as int]@);
            let cell = text.as_bytes();
            assert(cell@ == encode_utf8(text@));
            assert(rv[j as int] == encode_utf8(data@[i as int]@[j as int]@));
            assert(cell@ == rv[j as int]);
            escape_into(cell, &mut out);
            out.push(LF);
            assert(rv.subrange(0, j + 1).drop_last() =~= rv.subrange(0, j as int));
            assert(out@ =~= base + encode_cells(rv.subrange(0, j + 1)));
            j = j + 1;
        }
        out.push(LF);
        assert(rv.subrange(0, row@.len() as int) =~= rv);
        assert(doc.subrange(0, i + 1).drop_last() =~= doc.subrange(0, i as int));
        assert(out@ =~= encode_spec(doc.subrange(0, i + 1)));
        i = i + 1;
    }
    assert(doc.subrange(0, data@.len() as int) =~= doc);
    proof {
        assert forall|k: int| 0 <= k < doc.len() implies row_valid(#[trigger] doc[k]) by {
            assert forall|j: int| 0 <= j < doc[k].len() implies valid_utf8(
                #[trigger] doc[k][j],
            ) by {
                encode_utf8_valid_utf8(data@[k]@[j]@);
            }
        }
        lemma_encode_valid(doc);
    }
    text_from_valid(out)
}

} // verus!
