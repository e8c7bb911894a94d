//! Lazy access: a structural index of byte spans over the input, with cells
//! unescaped only when they are read.
use vstd::prelude::*;
use crate::decode::{decode_spec, scan, structure_spec, unescape_row};
use crate::escape::{unescape_bytes, unescape_spec, LF};
use crate::parallel::{
    available_workers, chunk_bounds, chunk_of, chunks_of, lemma_chunks, lemma_structure_splits,
    parallel_map, valid_bounds, PARALLEL_THRESHOLD,
};
use crate::project::{decode_projected_spec, project_row, project_spec};

verus! {

/// A still-escaped cell: the bytes `start..end` of the input.
#[derive(Clone, Copy, Debug, PartialEq, Eq, Structural)]
pub struct CellSpan {
    pub start: usize,
    pub end: usize,
}

/// The bytes a span covers.
pub open spec fn span_bytes(data: Seq<u8>, s: CellSpan) -> Seq<u8> {
    data.subrange(s.start as int, s.end as int)
}

pub open spec fn span_in(data: Seq<u8>, s: CellSpan) -> bool {
    s.start <= s.end <= data.len()
}

/// The bytes of each span of a row.
pub open spec fn span_row(data: Seq<u8>, row: Seq<CellSpan>) -> Seq<Seq<u8>> {
    Seq::new(row.len(), |j: int| span_bytes(data, row[j]))
}

/// The bytes of each span of each row.
pub open spec fn span_doc(data: Seq<u8>, rows: Seq<Vec<CellSpan>>) -> Seq<Seq<Seq<u8>>> {
    Seq::new(rows.len(), |i: int| span_row(data, rows[i]@))
}

pub open spec fn spans_in(data: Seq<u8>, rows: Seq<Vec<CellSpan>>) -> bool {
    forall|i: int, j: int|
        0 <= i < rows.len() && 0 <= j < rows[i]@.len() ==> span_in(data, #[trigger] rows[i]@[j])
}

/// Finds the spans of the cells of `data[lo..hi]` in one pass.
pub fn spans_range(data: &[u8], lo: usize, hi: usize) -> (r: Vec<Vec<CellSpan>>)
    requires
        lo <= hi <= data@.len(),
    ensures
        spans_in(data@, r@),
        span_doc(data@, r@) == structure_spec(data@.subrange(lo as int, hi as int)),
{
    let mut rows: Vec<Vec<CellSpan>> = Vec::new();
    let mut row: Vec<CellSpan> = Vec::new();
    let mut start: usize = lo;
    let mut pos: usize = lo;
    assert(data@.subrange(lo as int, lo as int) =~= Seq::<u8>::empty());
    assert(span_doc(data@, rows@) =~= Seq::<Seq<Seq<u8>>>::empty());
    assert(span_row(data@, row@) =~= Seq::<Seq<u8>>::empty());
    while pos < hi
        invariant
            lo <= start <= pos <= hi <= data@.len(),
            spans_in(data@, rows@),
            forall|j: int| 0 <= j < row@.len() ==> span_in(data@, #[trigger] row@[j]),
            span_doc(data@, rows@) == scan(data@.subrange(lo as int, pos as int)).rows,
            span_row(data@, row@) == scan(data@.subrange(lo as int, pos as int)).row,
            data@.subrange(start as int, pos as int) == scan(
                data@.subrange(lo as int, pos as int),
            ).cur,
        decreases hi - pos,
    {
        let ghost prev = scan(data@.subrange(lo as int, pos as int));
        assert(data@.subrange(lo as int, pos + 1).drop_last() =~= data@.subrange(
            lo as int,
            pos as int,
        ));
        if data[pos] == LF {
            if pos > start {
                row.push(CellSpan { start, end: pos });
                assert(span_row(data@, row@) =~= prev.row.push(prev.cur));
            } else {
                let ghost old_rows = rows@;
                rows.push(row);
                row = Vec::new();
                assert(span_doc(data@, rows@) =~= prev.rows.push(prev.row)) by {
                    assert forall|i: int| 0 <= i < old_rows.len() implies #[trigger] rows@[i]
                        == old_rows[i] by {}
                }
                assert(span_row(data@, row@) =~= Seq::<Seq<u8>>::empty());
            }
            start = pos + 1;
            assert(data@.subrange(start as int, pos + 1) =~= Seq::<u8>::empty());
        } else {
            assert(data@.subrange(start as int, pos + 1) =~= prev.cur.push(data@[pos as int]));
        }
        pos = pos + 1;
    }
    let ghost st = scan(data@.subrange(lo as int, hi as int));
    let ghost last_row = if st.cur.len() > 0 {
        st.row.push(st.cur)
    } else {
        st.row
    };
    if start < hi {
        row.push(CellSpan { start, end: hi });
    }
    assert(span_row(data@, row@) =~= last_row);
    if row.len() > 0 {
        let ghost old_rows = rows@;
        rows.push(row);
        assert(span_doc(data@, rows@) =~= st.rows.push(last_row)) by {
            assert forall|i: int| 0 <= i < old_rows.len() implies #[trigger] rows@[i]
                == old_rows[i] by {}
        }
    }
    rows
}

/// A structural index over a buffer: the span of every cell, found in one
/// scan (in parallel chunks for large inputs), with no cell unescaped.
pub struct LazyIndex<'a> {
    data: &'a [u8],
    rows: Vec<Vec<CellSpan>>,
}

impl<'a> LazyIndex<'a> {
    /// The indexed buffer.
    pub closed spec fn bytes(&self) -> Seq<u8> {
        self.data@
    }

    /// The index holds the spans of exactly the buffer's cells.
    pub closed spec fn wf(&self) -> bool {
        &&& spans_in(self.data@, self.rows@)
        &&& span_doc(self.data@, self.rows@) == structure_spec(self.data@)
    }

    /// Indexes `data` with the chunk plan for `workers` workers.
    pub fn with_workers(data: &'a [u8], workers: usize) -> (r: Self)
        ensures
            r.wf(),
            r.bytes() == data@,
    {
        let bounds = match chunk_bounds(data, workers) {
            Some(bounds) => bounds,
            None => {
                assert(data@.subrange(0, data@.len() as int) =~= data@);
                return LazyIndex { data, rows: spans_range(data, 0, data.len()) };
            },
        };
        let ghost b = bounds@;
        let ghost f = |x: Seq<u8>| structure_spec(x);
        let n = bounds.len() - 1;
        let bref = &bounds;
        let index_chunk = (move |c: usize| -> (part: Vec<Vec<CellSpan>>)
            requires
                c < n,
                n + 1 == bref@.len(),
                valid_bounds(data@, bref@),
            ensures
                spans_in(data@, part@),
                span_doc(data@, part@) == structure_spec(chunk_of(data@, bref@, c as int)),
            {
                let next = c + 1;
                spans_range(data, bref[c], bref[next])
            });
        let mut parts = parallel_map(n, index_chunk);
        assert forall|j: int| 0 <= j < n implies spans_in(data@, (#[trigger] parts@[j])@)
            && span_doc(data@, parts@[j]@) == structure_spec(chunk_of(data@, b, j)) by {
            assert(index_chunk.ensures((j as usize,), parts@[j]));
        }
        let mut rows: Vec<Vec<CellSpan>> = Vec::new();
        let mut c: usize = 0;
        assert(chunks_of(f, data@, b.subrange(0, 1)) =~= Seq::<Seq<Seq<u8>>>::empty());
        assert(span_doc(data@, rows@) =~= Seq::<Seq<Seq<u8>>>::empty());
        while c < n
            invariant
                n + 1 == b.len(),
                b == bounds@,
                f == (|x: Seq<u8>| structure_spec(x)),
                parts@.len() == n,
                forall|j: int|
                    c <= j < n ==> spans_in(data@, (#[trigger] parts@[j])@) && span_doc(
                        data@,
                        parts@[j]@,
                    ) == structure_spec(chunk_of(data@, b, j)),
                spans_in(data@, rows@),
                span_doc(data@, rows@) == chunks_of(f, data@, b.subrange(0, c + 1)),
                c <= n,
            decreases n - c,
        {
            let mut part: Vec<Vec<CellSpan>> = Vec::new();
            parts.set_and_swap(c, &mut part);
            let ghost before = rows@;
            let ghost pv = part@;
            rows.append(&mut part);
            assert(rows@ == before + pv);
            assert(span_doc(data@, rows@) =~= span_doc(data@, before) + span_doc(data@, pv));
            assert(spans_in(data@, rows@)) by {
                assert forall|i: int, j: int|
                    0 <= i < rows@.len() && 0 <= j < rows@[i]@.len() implies span_in(
                    data@,
                    #[trigger] rows@[i]@[j],
                ) by {
                    if i < before.len() {
                        assert(rows@[i] == before[i]);
                    } else {
                        assert(rows@[i] == pv[i - before.len()]);
                    }
                }
            }
            let ghost bb = b.subrange(0, c + 2);
            assert(bb.drop_last() =~= b.subrange(0, c + 1));
            assert(bb[bb.len() - 2] == b[c as int] && bb.last() == b[c + 1]);
            c = c + 1;
        }
        proof {
            assert(b.subrange(0, n + 1) =~= b);
            lemma_structure_splits();
            lemma_chunks(f, data@, b);
            assert(data@.subrange(0, data@.len() as int) =~= data@);
        }
        LazyIndex { data, rows }
    }

    /// Indexes `data`: in one pass below the size threshold, else in
    /// parallel chunks across the available workers.
    pub fn new(data: &'a [u8]) -> (r: Self)
        ensures
            r.wf(),
            r.bytes() == data@,
    {
        if data.len() < PARALLEL_THRESHOLD {
            assert(data@.subrange(0, data@.len() as int) =~= data@);
            return LazyIndex { data, rows: spans_range(data, 0, data.len()) };
        }
        Self::with_workers(data, available_workers())
    }

    /// The number of rows.
    pub fn row_count(&self) -> (n: usize)
        requires
            self.wf(),
        ensures
            n == decode_spec(self.bytes()).len(),
    {
        self.rows.len()
    }

    /// The number of cells of row `row`, if there is such a row.
    pub fn col_count(&self, row: usize) -> (r: Option<usize>)
        requires
            self.wf(),
        ensures
            r == (if row < decode_spec(self.bytes()).len() {
                Some(decode_spec(self.bytes())[row as int].len() as usize)
            } else {
                None
            }),
    {
        if row < self.rows.len() {
            assert(span_doc(self.data@, self.rows@)[row as int].len() == self.rows@[row as int]@.len());
            Some(self.rows[row].len())
        } else {
            None
        }
    }

    /// The cell at `row`, `col`, still escaped, if there is one.
    pub fn get_raw(&self, row: usize, col: usize) -> (r: Option<&'a [u8]>)
        requires
            self.wf(),
        ensures
            r is Some <==> row < structure_spec(self.bytes()).len() && col < structure_spec(
                self.bytes(),
            )[row as int].len(),
            r matches Some(c) ==> c@ == structure_spec(self.bytes())[row as int][col as int],
    {
        if row < self.rows.len() && col < self.rows[row].len() {
            let span = self.rows[row][col];
            assert(span_in(self.data@, self.rows@[row as int]@[col as int]));
            assert(span_doc(self.data@, self.rows@)[row as int][col as int] == span_bytes(
                self.data@,
                span,
            ));
            Some(vstd::slice::slice_subrange(self.data, span.start, span.end))
        } else {
            None
        }
    }

    /// The cell at `row`, `col`, unescaped, if there is one.
    pub fn get(&self, row: usize, col: usize) -> (r: Option<Vec<u8>>)
        requires
            self.wf(),
        ensures
            r is Some <==> row < decode_spec(self.bytes()).len() && col < decode_spec(
                self.bytes(),
            )[row as int].len(),
            r matches Some(c) ==> c@ == decode_spec(self.bytes())[row as int][col as int],
    {
        match self.get_raw(row, col) {
            Some(raw) => Some(unescape_bytes(raw)),
            None => None,
        }
    }

    /// Every row reduced to the columns `columns`, in that order, unescaped;
    /// a column that a row lacks gives empty bytes.
    pub fn project(&self, columns: &[usize]) -> (r: Vec<Vec<Vec<u8>>>)
        requires
            self.wf(),
        ensures
            r.deep_view() == decode_projected_spec(self.bytes(), columns@),
    {
        let ghost target = decode_projected_spec(self.bytes(), columns@);
        let mut out: Vec<Vec<Vec<u8>>> = Vec::new();
        let mut i: usize = 0;
        assert(out.deep_view() =~= target.subrange(0, 0));
        while i < self.rows.len()
            invariant
                self.wf(),
                i <= self.rows@.len(),
                target == decode_projected_spec(self.bytes(), columns@),
                out.deep_view() == target.subrange(0, i as int),
            decreases self.rows@.len() - i,
        {
            let spans = &self.rows[i];
            let ghost raw_row = structure_spec(self.data@)[i as int];
            assert(span_row(self.data@, spans@) == raw_row);
            let mut cells: Vec<Vec<u8>> = Vec::new();
            let mut k: usize = 0;
            while k < columns.len()
                invariant
                    self.wf(),
                    i < self.rows@.len(),
                    spans == self.rows@[i as int],
                    span_row(self.data@, spans@) == raw_row,
                    target == decode_projected_spec(self.bytes(), columns@),
                    raw_row == structure_spec(self.data@)[i as int],
                    k <= columns@.len(),
                    cells@.len() == k,
                    forall|j: int|
                        0 <= j < k ==> (#[trigger] cells@[j])@ == target[i as int][j],
                decreases columns@.len() - k,
            {
                let c = columns[k];
                proof {
                    assert(decode_spec(self.data@)[i as int] == unescape_row(raw_row));
                }
                if c < spans.len() {
                    let span = spans[c];
                    assert(span_in(self.data@, self.rows@[i as int]@[c as int]));
                    assert(span_bytes(self.data@, span) == raw_row[c as int]);
                    let cell = unescape_bytes(
                        vstd::slice::slice_subrange(self.data, span.start, span.end),
                    );
                    cells.push(cell);
                } else {
                    cells.push(Vec::new());
                }
                k = k + 1;
            }
            let ghost before = out.deep_view();
            let ghost cv = cells.deep_view();
            assert(cv =~= target[i as int]) by {
                assert(target[i as int].len() == columns@.len());
                assert forall|j: int| 0 <= j < columns@.len() implies #[trigger] cv[j]
                    == target[i as int][j] by {
                    assert(cv[j] =~= cells@[j]@);
                }
            }
            out.push(cells);
            assert(out.deep_view() =~= before.push(cv));
            assert(out.deep_view() =~= target.subrange(0, i + 1));
            i = i + 1;
        }
        assert(target.subrange(0, self.rows@.len() as int) =~= target);
        out
    }
}

/// The place of slot `k` of row `i` in a row-major array of `stride` slots per row.
pub open spec fn slot_of(i: int, k: int, stride: int) -> int {
    i * stride + k
}

proof fn lemma_slot_in_rows(i: int, k: int, stride: int, n: int)
    requires
        0 <= i < n,
        0 <= k < stride,
    ensures
        0 <= i * stride <= slot_of(i, k, stride) < n * stride,
        i * stride + stride <= n * stride,
{
    assert(0 <= i * stride) by (nonlinear_arith)
        requires
            0 <= i,
            0 <= stride,
    ;
    assert((i + 1) * stride <= n * stride) by (nonlinear_arith)
        requires
            i + 1 <= n,
            0 <= stride,
    ;
    assert((i + 1) * stride == i * stride + stride) by (nonlinear_arith);
}

/// An index over a buffer for a column subset fixed in advance: one flat
/// array of `rows * columns.len()` spans, in row order. Only requested
/// columns get a span; a column that a row lacks gets an empty span, so it
/// reads as empty bytes, exactly as an empty cell does.
pub struct ProjectedIndex<'a> {
    data: &'a [u8],
    columns: Vec<usize>,
    n_rows: usize,
    slots: Vec<CellSpan>,
}

impl<'a> ProjectedIndex<'a> {
    /// The indexed buffer.
    pub closed spec fn bytes(&self) -> Seq<u8> {
        self.data@
    }

    /// The requested columns, in order.
    pub closed spec fn columns(&self) -> Seq<usize> {
        self.columns@
    }

    /// The slots hold the spans of the requested cells of every row.
    pub closed spec fn wf(&self) -> bool {
        let stride = self.columns@.len() as int;
        let raw = project_spec(structure_spec(self.data@), self.columns@);
        &&& self.n_rows == raw.len()
        &&& self.slots@.len() == self.n_rows * stride
        &&& forall|j: int| 0 <= j < self.slots@.len() ==> span_in(self.data@, #[trigger] self.slots@[j])
        &&& forall|i: int, k: int|
            0 <= i < self.n_rows && 0 <= k < stride ==> span_bytes(
                self.data@,
                #[trigger] self.slots@[slot_of(i, k, stride)],
            ) == raw[i][k]
    }

    /// Indexes the columns `columns` of `data` in one scan.
    pub fn new(data: &'a [u8], columns: &[usize]) -> (r: Self)
        requires
            (data@.len() + 1) * columns@.len() <= usize::MAX,
        ensures
            r.wf(),
            r.bytes() == data@,
            r.columns() == columns@,
    {
        let stride = columns.len();
        let wanted = crate::project::wanted_columns(columns, data.len());
        let ghost cols = columns@;
        let ghost s = stride as int;
        let empty = CellSpan { start: 0, end: 0 };
        let mut slots: Vec<CellSpan> = Vec::new();
        while slots.len() < stride
            invariant
                slots@.len() <= stride,
                forall|j: int| 0 <= j < slots@.len() ==> #[trigger] slots@[j] == empty,
            decreases stride - slots@.len(),
        {
            slots.push(empty);
        }
        let mut n_done: usize = 0;
        let mut row_base: usize = 0;
        let mut col: usize = 0;
        let mut start: usize = 0;
        let mut pos: usize = 0;
        assert(data@.subrange(0, 0) =~= Seq::<u8>::empty());
        assert(0 * s == 0) by (nonlinear_arith);
        while pos < data.len()
            invariant
                stride == columns@.len(),
                cols == columns@,
                s == stride as int,
                empty == (CellSpan { start: 0, end: 0 }),
                crate::project::column_table(wanted@, cols, data@.len() as int),
                (data@.len() + 1) * s <= usize::MAX,
                start <= pos <= data@.len(),
                n_done <= start,
                n_done == scan(data@.subrange(0, pos as int)).rows.len(),
                row_base == n_done * s,
                slots@.len() == row_base + stride,
                forall|j: int| 0 <= j < slots@.len() ==> span_in(data@, #[trigger] slots@[j]),
                forall|i: int, k: int|
                    0 <= i < n_done && 0 <= k < s ==> span_bytes(
                        data@,
                        #[trigger] slots@[slot_of(i, k, s)],
                    ) == project_row(scan(data@.subrange(0, pos as int)).rows[i], cols)[k],
                forall|k: int|
                    0 <= k < s ==> span_bytes(data@, #[trigger] slots@[row_base + k])
                        == project_row(scan(data@.subrange(0, pos as int)).row, cols)[k],
                col == scan(data@.subrange(0, pos as int)).row.len(),
                n_done + col <= start,
                data@.subrange(start as int, pos as int) == scan(data@.subrange(0, pos as int)).cur,
            decreases data@.len() - pos,
        {
            let ghost prev = scan(data@.subrange(0, pos as int));
            assert(data@.subrange(0, pos + 1).drop_last() =~= data@.subrange(0, pos as int));
            if data[pos] == LF {
                if pos > start {
                    let ghost new_row = prev.row.push(prev.cur);
                    let span = CellSpan { start, end: pos };
                    proof {
                        assert((n_done + 1) * s <= (data@.len() + 1) * s) by (nonlinear_arith)
                            requires
                                n_done + 1 <= data@.len() + 1,
                                s >= 0,
                        ;
                        assert((n_done + 1) * s == n_done * s + s) by (nonlinear_arith);
                    }
                    assert(span_bytes(data@, span) == prev.cur);
                    if col < wanted.len() && wanted[col] {
                        let mut k: usize = 0;
                        while k < stride
                            invariant
                                stride == columns@.len(),
                                cols == columns@,
                                s == stride as int,
                                k <= stride,
                                col == prev.row.len(),
                                span_in(data@, span),
                                span_bytes(data@, span) == prev.cur,
                                new_row == prev.row.push(prev.cur),
                                row_base == n_done * s,
                                n_done == prev.rows.len(),
                                slots@.len() == row_base + stride,
                                row_base + stride <= usize::MAX,
                                forall|j: int| 0 <= j < slots@.len() ==> span_in(data@, #[trigger] slots@[j]),
                                forall|i: int, kk: int|
                                    0 <= i < n_done && 0 <= kk < s ==> span_bytes(
                                        data@,
                                        #[trigger] slots@[slot_of(i, kk, s)],
                                    ) == project_row(prev.rows[i], cols)[kk],
                                forall|j: int|
                                    0 <= j < k ==> span_bytes(data@, #[trigger] slots@[row_base + j])
                                        == project_row(new_row, cols)[j],
                                forall|j: int|
                                    k <= j < s ==> span_bytes(data@, #[trigger] slots@[row_base + j])
                                        == project_row(prev.row, cols)[j],
                            decreases stride - k,
                        {
                            let ghost old_slots = slots@;
                            if columns[k] == col {
                                slots.set(row_base + k, span);
                            }
                            proof {
                                assert forall|i: int, kk: int|
                                    0 <= i < n_done && 0 <= kk < s implies span_bytes(
                                    data@,
                                    #[trigger] slots@[slot_of(i, kk, s)],
                                ) == project_row(prev.rows[i], cols)[kk] by {
                                    lemma_slot_in_rows(i, kk, s, n_done as int);
                                    assert(slots@[slot_of(i, kk, s)] == old_slots[slot_of(i, kk, s)]);
                                }
                                assert forall|j: int| 0 <= j < s && j != k implies #[trigger] slots@[row_base + j]
                                    == old_slots[row_base + j] by {}
                                if cols[k as int] < col {
                                    assert(new_row[cols[k as int] as int] == prev.row[cols[k as int] as int]);
                                }
                            }
                            k = k + 1;
                        }
                    } else {
                        proof {
                            assert forall|j: int| 0 <= j < s implies cols[j] != col by {
                                if cols[j] == col {
                                    if col < wanted@.len() {
                                        assert(wanted@[col as int]);
                                    } else {
                                        assert(cols[j] < wanted@.len());
                                    }
                                }
                            }
                            assert forall|j: int| 0 <= j < s implies #[trigger] project_row(new_row, cols)[j]
                                == project_row(prev.row, cols)[j] by {
                                if (cols[j] as int) < col {
                                    assert(new_row[cols[j] as int] == prev.row[cols[j] as int]);
                                }
                            }
                        }
                    }
                    col = col + 1;
                } else {
                    let ghost old_slots = slots@;
                    let ghost old_base = row_base;
                    proof {
                        assert((n_done + 1) * s == n_done * s + s) by (nonlinear_arith);
                        assert((n_done + 2) * s == n_done * s + s + s) by (nonlinear_arith);
                        assert((n_done + 2) * s <= (data@.len() + 1) * s) by (nonlinear_arith)
                            requires
                                n_done + 2 <= data@.len() + 1,
                                s >= 0,
                        ;
                    }
                    row_base = row_base + stride;
                    n_done = n_done + 1;
                    while slots.len() < row_base + stride
                        invariant
                            stride == columns@.len(),
                            row_base == old_base + stride,
                            row_base + stride <= usize::MAX,
                            slots@.len() <= row_base + stride,
                            slots@.len() >= row_base,
                            forall|j: int| 0 <= j < row_base ==> #[trigger] slots@[j] == old_slots[j],
                            forall|j: int| row_base <= j < slots@.len() ==> #[trigger] slots@[j] == empty,
                            empty == (CellSpan { start: 0, end: 0 }),
                            old_slots.len() == row_base,
                        decreases row_base + stride - slots@.len(),
                    {
                        slots.push(empty);
                    }
                    col = 0;
                    proof {
                        let st = prev.rows.push(prev.row);
                        assert forall|j: int| 0 <= j < slots@.len() implies span_in(data@, #[trigger] slots@[j]) by {
                            if j < row_base {
                                assert(slots@[j] == old_slots[j]);
                            }
                        }
                        assert forall|i: int, k: int|
                            0 <= i < n_done && 0 <= k < s implies span_bytes(
                            data@,
                            #[trigger] slots@[slot_of(i, k, s)],
                        ) == project_row(st[i], cols)[k] by {
                            lemma_slot_in_rows(i, k, s, n_done as int);
                            assert(slots@[slot_of(i, k, s)] == old_slots[slot_of(i, k, s)]);
                            if i == n_done - 1 {
                                assert(slot_of(i, k, s) == old_base + k);
                            }
                        }
                        assert forall|k: int| 0 <= k < s implies span_bytes(data@, #[trigger] slots@[row_base + k])
                            == project_row(Seq::<Seq<u8>>::empty(), cols)[k] by {
                            assert(slots@[row_base + k] == empty);
                            assert(span_bytes(data@, empty) =~= Seq::<u8>::empty());
                        }
                    }
                }
                start = pos + 1;
                assert(data@.subrange(start as int, pos + 1) =~= Seq::<u8>::empty());
            } else {
                assert(data@.subrange(start as int, pos + 1) =~= prev.cur.push(data@[pos as int]));
            }
            pos = pos + 1;
        }
        let ghost st = scan(data@.subrange(0, data@.len() as int));
        let ghost last_row = if st.cur.len() > 0 {
            st.row.push(st.cur)
        } else {
            st.row
        };
        proof {
            assert((n_done + 1) * s <= (data@.len() + 1) * s) by (nonlinear_arith)
                requires
                    n_done + 1 <= data@.len() + 1,
                    s >= 0,
            ;
            assert((n_done + 1) * s == n_done * s + s) by (nonlinear_arith);
        }
        if start < data.len() {
            let span = CellSpan { start, end: data.len() };
            assert(span_bytes(data@, span) == st.cur);
            let mut k: usize = 0;
            while k < stride
                invariant
                    stride == columns@.len(),
                    cols == columns@,
                    s == stride as int,
                    k <= stride,
                    col == st.row.len(),
                    st.cur.len() > 0,
                    last_row == st.row.push(st.cur),
                    span_in(data@, span),
                    span_bytes(data@, span) == st.cur,
                    row_base == n_done * s,
                    n_done == st.rows.len(),
                    slots@.len() == row_base + stride,
                    row_base + stride <= usize::MAX,
                    forall|j: int| 0 <= j < slots@.len() ==> span_in(data@, #[trigger] slots@[j]),
                    forall|i: int, kk: int|
                        0 <= i < n_done && 0 <= kk < s ==> span_bytes(
                            data@,
                            #[trigger] slots@[slot_of(i, kk, s)],
                        ) == project_row(st.rows[i], cols)[kk],
                    forall|j: int|
                        0 <= j < k ==> span_bytes(data@, #[trigger] slots@[row_base + j])
                            == project_row(last_row, cols)[j],
                    forall|j: int|
                        k <= j < s ==> span_bytes(data@, #[trigger] slots@[row_base + j])
                            == project_row(st.row, cols)[j],
                decreases stride - k,
            {
                let ghost old_slots = slots@;
                if columns[k] == col {
                    slots.set(row_base + k, span);
                }
                proof {
                    assert forall|i: int, kk: int|
                        0 <= i < n_done && 0 <= kk < s implies span_bytes(
                        data@,
                        #[trigger] slots@[slot_of(i, kk, s)],
                    ) == project_row(st.rows[i], cols)[kk] by {
                        lemma_slot_in_rows(i, kk, s, n_done as int);
                        assert(slots@[slot_of(i, kk, s)] == old_slots[slot_of(i, kk, s)]);
                    }
                    assert forall|j: int| 0 <= j < s && j != k implies #[trigger] slots@[row_base + j]
                        == old_slots[row_base + j] by {}
                    if cols[k as int] < col {
                        assert(last_row[cols[k as int] as int] == st.row[cols[k as int] as int]);
                    }
                }
                k = k + 1;
            }
            col = col + 1;
        }
        let n_rows = if col > 0 {
            proof {
                assert((n_done + 1) * s == n_done * s + s) by (nonlinear_arith);
            }
            n_done + 1
        } else {
            slots.truncate(row_base);
            n_done
        };
        proof {
            let raw = project_spec(structure_spec(data@), cols);
            assert(data@.subrange(0, data@.len() as int) =~= data@);
            let rows = if last_row.len() > 0 { st.rows.push(last_row) } else { st.rows };
            assert(structure_spec(data@) == rows);
            assert(n_rows == raw.len());
            assert forall|i: int, k: int|
                0 <= i < n_rows && 0 <= k < s implies span_bytes(
                data@,
                #[trigger] slots@[slot_of(i, k, s)],
            ) == raw[i][k] by {
                if i < n_done {
                    lemma_slot_in_rows(i, k, s, n_done as int);
                    assert(rows[i] == st.rows[i]);
                } else {
                    assert(slot_of(i, k, s) == row_base + k);
                    assert(rows[i] == last_row);
                }
            }
        }
        let mut owned: Vec<usize> = Vec::new();
        let mut k: usize = 0;
        while k < stride
            invariant
                stride == columns@.len(),
                k <= stride,
                owned@ == columns@.subrange(0, k as int),
            decreases stride - k,
        {
            owned.push(columns[k]);
            assert(owned@ =~= columns@.subrange(0, k + 1));
            k = k + 1;
        }
        assert(columns@.subrange(0, stride as int) =~= columns@);
        ProjectedIndex { data, columns: owned, n_rows, slots }
    }

    /// The number of rows.
    pub fn row_count(&self) -> (n: usize)
        requires
            self.wf(),
        ensures
            n == decode_spec(self.bytes()).len(),
    {
        self.n_rows
    }

    /// Requested column `k` of row `row`, still escaped, if `row` is a row
    /// and `k` a position in the column list.
    pub fn get_raw(&self, row: usize, k: usize) -> (r: Option<&'a [u8]>)
        requires
            self.wf(),
        ensures
            r is Some <==> row < decode_spec(self.bytes()).len() && k < self.columns().len(),
            r matches Some(c) ==> c@ == project_spec(structure_spec(self.bytes()), self.columns())[row as int][k as int],
    {
        if row < self.n_rows && k < self.columns.len() {
            let ghost s = self.columns@.len() as int;
            proof {
                lemma_slot_in_rows(row as int, k as int, s, self.n_rows as int);
            }
            let total = self.slots.len();
            let at = row * self.columns.len() + k;
            let span = self.slots[at];
            assert(span == self.slots@[slot_of(row as int, k as int, s)]);
            Some(vstd::slice::slice_subrange(self.data, span.start, span.end))
        } else {
            None
        }
    }

    /// Requested column `k` of row `row`, unescaped, if `row` is a row and
    /// `k` a position in the column list.
    pub fn get(&self, row: usize, k: usize) -> (r: Option<Vec<u8>>)
        requires
            self.wf(),
        ensures
            r is Some <==> row < decode_spec(self.bytes()).len() && k < self.columns().len(),
            r matches Some(c) ==> c@ == decode_projected_spec(self.bytes(), self.columns())[row as int][k as int],
    {
        match self.get_raw(row, k) {
            Some(raw) => {
                let cell = unescape_bytes(raw);
                proof {
                    let cols = self.columns@;
                    let doc = structure_spec(self.data@);
                    assert(decode_spec(self.data@)[row as int] == unescape_row(doc[row as int]));
                    if (cols[k as int] as int) >= doc[row as int].len() {
                        assert(unescape_spec(Seq::<u8>::empty()) == Seq::<u8>::empty());
                    }
                }
                Some(cell)
            },
            None => None,
        }
    }

    /// Every row with the requested columns unescaped.
    pub fn rows(&self) -> (r: Vec<Vec<Vec<u8>>>)
        requires
            self.wf(),
        ensures
            r.deep_view() == decode_projected_spec(self.bytes(), self.columns()),
    {
        let ghost target = decode_projected_spec(self.bytes(), self.columns());
        let mut out: Vec<Vec<Vec<u8>>> = Vec::new();
        let mut i: usize = 0;
        assert(out.deep_view() =~= target.subrange(0, 0));
        while i < self.n_rows
            invariant
                self.wf(),
                i <= self.n_rows,
                target == decode_projected_spec(self.bytes(), self.columns()),
                out.deep_view() == target.subrange(0, i as int),
            decreases self.n_rows - i,
        {
            let mut cells: Vec<Vec<u8>> = Vec::new();
            let mut k: usize = 0;
            while k < self.columns.len()
                invariant
                    self.wf(),
                    i < self.n_rows,
                    target == decode_projected_spec(self.bytes(), self.columns()),
                    k <= self.columns@.len(),
                    cells@.len() == k,
                    forall|j: int| 0 <= j < k ==> (#[trigger] cells@[j])@ == target[i as int][j],
                decreases self.columns@.len() - k,
            {
                match self.get(i, k) {
                    Some(cell) => cells.push(cell),
                    None => {
                        cells.push(Vec::new());
                    },
                }
                k = k + 1;
            }
            let ghost before = out.deep_view();
            let ghost cv = cells.deep_view();
            assert(cv =~= target[i as int]) by {
                assert forall|j: int| 0 <= j < self.columns@.len() implies #[trigger] cv[j]
                    == target[i as int][j] by {
                    assert(cv[j] =~= cells@[j]@);
                }
            }
            out.push(cells);
            assert(out.deep_view() =~= before.push(cv));
            assert(out.deep_view() =~= target.subrange(0, i + 1));
            i = i + 1;
        }
        assert(target.subrange(0, self.n_rows as int) =~= target);
        out
    }
}

} // verus!
