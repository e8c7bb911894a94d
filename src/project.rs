//! Column projection: each row reduced to chosen columns, in the chosen
//! order. A chosen column that a row lacks gives empty bytes, exactly as an
//! empty cell does.
use vstd::prelude::*;
use crate::decode::{decode_spec, lemma_decode_split, row_start, scan, unescape_doc, unescape_row};
use crate::escape::{unescape_bytes, unescape_spec, LF};
use crate::parallel::{
    available_workers, chunk_bounds, chunk_of, chunks_of, lemma_chunks, parallel_map,
    splits_at_row_starts, PARALLEL_THRESHOLD,
};

verus! {

/// A row reduced to the columns `cols`.
pub open spec fn project_row(row: Seq<Seq<u8>>, cols: Seq<usize>) -> Seq<Seq<u8>> {
    Seq::new(
        cols.len(),
        |k: int|
            if (cols[k] as int) < row.len() {
                row[cols[k] as int]
            } else {
                Seq::<u8>::empty()
            },
    )
}

/// Every row reduced to the columns `cols`.
pub open spec fn project_spec(doc: Seq<Seq<Seq<u8>>>, cols: Seq<usize>) -> Seq<Seq<Seq<u8>>> {
    Seq::new(doc.len(), |i: int| project_row(doc[i], cols))
}

/// The decoded rows of a buffer, reduced to the columns `cols`.
pub open spec fn decode_projected_spec(bytes: Seq<u8>, cols: Seq<usize>) -> Seq<Seq<Seq<u8>>> {
    project_spec(decode_spec(bytes), cols)
}

/// `wanted` tells, for each column below its length, whether some entry of
/// `cols` names it; any entry it does not cover lies beyond `limit`.
pub open spec fn column_table(wanted: Seq<bool>, cols: Seq<usize>, limit: int) -> bool {
    &&& forall|c: int|
        0 <= c < wanted.len() ==> (#[trigger] wanted[c] <==> exists|k: int|
            0 <= k < cols.len() && cols[k] == c)
    &&& (wanted.len() >= limit || forall|k: int|
        0 <= k < cols.len() ==> (#[trigger] cols[k]) < wanted.len())
}

/// Builds the column table for `cols`, covering no column at or beyond `limit`.
pub(crate) fn wanted_columns(cols: &[usize], limit: usize) -> (w: Vec<bool>)
    ensures
        column_table(w@, cols@, limit as int),
        w@.len() <= limit,
{
    let mut size: usize = 0;
    let mut k: usize = 0;
    while k < cols.len()
        invariant
            k <= cols@.len(),
            size <= limit,
            size >= limit || forall|j: int| 0 <= j < k ==> (#[trigger] cols@[j]) < size,
        decreases cols@.len() - k,
    {
        if size < limit {
            if cols[k] >= limit {
                size = limit;
            } else if cols[k] >= size {
                size = cols[k] + 1;
            }
        }
        k = k + 1;
    }
    let mut w: Vec<bool> = Vec::new();
    while w.len() < size
        invariant
            w@.len() <= size,
            forall|c: int| 0 <= c < w@.len() ==> !w@[c],
        decreases size - w@.len(),
    {
        w.push(false);
    }
    let mut k: usize = 0;
    while k < cols.len()
        invariant
            k <= cols@.len(),
            w@.len() == size,
            size <= limit,
            size >= limit || forall|j: int| 0 <= j < cols@.len() ==> (#[trigger] cols@[j]) < size,
            forall|c: int|
                0 <= c < w@.len() ==> (#[trigger] w@[c] <==> exists|j: int|
                    0 <= j < k && cols@[j] == c),
        decreases cols@.len() - k,
    {
        if cols[k] < size {
            w.set(cols[k], true);
        }
        proof {
            assert forall|c: int| 0 <= c < w@.len() implies (#[trigger] w@[c] <==> exists|j: int|
                0 <= j < k + 1 && cols@[j] == c) by {
                if c == cols@[k as int] {
                    assert(0 <= k < k + 1 && cols@[k as int] == c);
                }
                if w@[c] && c != cols@[k as int] {
                    let j = choose|j: int| 0 <= j < k && cols@[j] == c;
                    assert(0 <= j < k + 1 && cols@[j] == c);
                }
                if exists|j: int| 0 <= j < k + 1 && cols@[j] == c {
                    let j = choose|j: int| 0 <= j < k + 1 && cols@[j] == c;
                    if j < k {
                        assert(exists|j: int| 0 <= j < k && cols@[j] == c);
                    }
                }
            }
        }
        k = k + 1;
    }
    w
}

fn empty_slots(n: usize) -> (r: Vec<Vec<u8>>)
    ensures
        r.deep_view().len() == n,
        forall|k: int| 0 <= k < n ==> (#[trigger] r.deep_view()[k]) == Seq::<u8>::empty(),
{
    let mut r: Vec<Vec<u8>> = Vec::new();
    while r.len() < n
        invariant
            r@.len() <= n,
            forall|k: int| 0 <= k < r@.len() ==> (#[trigger] r@[k])@ == Seq::<u8>::empty(),
        decreases n - r@.len(),
    {
        r.push(Vec::new());
    }
    proof {
        assert forall|k: int| 0 <= k < n implies (#[trigger] r.deep_view()[k]) == Seq::<
            u8,
        >::empty() by {
            assert(r.deep_view()[k] =~= r@[k]@);
        }
    }
    r
}

/// Decodes `input[lo..hi]` in one pass, unescaping only the cells of the
/// columns in `cols` and skipping all others.
pub fn decode_projected_range(
    input: &[u8],
    lo: usize,
    hi: usize,
    cols: &[usize],
    wanted: &Vec<bool>,
) -> (r: Vec<Vec<Vec<u8>>>)
    requires
        lo <= hi <= input@.len(),
        column_table(wanted@, cols@, input@.len() as int),
    ensures
        r.deep_view() == decode_projected_spec(input@.subrange(lo as int, hi as int), cols@),
{
    let mut data: Vec<Vec<Vec<u8>>> = Vec::new();
    let mut slots = empty_slots(cols.len());
    let mut col: usize = 0;
    let mut start: usize = lo;
    let mut pos: usize = lo;
    assert(input@.subrange(lo as int, lo as int) =~= Seq::<u8>::empty());
    assert(data.deep_view() =~= project_spec(unescape_doc(Seq::<Seq<Seq<u8>>>::empty()), cols@));
    assert(slots.deep_view() =~= project_row(unescape_row(Seq::<Seq<u8>>::empty()), cols@));
    while pos < hi
        invariant
            lo <= start <= pos <= hi <= input@.len(),
            column_table(wanted@, cols@, input@.len() as int),
            data.deep_view() == project_spec(
                unescape_doc(scan(input@.subrange(lo as int, pos as int)).rows),
                cols@,
            ),
            slots.deep_view() == project_row(
                unescape_row(scan(input@.subrange(lo as int, pos as int)).row),
                cols@,
            ),
            col == scan(input@.subrange(lo as int, pos as int)).row.len(),
            col <= start - lo,
            input@.subrange(start as int, pos as int) == scan(
                input@.subrange(lo as int, pos as int),
            ).cur,
        decreases hi - pos,
    {
        let ghost prev = scan(input@.subrange(lo as int, pos as int));
        assert(input@.subrange(lo as int, pos + 1).drop_last() =~= input@.subrange(
            lo as int,
            pos as int,
        ));
        let b = input[pos];
        if b == LF {
            if pos > start {
                let ghost new_row = unescape_row(prev.row.push(prev.cur));
                assert(new_row[col as int] == unescape_spec(prev.cur));
                if col < wanted.len() && wanted[col] {
                    let mut k: usize = 0;
                    while k < cols.len()
                        invariant
                            k <= cols@.len(),
                            col == prev.row.len(),
                            input@.subrange(start as int, pos as int) == prev.cur,
                            start < pos <= input@.len(),
                            new_row == unescape_row(prev.row.push(prev.cur)),
                            slots.deep_view().len() == cols@.len(),
                            forall|j: int|
                                0 <= j < k ==> #[trigger] slots.deep_view()[j] == project_row(
                                    new_row,
                                    cols@,
                                )[j],
                            forall|j: int|
                                k <= j < cols@.len() ==> #[trigger] slots.deep_view()[j]
                                    == project_row(unescape_row(prev.row), cols@)[j],
                        decreases cols@.len() - k,
                    {
                        let ghost old_slots = slots@;
            let ghost old_dv = slots.deep_view();
                        let ghost old_dv = slots.deep_view();
                        if cols[k] == col {
                            let cell = unescape_bytes(
                                vstd::slice::slice_subrange(input, start, pos),
                            );
                            slots.set(k, cell);
                            assert(slots.deep_view()[k as int] =~= cell@);
                        }
                        proof {
                            assert forall|j: int| 0 <= j < cols@.len() && j != k implies
                                #[trigger] slots.deep_view()[j] == old_dv[j] by {
                                assert(slots@[j] == old_slots[j]);
                                assert(old_dv[j] == old_slots[j].deep_view());
                            }
                            let pk = project_row(new_row, cols@)[k as int];
                            if cols@[k as int] == col {
                                assert(pk == new_row[col as int]);
                            } else if cols@[k as int] > col {
                                assert(pk == Seq::<u8>::empty());
                            }
                            if cols@[k as int] < col {
                                assert(new_row[cols@[k as int] as int] == unescape_row(
                                    prev.row,
                                )[cols@[k as int] as int]);
                            }
                            if cols@[k as int] != col {
                                assert(slots@[k as int] == old_slots[k as int]);
                                assert(old_dv[k as int] == old_slots[k as int].deep_view());
                            }
                        }
                        k = k + 1;
                    }
                } else {
                    proof {
                        assert forall|j: int| 0 <= j < cols@.len() implies cols@[j] != col by {
                            if cols@[j] == col {
                                if col < wanted@.len() {
                                    assert(wanted@[col as int]);
                                } else {
                                    assert(wanted@.len() >= input@.len());
                                    assert(cols@[j] < wanted@.len());
                                }
                            }
                        }
                        assert forall|j: int| 0 <= j < cols@.len() implies #[trigger] project_row(
                            new_row,
                            cols@,
                        )[j] == project_row(unescape_row(prev.row), cols@)[j] by {
                            if (cols@[j] as int) < col {
                                assert(new_row[cols@[j] as int] == unescape_row(prev.row)[cols@[j]
                                    as int]);
                            }
                        }
                    }
                }
                assert(slots.deep_view() =~= project_row(new_row, cols@));
                col = col + 1;
            } else {
                let ghost old_data = data.deep_view();
                let ghost slot_view = slots.deep_view();
                data.push(slots);
                slots = empty_slots(cols.len());
                col = 0;
                assert(data.deep_view() =~= old_data.push(slot_view));
                assert(data.deep_view() =~= project_spec(
                    unescape_doc(prev.rows.push(prev.row)),
                    cols@,
                ));
                assert(slots.deep_view() =~= project_row(
                    unescape_row(Seq::<Seq<u8>>::empty()),
                    cols@,
                ));
            }
            start = pos + 1;
            assert(input@.subrange(start as int, pos + 1) =~= Seq::<u8>::empty());
        } else {
            assert(input@.subrange(start as int, pos + 1) =~= prev.cur.push(b));
        }
        pos = pos + 1;
    }
    let ghost st = scan(input@.subrange(lo as int, hi as int));
    let ghost last_row = if st.cur.len() > 0 {
        st.row.push(st.cur)
    } else {
        st.row
    };
    if start < hi {
        let ghost new_row = unescape_row(last_row);
        let mut k: usize = 0;
        while k < cols.len()
            invariant
                k <= cols@.len(),
                col == st.row.len(),
                input@.subrange(start as int, hi as int) == st.cur,
                start < hi <= input@.len(),
                st.cur.len() > 0,
                new_row == unescape_row(st.row.push(st.cur)),
                slots.deep_view().len() == cols@.len(),
                forall|j: int|
                    0 <= j < k ==> #[trigger] slots.deep_view()[j] == project_row(new_row, cols@)[j],
                forall|j: int|
                    k <= j < cols@.len() ==> #[trigger] slots.deep_view()[j] == project_row(
                        unescape_row(st.row),
                        cols@,
                    )[j],
            decreases cols@.len() - k,
        {
            let ghost old_slots = slots@;
            let ghost old_dv = slots.deep_view();
            if cols[k] == col {
                let cell = unescape_bytes(vstd::slice::slice_subrange(input, start, hi));
                slots.set(k, cell);
                assert(slots.deep_view()[k as int] =~= cell@);
            }
            proof {
                assert forall|j: int| 0 <= j < cols@.len() && j != k implies
                    #[trigger] slots.deep_view()[j] == old_dv[j] by {
                    assert(slots@[j] == old_slots[j]);
                    assert(old_dv[j] == old_slots[j].deep_view());
                }
                let pk = project_row(new_row, cols@)[k as int];
                if cols@[k as int] == col {
                    assert(pk == new_row[col as int]);
                    assert(new_row[col as int] == unescape_spec(st.cur));
                } else if cols@[k as int] > col {
                    assert(pk == Seq::<u8>::empty());
                }
                if cols@[k as int] < col {
                    assert(new_row[cols@[k as int] as int] == unescape_row(st.row)[cols@[k as int]
                        as int]);
                }
                if cols@[k as int] != col {
                    assert(slots@[k as int] == old_slots[k as int]);
                    assert(old_dv[k as int] == old_slots[k as int].deep_view());
                }
            }
            k = k + 1;
        }
        assert(slots.deep_view() =~= project_row(new_row, cols@));
        col = col + 1;
    }
    assert(slots.deep_view() =~= project_row(unescape_row(last_row), cols@));
    if col > 0 {
        let ghost old_data = data.deep_view();
        let ghost slot_view = slots.deep_view();
        data.push(slots);
        assert(data.deep_view() =~= old_data.push(slot_view));
        assert(data.deep_view() =~= project_spec(unescape_doc(st.rows.push(last_row)), cols@));
    }
    data
}

/// Projection splits at row starts, as decoding does.
pub proof fn lemma_projected_splits(cols: Seq<usize>)
    ensures
        splits_at_row_starts(|b: Seq<u8>| decode_projected_spec(b, cols)),
{
    assert(decode_projected_spec(Seq::<u8>::empty(), cols) =~= Seq::<Seq<Seq<u8>>>::empty()) by {
        assert(decode_spec(Seq::<u8>::empty()) =~= Seq::<Seq<Seq<u8>>>::empty());
    }
    assert forall|bytes: Seq<u8>, p: int|
        0 <= p <= bytes.len() && #[trigger] row_start(bytes, p) implies decode_projected_spec(
        bytes,
        cols,
    ) == decode_projected_spec(bytes.subrange(0, p), cols) + decode_projected_spec(
        bytes.subrange(p, bytes.len() as int),
        cols,
    ) by {
        lemma_decode_split(bytes, p);
        let a = decode_spec(bytes.subrange(0, p));
        let b = decode_spec(bytes.subrange(p, bytes.len() as int));
        assert(project_spec(a + b, cols) =~= project_spec(a, cols) + project_spec(b, cols));
    }
}

/// Decodes only the columns `cols` of each row, with the input cut into
/// row-aligned chunks for `workers` workers and the chunks run in parallel.
pub fn decode_projected_parallel(input: &[u8], cols: &[usize], workers: usize) -> (r: Vec<
    Vec<Vec<u8>>,
>)
    ensures
        r.deep_view() == decode_projected_spec(input@, cols@),
{
    let wanted = wanted_columns(cols, input.len());
    let bounds = match chunk_bounds(input, workers) {
        Some(bounds) => bounds,
        None => {
            assert(input@.subrange(0, input@.len() as int) =~= input@);
            return decode_projected_range(input, 0, input.len(), cols, &wanted);
        },
    };
    let ghost b = bounds@;
    let ghost f = |x: Seq<u8>| decode_projected_spec(x, cols@);
    let n = bounds.len() - 1;
    let bref = &bounds;
    let wref = &wanted;
    let decode_chunk = (move |c: usize| -> (part: Vec<Vec<Vec<u8>>>)
        requires
            c < n,
            n + 1 == bref@.len(),
            crate::parallel::valid_bounds(input@, bref@),
            column_table(wref@, cols@, input@.len() as int),
        ensures
            part.deep_view() == decode_projected_spec(chunk_of(input@, bref@, c as int), cols@),
        {
            let next = c + 1;
            decode_projected_range(input, bref[c], bref[next], cols, wref)
        });
    let mut parts = parallel_map(n, decode_chunk);
    assert forall|j: int| 0 <= j < n implies (#[trigger] parts@[j]).deep_view()
        == decode_projected_spec(chunk_of(input@, b, j), cols@) by {
        assert(decode_chunk.ensures((j as usize,), parts@[j]));
    }
    let mut out: Vec<Vec<Vec<u8>>> = Vec::new();
    let mut c: usize = 0;
    assert(chunks_of(f, input@, b.subrange(0, 1)) =~= Seq::<Seq<Seq<u8>>>::empty());
    assert(out.deep_view() =~= Seq::<Seq<Seq<u8>>>::empty());
    while c < n
        invariant
            n + 1 == b.len(),
            b == bounds@,
            f == (|x: Seq<u8>| decode_projected_spec(x, cols@)),
            parts@.len() == n,
            forall|j: int|
                c <= j < n ==> (#[trigger] parts@[j]).deep_view() == decode_projected_spec(
                    chunk_of(input@, b, j),
                    cols@,
                ),
            out.deep_view() == chunks_of(f, input@, b.subrange(0, c + 1)),
            c <= n,
        decreases n - c,
    {
        let mut part: Vec<Vec<Vec<u8>>> = Vec::new();
        parts.set_and_swap(c, &mut part);
        let ghost before = out.deep_view();
        let ghost pv = part.deep_view();
        out.append(&mut part);
        assert(out.deep_view() =~= before + pv);
        let ghost bb = b.subrange(0, c + 2);
        assert(bb.drop_last() =~= b.subrange(0, c + 1));
        assert(bb[bb.len() - 2] == b[c as int] && bb.last() == b[c + 1]);
        c = c + 1;
    }
    proof {
        assert(b.subrange(0, n + 1) =~= b);
        lemma_projected_splits(cols@);
        lemma_chunks(f, input@, b);
        assert(input@.subrange(0, input@.len() as int) =~= input@);
    }
    out
}

/// Decodes only the columns `cols` of each row, for any list of columns:
/// reordered, repeated, or beyond a row's width (those give empty bytes).
/// Runs sequentially below the size threshold, else in parallel chunks.
pub fn decode_projected(input: &[u8], cols: &[usize]) -> (r: Vec<Vec<Vec<u8>>>)
    ensures
        r.deep_view() == decode_projected_spec(input@, cols@),
{
    if input.len() < PARALLEL_THRESHOLD {
        let wanted = wanted_columns(cols, input.len());
        assert(input@.subrange(0, input@.len() as int) =~= input@);
        return decode_projected_range(input, 0, input.len(), cols, &wanted);
    }
    decode_projected_parallel(input, cols, available_workers())
}

} // verus!
