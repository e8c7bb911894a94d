//! Chunk planning and the parallel decoder.
//!
//! Large inputs are cut at row starts into contiguous chunks, each chunk is
//! decoded on its own, and the results are joined in chunk order.
use vstd::prelude::*;
use crate::decode::{
    decode_range, decode_sequential, decode_spec, lemma_decode_split, lemma_structure_split,
    row_start, structure_spec,
};
use crate::escape::LF;
use rayon::iter::{IntoParallelIterator, ParallelIterator};

verus! {

/// Below this many bytes, decoding always runs sequentially.
pub const PARALLEL_THRESHOLD: usize = 65536;

/// `needle` occurs in `hay` starting at `i`.
pub open spec fn occurs_at(hay: Seq<u8>, needle: Seq<u8>, i: int) -> bool {
    0 <= i && i + needle.len() <= hay.len() && hay.subrange(i, i + needle.len()) == needle
}

/// Relies on memchr::memmem::find: the index of the first occurrence of the
/// needle in the haystack, or `None` when there is none.
#[verifier::external_body]
fn find_first(hay: &[u8], needle: &[u8]) -> (r: Option<usize>)
    ensures
        match r {
            Some(i) => occurs_at(hay@, needle@, i as int) && forall|j: int|
                0 <= j < i ==> !occurs_at(hay@, needle@, j),
            None => forall|j: int| 0 <= j ==> !occurs_at(hay@, needle@, j),
        },
{
    memchr::memmem::find(hay, needle)
}

/// Relies on rayon::current_num_threads: the size of the current thread pool.
/// Nothing is promised of the number.
#[verifier::external_body]
pub(crate) fn available_workers() -> (r: usize) {
    rayon::current_num_threads()
}

/// Relies on rayon's indexed parallel map and `collect` into a `Vec`: `f` is
/// applied to each index below `n`, and the results come back in index order.
#[verifier::external_body]
pub(crate) fn parallel_map<R: Send, F: Fn(usize) -> R + Sync + Send>(n: usize, f: F) -> (r: Vec<R>)
    requires
        forall|i: usize| i < n ==> #[trigger] f.requires((i,)),
    ensures
        r@.len() == n,
        forall|i: usize| i < n ==> #[trigger] f.ensures((i,), r@[i as int]),
{
    (0..n).into_par_iter().map(f).collect()
}

/// Split points: strictly increasing positions inside the input, each right
/// after two LF bytes.
pub open spec fn valid_splits(bytes: Seq<u8>, splits: Seq<usize>) -> bool {
    &&& forall|k: int|
        0 <= k < splits.len() ==> 2 <= #[trigger] splits[k] < bytes.len() && bytes[splits[k]
            - 1] == LF && bytes[splits[k] - 2] == LF
    &&& forall|k: int, l: int| 0 <= k < l < splits.len() ==> splits[k] < splits[l]
}

/// Chunk bounds: the start of input, the split points, the end of input.
pub open spec fn bounds_of(splits: Seq<usize>, n: usize) -> Seq<usize> {
    seq![0usize] + splits + seq![n]
}

/// Bounds that cut `bytes` into row-aligned chunks.
pub open spec fn valid_bounds(bytes: Seq<u8>, b: Seq<usize>) -> bool {
    &&& b.len() >= 1
    &&& b[0] == 0
    &&& b.last() <= bytes.len()
    &&& forall|k: int, l: int| 0 <= k <= l < b.len() ==> b[k] <= b[l]
    &&& forall|k: int|
        0 <= k < b.len() - 1 ==> (#[trigger] b[k] == 0 || (b[k] >= 2 && bytes[b[k] - 1] == LF
            && bytes[b[k] - 2] == LF))
}

/// The chunk between bounds `c` and `c + 1`.
pub open spec fn chunk_of(bytes: Seq<u8>, b: Seq<usize>, c: int) -> Seq<u8> {
    bytes.subrange(b[c] as int, b[c + 1] as int)
}

/// `f` maps a buffer to rows, and a buffer cut at a row start maps to the
/// rows of the part before followed by the rows of the part after.
pub open spec fn splits_at_row_starts(f: spec_fn(Seq<u8>) -> Seq<Seq<Seq<u8>>>) -> bool {
    &&& f(Seq::<u8>::empty()) == Seq::<Seq<Seq<u8>>>::empty()
    &&& forall|bytes: Seq<u8>, p: int|
        0 <= p <= bytes.len() && #[trigger] row_start(bytes, p) ==> f(bytes) == f(
            bytes.subrange(0, p),
        ) + f(bytes.subrange(p, bytes.len() as int))
}

/// `f` of each chunk, joined in order.
pub open spec fn chunks_of(
    f: spec_fn(Seq<u8>) -> Seq<Seq<Seq<u8>>>,
    bytes: Seq<u8>,
    b: Seq<usize>,
) -> Seq<Seq<Seq<u8>>>
    decreases b.len(),
{
    if b.len() < 2 {
        seq![]
    } else {
        chunks_of(f, bytes, b.drop_last()) + f(
            bytes.subrange(b[b.len() - 2] as int, b.last() as int),
        )
    }
}

/// For a map that splits at row starts, mapping row-aligned chunks
/// separately and joining the results in order gives the map of the whole.
pub proof fn lemma_chunks(f: spec_fn(Seq<u8>) -> Seq<Seq<Seq<u8>>>, bytes: Seq<u8>, b: Seq<usize>)
    requires
        splits_at_row_starts(f),
        valid_bounds(bytes, b),
    ensures
        chunks_of(f, bytes, b) == f(bytes.subrange(0, b.last() as int)),
    decreases b.len(),
{
    if b.len() == 1 {
        assert(bytes.subrange(0, 0) =~= Seq::<u8>::empty());
    } else {
        let b1 = b.drop_last();
        assert(valid_bounds(bytes, b1)) by {
            assert forall|k: int| 0 <= k < b1.len() - 1 implies (#[trigger] b1[k] == 0 || (b1[k]
                >= 2 && bytes[b1[k] - 1] == LF && bytes[b1[k] - 2] == LF)) by {
                assert(b1[k] == b[k]);
            }
            assert(b1.last() == b[b.len() - 2]);
        }
        lemma_chunks(f, bytes, b1);
        let p = b[b.len() - 2] as int;
        let q = b.last() as int;
        let pre = bytes.subrange(0, q);
        assert(b[b.len() - 2] == 0 || (b[b.len() - 2] >= 2 && bytes[p - 1] == LF && bytes[p - 2]
            == LF));
        assert(row_start(pre, p));
        assert(pre.subrange(0, p) =~= bytes.subrange(0, p));
        assert(pre.subrange(p, q) =~= bytes.subrange(p, q));
    }
}

/// Decoding splits at row starts.
pub proof fn lemma_decode_splits()
    ensures
        splits_at_row_starts(|b: Seq<u8>| decode_spec(b)),
{
    assert(decode_spec(Seq::<u8>::empty()) =~= Seq::<Seq<Seq<u8>>>::empty());
    assert forall|bytes: Seq<u8>, p: int|
        0 <= p <= bytes.len() && #[trigger] row_start(bytes, p) implies decode_spec(bytes)
        == decode_spec(bytes.subrange(0, p)) + decode_spec(bytes.subrange(p, bytes.len() as int)) by {
        lemma_decode_split(bytes, p);
    }
}

/// Finding the raw structure splits at row starts.
pub proof fn lemma_structure_splits()
    ensures
        splits_at_row_starts(|b: Seq<u8>| structure_spec(b)),
{
    assert(structure_spec(Seq::<u8>::empty()) =~= Seq::<Seq<Seq<u8>>>::empty());
    assert forall|bytes: Seq<u8>, p: int|
        0 <= p <= bytes.len() && #[trigger] row_start(bytes, p) implies structure_spec(bytes)
        == structure_spec(bytes.subrange(0, p)) + structure_spec(
            bytes.subrange(p, bytes.len() as int),
        ) by {
        lemma_structure_split(bytes, p);
    }
}

/// Picks the split points for `workers` chunks: from each nominal offset
/// `i * (len / workers)`, the first row terminator at or after it, or after
/// the previous split point when that lies further on.
fn plan_chunks(input: &[u8], workers: usize) -> (splits: Vec<usize>)
    ensures
        valid_splits(input@, splits@),
{
    let len = input.len();
    let mut splits: Vec<usize> = Vec::new();
    if workers < 2 {
        return splits;
    }
    let step = len / workers;
    let mut needle: Vec<u8> = Vec::new();
    needle.push(LF);
    needle.push(LF);
    let mut nominal: usize = 0;
    let mut last: usize = 0;
    let mut i: usize = 1;
    while i < workers
        invariant
            len == input@.len(),
            needle@ == seq![LF, LF],
            nominal <= len,
            last <= len,
            valid_splits(input@, splits@),
            splits@.len() == 0 ==> last == 0,
            splits@.len() > 0 ==> last == splits@.last(),
        decreases workers - i,
    {
        nominal = if step <= len - nominal {
            nominal + step
        } else {
            len
        };
        let from = if nominal > last {
            nominal
        } else {
            last
        };
        let hay = vstd::slice::slice_subrange(input, from, len);
        match find_first(hay, needle.as_slice()) {
            Some(off) => {
                assert(hay@.subrange(off as int, off + 2) == seq![LF, LF]);
                assert(hay@[off as int] == LF && hay@[off + 1] == LF) by {
                    assert(hay@.subrange(off as int, off + 2)[0] == hay@[off as int]);
                    assert(hay@.subrange(off as int, off + 2)[1] == hay@[off + 1]);
                }
                let p = from + off + 2;
                if p < len {
                    assert(input@[p - 1] == hay@[off + 1]);
                    assert(input@[p - 2] == hay@[off as int]);
                    splits.push(p);
                    last = p;
                }
            },
            None => {
                break;
            },
        }
        i = i + 1;
    }
    splits
}

/// The chunk bounds for `workers` workers: the start of input, the split
/// points, the end of input; `None` when fewer than two chunks come out.
pub(crate) fn chunk_bounds(input: &[u8], workers: usize) -> (r: Option<Vec<usize>>)
    ensures
        r matches Some(b) ==> valid_bounds(input@, b@) && b@.len() >= 3 && b@.last()
            == input@.len(),
{
    let splits = plan_chunks(input, workers);
    if splits.len() == 0 {
        return None;
    }
    let mut bounds: Vec<usize> = Vec::new();
    bounds.push(0);
    let mut k: usize = 0;
    while k < splits.len()
        invariant
            valid_splits(input@, splits@),
            bounds@ == seq![0usize] + splits@.subrange(0, k as int),
            k <= splits@.len(),
        decreases splits@.len() - k,
    {
        bounds.push(splits[k]);
        assert(bounds@ =~= seq![0usize] + splits@.subrange(0, k + 1));
        k = k + 1;
    }
    bounds.push(input.len());
    let ghost b = bounds@;
    assert(b =~= bounds_of(splits@, input@.len() as usize));
    assert(valid_bounds(input@, b)) by {
        assert(splits@.subrange(0, splits@.len() as int) =~= splits@);
        assert forall|k: int, l: int| 0 <= k <= l < b.len() implies b[k] <= b[l] by {
            if k > 0 && l < b.len() - 1 && k < l {
                assert(b[k] == splits@[k - 1] && b[l] == splits@[l - 1]);
            }
            if k > 0 && k < b.len() - 1 {
                assert(b[k] == splits@[k - 1]);
            }
        }
        assert forall|k: int| 0 <= k < b.len() - 1 implies (#[trigger] b[k] == 0 || (b[k] >= 2
            && input@[b[k] - 1] == LF && input@[b[k] - 2] == LF)) by {
            if k > 0 {
                assert(b[k] == splits@[k - 1]);
            }
        }
    }
    Some(bounds)
}

/// Decodes with the input cut into row-aligned chunks for `workers` workers,
/// the chunks decoded in parallel and joined in order. The result is the same
/// as a sequential decode for every worker count.
pub fn decode_parallel(input: &[u8], workers: usize) -> (r: Vec<Vec<Vec<u8>>>)
    ensures
        r.deep_view() == decode_spec(input@),
{
    let bounds = match chunk_bounds(input, workers) {
        Some(bounds) => bounds,
        None => {
            return decode_sequential(input);
        },
    };
    let ghost b = bounds@;
    let n = bounds.len() - 1;
    let bref = &bounds;
    let decode_chunk = (move |c: usize| -> (part: Vec<Vec<Vec<u8>>>)
            requires
                c < n,
                n + 1 == bref@.len(),
                valid_bounds(input@, bref@),
            ensures
                part.deep_view() == decode_spec(chunk_of(input@, bref@, c as int)),
            {
                let next = c + 1;
                decode_range(input, bref[c], bref[next])
            });
    let mut parts = parallel_map(n, decode_chunk);
    assert forall|j: int| 0 <= j < n implies (#[trigger] parts@[j]).deep_view() == decode_spec(
        chunk_of(input@, b, j),
    ) by {
        assert(decode_chunk.ensures((j as usize,), parts@[j]));
    }
    let mut out: Vec<Vec<Vec<u8>>> = Vec::new();
    let mut c: usize = 0;
    assert(b.subrange(0, 1).len() == 1);
    assert(chunks_of(|x: Seq<u8>| decode_spec(x), input@, b.subrange(0, 1))
        =~= Seq::<Seq<Seq<u8>>>::empty());
    assert(out.deep_view() =~= Seq::<Seq<Seq<u8>>>::empty());
    while c < n
        invariant
            n + 1 == b.len(),
            b == bounds@,
            parts@.len() == n,
            forall|j: int|
                c <= j < n ==> (#[trigger] parts@[j]).deep_view() == decode_spec(
                    chunk_of(input@, b, j),
                ),
            out.deep_view() == chunks_of(|x: Seq<u8>| decode_spec(x), input@, b.subrange(0, c + 1)),
            c <= n,
        decreases n - c,
    {
        let mut part: Vec<Vec<Vec<u8>>> = Vec::new();
        parts.set_and_swap(c, &mut part);
        let ghost before = out.deep_view();
        let ghost pv = part.deep_view();
        out.append(&mut part);
        assert(out.deep_view() =~= before + pv);
        let ghost bb = b.subrange(0, c + 2);
        assert(bb.drop_last() =~= b.subrange(0, c + 1));
        assert(bb[bb.len() - 2] == b[c as int] && bb.last() == b[c + 1]);
        c = c + 1;
    }
    proof {
        assert(b.subrange(0, n + 1) =~= b);
        lemma_decode_splits();
        lemma_chunks(|x: Seq<u8>| decode_spec(x), input@, b);
        assert(input@.subrange(0, input@.len() as int) =~= input@);
    }
    out
}

/// Decodes a buffer: sequentially below the size threshold, else in
/// row-aligned chunks across the available workers.
pub fn decode_bytes(input: &[u8]) -> (r: Vec<Vec<Vec<u8>>>)
    ensures
        r.deep_view() == decode_spec(input@),
{
    if input.len() < PARALLEL_THRESHOLD {
        return decode_sequential(input);
    }
    decode_parallel(input, available_workers())
}

} // verus!
