//! Structural helpers: escaping at depth two, and moving a dimension into or
//! out of a flat sequence through terminator markers.
//!
//! Encoding factors as spilling with LF, after spilling with the empty
//! string, after escaping every cell; decoding as the reverse steps. Unlike
//! the decoder, the unspilling helpers here are strict: an unterminated
//! trailing group is dropped.
use vstd::prelude::*;
use vstd::std_specs::cmp::PartialEqSpec;
use vstd::utf8::encode_utf8;
use crate::escape::{escape_spec, unescape_spec};
use crate::text::{escape, unescape, utf8_doc};

verus! {

/// `f` applied to every cell of a document.
pub open spec fn map_cells(d: Seq<Seq<Seq<u8>>>, f: spec_fn(Seq<u8>) -> Seq<u8>) -> Seq<
    Seq<Seq<u8>>,
> {
    Seq::new(d.len(), |i: int| Seq::new(d[i].len(), |j: int| f(d[i][j])))
}

/// The contents of each vector.
pub open spec fn views<T>(d: Seq<Vec<T>>) -> Seq<Seq<T>> {
    Seq::new(d.len(), |i: int| d[i]@)
}

/// The groups one after another, each followed by the marker.
pub open spec fn spill_spec<A>(d: Seq<Seq<A>>, m: A) -> Seq<A>
    decreases d.len(),
{
    if d.len() == 0 {
        seq![]
    } else {
        spill_spec(d.drop_last(), m) + d.last() + seq![m]
    }
}

/// The groups that markers have closed, and the items after the last marker.
pub open spec fn unspill_parts<A>(s: Seq<A>, is_marker: spec_fn(A) -> bool) -> (
    Seq<Seq<A>>,
    Seq<A>,
)
    decreases s.len(),
{
    if s.len() == 0 {
        (seq![], seq![])
    } else {
        let (groups, open) = unspill_parts(s.drop_last(), is_marker);
        if is_marker(s.last()) {
            (groups.push(open), seq![])
        } else {
            (groups, open.push(s.last()))
        }
    }
}

/// The groups that markers close; items after the last marker are dropped.
pub open spec fn unspill_spec<A>(s: Seq<A>, is_marker: spec_fn(A) -> bool) -> Seq<Seq<A>> {
    unspill_parts(s, is_marker).0
}

proof fn lemma_parts_append_plain<A>(s: Seq<A>, t: Seq<A>, is_marker: spec_fn(A) -> bool)
    requires
        forall|k: int| 0 <= k < t.len() ==> !is_marker(#[trigger] t[k]),
    ensures
        unspill_parts(s + t, is_marker) == (unspill_parts(s, is_marker).0, unspill_parts(
            s,
            is_marker,
        ).1 + t),
    decreases t.len(),
{
    if t.len() == 0 {
        assert(s + t =~= s);
        assert(unspill_parts(s, is_marker).1 + t =~= unspill_parts(s, is_marker).1);
    } else {
        let t1 = t.drop_last();
        lemma_parts_append_plain(s, t1, is_marker);
        assert((s + t).drop_last() =~= s + t1);
        assert((s + t).last() == t[t.len() - 1]);
        assert((unspill_parts(s, is_marker).1 + t1).push(t.last()) =~= unspill_parts(
            s,
            is_marker,
        ).1 + t);
    }
}

/// Spilled groups are recovered by unspilling, as long as no item of a
/// group is itself a marker.
pub proof fn lemma_unspill_spill<A>(d: Seq<Seq<A>>, m: A, is_marker: spec_fn(A) -> bool)
    requires
        is_marker(m),
        forall|i: int, j: int| 0 <= i < d.len() && 0 <= j < d[i].len() ==> !is_marker(#[trigger] d[i][j]),
    ensures
        unspill_parts(spill_spec(d, m), is_marker) == (d, Seq::<A>::empty()),
        unspill_spec(spill_spec(d, m), is_marker) == d,
    decreases d.len(),
{
    if d.len() == 0 {
        assert(d =~= Seq::<Seq<A>>::empty());
    } else {
        let d1 = d.drop_last();
        let last = d.last();
        assert forall|i: int, j: int| 0 <= i < d1.len() && 0 <= j < d1[i].len() implies !is_marker(
            #[trigger] d1[i][j],
        ) by {
            assert(d1[i] == d[i]);
        }
        lemma_unspill_spill(d1, m, is_marker);
        assert forall|k: int| 0 <= k < last.len() implies !is_marker(#[trigger] last[k]) by {
            assert(last == d[d.len() - 1]);
        }
        lemma_parts_append_plain(spill_spec(d1, m), last, is_marker);
        let s = spill_spec(d, m);
        assert(s.drop_last() =~= spill_spec(d1, m) + last);
        assert(s.last() == m);
        assert(Seq::<A>::empty() + last =~= last);
        assert(d1.push(last) =~= d);
    }
}

proof fn lemma_spill_parts<A>(s: Seq<A>, m: A, is_marker: spec_fn(A) -> bool)
    requires
        forall|k: int| 0 <= k < s.len() && is_marker(#[trigger] s[k]) ==> s[k] == m,
    ensures
        spill_spec(unspill_parts(s, is_marker).0, m) + unspill_parts(s, is_marker).1 == s,
    decreases s.len(),
{
    if s.len() == 0 {
        assert(Seq::<A>::empty() + Seq::<A>::empty() =~= s);
    } else {
        let s1 = s.drop_last();
        assert forall|k: int| 0 <= k < s1.len() && is_marker(#[trigger] s1[k]) implies s1[k] == m by {
            assert(s1[k] == s[k]);
        }
        lemma_spill_parts(s1, m, is_marker);
        let (groups, open) = unspill_parts(s1, is_marker);
        assert(s.last() == s[s.len() - 1]);
        if is_marker(s.last()) {
            assert(groups.push(open).drop_last() =~= groups);
            assert(s1.push(s.last()) =~= s);
            assert(spill_spec(groups.push(open), m) + Seq::<A>::empty() =~= s);
        } else {
            assert(spill_spec(groups, m) + open.push(s.last()) =~= (spill_spec(groups, m)
                + open).push(s.last()));
            assert(s1.push(s.last()) =~= s);
        }
    }
}

/// Unspilling then spilling gives back a sequence that is empty or ends
/// with a marker, when every marker in it is `m`.
pub proof fn lemma_spill_unspill<A>(s: Seq<A>, m: A, is_marker: spec_fn(A) -> bool)
    requires
        forall|k: int| 0 <= k < s.len() && is_marker(#[trigger] s[k]) ==> s[k] == m,
        s.len() == 0 || is_marker(s.last()),
    ensures
        spill_spec(unspill_spec(s, is_marker), m) == s,
{
    lemma_spill_parts(s, m, is_marker);
    if s.len() > 0 {
        assert(unspill_parts(s, is_marker).1 =~= Seq::<A>::empty());
    }
    assert(spill_spec(unspill_spec(s, is_marker), m) + Seq::<A>::empty() =~= spill_spec(
        unspill_spec(s, is_marker),
        m,
    ));
}

/// Each item of `b` is a clone of the item of `a` at the same place.
pub open spec fn clones_of<T: Clone>(a: Seq<T>, b: Seq<T>) -> bool {
    a.len() == b.len() && forall|k: int| 0 <= k < a.len() ==> cloned(a[k], #[trigger] b[k])
}

/// Escapes every cell.
pub fn escape_seqseq(seqseq: &[Vec<String>]) -> (r: Vec<Vec<String>>)
    ensures
        utf8_doc(r@) == map_cells(utf8_doc(seqseq@), |c: Seq<u8>| escape_spec(c)),
{
    let ghost target = map_cells(utf8_doc(seqseq@), |c: Seq<u8>| escape_spec(c));
    let mut out: Vec<Vec<String>> = Vec::new();
    let mut i: usize = 0;
    while i < seqseq.len()
        invariant
            i <= seqseq@.len(),
            target == map_cells(utf8_doc(seqseq@), |c: Seq<u8>| escape_spec(c)),
            utf8_doc(out@) == target.subrange(0, i as int),
        decreases seqseq@.len() - i,
    {
        let row = &seqseq[i];
        let mut cells: Vec<String> = Vec::new();
        let mut j: usize = 0;
        while j < row.len()
            invariant
                i < seqseq@.len(),
                row == seqseq@[i as int],
                j <= row@.len(),
                cells@.len() == j,
                forall|k: int|
                    0 <= k < j ==> encode_utf8((#[trigger] cells@[k])@) == escape_spec(
                        encode_utf8(row@[k]@),
                    ),
            decreases row@.len() - j,
        {
            cells.push(escape(row[j].as_str()));
            j = j + 1;
        }
        let ghost before = out@;
        assert(before.len() == i) by {
            assert(utf8_doc(before).len() == i);
        }
        out.push(cells);
        assert(out@ == before.push(out@[i as int]));
        assert(utf8_doc(out@) =~= target.subrange(0, i + 1)) by {
            assert forall|k: int| 0 <= k <= i implies #[trigger] utf8_doc(out@)[k] == target[k] by {
                if k < i {
                    assert(utf8_doc(before)[k] == target[k]);
                    assert(utf8_doc(out@)[k] =~= utf8_doc(before)[k]);
                } else {
                    assert(utf8_doc(out@)[k] =~= target[k]);
                }
            }
        }
        i = i + 1;
    }
    assert(target.subrange(0, seqseq@.len() as int) =~= target);
    out
}

/// Unescapes every cell.
pub fn unescape_seqseq(seqseq: &[Vec<String>]) -> (r: Vec<Vec<String>>)
    ensures
        utf8_doc(r@) == map_cells(utf8_doc(seqseq@), |c: Seq<u8>| unescape_spec(c)),
{
    let ghost target = map_cells(utf8_doc(seqseq@), |c: Seq<u8>| unescape_spec(c));
    let mut out: Vec<Vec<String>> = Vec::new();
    let mut i: usize = 0;
    while i < seqseq.len()
        invariant
            i <= seqseq@.len(),
            target == map_cells(utf8_doc(seqseq@), |c: Seq<u8>| unescape_spec(c)),
            utf8_doc(out@) == target.subrange(0, i as int),
        decreases seqseq@.len() - i,
    {
        let row = &seqseq[i];
        let mut cells: Vec<String> = Vec::new();
        let mut j: usize = 0;
        while j < row.len()
            invariant
                i < seqseq@.len(),
                row == seqseq@[i as int],
                j <= row@.len(),
                cells@.len() == j,
                forall|k: int|
                    0 <= k < j ==> encode_utf8((#[trigger] cells@[k])@) == unescape_spec(
                        encode_utf8(row@[k]@),
                    ),
            decreases row@.len() - j,
        {
            cells.push(unescape(row[j].as_str()));
            j = j + 1;
        }
        let ghost before = out@;
        assert(before.len() == i) by {
            assert(utf8_doc(before).len() == i);
        }
        out.push(cells);
        assert(out@ == before.push(out@[i as int]));
        assert(utf8_doc(out@) =~= target.subrange(0, i + 1)) by {
            assert forall|k: int| 0 <= k <= i implies #[trigger] utf8_doc(out@)[k] == target[k] by {
                if k < i {
                    assert(utf8_doc(before)[k] == target[k]);
                    assert(utf8_doc(out@)[k] =~= utf8_doc(before)[k]);
                } else {
                    assert(utf8_doc(out@)[k] =~= target[k]);
                }
            }
        }
        i = i + 1;
    }
    assert(target.subrange(0, seqseq@.len() as int) =~= target);
    out
}

/// Flattens the groups, each followed by a clone of the marker.
pub fn spill<T: Clone>(seqseq: &[Vec<T>], marker: T) -> (r: Vec<T>)
    ensures
        clones_of(spill_spec(views(seqseq@), marker), r@),
{
    let ghost d = views(seqseq@);
    let mut seq: Vec<T> = Vec::new();
    let mut i: usize = 0;
    assert(d.subrange(0, 0) =~= Seq::<Seq<T>>::empty());
    while i < seqseq.len()
        invariant
            i <= seqseq@.len(),
            d == views(seqseq@),
            clones_of(spill_spec(d.subrange(0, i as int), marker), seq@),
        decreases seqseq@.len() - i,
    {
        let row = &seqseq[i];
        let ghost base = spill_spec(d.subrange(0, i as int), marker);
        let mut j: usize = 0;
        assert(base + row@.subrange(0, 0) =~= base);
        while j < row.len()
            invariant
                j <= row@.len(),
                clones_of(base + row@.subrange(0, j as int), seq@),
            decreases row@.len() - j,
        {
            let item = row[j].clone();
            let ghost before = seq@;
            seq.push(item);
            assert(base + row@.subrange(0, j + 1) =~= (base + row@.subrange(0, j as int)).push(
                row@[j as int],
            ));
            assert(clones_of(base + row@.subrange(0, j + 1), seq@)) by {
                let a = base + row@.subrange(0, j + 1);
                assert forall|k: int| 0 <= k < a.len() implies cloned(a[k], #[trigger] seq@[k]) by {
                    if k < before.len() {
                        assert(seq@[k] == before[k]);
                    }
                }
            }
            j = j + 1;
        }
        let m = marker.clone();
        let ghost before = seq@;
        seq.push(m);
        let ghost next = d.subrange(0, i + 1);
        assert(next.drop_last() =~= d.subrange(0, i as int));
        assert(next.last() == row@);
        assert(row@.subrange(0, row@.len() as int) =~= row@);
        assert(clones_of(spill_spec(next, marker), seq@)) by {
            let a = spill_spec(next, marker);
            assert(a =~= (base + row@).push(marker));
            assert forall|k: int| 0 <= k < a.len() implies cloned(a[k], #[trigger] seq@[k]) by {
                if k < before.len() {
                    assert(seq@[k] == before[k]);
                }
            }
        }
        i = i + 1;
    }
    assert(d.subrange(0, seqseq@.len() as int) =~= d);
    seq
}

/// The groups closed by the positions flagged in `marks`, and the items
/// after the last flagged position.
pub open spec fn unspill_marked<A>(s: Seq<A>, marks: Seq<bool>) -> (Seq<Seq<A>>, Seq<A>)
    decreases s.len(),
{
    if s.len() == 0 {
        (seq![], seq![])
    } else {
        let (groups, open) = unspill_marked(s.drop_last(), marks.drop_last());
        if marks.last() {
            (groups.push(open), seq![])
        } else {
            (groups, open.push(s.last()))
        }
    }
}

/// `marks[k]` is what `==` returns on item `k` and the marker.
pub open spec fn eq_marks<T: PartialEq>(s: Seq<T>, marker: &T, marks: Seq<bool>) -> bool {
    &&& marks.len() == s.len()
    &&& forall|k: int| 0 <= k < s.len() ==> call_ensures(T::eq, (&s[k], marker), #[trigger] marks[k])
}

/// `r` holds clones of the groups that `marks` closes in `s`.
pub open spec fn cut_at_marks<T: Clone>(s: Seq<T>, marks: Seq<bool>, r: Seq<Vec<T>>) -> bool {
    let groups = unspill_marked(s, marks).0;
    &&& r.len() == groups.len()
    &&& forall|i: int| 0 <= i < groups.len() ==> clones_of(groups[i], #[trigger] r[i]@)
}

/// Marks that agree with a marker predicate cut as that predicate does.
pub proof fn lemma_marked_parts<A>(s: Seq<A>, marks: Seq<bool>, is_marker: spec_fn(A) -> bool)
    requires
        marks.len() == s.len(),
        forall|k: int| 0 <= k < s.len() ==> #[trigger] marks[k] == is_marker(s[k]),
    ensures
        unspill_marked(s, marks) == unspill_parts(s, is_marker),
    decreases s.len(),
{
    if s.len() > 0 {
        let s1 = s.drop_last();
        let m1 = marks.drop_last();
        assert forall|k: int| 0 <= k < s1.len() implies #[trigger] m1[k] == is_marker(s1[k]) by {
            assert(m1[k] == marks[k]);
        }
        lemma_marked_parts(s1, m1, is_marker);
        assert(marks.last() == marks[s.len() - 1]);
        assert(s.last() == s[s.len() - 1]);
    }
}

/// Cuts the sequence into the groups that markers close, with clones of the
/// items; items after the last marker are dropped. An item is a marker when
/// `==` with `marker` returns true.
pub fn unspill<T: Clone + PartialEq>(seq: &[T], marker: &T) -> (r: Vec<Vec<T>>)
    ensures
        exists|marks: Seq<bool>|
            #![trigger eq_marks(seq@, marker, marks)]
            eq_marks(seq@, marker, marks) && cut_at_marks(seq@, marks, r@),
{
    let ghost mut marks: Seq<bool> = Seq::empty();
    let mut seqseq: Vec<Vec<T>> = Vec::new();
    let mut row: Vec<T> = Vec::new();
    let mut k: usize = 0;
    assert(seq@.subrange(0, 0) =~= Seq::<T>::empty());
    while k < seq.len()
        invariant
            k <= seq@.len(),
            eq_marks(seq@.subrange(0, k as int), marker, marks),
            seqseq@.len() == unspill_marked(seq@.subrange(0, k as int), marks).0.len(),
            forall|i: int|
                0 <= i < seqseq@.len() ==> clones_of(
                    unspill_marked(seq@.subrange(0, k as int), marks).0[i],
                    #[trigger] seqseq@[i]@,
                ),
            clones_of(unspill_marked(seq@.subrange(0, k as int), marks).1, row@),
        decreases seq@.len() - k,
    {
        let item = &seq[k];
        let ghost pre = seq@.subrange(0, k + 1);
        let ghost old_marks = marks;
        let ghost old_groups = seqseq@;
        let ghost old_row = row@;
        let is_marker = item.eq(marker);
        proof {
            marks = marks.push(is_marker);
            assert(pre.drop_last() =~= seq@.subrange(0, k as int));
            assert(marks.drop_last() =~= old_marks);
            assert(pre.last() == *item);
            assert(eq_marks(pre, marker, marks)) by {
                assert forall|j: int| 0 <= j < pre.len() implies call_ensures(
                    T::eq,
                    (&pre[j], marker),
                    #[trigger] marks[j],
                ) by {
                    if j < k {
                        assert(pre[j] == seq@.subrange(0, k as int)[j]);
                        assert(marks[j] == old_marks[j]);
                    }
                }
            }
        }
        if !is_marker {
            row.push(item.clone());
            proof {
                let parts = unspill_marked(pre, marks);
                assert(clones_of(parts.1, row@)) by {
                    assert forall|j: int| 0 <= j < parts.1.len() implies cloned(
                        parts.1[j],
                        #[trigger] row@[j],
                    ) by {
                        if j < old_row.len() {
                            assert(row@[j] == old_row[j]);
                        }
                    }
                }
            }
        } else {
            let mut done: Vec<T> = Vec::new();
            std::mem::swap(&mut done, &mut row);
            seqseq.push(done);
            proof {
                let parts = unspill_marked(pre, marks);
                assert(row@ =~= Seq::<T>::empty());
                assert(parts.1 =~= Seq::<T>::empty());
                assert forall|i: int| 0 <= i < parts.0.len() implies clones_of(
                    parts.0[i],
                    #[trigger] seqseq@[i]@,
                ) by {
                    if i < old_groups.len() {
                        assert(seqseq@[i] == old_groups[i]);
                    }
                }
            }
        }
        k = k + 1;
    }
    assert(seq@.subrange(0, seq@.len() as int) =~= seq@);
    assert(eq_marks(seq@, marker, marks) && cut_at_marks(seq@, marks, seqseq@));
    seqseq
}

/// Relies on String::push: the string grows by that one char.
#[verifier::external_body]
fn push_char(s: &mut String, c: char)
    ensures
        final(s)@ == old(s)@.push(c),
{
    s.push(c)
}

/// The chars of the strings, each string followed by LF.
pub fn spill_chars(strings: &[String]) -> (r: Vec<char>)
    ensures
        r@ == spill_spec(Seq::new(strings@.len(), |i: int| strings@[i]@), '\n'),
{
    let ghost d = Seq::new(strings@.len(), |i: int| strings@[i]@);
    let mut chars: Vec<char> = Vec::new();
    let mut i: usize = 0;
    assert(d.subrange(0, 0) =~= Seq::<Seq<char>>::empty());
    while i < strings.len()
        invariant
            i <= strings@.len(),
            d == Seq::new(strings@.len(), |i: int| strings@[i]@),
            chars@ == spill_spec(d.subrange(0, i as int), '\n'),
        decreases strings@.len() - i,
    {
        let s = strings[i].as_str();
        let ghost base = chars@;
        for c in it: s.chars()
            invariant
                it.seq() == s@,
                chars@ == base + s@.subrange(0, it.index() as int),
        {
            chars.push(c);
            assert(base + s@.subrange(0, it.index() + 1) =~= chars@);
        }
        chars.push('\n');
        let ghost next = d.subrange(0, i + 1);
        assert(next.drop_last() =~= d.subrange(0, i as int));
        assert(s@.subrange(0, s@.len() as int) =~= s@);
        assert(chars@ =~= spill_spec(next, '\n'));
        i = i + 1;
    }
    assert(d.subrange(0, strings@.len() as int) =~= d);
    chars
}

/// Strings made of the chars between LF terminators; chars after the last
/// LF are dropped.
pub fn unspill_chars(chars: &[char]) -> (r: Vec<String>)
    ensures
        views_of_strings(r@) == unspill_spec(chars@, |c: char| c == '\n'),
{
    let ghost is_lf = |c: char| c == '\n';
    let mut strings: Vec<String> = Vec::new();
    let mut current = String::new();
    let mut k: usize = 0;
    assert(chars@.subrange(0, 0) =~= Seq::<char>::empty());
    assert(views_of_strings(strings@) =~= Seq::<Seq<char>>::empty());
    while k < chars.len()
        invariant
            k <= chars@.len(),
            is_lf == (|c: char| c == '\n'),
            views_of_strings(strings@) == unspill_parts(chars@.subrange(0, k as int), is_lf).0,
            current@ == unspill_parts(chars@.subrange(0, k as int), is_lf).1,
        decreases chars@.len() - k,
    {
        let c = chars[k];
        let ghost pre = chars@.subrange(0, k + 1);
        assert(pre.drop_last() =~= chars@.subrange(0, k as int));
        assert(pre.last() == c);
        if c != '\n' {
            push_char(&mut current, c);
        } else {
            let ghost before = strings@;
            let mut done = String::new();
            std::mem::swap(&mut done, &mut current);
            strings.push(done);
            assert(views_of_strings(strings@) =~= views_of_strings(before).push(
                strings@[before.len() as int]@,
            ));
        }
        k = k + 1;
    }
    assert(chars@.subrange(0, chars@.len() as int) =~= chars@);
    strings
}

/// The chars of each string.
pub open spec fn views_of_strings(s: Seq<String>) -> Seq<Seq<char>> {
    Seq::new(s.len(), |i: int| s[i]@)
}

} // verus!
