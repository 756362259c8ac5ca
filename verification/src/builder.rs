//! The four-phase construction of a `SubStr` collection.
//!
//! The builder first discovers which input strings occur verbatim
//! inside other input strings, then fuses the remaining strings into
//! chains through shared suffix/prefix boundaries, appends whatever is
//! left standalone, and finally resolves the positions of the contained
//! strings from the positions of their containers.

use vstd::prelude::*;

use crate::bytes::{
    count_starts, is_char_start, is_split_point, lemma_count_starts_le_index,
    lemma_count_starts_strict, bytes_eq, occurs_in, push_bytes, split_after_char,
};
use crate::errors::Error;
use crate::packed::SubStr;
use crate::search::{ac_build, ac_builds, ac_find_overlapping, ac_patterns, ac_overlapping_ok};

verus! {

/// Sum of the lengths of the sequences in `ss`.
pub open spec fn total_len(ss: Seq<Seq<u8>>) -> int
    decreases ss.len(),
{
    if ss.len() == 0 {
        0
    } else {
        total_len(ss.drop_last()) + ss.last().len()
    }
}

/// Largest length of a sequence in `ss` (zero when `ss` is empty).
pub open spec fn max_len(ss: Seq<Seq<u8>>) -> int
    decreases ss.len(),
{
    if ss.len() == 0 {
        0
    } else {
        let m = max_len(ss.drop_last());
        if ss.last().len() > m {
            ss.last().len() as int
        } else {
            m
        }
    }
}

/// Number of unplaced entries in a span table.
pub open spec fn count_none(spans: Seq<Option<(u32, u8)>>) -> int
    decreases spans.len(),
{
    if spans.len() == 0 {
        0
    } else {
        count_none(spans.drop_last()) + if spans.last() is None {
            1int
        } else {
            0int
        }
    }
}

/// Sum of the lengths of the strings whose span is already placed.
pub open spec fn placed_sum(spans: Seq<Option<(u32, u8)>>, ss: Seq<Seq<u8>>) -> int
    decreases spans.len(),
{
    if spans.len() == 0 {
        0
    } else {
        placed_sum(spans.drop_last(), ss.drop_last()) + if spans.last() is Some {
            ss.last().len() as int
        } else {
            0int
        }
    }
}

pub proof fn lemma_max_len_ge(ss: Seq<Seq<u8>>, i: int)
    requires
        0 <= i < ss.len(),
    ensures
        ss[i].len() <= max_len(ss),
    decreases ss.len(),
{
    if i < ss.len() - 1 {
        lemma_max_len_ge(ss.drop_last(), i);
    }
}

pub proof fn lemma_count_none_nonneg(spans: Seq<Option<(u32, u8)>>)
    ensures
        count_none(spans) >= 0,
    decreases spans.len(),
{
    if spans.len() > 0 {
        lemma_count_none_nonneg(spans.drop_last());
    }
}

pub proof fn lemma_count_none_zero(spans: Seq<Option<(u32, u8)>>)
    requires
        count_none(spans) == 0,
    ensures
        forall|i: int| 0 <= i < spans.len() ==> (#[trigger] spans[i]) is Some,
    decreases spans.len(),
{
    if spans.len() > 0 {
        lemma_count_none_nonneg(spans.drop_last());
        lemma_count_none_zero(spans.drop_last());
        assert(spans.last() is Some);
        assert forall|i: int| 0 <= i < spans.len() implies (#[trigger] spans[i]) is Some by {
            if i < spans.len() - 1 {
                assert(spans.drop_last()[i] is Some);
                assert(spans.drop_last()[i] == spans[i]);
            }
        }
    }
}

/// A builder whose observable parts equal those of a well-formed
/// builder is well-formed itself.
pub proof fn lemma_wf_transfer(b1: Builder, b2: Builder)
    requires
        b1.wf(),
        b2.strings() == b1.strings(),
        b2.span_table() == b1.span_table(),
        b2.links() == b1.links(),
        b2.buffer() == b1.buffer(),
        b2.done() ==> b1.done() || b1.resolved(),
    ensures
        b2.wf(),
{
    let n = b2.strings().len();
    assert forall|i: int| 0 <= i < n implies b2.span_ok(i) by {
        assert(b1.span_ok(i));
    }
    assert forall|i: int| 0 <= i < n implies b2.link_ok(i) by {
        assert(b1.link_ok(i));
    }
    assert forall|i: int| 0 <= i < n implies (#[trigger] b2.strings()[i]).len() <= 255 by {
        assert(b1.strings()[i].len() <= 255);
    }
    if b2.done() {
        if b1.done() {
            assert(b1.resolved());
        }
        assert forall|i: int|
            0 <= i < b2.span_table().len() implies (#[trigger] b2.span_table()[i]) is Some by {
            assert(b1.span_table()[i] is Some);
        }
    }
}

pub proof fn lemma_placed_sum_le_total(spans: Seq<Option<(u32, u8)>>, ss: Seq<Seq<u8>>)
    requires
        spans.len() == ss.len(),
    ensures
        placed_sum(spans, ss) <= total_len(ss),
    decreases spans.len(),
{
    if spans.len() > 0 {
        lemma_placed_sum_le_total(spans.drop_last(), ss.drop_last());
    }
}

pub proof fn lemma_placed_sum_none(spans: Seq<Option<(u32, u8)>>, ss: Seq<Seq<u8>>)
    requires
        spans.len() == ss.len(),
        forall|i: int| 0 <= i < spans.len() ==> (#[trigger] spans[i]) is None,
    ensures
        placed_sum(spans, ss) == 0,
    decreases spans.len(),
{
    if spans.len() > 0 {
        assert(spans.last() is None);
        assert(forall|i: int|
            0 <= i < spans.len() - 1 ==> #[trigger] spans.drop_last()[i] == spans[i]);
        lemma_placed_sum_none(spans.drop_last(), ss.drop_last());
    }
}

/// Once every entry is placed, the placed sum is the whole input length.
pub proof fn lemma_placed_sum_all_some(spans: Seq<Option<(u32, u8)>>, ss: Seq<Seq<u8>>)
    requires
        spans.len() == ss.len(),
        forall|i: int| 0 <= i < spans.len() ==> (#[trigger] spans[i]) is Some,
    ensures
        placed_sum(spans, ss) == total_len(ss),
    decreases spans.len(),
{
    if spans.len() > 0 {
        assert(forall|i: int|
            0 <= i < spans.len() - 1 ==> #[trigger] spans.drop_last()[i] == spans[i]);
        lemma_placed_sum_all_some(spans.drop_last(), ss.drop_last());
    }
}

/// Placing one unplaced entry removes one `None` and adds the length of
/// its string to the placed sum.
pub proof fn lemma_place_one(
    spans: Seq<Option<(u32, u8)>>,
    ss: Seq<Seq<u8>>,
    i: int,
    v: (u32, u8),
)
    requires
        spans.len() == ss.len(),
        0 <= i < spans.len(),
        spans[i] is None,
    ensures
        count_none(spans.update(i, Some(v))) == count_none(spans) - 1,
        placed_sum(spans.update(i, Some(v)), ss) == placed_sum(spans, ss) + ss[i].len(),
    decreases spans.len(),
{
    let s2 = spans.update(i, Some(v));
    if i == spans.len() - 1 {
        assert(s2.drop_last() =~= spans.drop_last());
        assert(s2.last() == Some(v));
    } else {
        assert(s2.drop_last() =~= spans.drop_last().update(i, Some(v)));
        assert(s2.last() == spans.last());
        assert(spans.drop_last()[i] == spans[i]);
        assert(ss.drop_last()[i] == ss[i]);
        lemma_place_one(spans.drop_last(), ss.drop_last(), i, v);
    }
}

/// Buffer position `b` lies inside at least one placed span: no byte of
/// the buffer is unreachable.
pub open spec fn covered(spans: Seq<Option<(u32, u8)>>, b: int) -> bool {
    exists|t: int|
        0 <= t < spans.len() && ((#[trigger] spans[t]) matches Some((o, l)) && o <= b < o + l)
}

/// Placing one span that reaches the end of the grown buffer and starts
/// at or before the old end keeps every buffer byte covered.
proof fn lemma_cover_place(
    pre_spans: Seq<Option<(u32, u8)>>,
    i: int,
    v: (u32, u8),
    pre_len: int,
    post_len: int,
)
    requires
        0 <= i < pre_spans.len(),
        pre_spans[i] is None,
        forall|b: int| 0 <= b < pre_len ==> covered(pre_spans, b),
        v.0 <= pre_len,
        v.0 + v.1 == post_len,
        pre_len <= post_len,
    ensures
        forall|b: int| 0 <= b < post_len ==> covered(pre_spans.update(i, Some(v)), b),
{
    let post = pre_spans.update(i, Some(v));
    assert forall|b: int| 0 <= b < post_len implies covered(post, b) by {
        if v.0 <= b < v.0 + v.1 {
            assert(post[i] == Some(v));
        } else {
            assert(b < pre_len);
            assert(covered(pre_spans, b));
            let t = choose|t: int|
                0 <= t < pre_spans.len() && ((#[trigger] pre_spans[t]) matches Some((o, l)) && o
                    <= b < o + l);
            assert(t != i);
            assert(post[t] == pre_spans[t]);
        }
    }
}

/// Placing a span over an unplaced id keeps every covered byte covered.
proof fn lemma_cover_mono(pre_spans: Seq<Option<(u32, u8)>>, i: int, v: (u32, u8), len: int)
    requires
        0 <= i < pre_spans.len(),
        pre_spans[i] is None,
        forall|b: int| 0 <= b < len ==> covered(pre_spans, b),
    ensures
        forall|b: int| 0 <= b < len ==> covered(pre_spans.update(i, Some(v)), b),
{
    let post = pre_spans.update(i, Some(v));
    assert forall|b: int| 0 <= b < len implies covered(post, b) by {
        assert(covered(pre_spans, b));
        let t = choose|t: int|
            0 <= t < pre_spans.len() && ((#[trigger] pre_spans[t]) matches Some((o, l)) && o <= b
                < o + l);
        assert(t != i);
        assert(post[t] == pre_spans[t]);
    }
}

/// Two placed spans share at least one buffer byte.
pub open spec fn spans_overlap(x: Option<(u32, u8)>, y: Option<(u32, u8)>) -> bool {
    x matches Some((o1, l1)) && (y matches Some((o2, l2)) && l1 >= 1 && l2 >= 1 && o1 < o2 + l2
        && o2 < o1 + l1)
}

/// Sharing is saving: if any two distinct spans share a buffer byte,
/// the buffer is strictly shorter than the placed strings' total.
pub open spec fn overlap_saves(
    buffer: Seq<u8>,
    spans: Seq<Option<(u32, u8)>>,
    ss: Seq<Seq<u8>>,
) -> bool {
    (exists|a: int, b: int|
        0 <= a < spans.len() && 0 <= b < spans.len() && a != b && #[trigger] spans_overlap(
            spans[a],
            spans[b],
        )) ==> buffer.len() < placed_sum(spans, ss)
}

/// Appending a string whole at the end of the buffer creates no new
/// shared bytes, so sharing-is-saving is preserved.
proof fn lemma_overlap_saves_append(
    pre_buf: Seq<u8>,
    pre_spans: Seq<Option<(u32, u8)>>,
    ss: Seq<Seq<u8>>,
    i: int,
    v: (u32, u8),
    post_buf: Seq<u8>,
)
    requires
        pre_spans.len() == ss.len(),
        0 <= i < pre_spans.len(),
        pre_spans[i] is None,
        forall|t: int|
            0 <= t < pre_spans.len() ==> ((#[trigger] pre_spans[t]) matches Some((o, l)) ==> o + l
                <= pre_buf.len()),
        v.0 >= pre_buf.len(),
        post_buf.len() == pre_buf.len() + v.1,
        v.0 + v.1 == post_buf.len(),
        v.1 == ss[i].len(),
        overlap_saves(pre_buf, pre_spans, ss),
    ensures
        overlap_saves(post_buf, pre_spans.update(i, Some(v)), ss),
{
    let post = pre_spans.update(i, Some(v));
    lemma_place_one(pre_spans, ss, i, v);
    if exists|a: int, b: int|
        0 <= a < post.len() && 0 <= b < post.len() && a != b && #[trigger] spans_overlap(
            post[a],
            post[b],
        ) {
        let (a, b) = choose|a: int, b: int|
            0 <= a < post.len() && 0 <= b < post.len() && a != b && #[trigger] spans_overlap(
                post[a],
                post[b],
            );
        if a == i || b == i {
            let t = if a == i {
                b
            } else {
                a
            };
            assert(post[t] == pre_spans[t]);
            assert(pre_spans[t] is Some);
            assert(false);
        } else {
            assert(post[a] == pre_spans[a]);
            assert(post[b] == pre_spans[b]);
            assert(spans_overlap(pre_spans[a], pre_spans[b]));
            assert(pre_buf.len() < placed_sum(pre_spans, ss));
        }
    }
}

/// Recording a span without touching the buffer keeps sharing-is-saving:
/// a non-empty inherited span makes the bound strict outright, an empty
/// one shares nothing.
proof fn lemma_overlap_saves_resolve(
    pre_buf: Seq<u8>,
    pre_spans: Seq<Option<(u32, u8)>>,
    ss: Seq<Seq<u8>>,
    i: int,
    v: (u32, u8),
)
    requires
        pre_spans.len() == ss.len(),
        0 <= i < pre_spans.len(),
        pre_spans[i] is None,
        v.1 == ss[i].len(),
        pre_buf.len() <= placed_sum(pre_spans, ss),
        overlap_saves(pre_buf, pre_spans, ss),
    ensures
        overlap_saves(pre_buf, pre_spans.update(i, Some(v)), ss),
{
    let post = pre_spans.update(i, Some(v));
    lemma_place_one(pre_spans, ss, i, v);
    if ss[i].len() >= 1 {
        assert(pre_buf.len() < placed_sum(post, ss));
    } else {
        if exists|a: int, b: int|
            0 <= a < post.len() && 0 <= b < post.len() && a != b && #[trigger] spans_overlap(
                post[a],
                post[b],
            ) {
            let (a, b) = choose|a: int, b: int|
                0 <= a < post.len() && 0 <= b < post.len() && a != b && #[trigger] spans_overlap(
                    post[a],
                    post[b],
                );
            if a == i || b == i {
                assert(v.1 == 0);
                assert(false);
            } else {
                assert(post[a] == pre_spans[a]);
                assert(post[b] == pre_spans[b]);
                assert(spans_overlap(pre_spans[a], pre_spans[b]));
            }
        }
    }
}

/// A prefix of the buffer stays a prefix when more bytes are appended.
pub proof fn lemma_prefix_append(a: Seq<u8>, b: Seq<u8>, c: Seq<u8>)
    requires
        a.is_prefix_of(b),
    ensures
        a.is_prefix_of(b + c),
{
    assert((b + c).subrange(0, a.len() as int) =~= b.subrange(0, a.len() as int));
}

pub proof fn lemma_prefix_trans(a: Seq<u8>, b: Seq<u8>, c: Seq<u8>)
    requires
        a.is_prefix_of(b),
        b.is_prefix_of(c),
    ensures
        a.is_prefix_of(c),
{
    assert(c.subrange(0, a.len() as int) =~= b.subrange(0, a.len() as int));
}

/// Extending the buffer does not disturb slices of the existing prefix.
pub proof fn lemma_append_keeps_subrange(a: Seq<u8>, b: Seq<u8>, o: int, l: int)
    requires
        0 <= o,
        0 <= l,
        o + l <= a.len(),
    ensures
        (a + b).subrange(o, o + l) == a.subrange(o, o + l),
{
    assert((a + b).subrange(o, o + l) =~= a.subrange(o, o + l));
}

/// Within the containment resolver: either the buffer is already
/// strictly shorter than the placed total, or some contained string of
/// positive length is still unplaced and will later be placed without
/// appending its full bytes.
spec fn strict_or_witness(
    buffer: Seq<u8>,
    spans: Seq<Option<(u32, u8)>>,
    links: Seq<Option<(u32, u8)>>,
    ss: Seq<Seq<u8>>,
) -> bool {
    ||| buffer.len() < placed_sum(spans, ss)
    ||| exists|u: int|
        0 <= u < ss.len() && links[u] is Some && (#[trigger] spans[u]) is None && ss[u].len() > 0
}

/// After appending string `i` whole at the end of the buffer and
/// recording its span there, the builder invariant holds again.
proof fn lemma_place_standalone(pre: Builder, post: Builder, i: int)
    requires
        pre.wf(),
        !pre.done(),
        !post.done(),
        0 <= i < pre.strings().len(),
        pre.span_table()[i] is None,
        post.strings() == pre.strings(),
        post.links() == pre.links(),
        post.buffer() == pre.buffer() + pre.strings()[i],
        post.span_table() == pre.span_table().update(
            i,
            Some((pre.buffer().len() as u32, pre.strings()[i].len() as u8)),
        ),
    ensures
        post.wf(),
        count_none(post.span_table()) == count_none(pre.span_table()) - 1,
        placed_sum(post.span_table(), post.strings()) == placed_sum(
            pre.span_table(),
            pre.strings(),
        ) + pre.strings()[i].len(),
        post.span_table()[i] matches Some((o, l)) && o + l == post.buffer().len() && l
            == post.strings()[i].len(),
{
    let n = pre.strings().len();
    let w = pre.strings()[i];
    let pos = pre.buffer().len() as int;
    lemma_placed_sum_le_total(pre.span_table(), pre.strings());
    assert(pos <= u32::MAX);
    assert(w.len() <= 255);
    lemma_place_one(pre.span_table(), pre.strings(), i, (pos as u32, w.len() as u8));
    assert forall|j: int| 0 <= j < n implies post.span_ok(j) by {
        if j == i {
            assert(post.buffer().subrange(pos, pos + w.len()) =~= w);
        } else {
            assert(pre.span_ok(j));
            assert(post.span_table()[j] == pre.span_table()[j]);
            match pre.span_table()[j] {
                Some((o, l)) => {
                    lemma_append_keeps_subrange(pre.buffer(), w, o as int, l as int);
                },
                None => {},
            }
        }
    }
    assert forall|j: int| 0 <= j < n implies post.link_ok(j) by {
        assert(pre.link_ok(j));
    }
    assert forall|j: int| 0 <= j < n implies (#[trigger] post.strings()[j]).len() <= 255 by {
        assert(pre.strings()[j].len() <= 255);
    }
}

/// After appending only the tail of a chain successor and recording its
/// span across the shared boundary, the builder invariant holds again.
proof fn lemma_place_chained(pre: Builder, post: Builder, prev: int, j: int, k: int)
    requires
        pre.wf(),
        !pre.done(),
        !post.done(),
        0 <= prev < pre.strings().len(),
        pre.chain_candidate(prev, j, k),
        pre.span_table()[prev] matches Some((o, l)) && o + l == pre.buffer().len() && l
            == pre.strings()[prev].len(),
        post.strings() == pre.strings(),
        post.links() == pre.links(),
        post.buffer() == pre.buffer() + pre.strings()[j].skip(k),
        post.span_table() == pre.span_table().update(
            j,
            Some(((pre.buffer().len() - k) as u32, pre.strings()[j].len() as u8)),
        ),
    ensures
        post.wf(),
        count_none(post.span_table()) == count_none(pre.span_table()) - 1,
        post.span_table()[j] matches Some((o2, l2)) && o2 + l2 == post.buffer().len() && l2
            == post.strings()[j].len(),
{
    let n = pre.strings().len();
    let w = pre.strings()[j];
    let wp = pre.strings()[prev];
    let pos = pre.buffer().len() as int;
    let np = pos - k;
    let o = pre.span_table()[prev].unwrap().0 as int;
    assert(0 < k < wp.len());
    assert(wp.len() <= pos);
    assert(o == pos - wp.len());
    lemma_placed_sum_le_total(pre.span_table(), pre.strings());
    assert(pos <= u32::MAX);
    assert(w.len() <= 255);
    lemma_place_one(pre.span_table(), pre.strings(), j, (np as u32, w.len() as u8));
    assert(pre.span_ok(prev));
    assert(pre.buffer().subrange(o, pos) == wp);
    assert(wp.skip(wp.len() - k) == w.take(k));
    assert forall|t: int| 0 <= t < w.len() implies post.buffer()[np + t] == w[t] by {
        if t < k {
            assert(pre.buffer().subrange(o, pos)[wp.len() - k + t] == pre.buffer()[o + (wp.len()
                - k + t)]);
            assert(wp[wp.len() - k + t] == wp.skip(wp.len() - k)[t]);
            assert(w.take(k)[t] == w[t]);
            assert(post.buffer()[np + t] == pre.buffer()[np + t]);
        } else {
            assert(post.buffer()[pos + (t - k)] == w.skip(k)[t - k]);
            assert(w.skip(k)[t - k] == w[t]);
        }
    }
    assert(post.buffer().subrange(np, np + w.len()) =~= w);
    assert forall|j2: int| 0 <= j2 < n implies post.span_ok(j2) by {
        if j2 != j {
            assert(pre.span_ok(j2));
            assert(post.span_table()[j2] == pre.span_table()[j2]);
            match pre.span_table()[j2] {
                Some((o3, l3)) => {
                    lemma_append_keeps_subrange(pre.buffer(), w.skip(k), o3 as int, l3 as int);
                },
                None => {},
            }
        }
    }
    assert forall|j2: int| 0 <= j2 < n implies post.link_ok(j2) by {
        assert(pre.link_ok(j2));
    }
    assert forall|j2: int| 0 <= j2 < n implies (#[trigger] post.strings()[j2]).len() <= 255 by {
        assert(pre.strings()[j2].len() <= 255);
    }
    assert(post.buffer().len() == pos + (w.len() - k));
}

proof fn lemma_count_none_all_some(spans: Seq<Option<(u32, u8)>>)
    requires
        forall|i: int| 0 <= i < spans.len() ==> (#[trigger] spans[i]) is Some,
    ensures
        count_none(spans) == 0,
    decreases spans.len(),
{
    if spans.len() > 0 {
        assert(forall|i: int|
            0 <= i < spans.len() - 1 ==> #[trigger] spans.drop_last()[i] == spans[i]);
        lemma_count_none_all_some(spans.drop_last());
    }
}

/// After giving a contained string the span inherited from its
/// container, the builder invariant holds again.
proof fn lemma_place_resolved(pre: Builder, post: Builder, i: int, v: u32, l: u8)
    requires
        pre.wf(),
        !pre.done(),
        !post.done(),
        0 <= i < pre.strings().len(),
        pre.span_table()[i] is None,
        pre.links()[i] matches Some((c, off)) && pre.span_table()[c as int] matches Some(
            (cpos, cl),
        ) && v == cpos + off,
        l == pre.strings()[i].len(),
        post.strings() == pre.strings(),
        post.links() == pre.links(),
        post.buffer() == pre.buffer(),
        post.span_table() == pre.span_table().update(i, Some((v, l))),
    ensures
        post.wf(),
        count_none(post.span_table()) == count_none(pre.span_table()) - 1,
        placed_sum(post.span_table(), post.strings()) == placed_sum(
            pre.span_table(),
            pre.strings(),
        ) + pre.strings()[i].len(),
        post.buffer() == pre.buffer(),
{
    let n = pre.strings().len();
    let w = pre.strings()[i];
    let (c, off) = pre.links()[i].unwrap();
    let wc = pre.strings()[c as int];
    let (cpos, _cl) = pre.span_table()[c as int].unwrap();
    assert(pre.link_ok(i));
    assert(pre.span_ok(c as int));
    assert(pre.buffer().subrange(cpos as int, cpos + wc.len()) == wc);
    assert(wc.subrange(off as int, off + w.len()) == w);
    lemma_place_one(pre.span_table(), pre.strings(), i, (v, l));
    assert forall|t: int| 0 <= t < w.len() implies post.buffer()[v + t] == w[t] by {
        assert(pre.buffer().subrange(cpos as int, cpos + wc.len())[off + t] == pre.buffer()[cpos
            + (off + t)]);
        assert(wc.subrange(off as int, off + w.len())[t] == wc[off + t]);
    }
    assert(post.buffer().subrange(v as int, v + w.len()) =~= w);
    assert forall|j: int| 0 <= j < n implies post.span_ok(j) by {
        if j != i {
            assert(pre.span_ok(j));
            assert(post.span_table()[j] == pre.span_table()[j]);
        }
    }
    assert forall|j: int| 0 <= j < n implies post.link_ok(j) by {
        assert(pre.link_ok(j));
    }
    assert forall|j: int| 0 <= j < n implies (#[trigger] post.strings()[j]).len() <= 255 by {
        assert(pre.strings()[j].len() <= 255);
    }
}

/// String `p` of the list occurs verbatim inside some different string
/// of the list.
pub open spec fn has_container(ss: Seq<Seq<u8>>, p: int) -> bool {
    exists|t: int, off: int| 0 <= t < ss.len() && t != p && #[trigger] occurs_in(ss[p], ss[t], off)
}

/// `(c, off)` is the first container of string `p` in discovery order:
/// `p` occurs in the different string `c` at offset `off`, no string
/// with a smaller id than `c` contains `p`, and within `c` no smaller
/// offset holds an occurrence of `p`.
pub open spec fn first_container(ss: Seq<Seq<u8>>, p: int, c: int, off: int) -> bool {
    &&& 0 <= c < ss.len()
    &&& c != p
    &&& occurs_in(ss[p], ss[c], off)
    &&& forall|t: int, off2: int|
        0 <= t < c && t != p ==> !(#[trigger] occurs_in(ss[p], ss[t], off2))
    &&& forall|off2: int| off2 < off ==> !(#[trigger] occurs_in(ss[p], ss[c], off2))
}

/// Id `i` can be resolved within `fuel` steps: it already has a span,
/// or its chain of containment links reaches a spanned id in fewer than
/// `fuel` hops. When every id is resolvable, the containment relation
/// restricted to unplaced ids is acyclic and grounded.
pub open spec fn resolvable(
    links: Seq<Option<(u32, u8)>>,
    spans: Seq<Option<(u32, u8)>>,
    i: int,
    fuel: int,
) -> bool
    decreases fuel,
{
    ||| spans[i] is Some
    ||| (fuel > 0 && (links[i] matches Some((c, off)) && resolvable(links, spans, c as int, fuel
        - 1)))
}

/// When the resolver is stuck (every still-unplaced id's container is
/// itself unplaced), an id resolvable from the entry state is already
/// placed.
proof fn lemma_resolvable_placed(
    links: Seq<Option<(u32, u8)>>,
    spans0: Seq<Option<(u32, u8)>>,
    spans: Seq<Option<(u32, u8)>>,
    i: int,
    fuel: int,
)
    requires
        links.len() == spans.len(),
        spans0.len() == spans.len(),
        0 <= i < spans.len(),
        resolvable(links, spans0, i, fuel),
        forall|t: int|
            0 <= t < spans.len() && (#[trigger] spans0[t]) is Some ==> spans[t] is Some,
        forall|t: int|
            0 <= t < spans.len() && (#[trigger] spans[t]) is None && links[t] is Some
                ==> spans[links[t].unwrap().0 as int] is None,
        forall|t: int|
            0 <= t < links.len() ==> ((#[trigger] links[t]) matches Some((c, off)) ==> 0 <= (
            c as int) < links.len()),
    ensures
        spans[i] is Some,
    decreases fuel,
{
    if spans0[i] is Some {
    } else {
        let (c, off) = links[i].unwrap();
        lemma_resolvable_placed(links, spans0, spans, c as int, fuel - 1);
        if spans[i] is None {
            assert(spans[links[i].unwrap().0 as int] is None);
            assert(false);
        }
    }
}

/// Concatenation of the strings with id below `i` that carry no
/// containment link and no span: exactly what the loose appender adds,
/// in ascending id order.
pub open spec fn loose_cat(
    ss: Seq<Seq<u8>>,
    links: Seq<Option<(u32, u8)>>,
    spans: Seq<Option<(u32, u8)>>,
    i: int,
) -> Seq<u8>
    decreases i,
{
    if i <= 0 {
        Seq::empty()
    } else {
        loose_cat(ss, links, spans, i - 1) + if links[i - 1] is None && spans[i - 1] is None {
            ss[i - 1]
        } else {
            Seq::empty()
        }
    }
}

/// Round trip: once a well-formed builder has run its build phases,
/// the buffer bytes at the span of any id reproduce the input string
/// with that id exactly.
pub proof fn lemma_round_trip(b: Builder, i: int)
    requires
        b.wf(),
        b.done(),
        0 <= i < b.strings().len(),
    ensures
        b.span_table()[i] is Some,
        b.entry(i) == b.strings()[i],
{
    assert(b.span_ok(i));
}

/// No waste: the shared buffer of a well-formed builder is never longer
/// than the concatenation of all input strings.
pub proof fn lemma_no_waste(b: Builder)
    requires
        b.wf(),
    ensures
        b.buffer().len() <= total_len(b.strings()),
{
    lemma_placed_sum_le_total(b.span_table(), b.strings());
}

/// Does `end` occur at the front of `w`, with the cut after it landing
/// on a character start and leaving a non-empty remainder?
fn boundary_prefix(end: &Vec<u8>, w: &Vec<u8>) -> (r: bool)
    ensures
        r == (end@.len() < w@.len() && w@.take(end@.len() as int) == end@ && is_char_start(
            w@[end@.len() as int],
        )),
{
    if end.len() < w.len() {
        if crate::bytes::start_byte(w[end.len()]) {
            let r = bytes_eq(
                vstd::slice::slice_subrange(w.as_slice(), 0, end.len()),
                end.as_slice(),
            );
            proof {
                assert(w@.take(end@.len() as int) =~= w@.subrange(0, end@.len() as int));
            }
            r
        } else {
            false
        }
    } else {
        false
    }
}

/// A plain-value image of a builder's working state, for inspection or
/// encoding outside the library: the input strings, the containment
/// links, the buffer built so far, the span table, and the two flags.
pub struct BuilderState {
    pub strings: Vec<Vec<u8>>,
    pub contained_in: Vec<Option<(u32, u8)>>,
    pub index_string: Vec<u8>,
    pub spans: Vec<Option<(u32, u8)>>,
    pub silent: bool,
    pub build: bool,
}

/// A link selected by the overlap chainer: the id of the next string of
/// a chain, the absolute buffer position where it starts, and its tail,
/// the bytes that follow the shared boundary and still must be appended.
struct NextStr {
    index: usize,
    position: usize,
    tail: Vec<u8>,
}

/// A `SubStr` builder.
///
/// Create one from a vector of byte strings with `from_iter`, which
/// validates the inputs, then turn it into a `SubStr` with `build`.
/// `verify` re-derives every input string from its span as a self-check.
/// The build process can take a long time on large inputs.
#[derive(Debug, Clone)]
pub struct Builder {
    vec: Vec<Vec<u8>>,
    contained_in: Vec<Option<(u32, u8)>>,
    index_string: Vec<u8>,
    spans: Vec<Option<(u32, u8)>>,
    silent: bool,
    build: bool,
}

impl Builder {
    /// The input strings, by id.
    pub closed spec fn strings(self) -> Seq<Seq<u8>> {
        self.vec@.map_values(|v: Vec<u8>| v@)
    }

    /// The working span table: position and length of each placed string.
    pub closed spec fn span_table(self) -> Seq<Option<(u32, u8)>> {
        self.spans@
    }

    /// The containment links: container id and offset within the
    /// container, for each string found inside another string.
    pub closed spec fn links(self) -> Seq<Option<(u32, u8)>> {
        self.contained_in@
    }

    /// The shared storage buffer as built so far.
    pub closed spec fn buffer(self) -> Seq<u8> {
        self.index_string@
    }

    /// Whether the four build phases have run.
    pub closed spec fn done(self) -> bool {
        self.build
    }

    /// Whether progress notifications are suppressed.
    pub closed spec fn is_silent(self) -> bool {
        self.silent
    }

    /// A placed span locates exactly the bytes of its string.
    pub open spec fn span_ok(self, i: int) -> bool {
        self.span_table()[i] matches Some((o, l)) ==> {
            &&& l == self.strings()[i].len()
            &&& o + l <= self.buffer().len()
            &&& self.buffer().subrange(o as int, o + l) == self.strings()[i]
        }
    }

    /// A containment link records a real occurrence of string `i` inside
    /// a different string.
    pub open spec fn link_ok(self, i: int) -> bool {
        self.links()[i] matches Some((c, off)) ==> {
            &&& 0 <= (c as int) < self.strings().len()
            &&& (c as int) != i
            &&& off + self.strings()[i].len() <= self.strings()[c as int].len()
            &&& self.strings()[c as int].subrange(off as int, off + self.strings()[i].len())
                == self.strings()[i]
        }
    }

    /// Every entry of the span table is placed.
    pub open spec fn resolved(self) -> bool {
        forall|i: int| 0 <= i < self.span_table().len() ==> (#[trigger] self.span_table()[i]) is Some
    }

    /// The bytes the buffer holds for id `i` (meaningful once placed).
    pub open spec fn entry(self, i: int) -> Seq<u8> {
        self.buffer().subrange(
            self.span_table()[i].unwrap().0 as int,
            self.span_table()[i].unwrap().0 + self.span_table()[i].unwrap().1,
        )
    }

    /// The builder's invariant, established at construction and kept by
    /// every phase: the tables cover all ids, every string fits the
    /// length ceiling, links and spans record true facts about the
    /// strings and the buffer, and the buffer never holds more bytes
    /// than the sum of the placed strings' lengths.
    pub open spec fn wf(self) -> bool {
        let n = self.strings().len();
        &&& self.links().len() == n
        &&& self.span_table().len() == n
        &&& n <= u32::MAX
        &&& total_len(self.strings()) <= u32::MAX
        &&& forall|i: int| 0 <= i < n ==> (#[trigger] self.strings()[i]).len() <= 255
        &&& forall|i: int| 0 <= i < n ==> self.span_ok(i)
        &&& forall|i: int| 0 <= i < n ==> self.link_ok(i)
        &&& self.buffer().len() <= placed_sum(self.span_table(), self.strings())
        &&& (self.done() ==> self.resolved())
    }

    /// Create a `Builder` from a vector of byte strings, validating the
    /// input collection: it must be non-empty, and no string may be
    /// longer than 255 bytes.
    pub fn from_iter(vec: Vec<Vec<u8>>) -> (r: Result<Builder, Error>)
        requires
            vec@.len() <= u32::MAX,
            total_len(vec@.map_values(|v: Vec<u8>| v@)) <= u32::MAX,
        ensures
            vec@.len() == 0 ==> r == Result::<Builder, Error>::Err(Error::NoMaxStringLen),
            vec@.len() > 0 && max_len(vec@.map_values(|v: Vec<u8>| v@)) > 255 ==> (r matches Err(e)
                && e == Error::StringTooLong(max_len(vec@.map_values(|v: Vec<u8>| v@)) as usize)),
            vec@.len() > 0 && max_len(vec@.map_values(|v: Vec<u8>| v@)) <= 255 ==> (r matches Ok(b)
                && {
                &&& b.wf()
                &&& b.strings() == vec@.map_values(|v: Vec<u8>| v@)
                &&& !b.done()
                &&& b.is_silent()
                &&& b.buffer().len() == 0
                &&& forall|i: int|
                    0 <= i < b.span_table().len() ==> (#[trigger] b.span_table()[i]) is None
                &&& forall|i: int| 0 <= i < b.links().len() ==> (#[trigger] b.links()[i]) is None
            }),
    {
        let ghost ss = vec@.map_values(|v: Vec<u8>| v@);
        let n = vec.len();
        if n == 0 {
            return Err(Error::NoMaxStringLen);
        }
        let mut max: usize = 0;
        let mut i: usize = 0;
        while i < n
            invariant
                n == vec@.len(),
                ss == vec@.map_values(|v: Vec<u8>| v@),
                i <= n,
                max == max_len(ss.take(i as int)),
            decreases n - i,
        {
            let l = vec[i].len();
            proof {
                assert(ss.take(i + 1).drop_last() =~= ss.take(i as int));
                assert(ss.take(i + 1).last() == ss[i as int]);
                assert(ss[i as int] == vec@[i as int]@);
            }
            if l > max {
                max = l;
            }
            i += 1;
        }
        proof {
            assert(ss.take(n as int) =~= ss);
        }
        if max > 255 {
            return Err(Error::StringTooLong(max));
        }
        let mut contained_in: Vec<Option<(u32, u8)>> = Vec::new();
        let mut spans: Vec<Option<(u32, u8)>> = Vec::new();
        let mut k: usize = 0;
        while k < n
            invariant
                k <= n,
                contained_in@.len() == k,
                spans@.len() == k,
                forall|j: int| 0 <= j < k ==> (#[trigger] contained_in@[j]) is None,
                forall|j: int| 0 <= j < k ==> (#[trigger] spans@[j]) is None,
            decreases n - k,
        {
            contained_in.push(None);
            spans.push(None);
            k += 1;
        }
        let b = Builder {
            contained_in,
            spans,
            index_string: Vec::new(),
            silent: true,
            build: false,
            vec,
        };
        proof {
            assert(b.strings() == ss);
            assert forall|j: int| 0 <= j < n implies (#[trigger] b.strings()[j]).len() <= 255 by {
                lemma_max_len_ge(ss, j);
            }
            lemma_placed_sum_none(b.span_table(), b.strings());
        }
        Ok(b)
    }

    /// First build phase: find strings that are substrings of other
    /// strings. Every input string is a pattern of a multi-pattern
    /// automaton; each input string is then searched, and for a pattern
    /// `p` found inside a different text `t`, the first discovered
    /// container wins: `links()[p]` becomes the first container in
    /// discovery order, ascending text id and then leftmost occurrence.
    /// When the automaton builds, a string gets a link exactly when some
    /// different string contains it.
    fn find_substrings(&mut self)
        requires
            old(self).wf(),
        ensures
            final(self).wf(),
            final(self).strings() == old(self).strings(),
            final(self).span_table() == old(self).span_table(),
            final(self).buffer() == old(self).buffer(),
            final(self).done() == old(self).done(),
            final(self).is_silent() == old(self).is_silent(),
            !ac_builds(old(self).strings()) ==> final(self).links() == old(self).links(),
            forall|p: int|
                0 <= p < old(self).strings().len() && (#[trigger] old(self).links()[p]) is Some
                    ==> final(self).links()[p] == old(self).links()[p],
            ac_builds(old(self).strings()) ==> forall|p: int|
                0 <= p < old(self).strings().len() && old(self).links()[p] is None ==> {
                    &&& (has_container(old(self).strings(), p) <==> (
                    #[trigger] final(self).links()[p]) is Some)
                    &&& (final(self).links()[p] matches Some((c, off)) ==> first_container(
                        old(self).strings(),
                        p,
                        c as int,
                        off as int,
                    ))
                },
    {
        let ghost ss = self.strings();
        let ghost links0 = self.contained_in@;
        let ghost spans0 = self.spans@;
        let ghost buf0 = self.index_string@;
        let ghost silent0 = self.silent;
        let ghost build0 = self.build;
        let ac_opt = ac_build(&self.vec);
        match ac_opt {
            // the automaton can only fail to build for astronomically
            // large pattern sets; no containment is recorded then, which
            // costs compression but never correctness
            None => {},
            Some(ac) => {
                let n = self.vec.len();
                let mut i: usize = 0;
                while i < n
                    invariant
                        self.wf(),
                        self.strings() == ss,
                        ac_patterns(ac) == ss,
                        ac_overlapping_ok(ac),
                        n == self.vec@.len(),
                        n == ss.len(),
                        i <= n,
                        self.spans@ == spans0,
                        self.index_string@ == buf0,
                        self.silent == silent0,
                        self.build == build0,
                        links0.len() == n,
                        forall|p: int|
                            0 <= p < n && (#[trigger] links0[p]) is Some ==> self.links()[p]
                                == links0[p],
                        forall|p: int, t: int, off: int|
                            0 <= p < n && 0 <= t < i && t != p && links0[p] is None
                                && #[trigger] occurs_in(ss[p], ss[t], off) ==> self.links()[p]
                                is Some,
                        forall|p: int|
                            0 <= p < n && links0[p] is None ==> ((#[trigger] self.links()[p])
                                matches Some((c, off)) ==> first_container(
                                ss,
                                p,
                                c as int,
                                off as int,
                            )),
                    decreases n - i,
                {
                    let ms = ac_find_overlapping(&ac, &self.vec[i]);
                    proof {
                        assert(self.vec@[i as int]@ == ss[i as int]);
                    }
                    let m = ms.len();
                    let mut k: usize = 0;
                    while k < m
                        invariant
                            self.wf(),
                            self.strings() == ss,
                            n == self.vec@.len(),
                            n == ss.len(),
                            i < n,
                            k <= m,
                            m == ms@.len(),
                            self.spans@ == spans0,
                            self.index_string@ == buf0,
                            self.silent == silent0,
                            self.build == build0,
                            links0.len() == n,
                            forall|t: int| #![trigger ms@[t]] 0 <= t < m ==> {
                                let (p, s) = ms@[t];
                                &&& 0 <= (p as int) < n
                                &&& occurs_in(ss[p as int], ss[i as int], s as int)
                            },
                            forall|p2: int, s2: int|
                                0 <= p2 < n && #[trigger] occurs_in(ss[p2], ss[i as int], s2)
                                    ==> exists|kk: int|
                                    0 <= kk < m && (#[trigger] ms@[kk]) == (
                                    p2 as usize,
                                    s2 as usize,
                                ),
                            forall|k1: int, k2: int|
                                0 <= k1 < k2 < m ==> (#[trigger] ms@[k1]).1
                                    + ss[ms@[k1].0 as int].len() <= (#[trigger] ms@[k2]).1
                                    + ss[ms@[k2].0 as int].len(),
                            forall|k2: int|
                                0 <= k2 < k ==> ((#[trigger] ms@[k2]).0 as int == i as int
                                    || self.links()[ms@[k2].0 as int] is Some),
                            forall|p: int|
                                0 <= p < n && (#[trigger] links0[p]) is Some ==> self.links()[p]
                                    == links0[p],
                            forall|p: int, t: int, off: int|
                                0 <= p < n && 0 <= t < i && t != p && links0[p] is None
                                    && #[trigger] occurs_in(ss[p], ss[t], off) ==> self.links()[p]
                                    is Some,
                            forall|p: int|
                                0 <= p < n && links0[p] is None ==> ((
                                #[trigger] self.links()[p]) matches Some((c, off))
                                    ==> first_container(ss, p, c as int, off as int)),
                        decreases m - k,
                    {
                        let (p, s) = ms[k];
                        if p != i && self.contained_in[p].is_none() {
                            let ghost pre = *self;
                            proof {
                                assert(occurs_in(ss[p as int], ss[i as int], s as int));
                                assert(ss[i as int].len() <= 255);
                            }
                            self.contained_in[p] = Some((i as u32, s as u8));
                            proof {
                                assert(self.links() == pre.links().update(
                                    p as int,
                                    Some((i as u32, s as u8)),
                                ));
                                assert forall|j: int|
                                    0 <= j < n implies #[trigger] self.link_ok(j) by {
                                    if j != p {
                                        assert(self.links()[j] == pre.links()[j]);
                                        assert(pre.link_ok(j));
                                    } else {
                                        assert(ss[i as int].subrange(
                                            s as int,
                                            s + ss[p as int].len(),
                                        ) == ss[p as int]);
                                    }
                                }
                                assert forall|j: int|
                                    0 <= j < n implies #[trigger] self.span_ok(j) by {
                                    assert(pre.span_ok(j));
                                }
                                assert forall|t: int, off2: int|
                                    0 <= t < i && t != p implies !(#[trigger] occurs_in(
                                    ss[p as int],
                                    ss[t],
                                    off2,
                                )) by {
                                    if 0 <= t < i && t != p && occurs_in(
                                        ss[p as int],
                                        ss[t],
                                        off2,
                                    ) {
                                        assert(pre.links()[p as int] is Some);
                                        assert(false);
                                    }
                                }
                                assert forall|off2: int| off2 < s implies !(#[trigger] occurs_in(
                                    ss[p as int],
                                    ss[i as int],
                                    off2,
                                )) by {
                                    if occurs_in(ss[p as int], ss[i as int], off2) {
                                        let kk = choose|kk: int|
                                            0 <= kk < m && (#[trigger] ms@[kk]) == (
                                            (p as int) as usize,
                                            off2 as usize,
                                        );
                                        assert(ms@[kk] == (p, off2 as usize));
                                        if kk > k as int {
                                            assert(ms@[k as int].1 + ss[ms@[k as int].0 as int].len()
                                                <= ms@[kk].1 + ss[ms@[kk].0 as int].len());
                                            assert(false);
                                        }
                                        assert(kk != k as int);
                                        assert(kk < k as int);
                                        assert(pre.links()[p as int] is Some);
                                        assert(false);
                                    }
                                }
                                assert(first_container(ss, p as int, i as int, s as int));
                                assert forall|p2: int|
                                    0 <= p2 < n && links0[p2] is None && (
                                    #[trigger] self.links()[p2]) is Some implies first_container(
                                    ss,
                                    p2,
                                    self.links()[p2].unwrap().0 as int,
                                    self.links()[p2].unwrap().1 as int,
                                ) by {
                                    if p2 != p {
                                        assert(self.links()[p2] == pre.links()[p2]);
                                    }
                                }
                            }
                        }
                        k += 1;
                    }
                    proof {
                        assert forall|p2: int, t: int, off: int|
                            0 <= p2 < n && 0 <= t < i + 1 && t != p2 && links0[p2] is None
                                && #[trigger] occurs_in(ss[p2], ss[t], off) implies self.links()[p2]
                            is Some by {
                            if t == i as int {
                                let kk = choose|kk: int|
                                    0 <= kk < m && (#[trigger] ms@[kk]) == (
                                    p2 as usize,
                                    off as usize,
                                );
                                assert(ms@[kk].0 as int == p2);
                            }
                        }
                    }
                    i += 1;
                }
                proof {
                    assert forall|p: int|
                        0 <= p < n && links0[p] is None && has_container(ss, p) implies (
                    #[trigger] self.links()[p]) is Some by {
                        let (t, off) = choose|t: int, off: int|
                            0 <= t < ss.len() && t != p && #[trigger] occurs_in(ss[p], ss[t], off);
                        assert(occurs_in(ss[p], ss[t], off));
                    }
                    assert forall|p: int|
                        0 <= p < n && links0[p] is None && (#[trigger] self.links()[p])
                            is Some implies has_container(ss, p) by {
                        let (c, off) = self.links()[p].unwrap();
                        assert(first_container(ss, p, c as int, off as int));
                        assert(occurs_in(ss[p], ss[c as int], off as int));
                    }
                }
            },
        }
    }

    /// The successor relation of the overlap chainer: the not yet placed,
    /// not contained string `j` can follow the string at `index` in a
    /// chain with an overlap of `k` bytes, because the last `k` bytes of
    /// the string at `index` equal the first `k` bytes of string `j`,
    /// with the shared boundary landing on encoded-character starts on
    /// both sides.
    pub open spec fn chain_candidate(self, index: int, j: int, k: int) -> bool {
        &&& 0 <= j < self.strings().len()
        &&& self.links()[j] is None
        &&& self.span_table()[j] is None
        &&& is_split_point(self.strings()[index], self.strings()[index].len() - k)
        &&& is_split_point(self.strings()[j], k)
        &&& self.strings()[index].skip(self.strings()[index].len() - k)
            == self.strings()[j].take(k)
    }

    /// Look for a string that can extend the chain whose last placed
    /// string is the one at `index`, ending at buffer position
    /// `position`. Split points of that string are scanned by ascending
    /// character count, and candidate ids by ascending id; the first
    /// unplaced, uncontained string whose prefix equals the scanned
    /// suffix is selected. Returns nothing exactly when no chain
    /// candidate exists.
    fn find_next_string(&self, index: usize, position: usize) -> (r: Option<NextStr>)
        requires
            self.wf(),
            (index as int) < self.strings().len(),
            self.strings()[index as int].len() <= position,
        ensures
            r matches Some(next) ==> {
                let w = self.strings()[next.index as int];
                let k = w.len() - next.tail@.len();
                &&& (next.index as int) < self.strings().len()
                &&& 1 <= k < w.len()
                &&& self.chain_candidate(index as int, next.index as int, k as int)
                &&& next.tail@ == w.skip(k as int)
                &&& next.position == position - k
            },
            r matches Some(next) ==> {
                let s = self.strings()[index as int];
                let k = self.strings()[next.index as int].len() - next.tail@.len();
                forall|j2: int, k2: int|
                    #[trigger] self.chain_candidate(index as int, j2, k2) ==> count_starts(
                        s,
                        s.len() - k,
                    ) < count_starts(s, s.len() - k2) || (k2 == k && next.index <= j2)
            },
            r is None ==> forall|j: int, k: int| !self.chain_candidate(index as int, j, k),
    {
        let ghost s = self.strings()[index as int];
        let n = self.vec.len();
        let s_len = self.vec[index].len();
        proof {
            assert(self.vec@[index as int]@ == s);
        }
        let mut sp: usize = 1;
        while sp < s_len
            invariant
                self.wf(),
                (index as int) < self.strings().len(),
                s == self.strings()[index as int],
                s_len == s.len(),
                s.len() <= position,
                n == self.strings().len(),
                n == self.vec@.len(),
                1 <= sp,
                forall|j: int, k: int|
                    #[trigger] self.chain_candidate(index as int, j, k) ==> count_starts(
                        s,
                        s.len() - k,
                    ) >= sp,
            decreases s_len - sp,
        {
            match split_after_char(&self.vec[index], sp) {
                None => {
                    proof {
                        assert forall|j: int, k: int|
                            #[trigger] self.chain_candidate(index as int, j, k) implies count_starts(
                            s,
                            s.len() - k,
                        ) >= sp + 1 by {
                            if count_starts(s, s.len() - k) == sp {
                                let p2 = s.len() - k;
                                assert(is_split_point(s, p2));
                                lemma_count_starts_strict(s, p2, s.len() as int);
                                assert(false);
                            }
                        }
                    }
                },
                Some((begin, end)) => {
                    let p_len = begin.len();
                    let ghost p = p_len as int;
                    let k_len = end.len();
                    proof {
                        assert(end@ == s.skip(p));
                        assert(k_len == s.len() - p);
                    }
                    let mut j: usize = 0;
                    while j < n
                        invariant
                            self.wf(),
                            (index as int) < self.strings().len(),
                            s == self.strings()[index as int],
                            s_len == s.len(),
                            s.len() <= position,
                            n == self.strings().len(),
                            n == self.vec@.len(),
                            1 <= sp < s_len,
                            j <= n,
                            end@ == s.skip(p),
                            is_split_point(s, p),
                            count_starts(s, p) == sp,
                            k_len == end@.len(),
                            k_len == s.len() - p,
                            forall|j2: int, k2: int|
                                #[trigger] self.chain_candidate(index as int, j2, k2)
                                    ==> count_starts(s, s.len() - k2) >= sp,
                            forall|j2: int|
                                0 <= j2 < j ==> !(#[trigger] self.chain_candidate(
                                    index as int,
                                    j2,
                                    s.len() - p,
                                )),
                        decreases n - j,
                    {
                        let mut took = false;
                        if self.contained_in[j].is_none() && self.spans[j].is_none() {
                            if boundary_prefix(&end, &self.vec[j]) {
                                took = true;
                            }
                        }
                        if took {
                            let w_len = self.vec[j].len();
                            let tail = vstd::slice::slice_to_vec(
                                vstd::slice::slice_subrange(self.vec[j].as_slice(), k_len, w_len),
                            );
                            proof {
                                let w = self.strings()[j as int];
                                assert(w == self.vec@[j as int]@);
                                assert(tail@ =~= w.skip(k_len as int));
                                assert(w.take(k_len as int) == end@);
                                assert(w[0] == w.take(k_len as int)[0]);
                                assert(end@[0] == s.skip(p)[0]);
                                assert(s.skip(p)[0] == s[p]);
                                assert(is_char_start(w[0]));
                                assert(count_starts(w, 0) == 0);
                                assert(count_starts(w, 1) == 1);
                                crate::bytes::lemma_count_starts_mono(w, 1, k_len as int);
                                assert(is_split_point(w, k_len as int));
                                assert(self.chain_candidate(index as int, j as int, k_len as int));
                                assert(w.len() - tail@.len() == k_len);
                                assert forall|j2: int, k2: int|
                                    #[trigger] self.chain_candidate(
                                        index as int,
                                        j2,
                                        k2,
                                    ) implies count_starts(s, s.len() - k_len) < count_starts(
                                    s,
                                    s.len() - k2,
                                ) || (k2 == k_len as int && j as int <= j2) by {
                                    if count_starts(s, s.len() - k2) == sp {
                                        let p2 = s.len() - k2;
                                        assert(is_split_point(s, p2));
                                        if p2 < p {
                                            lemma_count_starts_strict(s, p2, p);
                                            assert(false);
                                        }
                                        if p < p2 {
                                            lemma_count_starts_strict(s, p, p2);
                                            assert(false);
                                        }
                                        assert(k2 == k_len as int);
                                        if j2 < j as int {
                                            assert(!self.chain_candidate(
                                                index as int,
                                                j2,
                                                s.len() - p,
                                            ));
                                            assert(false);
                                        }
                                    } else {
                                        assert(count_starts(s, s.len() - k2) > sp);
                                    }
                                }
                            }
                            return Some(NextStr { index: j, position: position - k_len, tail });
                        }
                        proof {
                            assert(!self.chain_candidate(index as int, j as int, s.len() - p)) by {
                                if self.chain_candidate(index as int, j as int, s.len() - p) {
                                    let w = self.strings()[j as int];
                                    assert(is_split_point(w, k_len as int));
                                    assert(w.take(k_len as int) == s.skip(p));
                                    assert(end@.len() < w.len());
                                    assert(w.take(end@.len() as int) == end@);
                                    assert(is_char_start(w[end@.len() as int]));
                                    assert(false);
                                }
                            }
                        }
                        j += 1;
                    }
                    proof {
                        assert forall|j2: int, k: int|
                            #[trigger] self.chain_candidate(index as int, j2, k) implies count_starts(
                            s,
                            s.len() - k,
                        ) >= sp + 1 by {
                            if count_starts(s, s.len() - k) == sp {
                                let p2 = s.len() - k;
                                assert(is_split_point(s, p2));
                                if p2 < p {
                                    lemma_count_starts_strict(s, p2, p);
                                    assert(false);
                                }
                                if p < p2 {
                                    lemma_count_starts_strict(s, p, p2);
                                    assert(false);
                                }
                                assert(p2 == p);
                                assert(!self.chain_candidate(index as int, j2, s.len() - p));
                                assert(false);
                            }
                        }
                    }
                },
            }
            sp += 1;
        }
        proof {
            assert forall|j: int, k: int| !self.chain_candidate(index as int, j, k) by {
                if self.chain_candidate(index as int, j, k) {
                    assert(is_split_point(s, s.len() - k));
                    lemma_count_starts_le_index(s, s.len() - k);
                    assert(false);
                }
            }
        }
        None
    }

    /// Second build phase: fuse the strings that are not contained in
    /// another string into chains through shared suffix/prefix
    /// boundaries. Each not yet placed, uncontained string starts a
    /// chain at the current end of the buffer; the chain is then
    /// extended greedily, appending for each successor only its bytes
    /// after the shared boundary. Afterwards every uncontained string
    /// has a span.
    fn find_partial_substrings(&mut self)
        requires
            old(self).wf(),
            !old(self).done(),
        ensures
            final(self).wf(),
            !final(self).done(),
            final(self).strings() == old(self).strings(),
            final(self).links() == old(self).links(),
            final(self).is_silent() == old(self).is_silent(),
            forall|t: int|
                0 <= t < old(self).span_table().len() && (#[trigger] old(self).span_table()[t])
                    is Some ==> final(self).span_table()[t] == old(self).span_table()[t],
            forall|t: int|
                0 <= t < final(self).span_table().len() && final(self).links()[t] is None ==> (
                #[trigger] final(self).span_table()[t]) is Some,
            forall|t: int|
                0 <= t < final(self).span_table().len() && final(self).links()[t] is Some ==> (
                #[trigger] final(self).span_table()[t]) == old(self).span_table()[t],
            old(self).buffer().is_prefix_of(final(self).buffer()),
            forall|t: int|
                0 <= t < final(self).span_table().len() && old(self).span_table()[t] is None
                    && (#[trigger] final(self).span_table()[t]) is Some
                    ==> final(self).span_table()[t].unwrap().0 >= old(self).buffer().len(),
            (forall|b: int|
                0 <= b < old(self).buffer().len() ==> covered(old(self).span_table(), b)) ==> (
            forall|b: int|
                0 <= b < final(self).buffer().len() ==> covered(final(self).span_table(), b)),
            overlap_saves(old(self).buffer(), old(self).span_table(), old(self).strings())
                ==> overlap_saves(
                final(self).buffer(),
                final(self).span_table(),
                final(self).strings(),
            ),
    {
        let ghost ss = self.strings();
        let ghost links0 = self.contained_in@;
        let ghost silent0 = self.silent;
        let ghost spans_entry = self.spans@;
        let ghost buf0 = self.index_string@;
        let ghost cov0 = forall|b: int| 0 <= b < buf0.len() ==> covered(spans_entry, b);
        let ghost ov0 = overlap_saves(buf0, spans_entry, ss);
        proof {
            assert(buf0.is_prefix_of(buf0)) by {
                assert(buf0.subrange(0, buf0.len() as int) =~= buf0);
            }
        }
        let n = self.vec.len();
        let mut position: usize = self.index_string.len();
        let mut i: usize = 0;
        while i < n
            invariant
                self.wf(),
                !self.build,
                self.strings() == ss,
                self.contained_in@ == links0,
                self.silent == silent0,
                n == self.vec@.len(),
                i <= n,
                position == self.buffer().len(),
                spans_entry.len() == n,
                forall|t: int|
                    0 <= t < n && (#[trigger] spans_entry[t]) is Some ==> self.spans@[t]
                        == spans_entry[t],
                forall|t: int|
                    0 <= t < i && links0[t] is None ==> (#[trigger] self.spans@[t]) is Some,
                forall|t: int|
                    0 <= t < n && links0[t] is Some ==> (#[trigger] self.spans@[t])
                        == spans_entry[t],
                buf0.is_prefix_of(self.index_string@),
                forall|t: int|
                    0 <= t < n && spans_entry[t] is None && (#[trigger] self.spans@[t]) is Some
                        ==> self.spans@[t].unwrap().0 >= buf0.len(),
                cov0 ==> forall|b: int| 0 <= b < self.index_string@.len() ==> covered(self.spans@, b),
                ov0 ==> overlap_saves(self.index_string@, self.spans@, ss),
            decreases n - i,
        {
            if self.contained_in[i].is_none() && self.spans[i].is_none() {
                let ghost pre = *self;
                let l = self.vec[i].len();
                push_bytes(&mut self.index_string, self.vec[i].as_slice());
                self.spans[i] = Some((position as u32, l as u8));
                proof {
                    assert(pre.strings()[i as int] == pre.vec@[i as int]@);
                    lemma_place_standalone(pre, *self, i as int);
                    lemma_count_none_nonneg(self.spans@);
                    lemma_prefix_append(buf0, pre.index_string@, pre.strings()[i as int]);
                    if cov0 {
                        lemma_cover_place(
                            pre.spans@,
                            i as int,
                            (position as u32, l as u8),
                            pre.index_string@.len() as int,
                            self.index_string@.len() as int,
                        );
                    }
                    if ov0 {
                        assert forall|t: int|
                            0 <= t < n implies ((#[trigger] pre.spans@[t]) matches Some(
                            (o2, l2),
                        ) ==> o2 + l2 <= pre.index_string@.len()) by {
                            assert(pre.span_ok(t));
                        }
                        lemma_overlap_saves_append(
                            pre.index_string@,
                            pre.spans@,
                            ss,
                            i as int,
                            self.spans@[i as int].unwrap(),
                            self.index_string@,
                        );
                    }
                }
                position = self.index_string.len();
                let mut chain_index = i;
                let mut more = true;
                while more
                    invariant
                        self.wf(),
                        !self.build,
                        self.strings() == ss,
                        self.contained_in@ == links0,
                        self.silent == silent0,
                        n == self.vec@.len(),
                        i < n,
                        position == self.buffer().len(),
                        chain_index < n,
                        self.span_table()[chain_index as int] matches Some((o, l2)) && o + l2
                            == position && l2 == ss[chain_index as int].len(),
                        spans_entry.len() == n,
                        forall|t: int|
                            0 <= t < n && (#[trigger] spans_entry[t]) is Some ==> self.spans@[t]
                                == spans_entry[t],
                        forall|t: int|
                            0 <= t < i && links0[t] is None ==> (#[trigger] self.spans@[t])
                                is Some,
                        forall|t: int|
                            0 <= t < n && links0[t] is Some ==> (#[trigger] self.spans@[t])
                                == spans_entry[t],
                        self.spans@[i as int] is Some,
                        count_none(self.spans@) >= 0,
                        buf0.is_prefix_of(self.index_string@),
                        spans_entry[chain_index as int] is None,
                        forall|t: int|
                            0 <= t < n && spans_entry[t] is None && (#[trigger] self.spans@[t])
                                is Some ==> self.spans@[t].unwrap().0 >= buf0.len(),
                        cov0 ==> forall|b: int| 0 <= b < self.index_string@.len() ==> covered(self.spans@, b),
                ov0 ==> overlap_saves(self.index_string@, self.spans@, ss),
                    decreases count_none(self.spans@) + if more {
                        1int
                    } else {
                        0int
                    },
                {
                    match self.find_next_string(chain_index, position) {
                        None => {
                            more = false;
                        },
                        Some(next) => {
                            let ghost pre2 = *self;
                            let l_next = self.vec[next.index].len();
                            push_bytes(&mut self.index_string, next.tail.as_slice());
                            self.spans[next.index] = Some((next.position as u32, l_next as u8));
                            proof {
                                let w = pre2.strings()[next.index as int];
                                let k = w.len() - next.tail@.len();
                                assert(w == pre2.vec@[next.index as int]@);
                                assert(next.tail@ == w.skip(k));
                                lemma_place_chained(
                                    pre2,
                                    *self,
                                    chain_index as int,
                                    next.index as int,
                                    k,
                                );
                                lemma_count_none_nonneg(self.spans@);
                                lemma_prefix_append(buf0, pre2.index_string@, w.skip(k));
                                assert(pre2.spans@[chain_index as int].unwrap().0 >= buf0.len());
                                assert(next.position >= buf0.len());
                                if cov0 {
                                    lemma_cover_place(
                                        pre2.spans@,
                                        next.index as int,
                                        (next.position as u32, l_next as u8),
                                        pre2.index_string@.len() as int,
                                        self.index_string@.len() as int,
                                    );
                                }
                                lemma_place_one(
                                    pre2.spans@,
                                    ss,
                                    next.index as int,
                                    self.spans@[next.index as int].unwrap(),
                                );
                                assert(self.index_string@.len() < placed_sum(self.spans@, ss));
                            }
                            chain_index = next.index;
                            position = self.index_string.len();
                        },
                    }
                }
            }
            i += 1;
        }
    }

    /// Third build phase: append standalone every string that has no
    /// containment link and no span yet, in ascending id order at the
    /// end of the buffer, which grows by exactly their concatenation.
    /// Afterwards every string without a containment link has a span.
    fn join_loose_strings(&mut self)
        requires
            old(self).wf(),
            !old(self).done(),
        ensures
            final(self).wf(),
            !final(self).done(),
            final(self).strings() == old(self).strings(),
            final(self).links() == old(self).links(),
            final(self).is_silent() == old(self).is_silent(),
            forall|t: int|
                0 <= t < old(self).span_table().len() && (#[trigger] old(self).span_table()[t])
                    is Some ==> final(self).span_table()[t] == old(self).span_table()[t],
            forall|t: int|
                0 <= t < final(self).span_table().len() && final(self).links()[t] is None ==> (
                #[trigger] final(self).span_table()[t]) is Some,
            forall|t: int|
                0 <= t < final(self).span_table().len() && final(self).links()[t] is Some ==> (
                #[trigger] final(self).span_table()[t]) == old(self).span_table()[t],
            old(self).buffer().is_prefix_of(final(self).buffer()),
            forall|t: int|
                0 <= t < final(self).span_table().len() && old(self).span_table()[t] is None
                    && (#[trigger] final(self).span_table()[t]) is Some
                    ==> final(self).span_table()[t].unwrap().0 >= old(self).buffer().len(),
            (forall|b: int|
                0 <= b < old(self).buffer().len() ==> covered(old(self).span_table(), b)) ==> (
            forall|b: int|
                0 <= b < final(self).buffer().len() ==> covered(final(self).span_table(), b)),
            overlap_saves(old(self).buffer(), old(self).span_table(), old(self).strings())
                ==> overlap_saves(
                final(self).buffer(),
                final(self).span_table(),
                final(self).strings(),
            ),
            final(self).buffer() == old(self).buffer() + loose_cat(
                old(self).strings(),
                old(self).links(),
                old(self).span_table(),
                old(self).strings().len() as int,
            ),
            forall|t: int|
                0 <= t < old(self).strings().len() && old(self).links()[t] is None && old(
                    self,
                ).span_table()[t] is None ==> ((#[trigger] final(self).span_table()[t]) matches
                    Some((o, l)) && o == old(self).buffer().len() + loose_cat(
                    old(self).strings(),
                    old(self).links(),
                    old(self).span_table(),
                    t,
                ).len() && l == old(self).strings()[t].len()),
    {
        let ghost ss = self.strings();
        let ghost links0 = self.contained_in@;
        let ghost silent0 = self.silent;
        let ghost spans_entry = self.spans@;
        let ghost buf0 = self.index_string@;
        let ghost cov0 = forall|b: int| 0 <= b < buf0.len() ==> covered(spans_entry, b);
        let ghost ov0 = overlap_saves(buf0, spans_entry, ss);
        proof {
            assert(buf0.is_prefix_of(buf0)) by {
                assert(buf0.subrange(0, buf0.len() as int) =~= buf0);
            }
            assert(buf0 + loose_cat(ss, links0, spans_entry, 0) =~= buf0);
        }
        let n = self.vec.len();
        let mut i: usize = 0;
        while i < n
            invariant
                self.wf(),
                !self.build,
                self.strings() == ss,
                self.contained_in@ == links0,
                self.silent == silent0,
                n == self.vec@.len(),
                i <= n,
                spans_entry.len() == n,
                buf0.is_prefix_of(self.index_string@),
                forall|t: int|
                    0 <= t < n && spans_entry[t] is None && (#[trigger] self.spans@[t]) is Some
                        ==> self.spans@[t].unwrap().0 >= buf0.len(),
                forall|t: int|
                    0 <= t < n && (#[trigger] spans_entry[t]) is Some ==> self.spans@[t]
                        == spans_entry[t],
                forall|t: int|
                    0 <= t < i && links0[t] is None ==> (#[trigger] self.spans@[t]) is Some,
                forall|t: int|
                    0 <= t < n && links0[t] is Some ==> (#[trigger] self.spans@[t])
                        == spans_entry[t],
                cov0 ==> forall|b: int| 0 <= b < self.index_string@.len() ==> covered(self.spans@, b),
                ov0 ==> overlap_saves(self.index_string@, self.spans@, ss),
                self.index_string@ == buf0 + loose_cat(ss, links0, spans_entry, i as int),
                forall|t: int| i <= t < n ==> #[trigger] self.spans@[t] == spans_entry[t],
                forall|t: int|
                    0 <= t < i && links0[t] is None && spans_entry[t] is None ==> ((
                    #[trigger] self.spans@[t]) matches Some((o2, l2)) && o2 == buf0.len()
                        + loose_cat(ss, links0, spans_entry, t).len() && l2 == ss[t].len()),
            decreases n - i,
        {
            if self.contained_in[i].is_none() && self.spans[i].is_none() {
                let ghost pre = *self;
                let l = self.vec[i].len();
                let o = self.index_string.len();
                push_bytes(&mut self.index_string, self.vec[i].as_slice());
                self.spans[i] = Some((o as u32, l as u8));
                proof {
                    assert(pre.strings()[i as int] == pre.vec@[i as int]@);
                    lemma_place_standalone(pre, *self, i as int);
                    lemma_prefix_append(buf0, pre.index_string@, pre.strings()[i as int]);
                    if cov0 {
                        lemma_cover_place(
                            pre.spans@,
                            i as int,
                            (o as u32, l as u8),
                            pre.index_string@.len() as int,
                            self.index_string@.len() as int,
                        );
                    }
                    if ov0 {
                        assert forall|t: int|
                            0 <= t < n implies ((#[trigger] pre.spans@[t]) matches Some(
                            (o2, l2),
                        ) ==> o2 + l2 <= pre.index_string@.len()) by {
                            assert(pre.span_ok(t));
                        }
                        lemma_overlap_saves_append(
                            pre.index_string@,
                            pre.spans@,
                            ss,
                            i as int,
                            self.spans@[i as int].unwrap(),
                            self.index_string@,
                        );
                    }
                    assert(self.index_string@ =~= buf0 + loose_cat(
                        ss,
                        links0,
                        spans_entry,
                        i + 1,
                    ));
                }
            } else {
                proof {
                    assert(loose_cat(ss, links0, spans_entry, i + 1) =~= loose_cat(
                        ss,
                        links0,
                        spans_entry,
                        i as int,
                    ));
                }
            }
            i += 1;
        }
    }

    /// Fourth build phase: give every contained string the absolute
    /// span inherited from its container, iterating because a container
    /// may itself be contained. When every id is resolvable (the
    /// containment relation restricted to unplaced ids is acyclic and
    /// grounded), the buffer is untouched and every contained string's
    /// position is exactly its container's position plus the link
    /// offset. A cycle of mutually contained strings (possible only
    /// with duplicate inputs) can make no pass progress; the cycle is
    /// then broken by appending one of its strings standalone, so the
    /// phase always terminates with every span placed.
    fn join_substrings(&mut self)
        requires
            old(self).wf(),
            !old(self).done(),
            forall|t: int|
                0 <= t < old(self).span_table().len() && old(self).links()[t] is None ==> (
                #[trigger] old(self).span_table()[t]) is Some,
        ensures
            final(self).wf(),
            !final(self).done(),
            final(self).strings() == old(self).strings(),
            final(self).links() == old(self).links(),
            final(self).is_silent() == old(self).is_silent(),
            final(self).resolved(),
            forall|t: int|
                0 <= t < old(self).span_table().len() && (#[trigger] old(self).span_table()[t])
                    is Some ==> final(self).span_table()[t] == old(self).span_table()[t],
            (exists|u: int|
                0 <= u < old(self).strings().len() && old(self).links()[u] is Some && (
                #[trigger] old(self).span_table()[u]) is None && old(self).strings()[u].len() > 0)
                ==> final(self).buffer().len() < total_len(final(self).strings()),
            (forall|b: int|
                0 <= b < old(self).buffer().len() ==> covered(old(self).span_table(), b)) ==> (
            forall|b: int|
                0 <= b < final(self).buffer().len() ==> covered(final(self).span_table(), b)),
            overlap_saves(old(self).buffer(), old(self).span_table(), old(self).strings())
                ==> overlap_saves(
                final(self).buffer(),
                final(self).span_table(),
                final(self).strings(),
            ),
            old(self).buffer().is_prefix_of(final(self).buffer()),
            forall|t: int|
                0 <= t < old(self).span_table().len() && old(self).span_table()[t] is None ==> ((
                #[trigger] final(self).links()[t]) matches Some((c, off)) ==> ((final(self).span_table()[c as int] is Some
                    && final(self).span_table()[t].unwrap().0 as int
                    == final(self).span_table()[c as int].unwrap().0 + off)
                    || final(self).span_table()[t].unwrap().0 as int >= old(self).buffer().len())),
            (forall|t: int|
                0 <= t < old(self).span_table().len() ==> #[trigger] resolvable(
                    old(self).links(),
                    old(self).span_table(),
                    t,
                    old(self).span_table().len() as int,
                )) ==> ({
                &&& final(self).buffer() == old(self).buffer()
                &&& forall|t: int|
                    0 <= t < old(self).span_table().len() && old(self).span_table()[t] is None
                        ==> ((#[trigger] final(self).links()[t]) matches Some((c, off))
                        ==> final(self).span_table()[t].unwrap().0 as int
                        == final(self).span_table()[c as int].unwrap().0 + off)
            }),
    {
        let ghost ss = self.strings();
        let ghost links0 = self.contained_in@;
        let ghost silent0 = self.silent;
        let ghost spans_entry = self.spans@;
        let ghost buf_entry = self.index_string@;
        let ghost cov0 = forall|b: int| 0 <= b < buf_entry.len() ==> covered(self.spans@, b);
        let ghost ov0 = overlap_saves(buf_entry, self.spans@, ss);
        let ghost all_res = forall|t: int|
            0 <= t < spans_entry.len() ==> #[trigger] resolvable(
                links0,
                spans_entry,
                t,
                spans_entry.len() as int,
            );
        proof {
            assert(buf_entry.is_prefix_of(buf_entry)) by {
                assert(buf_entry.subrange(0, buf_entry.len() as int) =~= buf_entry);
            }
        }
        let ghost hyp = exists|u: int|
            0 <= u < ss.len() && links0[u] is Some && (#[trigger] spans_entry[u]) is None
                && ss[u].len() > 0;
        let n = self.vec.len();
        let mut remaining: usize = 0;
        let mut i: usize = 0;
        while i < n
            invariant
                i <= n,
                n == self.spans@.len(),
                remaining <= i,
                remaining == count_none(self.spans@.take(i as int)),
            decreases n - i,
        {
            proof {
                assert(self.spans@.take(i + 1).drop_last() =~= self.spans@.take(i as int));
                assert(self.spans@.take(i + 1).last() == self.spans@[i as int]);
            }
            if self.spans[i].is_none() {
                remaining += 1;
            }
            i += 1;
        }
        proof {
            assert(self.spans@.take(n as int) =~= self.spans@);
        }
        while remaining > 0
            invariant
                self.wf(),
                !self.build,
                self.strings() == ss,
                self.contained_in@ == links0,
                self.silent == silent0,
                n == self.vec@.len(),
                remaining == count_none(self.spans@),
                spans_entry.len() == n,
                forall|t: int|
                    0 <= t < n && (#[trigger] spans_entry[t]) is Some ==> self.spans@[t]
                        == spans_entry[t],
                forall|t: int|
                    0 <= t < n && links0[t] is None ==> (#[trigger] self.spans@[t]) is Some,
                hyp ==> strict_or_witness(self.index_string@, self.spans@, links0, ss),
                forall|t: int|
                    0 <= t < n && spans_entry[t] is None && (#[trigger] self.spans@[t]) is Some
                        ==> (links0[t] matches Some((c, off)) ==> ((self.spans@[c as int] is Some
                        && self.spans@[t].unwrap().0 as int == self.spans@[c as int].unwrap().0
                        + off) || self.spans@[t].unwrap().0 as int >= buf_entry.len())),
                all_res == (forall|t: int|
                    0 <= t < spans_entry.len() ==> #[trigger] resolvable(
                        links0,
                        spans_entry,
                        t,
                        spans_entry.len() as int,
                    )),
                all_res ==> self.index_string@ == buf_entry,
                all_res ==> forall|t: int|
                    0 <= t < n && spans_entry[t] is None && (#[trigger] self.spans@[t]) is Some
                        ==> (links0[t] matches Some((c, off)) ==> (self.spans@[c as int] is Some
                        && self.spans@[t].unwrap().0 as int == self.spans@[c as int].unwrap().0
                        + off)),
                buf_entry.is_prefix_of(self.index_string@),
                cov0 ==> forall|b: int| 0 <= b < self.index_string@.len() ==> covered(self.spans@, b),
                ov0 ==> overlap_saves(self.index_string@, self.spans@, ss),
            decreases remaining,
        {
            let ghost rem_start = remaining;
            let ghost pass_spans = self.spans@;
            let mut progress = false;
            let mut i2: usize = 0;
            while i2 < n
                invariant
                    self.wf(),
                    !self.build,
                    self.strings() == ss,
                    self.contained_in@ == links0,
                    self.silent == silent0,
                    n == self.vec@.len(),
                    i2 <= n,
                    remaining == count_none(self.spans@),
                    progress ==> remaining < rem_start,
                    !progress ==> remaining == rem_start,
                    spans_entry.len() == n,
                    forall|t: int|
                        0 <= t < n && (#[trigger] spans_entry[t]) is Some ==> self.spans@[t]
                            == spans_entry[t],
                    forall|t: int|
                        0 <= t < n && links0[t] is None ==> (#[trigger] self.spans@[t]) is Some,
                    hyp ==> strict_or_witness(self.index_string@, self.spans@, links0, ss),
                    forall|t: int|
                        0 <= t < n && spans_entry[t] is None && (#[trigger] self.spans@[t]) is Some
                            ==> (links0[t] matches Some((c, off)) ==> ((self.spans@[c as int] is Some
                            && self.spans@[t].unwrap().0 as int == self.spans@[c as int].unwrap().0
                            + off) || self.spans@[t].unwrap().0 as int >= buf_entry.len())),
                    buf_entry.is_prefix_of(self.index_string@),
                cov0 ==> forall|b: int| 0 <= b < self.index_string@.len() ==> covered(self.spans@, b),
                ov0 ==> overlap_saves(self.index_string@, self.spans@, ss),
                    all_res ==> self.index_string@ == buf_entry,
                    all_res ==> forall|t: int|
                        0 <= t < n && spans_entry[t] is None && (#[trigger] self.spans@[t]) is Some
                            ==> (links0[t] matches Some((c, off)) ==> (self.spans@[c as int] is Some
                            && self.spans@[t].unwrap().0 as int == self.spans@[c as int].unwrap().0
                            + off)),
                    !progress ==> self.spans@ == pass_spans,
                    !progress ==> forall|t: int|
                        0 <= t < i2 && (#[trigger] pass_spans[t]) is None && links0[t] is Some
                            ==> pass_spans[links0[t].unwrap().0 as int] is None,
                decreases n - i2,
            {
                if self.spans[i2].is_none() {
                    proof {
                        assert(self.link_ok(i2 as int));
                    }
                    match self.contained_in[i2] {
                        Some((cid, start)) => {
                            match self.spans[cid as usize] {
                                Some((cpos, _)) => {
                                    let l = self.vec[i2].len();
                                    let ghost pre = *self;
                                    proof {
                                        assert(pre.span_ok(cid as int));
                                        lemma_placed_sum_le_total(
                                            pre.span_table(),
                                            pre.strings(),
                                        );
                                        assert(pre.strings()[i2 as int] == pre.vec@[i2 as int]@);
                                    }
                                    let v = cpos + (start as u32);
                                    self.spans[i2] = Some((v, l as u8));
                                    proof {
                                        lemma_place_resolved(pre, *self, i2 as int, v, l as u8);
                                        if cov0 {
                                            lemma_cover_mono(
                                                pre.spans@,
                                                i2 as int,
                                                (v, l as u8),
                                                pre.index_string@.len() as int,
                                            );
                                        }
                                        if ov0 {
                                            lemma_overlap_saves_resolve(
                                                pre.index_string@,
                                                pre.spans@,
                                                ss,
                                                i2 as int,
                                                (v, l as u8),
                                            );
                                        }
                                        if all_res {
                                            assert forall|t: int|
                                                0 <= t < n && spans_entry[t] is None && (
                                                #[trigger] self.spans@[t]) is Some implies (
                                            links0[t] matches Some((c2, off2)) ==> (
                                            self.spans@[c2 as int] is Some
                                                && self.spans@[t].unwrap().0 as int
                                                == self.spans@[c2 as int].unwrap().0
                                                + off2)) by {
                                                if t == i2 as int {
                                                    assert(cid as int != i2 as int);
                                                    assert(self.spans@[cid as int]
                                                        == pre.spans@[cid as int]);
                                                    assert(v as int == cpos as int
                                                        + start as int);
                                                } else {
                                                    assert(self.spans@[t] == pre.spans@[t]);
                                                    if pre.spans@[t] is Some && links0[t]
                                                        is Some {
                                                        assert(pre.link_ok(t));
                                                        let (c2, off2) = links0[t].unwrap();
                                                        if pre.spans@[c2 as int] is Some {
                                                            assert(c2 as int != i2 as int);
                                                            assert(self.spans@[c2 as int]
                                                                == pre.spans@[c2 as int]);
                                                        }
                                                    }
                                                }
                                            }
                                        }
                                        assert forall|t: int|
                                            0 <= t < n && spans_entry[t] is None && (
                                            #[trigger] self.spans@[t]) is Some implies (
                                        links0[t] matches Some((c2, off2)) ==> ((
                                        self.spans@[c2 as int] is Some
                                            && self.spans@[t].unwrap().0 as int
                                            == self.spans@[c2 as int].unwrap().0 + off2)
                                            || self.spans@[t].unwrap().0 as int
                                            >= buf_entry.len())) by {
                                            if t == i2 as int {
                                                assert(cid as int != i2 as int);
                                                assert(self.spans@[cid as int]
                                                    == pre.spans@[cid as int]);
                                                assert(v as int == cpos as int + start as int);
                                            } else {
                                                assert(self.spans@[t] == pre.spans@[t]);
                                                if pre.spans@[t] is Some && links0[t] is Some {
                                                    assert(pre.link_ok(t));
                                                    let (c2, off2) = links0[t].unwrap();
                                                    if pre.spans@[c2 as int] is Some
                                                        && pre.spans@[t].unwrap().0 as int
                                                        == pre.spans@[c2 as int].unwrap().0
                                                        + off2 {
                                                        assert(c2 as int != i2 as int);
                                                        assert(self.spans@[c2 as int]
                                                            == pre.spans@[c2 as int]);
                                                    }
                                                }
                                            }
                                        }
                                        if remaining == 0 {
                                            lemma_count_none_zero(pre.span_table());
                                            assert(false);
                                        }
                                        lemma_count_none_nonneg(self.spans@);
                                        if hyp {
                                            if pre.index_string@.len() < placed_sum(
                                                pre.spans@,
                                                ss,
                                            ) {
                                                assert(self.index_string@.len() < placed_sum(
                                                    self.spans@,
                                                    ss,
                                                ));
                                            } else {
                                                assert(exists|u: int|
                                                    0 <= u < ss.len() && links0[u] is Some && (
                                                    #[trigger] pre.spans@[u]) is None && ss[u].len()
                                                        > 0);
                                                let u = choose|u: int|
                                                    0 <= u < ss.len() && links0[u] is Some && (
                                                    #[trigger] pre.spans@[u]) is None && ss[u].len()
                                                        > 0;
                                                if u == i2 as int {
                                                    assert(self.index_string@.len() <= placed_sum(
                                                        pre.spans@,
                                                        ss,
                                                    ));
                                                    assert(self.index_string@.len() < placed_sum(
                                                        self.spans@,
                                                        ss,
                                                    ));
                                                } else {
                                                    assert(self.spans@[u] is None);
                                                }
                                            }
                                            assert(strict_or_witness(
                                                self.index_string@,
                                                self.spans@,
                                                links0,
                                                ss,
                                            ));
                                        }
                                    }
                                    progress = true;
                                    remaining -= 1;
                                },
                                None => {},
                            }
                        },
                        None => {
                            proof {
                                assert(false);
                            }
                        },
                    }
                }
                i2 += 1;
            }
            if !progress {
                proof {
                    if all_res {
                        assert forall|t: int|
                            0 <= t < links0.len() implies ((#[trigger] links0[t]) matches Some(
                            (c, off),
                        ) ==> 0 <= (c as int) < links0.len()) by {
                            assert(self.link_ok(t));
                        }
                        assert forall|t: int| 0 <= t < n implies (#[trigger] self.spans@[t])
                            is Some by {
                            assert(resolvable(links0, spans_entry, t, spans_entry.len() as int));
                            lemma_resolvable_placed(
                                links0,
                                spans_entry,
                                self.spans@,
                                t,
                                spans_entry.len() as int,
                            );
                        }
                        lemma_count_none_all_some(self.spans@);
                        assert(false);
                    }
                }
                let mut j: usize = 0;
                let mut placed = false;
                while j < n
                    invariant
                        self.wf(),
                        !self.build,
                        self.strings() == ss,
                        self.contained_in@ == links0,
                        self.silent == silent0,
                        n == self.vec@.len(),
                        j <= n,
                        remaining == count_none(self.spans@),
                        rem_start > 0,
                        placed ==> remaining < rem_start,
                        !placed ==> remaining == rem_start,
                        !placed ==> forall|t: int| 0 <= t < j ==> (#[trigger] self.spans@[t])
                            is Some,
                        spans_entry.len() == n,
                        forall|t: int|
                            0 <= t < n && (#[trigger] spans_entry[t]) is Some ==> self.spans@[t]
                                == spans_entry[t],
                        forall|t: int|
                            0 <= t < n && links0[t] is None ==> (#[trigger] self.spans@[t])
                                is Some,
                        hyp ==> strict_or_witness(self.index_string@, self.spans@, links0, ss),
                        forall|t: int|
                            0 <= t < n && spans_entry[t] is None && (#[trigger] self.spans@[t]) is Some
                                ==> (links0[t] matches Some((c, off)) ==> ((self.spans@[c as int] is Some
                                && self.spans@[t].unwrap().0 as int == self.spans@[c as int].unwrap().0
                                + off) || self.spans@[t].unwrap().0 as int >= buf_entry.len())),
                        buf_entry.is_prefix_of(self.index_string@),
                cov0 ==> forall|b: int| 0 <= b < self.index_string@.len() ==> covered(self.spans@, b),
                ov0 ==> overlap_saves(self.index_string@, self.spans@, ss),
                        !all_res,
                        !placed ==> self.spans@ == pass_spans,
                        forall|t: int|
                            0 <= t < n && (#[trigger] pass_spans[t]) is None && links0[t] is Some
                                ==> pass_spans[links0[t].unwrap().0 as int] is None,
                    decreases n - j,
                {
                    if !placed && self.spans[j].is_none() {
                        let ghost pre = *self;
                        let l = self.vec[j].len();
                        let o = self.index_string.len();
                        push_bytes(&mut self.index_string, self.vec[j].as_slice());
                        self.spans[j] = Some((o as u32, l as u8));
                        proof {
                            assert(pre.strings()[j as int] == pre.vec@[j as int]@);
                            lemma_place_standalone(pre, *self, j as int);
                            lemma_prefix_append(buf_entry, pre.index_string@, pre.strings()[j as int]);
                            if cov0 {
                                lemma_cover_place(
                                    pre.spans@,
                                    j as int,
                                    (o as u32, l as u8),
                                    pre.index_string@.len() as int,
                                    self.index_string@.len() as int,
                                );
                            }
                            if ov0 {
                                assert forall|t: int|
                                    0 <= t < n implies ((#[trigger] pre.spans@[t]) matches Some(
                                    (o2, l2),
                                ) ==> o2 + l2 <= pre.index_string@.len()) by {
                                    assert(pre.span_ok(t));
                                }
                                lemma_overlap_saves_append(
                                    pre.index_string@,
                                    pre.spans@,
                                    ss,
                                    j as int,
                                    self.spans@[j as int].unwrap(),
                                    self.index_string@,
                                );
                            }
                            assert forall|t: int|
                                0 <= t < n && spans_entry[t] is None && (
                                #[trigger] self.spans@[t]) is Some implies (links0[t] matches Some(
                            (c2, off2)) ==> ((self.spans@[c2 as int] is Some
                                && self.spans@[t].unwrap().0 as int
                                == self.spans@[c2 as int].unwrap().0 + off2)
                                || self.spans@[t].unwrap().0 as int >= buf_entry.len())) by {
                                if t == j as int {
                                    assert(self.spans@[j as int].unwrap().0 as int
                                        == pre.index_string@.len());
                                    assert(buf_entry.len() <= pre.index_string@.len());
                                } else {
                                    assert(self.spans@[t] == pre.spans@[t]);
                                    if pre.spans@[t] is Some && links0[t] is Some {
                                        assert(pre.link_ok(t));
                                        let (c2, off2) = links0[t].unwrap();
                                        if pre.spans@[c2 as int] is Some
                                            && pre.spans@[t].unwrap().0 as int
                                            == pre.spans@[c2 as int].unwrap().0 + off2 {
                                            assert(c2 as int != j as int);
                                            assert(self.spans@[c2 as int]
                                                == pre.spans@[c2 as int]);
                                        }
                                    }
                                }
                            }
                            if remaining == 0 {
                                lemma_count_none_zero(pre.span_table());
                                assert(false);
                            }
                            lemma_count_none_nonneg(self.spans@);
                            if hyp {
                                if pre.index_string@.len() < placed_sum(pre.spans@, ss) {
                                    assert(self.index_string@.len() < placed_sum(
                                        self.spans@,
                                        ss,
                                    ));
                                } else {
                                    assert(exists|u: int|
                                        0 <= u < ss.len() && links0[u] is Some && (
                                        #[trigger] pre.spans@[u]) is None && ss[u].len() > 0);
                                    let u = choose|u: int|
                                        0 <= u < ss.len() && links0[u] is Some && (
                                        #[trigger] pre.spans@[u]) is None && ss[u].len() > 0;
                                    if u == j as int {
                                        assert(pre.link_ok(u));
                                        let c = links0[u].unwrap().0 as int;
                                        assert(pre.spans@ == pass_spans);
                                        assert(pass_spans[c] is None);
                                        assert(c != u);
                                        assert(self.spans@[c] is None);
                                        assert(links0[c] is Some);
                                        assert(ss[c].len() > 0);
                                    } else {
                                        assert(self.spans@[u] is None);
                                    }
                                }
                                assert(strict_or_witness(
                                    self.index_string@,
                                    self.spans@,
                                    links0,
                                    ss,
                                ));
                            }
                        }
                        placed = true;
                        remaining -= 1;
                    }
                    j += 1;
                }
                proof {
                    if !placed {
                        lemma_count_none_all_some(self.spans@);
                        assert(false);
                    }
                }
            }
        }
        proof {
            lemma_count_none_zero(self.spans@);
            if all_res {
                assert(self.index_string@ == buf_entry);
            }
            if hyp {
                if !(self.index_string@.len() < placed_sum(self.spans@, ss)) {
                    let u = choose|u: int|
                        0 <= u < ss.len() && links0[u] is Some && (#[trigger] self.spans@[u])
                            is None && ss[u].len() > 0;
                    assert(self.spans@[u] is Some);
                    assert(false);
                }
                lemma_placed_sum_all_some(self.spans@, ss);
            }
        }
    }

    /// Switch progress notifications on or off; off by default for a
    /// builder made by `from_iter`. Nothing else about the builder
    /// changes.
    pub fn debug_messages(&mut self, on: bool)
        ensures
            final(self).is_silent() == !on,
            final(self).strings() == old(self).strings(),
            final(self).span_table() == old(self).span_table(),
            final(self).links() == old(self).links(),
            final(self).buffer() == old(self).buffer(),
            final(self).done() == old(self).done(),
            old(self).wf() ==> final(self).wf(),
    {
        self.silent = !on;
        proof {
            if old(self).wf() {
                lemma_wf_transfer(*old(self), *self);
            }
        }
    }

    /// Run the four build phases in place, once: discover containment,
    /// fuse overlap chains, append what is left, resolve contained
    /// positions. Afterwards every string has a span that reproduces
    /// its bytes from the buffer, and the buffer is never longer than
    /// the concatenation of all inputs. Running it again changes
    /// nothing.
    pub fn build_only(&mut self) -> (r: Result<(), Error>)
        requires
            old(self).wf(),
        ensures
            r == Result::<(), Error>::Ok(()),
            final(self).wf(),
            final(self).done(),
            final(self).resolved(),
            final(self).strings() == old(self).strings(),
            final(self).is_silent() == old(self).is_silent(),
            forall|i: int|
                0 <= i < final(self).strings().len() ==> #[trigger] final(self).entry(i)
                    == final(self).strings()[i],
            final(self).buffer().len() <= total_len(final(self).strings()),
            old(self).done() ==> *final(self) == *old(self),
            ({
                &&& !old(self).done()
                &&& forall|t: int|
                    0 <= t < old(self).span_table().len() ==> (#[trigger] old(
                        self,
                    ).span_table()[t]) is None
                &&& exists|u: int|
                    0 <= u < final(self).strings().len() && (#[trigger] final(self).links()[u])
                        is Some && final(self).strings()[u].len() > 0
            }) ==> final(self).buffer().len() < total_len(final(self).strings()),
            ({
                &&& !old(self).done()
                &&& forall|t: int|
                    0 <= t < old(self).span_table().len() ==> (#[trigger] old(
                        self,
                    ).span_table()[t]) is None
                &&& forall|t: int|
                    0 <= t < old(self).links().len() ==> (#[trigger] old(self).links()[t]) is None
                &&& ac_builds(old(self).strings())
                &&& exists|p: int, t: int, off: int|
                    0 <= p < old(self).strings().len() && 0 <= t < old(self).strings().len() && t
                        != p && #[trigger] occurs_in(
                        old(self).strings()[p],
                        old(self).strings()[t],
                        off,
                    ) && old(self).strings()[p].len() > 0
            }) ==> final(self).buffer().len() < total_len(final(self).strings()),
            old(self).buffer().is_prefix_of(final(self).buffer()),
            ({
                &&& !old(self).done()
                &&& forall|t: int|
                    0 <= t < old(self).span_table().len() ==> (#[trigger] old(
                        self,
                    ).span_table()[t]) is None
            }) ==> forall|b: int|
                0 <= b < final(self).buffer().len() ==> covered(final(self).span_table(), b),
            ({
                &&& !old(self).done()
                &&& forall|t: int|
                    0 <= t < old(self).span_table().len() ==> (#[trigger] old(
                        self,
                    ).span_table()[t]) is None
            }) ==> ((exists|a: int, b: int|
                0 <= a < final(self).span_table().len() && 0 <= b
                    < final(self).span_table().len() && a != b && #[trigger] spans_overlap(
                    final(self).span_table()[a],
                    final(self).span_table()[b],
                )) ==> final(self).buffer().len() < total_len(final(self).strings())),
    {
        if self.build {
            proof {
                assert forall|i: int|
                    0 <= i < self.strings().len() implies #[trigger] self.entry(i)
                    == self.strings()[i] by {
                    assert(self.span_ok(i));
                    assert(self.span_table()[i] is Some);
                }
                lemma_placed_sum_le_total(self.span_table(), self.strings());
                assert(self.buffer().is_prefix_of(self.buffer())) by {
                    assert(self.buffer().subrange(0, self.buffer().len() as int)
                        =~= self.buffer());
                }
            }
            return Ok(());
        }
        self.find_substrings();
        let ghost s1 = *self;
        self.find_partial_substrings();
        let ghost s2 = *self;
        self.join_loose_strings();
        let ghost s3 = *self;
        self.join_substrings();
        proof {
            let n = self.strings().len();
            assert(old(self).buffer().is_prefix_of(s1.buffer())) by {
                assert(s1.buffer().subrange(0, s1.buffer().len() as int) =~= s1.buffer());
            }
            lemma_prefix_trans(old(self).buffer(), s2.buffer(), s3.buffer());
            lemma_prefix_trans(old(self).buffer(), s3.buffer(), self.buffer());
            if !old(self).done() && (forall|t: int|
                0 <= t < old(self).span_table().len() ==> (#[trigger] old(self).span_table()[t])
                    is None) {
                lemma_placed_sum_none(old(self).span_table(), old(self).strings());
                assert(old(self).buffer().len() == 0);
                assert(forall|b: int|
                    0 <= b < s1.buffer().len() ==> covered(s1.span_table(), b));
                assert(forall|b: int|
                    0 <= b < s2.buffer().len() ==> covered(s2.span_table(), b));
                assert(forall|b: int|
                    0 <= b < s3.buffer().len() ==> covered(s3.span_table(), b));
                assert(forall|b: int|
                    0 <= b < self.buffer().len() ==> covered(self.span_table(), b));
                assert(overlap_saves(old(self).buffer(), old(self).span_table(), old(self).strings())) by {
                    if exists|a: int, b: int|
                        0 <= a < old(self).span_table().len() && 0 <= b < old(
                            self,
                        ).span_table().len() && a != b && #[trigger] spans_overlap(
                            old(self).span_table()[a],
                            old(self).span_table()[b],
                        ) {
                        let (a, b) = choose|a: int, b: int|
                            0 <= a < old(self).span_table().len() && 0 <= b < old(
                                self,
                            ).span_table().len() && a != b && #[trigger] spans_overlap(
                                old(self).span_table()[a],
                                old(self).span_table()[b],
                            );
                        assert(old(self).span_table()[a] is Some);
                        assert(false);
                    }
                }
                assert(overlap_saves(s1.buffer(), s1.span_table(), s1.strings()));
                assert(overlap_saves(s2.buffer(), s2.span_table(), s2.strings()));
                assert(overlap_saves(s3.buffer(), s3.span_table(), s3.strings()));
                assert(overlap_saves(self.buffer(), self.span_table(), self.strings()));
                lemma_placed_sum_all_some(self.span_table(), self.strings());
            }
            if (forall|t: int|
                0 <= t < old(self).span_table().len() ==> (#[trigger] old(self).span_table()[t])
                    is None) && (forall|t: int|
                0 <= t < old(self).links().len() ==> (#[trigger] old(self).links()[t]) is None)
                && ac_builds(old(self).strings()) && (exists|p: int, t: int, off: int|
                0 <= p < old(self).strings().len() && 0 <= t < old(self).strings().len() && t != p
                    && #[trigger] occurs_in(
                    old(self).strings()[p],
                    old(self).strings()[t],
                    off,
                ) && old(self).strings()[p].len() > 0) {
                let (p, t, off) = choose|p: int, t: int, off: int|
                    0 <= p < old(self).strings().len() && 0 <= t < old(self).strings().len() && t
                        != p && #[trigger] occurs_in(
                        old(self).strings()[p],
                        old(self).strings()[t],
                        off,
                    ) && old(self).strings()[p].len() > 0;
                assert(has_container(old(self).strings(), p)) by {
                    assert(occurs_in(old(self).strings()[p], old(self).strings()[t], off));
                }
                assert(s1.links()[p] is Some);
                assert(s2.links()[p] is Some);
                assert(s3.links()[p] is Some);
                assert(self.links()[p] is Some);
                assert(exists|u: int|
                    0 <= u < n && (#[trigger] self.links()[u]) is Some && self.strings()[u].len()
                        > 0) by {
                    assert(self.links()[p] is Some && self.strings()[p].len() > 0);
                }
            }
            if (forall|t: int|
                0 <= t < old(self).span_table().len() ==> (#[trigger] old(self).span_table()[t])
                    is None) && (exists|u: int|
                0 <= u < n && (#[trigger] self.links()[u]) is Some && self.strings()[u].len()
                    > 0) {
                let u = choose|u: int|
                    0 <= u < n && (#[trigger] self.links()[u]) is Some && self.strings()[u].len()
                        > 0;
                assert(s3.links()[u] is Some);
                assert(s2.links()[u] is Some);
                assert(s1.links()[u] is Some);
                assert(s1.span_table()[u] is None);
                assert(s2.span_table()[u] == s1.span_table()[u]);
                assert(s3.span_table()[u] == s2.span_table()[u]);
                assert(exists|w: int|
                    0 <= w < s3.strings().len() && s3.links()[w] is Some && (
                    #[trigger] s3.span_table()[w]) is None && s3.strings()[w].len() > 0) by {
                    assert(s3.links()[u] is Some && s3.span_table()[u] is None
                        && s3.strings()[u].len() > 0);
                }
                assert(self.buffer().len() < total_len(self.strings()));
            }
        }
        let ghost pre = *self;
        self.build = true;
        proof {
            assert(self.resolved());
            lemma_wf_transfer(pre, Builder { build: true, ..pre });
            assert(*self == Builder { build: true, ..pre });
            assert forall|i: int|
                0 <= i < self.strings().len() implies #[trigger] self.entry(i)
                == self.strings()[i] by {
                assert(self.span_ok(i));
                assert(self.span_table()[i] is Some);
            }
            lemma_placed_sum_le_total(self.span_table(), self.strings());
        }
        Ok(())
    }

    /// Consume the builder and produce the frozen collection: the
    /// shared buffer together with the placed span of every input
    /// string, in id order. Runs the build phases first if they have
    /// not run yet. Always succeeds on a well-formed builder, and every
    /// entry of the result reproduces its input string exactly.
    pub fn build(self) -> (r: Result<SubStr, Error>)
        requires
            self.wf(),
        ensures
            r matches Ok(s) ==> {
                &&& s.wf()
                &&& s.spans@.len() == self.strings().len()
                &&& forall|i: int|
                    0 <= i < self.strings().len() ==> #[trigger] s.at(i) == self.strings()[i]
                &&& s.string@.len() <= total_len(self.strings())
                &&& (self.done() ==> s.string@ == self.buffer())
                &&& self.buffer().is_prefix_of(s.string@)
                &&& ((!self.done() && (forall|t: int|
                    0 <= t < self.span_table().len() ==> (#[trigger] self.span_table()[t])
                        is None)) ==> forall|b: int| 0 <= b < s.string@.len() ==> #[trigger] s.reaches(b))
                &&& ((!self.done() && (forall|t: int|
                    0 <= t < self.span_table().len() ==> (#[trigger] self.span_table()[t])
                        is None)) ==> ((exists|a: int, b: int|
                    0 <= a < s.spans@.len() && 0 <= b < s.spans@.len() && a != b
                        && #[trigger] spans_overlap(Some(s.spans@[a]), Some(s.spans@[b])))
                    ==> s.string@.len() < total_len(self.strings())))
            },
            r is Ok,
    {
        let mut b = self;
        let r0 = b.build_only();
        match r0 {
            Ok(()) => {},
            Err(e) => {
                proof {
                    assert(false);
                }
                return Err(e);
            },
        }
        let ghost bb = b;
        let n = b.spans.len();
        let mut spans: Vec<(u32, u8)> = Vec::new();
        let mut i: usize = 0;
        while i < n
            invariant
                b == bb,
                bb.wf(),
                bb.resolved(),
                n == bb.span_table().len(),
                i <= n,
                spans@.len() == i,
                forall|j: int| 0 <= j < i ==> #[trigger] spans@[j] == bb.span_table()[j].unwrap(),
            decreases n - i,
        {
            match b.spans[i] {
                Some(sp) => {
                    spans.push(sp);
                },
                None => {
                    proof {
                        assert(bb.span_table()[i as int] is Some);
                        assert(false);
                    }
                },
            }
            i += 1;
        }
        let s = SubStr { spans, string: b.index_string };
        proof {
            assert forall|j: int| 0 <= j < n implies (#[trigger] s.spans@[j]).0 + s.spans@[j].1
                <= s.string@.len() by {
                assert(bb.span_ok(j));
            }
            assert forall|j: int| 0 <= j < n implies #[trigger] s.at(j) == bb.strings()[j] by {
                assert(bb.span_ok(j));
                assert(bb.entry(j) == bb.strings()[j]);
            }
            if !self.done() && (forall|t: int|
                0 <= t < self.span_table().len() ==> (#[trigger] self.span_table()[t]) is None) {
                if exists|a: int, b: int|
                    0 <= a < s.spans@.len() && 0 <= b < s.spans@.len() && a != b
                        && #[trigger] spans_overlap(Some(s.spans@[a]), Some(s.spans@[b])) {
                    let (a, b) = choose|a: int, b: int|
                        0 <= a < s.spans@.len() && 0 <= b < s.spans@.len() && a != b
                            && #[trigger] spans_overlap(Some(s.spans@[a]), Some(s.spans@[b]));
                    assert(bb.span_table()[a] == Some(s.spans@[a]));
                    assert(bb.span_table()[b] == Some(s.spans@[b]));
                    assert(exists|a2: int, b2: int|
                        0 <= a2 < bb.span_table().len() && 0 <= b2 < bb.span_table().len() && a2
                            != b2 && #[trigger] spans_overlap(
                            bb.span_table()[a2],
                            bb.span_table()[b2],
                        )) by {
                        assert(spans_overlap(bb.span_table()[a], bb.span_table()[b]));
                    }
                    assert(s.string@.len() < total_len(self.strings()));
                }
                assert forall|b: int| 0 <= b < s.string@.len() implies #[trigger] s.reaches(b) by {
                    assert(covered(bb.span_table(), b));
                    let t = choose|t: int|
                        0 <= t < bb.span_table().len() && ((#[trigger] bb.span_table()[t]) matches
                            Some((o, l)) && o <= b < o + l);
                    assert(s.spans@[t] == bb.span_table()[t].unwrap());
                }
            }
        }
        Ok(s)
    }

    /// Copy the builder's working state out as plain values, for
    /// inspection or encoding. The builder itself is unchanged.
    pub fn state(&self) -> (r: BuilderState)
        ensures
            r.strings@.map_values(|v: Vec<u8>| v@) == self.strings(),
            r.contained_in@ == self.links(),
            r.index_string@ == self.buffer(),
            r.spans@ == self.span_table(),
            r.silent == self.is_silent(),
            r.build == self.done(),
    {
        let mut strings: Vec<Vec<u8>> = Vec::new();
        let n = self.vec.len();
        let mut i: usize = 0;
        while i < n
            invariant
                n == self.vec@.len(),
                i <= n,
                strings@.len() == i,
                forall|j: int| 0 <= j < i ==> (#[trigger] strings@[j])@ == self.vec@[j]@,
            decreases n - i,
        {
            strings.push(vstd::slice::slice_to_vec(self.vec[i].as_slice()));
            i += 1;
        }
        proof {
            assert(strings@.map_values(|v: Vec<u8>| v@) =~= self.strings());
        }
        BuilderState {
            strings,
            contained_in: vstd::slice::slice_to_vec(self.contained_in.as_slice()),
            index_string: vstd::slice::slice_to_vec(self.index_string.as_slice()),
            spans: vstd::slice::slice_to_vec(self.spans.as_slice()),
            silent: self.silent,
            build: self.build,
        }
    }

    /// Check that the build process was successful: re-derive every
    /// input string from its span in the buffer and compare it to the
    /// original bytes. Runs the build phases first if they have not
    /// run yet; on a well-formed builder the check always passes.
    pub fn verify(&mut self) -> (r: Result<bool, Error>)
        requires
            old(self).wf(),
        ensures
            final(self).wf(),
            final(self).done(),
            final(self).strings() == old(self).strings(),
            old(self).done() ==> *final(self) == *old(self),
            r == Result::<bool, Error>::Ok(true),
    {
        if !self.build {
            let r0 = self.build_only();
            match r0 {
                Ok(()) => {},
                Err(_) => {
                    proof {
                        assert(false);
                    }
                },
            }
        }
        let ghost bb = *self;
        let n = self.vec.len();
        let buf_len = self.index_string.len();
        let mut i: usize = 0;
        while i < n
            invariant
                *self == bb,
                bb.wf(),
                bb.resolved(),
                n == bb.strings().len(),
                n == self.vec@.len(),
                buf_len == bb.buffer().len(),
                i <= n,
            decreases n - i,
        {
            match self.spans[i] {
                Some((b0, e)) => {
                    proof {
                        assert(bb.span_ok(i as int));
                        assert(b0 + e <= buf_len);
                    }
                    let sl = vstd::slice::slice_subrange(
                        self.index_string.as_slice(),
                        b0 as usize,
                        b0 as usize + e as usize,
                    );
                    let same = bytes_eq(sl, self.vec[i].as_slice());
                    if !same {
                        proof {
                            assert(bb.strings()[i as int] == bb.vec@[i as int]@);
                            assert(false);
                        }
                        return Ok(false);
                    }
                },
                None => {
                    proof {
                        assert(bb.span_table()[i as int] is Some);
                        assert(false);
                    }
                },
            }
            i += 1;
        }
        Ok(true)
    }
}

impl Default for Builder {
    /// An empty builder holding no strings.
    fn default() -> (r: Self)
        ensures
            r.wf(),
            r.strings().len() == 0,
            !r.done(),
            !r.is_silent(),
    {
        Builder {
            vec: Vec::new(),
            contained_in: Vec::new(),
            index_string: Vec::new(),
            spans: Vec::new(),
            silent: false,
            build: false,
        }
    }
}

} // verus!
