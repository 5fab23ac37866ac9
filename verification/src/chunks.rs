//! Cutting a text into overlapping chunks, counted in characters.
use crate::text::{chars_of, string_of, trim_bounds};
use vstd::prelude::*;

verus! {

use crate::text::{
    blank,
    lemma_blank_iff_trim_empty,
    lemma_trim_bounds,
    trim,
    trimmed,
    views,
    white_space,
};

/// How far one chunk starts behind the one before it.
pub open spec fn chunk_step(size: int, overlap: int) -> int {
    if size - overlap > 1 {
        size - overlap
    } else {
        1
    }
}

/// The spans that the chunks of a text of `total` characters are cut from, beginning at
/// `start`: each `size` long and `step` behind the one before it, up to the first one
/// that reaches the end of the text, which ends there.
pub open spec fn windows(start: int, total: int, size: int, step: int) -> Seq<(int, int)>
    decreases (if start < total { total - start } else { 0 }),
{
    if start >= total || step < 1 {
        seq![]
    } else if start + size >= total {
        seq![(start, total)]
    } else {
        seq![(start, start + size)] + windows(start + step, total, size, step)
    }
}

/// The trimmed text of one span.
pub open spec fn window_text(body: Seq<char>, window: (int, int)) -> Seq<char> {
    trim(body.subrange(window.0, window.1))
}

/// The texts of the spans that hold more than white space.
pub open spec fn window_texts(body: Seq<char>, spans: Seq<(int, int)>) -> Seq<Seq<char>> {
    spans.map_values(|w: (int, int)| window_text(body, w)).filter(|t: Seq<char>| t.len() > 0)
}

/// The chunks of `text`: none of a blank text, the whole trimmed text where it fits in
/// `size` characters, and otherwise the first `max_chunks` texts of its windows.
pub open spec fn chunked(text: Seq<char>, size: int, overlap: int, max_chunks: int) -> Seq<
    Seq<char>,
> {
    let body = trim(text);
    if body.len() == 0 {
        seq![]
    } else if body.len() <= size {
        seq![body]
    } else {
        let texts = window_texts(body, windows(0, body.len() as int, size, chunk_step(size, overlap)));
        if texts.len() <= max_chunks {
            texts
        } else {
            texts.take(max_chunks)
        }
    }
}

/// What the first span adds to the texts of the spans behind it.
proof fn lemma_window_texts_cons(body: Seq<char>, window: (int, int), rest: Seq<(int, int)>)
    ensures
        window_texts(body, seq![window] + rest) == (if window_text(body, window).len() > 0 {
            seq![window_text(body, window)]
        } else {
            seq![]
        }) + window_texts(body, rest),
{
    let f = |w: (int, int)| window_text(body, w);
    let p = |t: Seq<char>| t.len() > 0;
    let first = seq![window_text(body, window)];
    assert((seq![window] + rest).map_values(f) =~= first + rest.map_values(f));
    Seq::filter_distributes_over_add(first, rest.map_values(f), p);
    assert(first.drop_last() =~= seq![]);
    reveal_with_fuel(Seq::filter, 2);
    assert(first.filter(p) =~= (if p(window_text(body, window)) {
        first
    } else {
        seq![]
    }));
}

proof fn lemma_window_texts_empty(body: Seq<char>)
    ensures
        window_texts(body, seq![]) == Seq::<Seq<char>>::empty(),
{
    let f = |w: (int, int)| window_text(body, w);
    assert(Seq::<(int, int)>::empty().map_values(f) =~= seq![]);
    reveal(Seq::filter);
    assert(window_texts(body, seq![]) =~= seq![]);
}

/// Cuts `text` into chunks of at most `size` characters, each starting `size - overlap`
/// characters behind the one before it (one character, where `overlap` is not below
/// `size`), at most `max_chunks` of them where the text does not fit in one. Chunks are
/// trimmed, and blank ones are left out.
pub fn chunk_text(text: &str, size: usize, overlap: usize, max_chunks: usize) -> (r: Vec<String>)
    ensures
        views(r@) == chunked(text@, size as int, overlap as int, max_chunks as int),
{
    let all = chars_of(text);
    let (from, to) = trim_bounds(&all, 0, all.len());
    proof {
        assert(all@.subrange(0, all@.len() as int) =~= all@);
    }
    let ghost body = trim(text@);
    let total: usize = to - from;
    let mut out: Vec<String> = Vec::new();
    if total == 0 {
        assert(views(out@) =~= seq![]);
        return out;
    }
    if total <= size {
        out.push(string_of(&all, from, to));
        assert(views(out@) =~= seq![body]);
        return out;
    }
    let step: usize = if size > overlap {
        size - overlap
    } else {
        1
    };
    let mut start: usize = 0;
    let mut at_end: bool = false;
    let ghost texts = window_texts(body, windows(0, total as int, size as int, step as int));
    let ghost mut rest = windows(0, total as int, size as int, step as int);
    proof {
        assert(views(out@) + texts =~= texts);
    }
    while !at_end && start < total && out.len() < max_chunks
        invariant
            from + total == to <= all@.len(),
            body == all@.subrange(from as int, to as int),
            size < total,
            step == chunk_step(size as int, overlap as int),
            step <= size || step == 1,
            start <= total,
            rest == (if at_end {
                seq![]
            } else {
                windows(start as int, total as int, size as int, step as int)
            }),
            texts == views(out@) + window_texts(body, rest),
            out@.len() <= max_chunks,
        decreases (if at_end { 0int } else { 1int }), total - start,
    {
        let ends: bool = size >= total - start;
        let end: usize = if ends {
            total
        } else {
            start + size
        };
        let ghost window = (start as int, end as int);
        let ghost after = if ends {
            seq![]
        } else {
            windows(start + step, total as int, size as int, step as int)
        };
        proof {
            assert(rest =~= seq![window] + after);
            lemma_window_texts_cons(body, window, after);
            assert(all@.subrange(from + start, from + end) =~= body.subrange(
                start as int,
                end as int,
            ));
        }
        let (a, b) = trim_bounds(&all, from + start, from + end);
        let ghost before = out@;
        if a < b {
            out.push(string_of(&all, a, b));
            proof {
                assert(views(out@) =~= views(before) + seq![window_text(body, window)]);
            }
        }
        proof {
            assert(texts =~= views(out@) + window_texts(body, after));
            rest = after;
        }
        if ends {
            at_end = true;
        } else {
            start = start + step;
        }
    }
    proof {
        if out@.len() < max_chunks {
            assert(rest =~= seq![]);
            lemma_window_texts_empty(body);
            assert(views(out@) =~= texts);
        } else if texts.len() > max_chunks {
            assert(views(out@) =~= texts.take(max_chunks as int));
        } else {
            assert(views(out@) =~= texts);
        }
    }
    out
}

/// `piece` stands in `body` at position `at`.
pub open spec fn stands_at(body: Seq<char>, piece: Seq<char>, at: int) -> bool {
    &&& 0 <= at
    &&& at + piece.len() <= body.len()
    &&& piece == body.subrange(at, at + piece.len())
}

/// The window that holds position `p`.
proof fn lemma_window_at(start: int, total: int, size: int, step: int, p: int) -> (k: int)
    requires
        start <= p < total,
        1 <= step <= size,
    ensures
        0 <= k < windows(start, total, size, step).len(),
        windows(start, total, size, step)[k].0 <= p < windows(start, total, size, step)[k].1,
    decreases total - start,
{
    if start + size >= total || p < start + size {
        0
    } else {
        let k = lemma_window_at(start + step, total, size, step, p);
        assert(windows(start, total, size, step)[k + 1] == windows(
            start + step,
            total,
            size,
            step,
        )[k]);
        k + 1
    }
}

/// Every window is a span of the text, at most `size` long; it starts `step` behind the
/// window before it, and only the last one is short.
pub proof fn law_windows_advance_by_step(start: int, total: int, size: int, step: int, k: int)
    requires
        0 <= start,
        0 <= size,
        1 <= step,
        0 <= k < windows(start, total, size, step).len(),
    ensures
        windows(start, total, size, step)[k].0 == start + k * step,
        windows(start, total, size, step)[k].0 <= windows(start, total, size, step)[k].1 <= total,
        windows(start, total, size, step)[k].1 - windows(start, total, size, step)[k].0 <= size,
        k + 1 < windows(start, total, size, step).len() ==> windows(start, total, size, step)[k].1
            == start + k * step + size,
    decreases k,
{
    if k == 0 {
        assert(k * step == 0) by (nonlinear_arith)
            requires
                k == 0,
        ;
    }
    if start + size < total {
        let rest = windows(start + step, total, size, step);
        if k > 0 {
            law_windows_advance_by_step(start + step, total, size, step, k - 1);
            assert(windows(start, total, size, step)[k] == rest[k - 1]);
            assert((k - 1) * step + step == k * step) by (nonlinear_arith);
        }
    }
}

/// Neighbouring windows share exactly `overlap` characters, as long as `overlap` is
/// below `size`.
pub proof fn law_neighbouring_windows_overlap(total: int, size: int, overlap: int, k: int)
    requires
        0 <= overlap < size,
        0 <= k,
        k + 1 < windows(0, total, size, chunk_step(size, overlap)).len(),
    ensures
        windows(0, total, size, chunk_step(size, overlap))[k].1 - windows(
            0,
            total,
            size,
            chunk_step(size, overlap),
        )[k + 1].0 == overlap,
{
    let step = chunk_step(size, overlap);
    law_windows_advance_by_step(0, total, size, step, k);
    law_windows_advance_by_step(0, total, size, step, k + 1);
    assert((k + 1) * step == k * step + step) by (nonlinear_arith);
}

proof fn lemma_window_count(start: int, total: int, size: int, step: int)
    requires
        1 <= step,
        start <= total,
    ensures
        windows(start, total, size, step).len() <= total - start,
    decreases total - start,
{
    if start + size < total {
        if start + step <= total {
            lemma_window_count(start + step, total, size, step);
        }
    }
}

/// A text has no more windows with something in them than characters.
pub proof fn lemma_texts_are_few(body: Seq<char>, size: int, overlap: int)
    ensures
        window_texts(
            body,
            windows(0, body.len() as int, size, chunk_step(size, overlap)),
        ).len() <= body.len(),
{
    let spans = windows(0, body.len() as int, size, chunk_step(size, overlap));
    lemma_window_count(0, body.len() as int, size, chunk_step(size, overlap));
    spans.map_values(|w: (int, int)| window_text(body, w)).lemma_filter_len(
        |t: Seq<char>| t.len() > 0,
    );
}

/// A text that the filter kept is the text of some window.
proof fn lemma_text_has_window(body: Seq<char>, spans: Seq<(int, int)>, i: int) -> (k: int)
    requires
        0 <= i < window_texts(body, spans).len(),
    ensures
        0 <= k < spans.len(),
        window_texts(body, spans)[i] == window_text(body, spans[k]),
        window_texts(body, spans)[i].len() > 0,
{
    let f = |w: (int, int)| window_text(body, w);
    let p = |t: Seq<char>| t.len() > 0;
    let all = spans.map_values(f);
    all.lemma_filter_pred(p, i);
    all.lemma_filter_contains_rev(p, all.filter(p)[i]);
    let k = choose|k: int| 0 <= k < all.len() && all[k] == all.filter(p)[i];
    k
}

/// Every chunk is a piece of the trimmed text: not empty, without white space at its
/// ends, and at most `size` characters long.
pub proof fn law_chunks_are_short_trimmed_pieces(
    text: Seq<char>,
    size: int,
    overlap: int,
    max_chunks: int,
    i: int,
)
    requires
        0 <= size,
        0 <= overlap,
        0 <= max_chunks,
        0 <= i < chunked(text, size, overlap, max_chunks).len(),
    ensures
        0 < chunked(text, size, overlap, max_chunks)[i].len() <= size,
        trimmed(chunked(text, size, overlap, max_chunks)[i]),
        exists|at: int| stands_at(trim(text), chunked(text, size, overlap, max_chunks)[i], at),
{
    let body = trim(text);
    let chunk = chunked(text, size, overlap, max_chunks)[i];
    let _ = lemma_trim_bounds(text);
    if body.len() <= size {
        assert(chunk =~= body.subrange(0, chunk.len() as int));
        assert(stands_at(body, chunk, 0));
    } else {
        let spans = windows(0, body.len() as int, size, chunk_step(size, overlap));
        let k = lemma_text_has_window(body, spans, i);
        law_windows_advance_by_step(0, body.len() as int, size, chunk_step(size, overlap), k);
        assert(0 <= k * chunk_step(size, overlap)) by (nonlinear_arith)
            requires
                0 <= k,
                1 <= chunk_step(size, overlap),
        ;
        let cut = body.subrange(spans[k].0, spans[k].1);
        let (a, b) = lemma_trim_bounds(cut);
        assert(chunk =~= body.subrange(spans[k].0 + a, spans[k].0 + a + chunk.len()));
        assert(stands_at(body, chunk, spans[k].0 + a));
    }
}

/// There are at most `max_chunks` chunks, except that a text that fits in one chunk is
/// always kept.
pub proof fn law_chunk_count(text: Seq<char>, size: int, overlap: int, max_chunks: int)
    requires
        0 <= max_chunks,
    ensures
        chunked(text, size, overlap, max_chunks).len() <= (if max_chunks < 1 {
            1
        } else {
            max_chunks
        }),
        chunked(text, size, overlap, max_chunks).len() > max_chunks ==> trim(text).len() <= size,
{
}

/// A text has a chunk exactly when it is not blank, given room for one.
pub proof fn law_chunks_empty_iff_blank(text: Seq<char>, size: int, overlap: int, max_chunks: int)
    requires
        1 <= size,
        0 <= overlap,
        1 <= max_chunks,
    ensures
        chunked(text, size, overlap, max_chunks).len() == 0 <==> blank(text),
{
    lemma_blank_iff_trim_empty(text);
    let body = trim(text);
    let _ = lemma_trim_bounds(text);
    if body.len() > size {
        let texts = window_texts(
            body,
            windows(0, body.len() as int, size, chunk_step(size, overlap)),
        );
        let (i, at) = lemma_position_is_in_a_text(body, size, overlap, 0);
        assert(texts.len() > 0);
    }
}

/// The text of a window that holds the character at `p`, and where that text stands.
proof fn lemma_position_is_in_a_text(body: Seq<char>, size: int, overlap: int, p: int) -> (r: (
    int,
    int,
))
    requires
        1 <= size,
        0 <= overlap,
        0 <= p < body.len(),
        !white_space(body[p]),
    ensures
        ({
            let texts = window_texts(
                body,
                windows(0, body.len() as int, size, chunk_step(size, overlap)),
            );
            &&& 0 <= r.0 < texts.len()
            &&& stands_at(body, texts[r.0], r.1)
            &&& r.1 <= p < r.1 + texts[r.0].len()
        }),
{
    let step = chunk_step(size, overlap);
    let spans = windows(0, body.len() as int, size, step);
    let k = lemma_window_at(0, body.len() as int, size, step, p);
    law_windows_advance_by_step(0, body.len() as int, size, step, k);
    assert(0 <= k * step) by (nonlinear_arith)
        requires
            0 <= k,
            1 <= step,
    ;
    let w = spans[k];
    let cut = body.subrange(w.0, w.1);
    let (a, b) = lemma_trim_bounds(cut);
    let text = window_text(body, w);
    let q = p - w.0;
    assert(cut[q] == body[p]);
    if q < a {
        assert(cut.subrange(0, a)[q] == cut[q]);
    }
    if q >= b {
        assert(cut.subrange(b, cut.len() as int)[q - b] == cut[q]);
    }
    let f = |w: (int, int)| window_text(body, w);
    let pred = |t: Seq<char>| t.len() > 0;
    let all = spans.map_values(f);
    assert(all[k] == text);
    all.lemma_filter_contains(pred, k);
    let texts = window_texts(body, spans);
    let i = choose|i: int| 0 <= i < texts.len() && texts[i] == text;
    assert(text =~= body.subrange(w.0 + a, w.0 + a + text.len()));
    (i, w.0 + a)
}

/// Nothing is lost: unless the limit on their number cuts them off, the chunks hold
/// every character of the text that is not white space, at its place.
pub proof fn law_chunks_cover_the_text(
    text: Seq<char>,
    size: int,
    overlap: int,
    max_chunks: int,
    p: int,
)
    requires
        1 <= size,
        0 <= overlap,
        trim(text).len() <= size || window_texts(
            trim(text),
            windows(0, trim(text).len() as int, size, chunk_step(size, overlap)),
        ).len() <= max_chunks,
        0 <= p < trim(text).len(),
        !white_space(trim(text)[p]),
    ensures
        exists|i: int, at: int|
            0 <= i < chunked(text, size, overlap, max_chunks).len() && #[trigger] stands_at(
                trim(text),
                chunked(text, size, overlap, max_chunks)[i],
                at,
            ) && at <= p < at + chunked(text, size, overlap, max_chunks)[i].len(),
{
    let body = trim(text);
    let chunks = chunked(text, size, overlap, max_chunks);
    if body.len() <= size {
        assert(body.subrange(0, body.len() as int) =~= body);
        assert(stands_at(body, chunks[0], 0));
    } else {
        let (i, at) = lemma_position_is_in_a_text(body, size, overlap, p);
        assert(stands_at(body, chunks[i], at));
    }
}

/// A text that fits in one chunk is that chunk, trimmed. A blank text has none.
pub proof fn law_short_texts_are_one_chunk(
    text: Seq<char>,
    size: int,
    overlap: int,
    max_chunks: int,
)
    requires
        trim(text).len() <= size,
    ensures
        trim(text).len() > 0 ==> chunked(text, size, overlap, max_chunks) == seq![trim(text)],
        trim(text).len() == 0 ==> chunked(text, size, overlap, max_chunks) == Seq::<
            Seq<char>,
        >::empty(),
{
}

/// How many windows a text of `total` characters has from `start` on, and where each of
/// them lies.
proof fn lemma_windows_count(start: int, total: int, size: int, step: int)
    requires
        0 <= start < total,
        1 <= step <= size,
    ensures
        ({
            let spans = windows(start, total, size, step);
            let left = total - start;
            &&& spans.len() == (if left <= size {
                1
            } else {
                (left - size + step - 1) / step + 1
            })
            &&& forall|k: int|
                0 <= k < spans.len() ==> #[trigger] spans[k] == (
                    start + k * step,
                    if start + k * step + size < total {
                        start + k * step + size
                    } else {
                        total
                    },
                )
        }),
    decreases total - start,
{
    let spans = windows(start, total, size, step);
    let left = total - start;
    if left <= size {
        assert(0 * step == 0) by (nonlinear_arith);
        assert forall|k: int| 0 <= k < spans.len() implies #[trigger] spans[k] == (
            start + k * step,
            if start + k * step + size < total {
                start + k * step + size
            } else {
                total
            },
        ) by {
            assert(k == 0);
        }
    } else {
        let next = start + step;
        let rest = windows(next, total, size, step);
        lemma_windows_count(next, total, size, step);
        assert(spans =~= seq![(start, start + size)] + rest);
        if left - step <= size {
            assert((left - size + step - 1) / step == 1) by (nonlinear_arith)
                requires
                    1 <= left - size <= step,
            ;
        } else {
            assert((left - size + step - 1) / step == (left - step - size + step - 1) / step + 1)
                by (nonlinear_arith)
                requires
                    1 <= step,
                    left - size > step,
            ;
        }
        assert forall|k: int| 0 <= k < spans.len() implies #[trigger] spans[k] == (
            start + k * step,
            if start + k * step + size < total {
                start + k * step + size
            } else {
                total
            },
        ) by {
            if k == 0 {
                assert(k * step == 0) by (nonlinear_arith)
                    requires
                        k == 0,
                ;
            } else {
                assert(spans[k] == rest[k - 1]);
                assert((k - 1) * step + step == k * step) by (nonlinear_arith);
            }
        }
    }
}

/// The places of the texts that the filter kept: they stand in their order, and what is
/// left out is empty.
proof fn lemma_kept_texts(all: Seq<Seq<char>>) -> (at: Seq<int>)
    ensures
        ({
            let kept = all.filter(|t: Seq<char>| t.len() > 0);
            &&& at.len() == kept.len()
            &&& forall|i: int|
                0 <= i < at.len() ==> 0 <= #[trigger] at[i] < all.len() && kept[i] == all[at[i]]
                    && kept[i].len() > 0
            &&& forall|i: int, j: int| 0 <= i < j < at.len() ==> at[i] < at[j]
            &&& forall|k: int|
                0 <= k < all.len() && (#[trigger] all[k]).len() > 0 ==> at.contains(k)
        }),
    decreases all.len(),
{
    let p = |t: Seq<char>| t.len() > 0;
    reveal(Seq::filter);
    if all.len() == 0 {
        seq![]
    } else {
        let front = all.drop_last();
        let before = lemma_kept_texts(front);
        let last = all.len() - 1;
        let at = if p(all[last]) {
            before.push(last)
        } else {
            before
        };
        assert forall|k: int|
            0 <= k < all.len() && (#[trigger] all[k]).len() > 0 implies at.contains(k) by {
            if k < last {
                assert(front[k] == all[k]);
                assert(before.contains(k));
                let i = choose|i: int| 0 <= i < before.len() && before[i] == k;
                assert(at[i] == k);
            } else {
                assert(at[before.len() as int] == k);
            }
        }
        at
    }
}

/// A text that does not fit in one chunk is cut into windows of `size` characters, of
/// which each begins `size - overlap` behind the one before it (one character, where
/// `overlap` is not below `size`), up to the first one that reaches the end. The chunks are
/// the trimmed texts of the windows at the places `at`: in order, without the blank ones,
/// and without those behind the last one that there is room for.
pub proof fn law_chunks_are_the_windows_in_order(
    text: Seq<char>,
    size: int,
    overlap: int,
    max_chunks: int,
) -> (at: Seq<int>)
    requires
        1 <= size < trim(text).len(),
        0 <= overlap,
        0 <= max_chunks,
    ensures
        ({
            let body = trim(text);
            let step = if overlap < size {
                size - overlap
            } else {
                1
            };
            let count = (body.len() - size + step - 1) / step + 1;
            let window = |k: int|
                body.subrange(
                    k * step,
                    if k * step + size < body.len() {
                        k * step + size
                    } else {
                        body.len() as int
                    },
                );
            let chunks = chunked(text, size, overlap, max_chunks);
            &&& chunks.len() == at.len() <= max_chunks
            &&& forall|i: int|
                0 <= i < at.len() ==> 0 <= #[trigger] at[i] < count && chunks[i] == trim(
                    window(at[i]),
                ) && chunks[i].len() > 0
            &&& forall|i: int, j: int| 0 <= i < j < at.len() ==> at[i] < at[j]
            &&& forall|k: int|
                0 <= k < count && trim(#[trigger] window(k)).len() > 0 && (at.len() < max_chunks || (
                at.len() > 0 && k <= at.last())) ==> at.contains(k)
        }),
{
    let body = trim(text);
    let step = chunk_step(size, overlap);
    let spans = windows(0, body.len() as int, size, step);
    let all = spans.map_values(|w: (int, int)| window_text(body, w));
    lemma_windows_count(0, body.len() as int, size, step);
    let kept = lemma_kept_texts(all);
    let texts = window_texts(body, spans);
    let window = |k: int|
        body.subrange(
            k * step,
            if k * step + size < body.len() {
                k * step + size
            } else {
                body.len() as int
            },
        );
    assert forall|k: int| 0 <= k < all.len() implies #[trigger] all[k] == trim(window(k)) by {
        assert(all[k] == window_text(body, spans[k]));
    }
    if texts.len() <= max_chunks {
        assert forall|k: int|
            0 <= k < all.len() && trim(#[trigger] window(k)).len() > 0 implies kept.contains(k) by {
            assert(all[k].len() > 0);
        }
        kept
    } else {
        let at = kept.take(max_chunks);
        assert forall|k: int|
            0 <= k < all.len() && trim(#[trigger] window(k)).len() > 0 && (at.len() < max_chunks
                || (at.len() > 0 && k <= at.last())) implies at.contains(k) by {
            assert(all[k].len() > 0);
            assert(kept.contains(k));
            let i = choose|i: int| 0 <= i < kept.len() && kept[i] == k;
            if i >= max_chunks {
                assert(kept[max_chunks - 1] < kept[i]);
            }
            assert(at[i] == k);
        }
        at
    }
}

/// As long as no window is blank and the limit is not reached, chunk `k` is the trimmed text
/// of the `size` characters from `k * (size - overlap)` on, or of those up to the end. So
/// neighbours share `overlap` characters of the text, and there are as many chunks as it
/// takes to reach the end.
pub proof fn law_chunks_step_through_the_text(
    text: Seq<char>,
    size: int,
    overlap: int,
    max_chunks: int,
)
    requires
        1 <= size < trim(text).len(),
        0 <= overlap < size,
        (trim(text).len() - size + (size - overlap) - 1) / (size - overlap) + 1 <= max_chunks,
        forall|k: int|
            0 <= k < (trim(text).len() - size + (size - overlap) - 1) / (size - overlap) + 1
                ==> trim(
                trim(text).subrange(
                    #[trigger] (k * (size - overlap)),
                    if k * (size - overlap) + size < trim(text).len() {
                        k * (size - overlap) + size
                    } else {
                        trim(text).len() as int
                    },
                ),
            ).len() > 0,
    ensures
        chunked(text, size, overlap, max_chunks).len() == (trim(text).len() - size + (size
            - overlap) - 1) / (size - overlap) + 1,
        forall|k: int|
            0 <= k < chunked(text, size, overlap, max_chunks).len() ==> #[trigger] chunked(
                text,
                size,
                overlap,
                max_chunks,
            )[k] == trim(
                trim(text).subrange(
                    k * (size - overlap),
                    if k * (size - overlap) + size < trim(text).len() {
                        k * (size - overlap) + size
                    } else {
                        trim(text).len() as int
                    },
                ),
            ),
{
    let body = trim(text);
    let step = size - overlap;
    let spans = windows(0, body.len() as int, size, step);
    lemma_windows_count(0, body.len() as int, size, step);
    let all = spans.map_values(|w: (int, int)| window_text(body, w));
    assert forall|k: int| 0 <= k < all.len() implies (#[trigger] all[k]).len() > 0 by {
        assert(all[k] == window_text(body, spans[k]));
        assert(0 <= k * step) by (nonlinear_arith)
            requires
                0 <= k,
                1 <= step,
        ;
    }
    lemma_filter_keeps_all(all);
    assert(chunked(text, size, overlap, max_chunks) == all);
}

proof fn lemma_filter_keeps_all(all: Seq<Seq<char>>)
    requires
        forall|k: int| 0 <= k < all.len() ==> (#[trigger] all[k]).len() > 0,
    ensures
        all.filter(|t: Seq<char>| t.len() > 0) == all,
    decreases all.len(),
{
    reveal(Seq::filter);
    if all.len() > 0 {
        let front = all.drop_last();
        assert forall|k: int| 0 <= k < front.len() implies (#[trigger] front[k]).len() > 0 by {
            assert(front[k] == all[k]);
        }
        lemma_filter_keeps_all(front);
        assert(all =~= front.push(all.last()));
    } else {
        assert(all.filter(|t: Seq<char>| t.len() > 0) =~= all);
    }
}

/// Where a chunk has room for nothing, there are none.
pub proof fn law_chunks_of_no_size_are_none(text: Seq<char>, overlap: int, max_chunks: int)
    requires
        0 <= overlap,
        0 <= max_chunks,
    ensures
        chunked(text, 0, overlap, max_chunks) == Seq::<Seq<char>>::empty(),
{
    let chunks = chunked(text, 0, overlap, max_chunks);
    if chunks.len() > 0 {
        law_chunks_are_short_trimmed_pieces(text, 0, overlap, max_chunks, 0);
    }
    assert(chunks =~= seq![]);
}

} // verus!
