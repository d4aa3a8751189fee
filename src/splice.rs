use vstd::prelude::*;
use crate::span::Span;
use vstd::utf8::*;

verus! {

/// The bytes written in place of an erased range of `n` bytes.
pub open spec fn fill(n: nat, space: bool) -> Seq<u8> {
    if space {
        Seq::new(n, |_i: int| 32u8)
    } else {
        Seq::empty()
    }
}

/// `text` with the range of `s` blanked (`space`) or removed.
pub open spec fn replaced(text: Seq<u8>, s: Span, space: bool) -> Seq<u8> {
    text.subrange(0, s.start as int) + fill(s.len(), space) + text.subrange(
        s.end as int,
        text.len() as int,
    )
}

/// The spans are in increasing order, each well formed, and pairwise disjoint.
pub open spec fn ordered(spans: Seq<Span>) -> bool {
    &&& forall|i: int| 0 <= i < spans.len() ==> (#[trigger] spans[i]).start <= spans[i].end
    &&& forall|i: int, j: int|
        0 <= i < j < spans.len() ==> (#[trigger] spans[i]).end <= (#[trigger] spans[j]).start
}

/// Every span is a well-formed range inside a text of `len` bytes.
pub open spec fn in_bounds(spans: Seq<Span>, len: nat) -> bool {
    forall|i: int| 0 <= i < spans.len() ==> (#[trigger] spans[i]).start <= spans[i].end <= len
}

/// What erasing needs of the spans: each inside the text, and, when bytes are
/// removed rather than blanked, in increasing order and disjoint.
pub open spec fn erasable(spans: Seq<Span>, len: nat, space: bool) -> bool {
    &&& in_bounds(spans, len)
    &&& (space || ordered(spans))
}

/// The text after erasing every span, the last span first.
pub open spec fn spliced(text: Seq<u8>, spans: Seq<Span>, space: bool) -> Seq<u8>
    decreases spans.len(),
{
    if spans.len() == 0 {
        text
    } else {
        spliced(replaced(text, spans.last(), space), spans.drop_last(), space)
    }
}

/// Sum of the lengths of the spans.
pub open spec fn total_len(spans: Seq<Span>) -> nat
    decreases spans.len(),
{
    if spans.len() == 0 {
        0
    } else {
        total_len(spans.drop_last()) + spans.last().len()
    }
}

/// Some span holds the byte offset `i`.
pub open spec fn covered(spans: Seq<Span>, i: int) -> bool {
    exists|k: int| 0 <= k < spans.len() && (#[trigger] spans[k]).contains(i)
}

/// A copy of `text` with the range of `span` blanked or removed.
pub fn replace_range(text: &Vec<u8>, span: Span, replace_with_space: bool) -> (r: Vec<u8>)
    requires
        span.start <= span.end,
        span.end <= text@.len(),
    ensures
        r@ == replaced(text@, span, replace_with_space),
{
    let start = span.start as usize;
    let end = span.end as usize;
    let mut out: Vec<u8> = Vec::with_capacity(text.len());
    let mut i: usize = 0;
    while i < start
        invariant
            i <= start <= end <= text@.len(),
            out@ == text@.subrange(0, i as int),
        decreases start - i,
    {
        out.push(text[i]);
        i = i + 1;
    }
    if replace_with_space {
        while i < end
            invariant
                start <= i <= end <= text@.len(),
                out@ == text@.subrange(0, start as int) + Seq::new(
                    (i - start) as nat,
                    |_j: int| 32u8,
                ),
            decreases end - i,
        {
            out.push(32u8);
            i = i + 1;
            assert(out@ =~= text@.subrange(0, start as int) + Seq::new(
                (i - start) as nat,
                |_j: int| 32u8,
            ));
        }
    }
    let ghost head = out@;
    assert(head =~= text@.subrange(0, start as int) + fill(span.len(), replace_with_space));
    let mut j: usize = end;
    while j < text.len()
        invariant
            end <= j <= text@.len(),
            out@ == head + text@.subrange(end as int, j as int),
        decreases text@.len() - j,
    {
        out.push(text[j]);
        j = j + 1;
        assert(out@ =~= head + text@.subrange(end as int, j as int));
    }
    assert(out@ =~= replaced(text@, span, replace_with_space));
    out
}

/// Dropping the last span keeps the spans erasable from a text with the last
/// span erased.
proof fn lemma_erasable_drop_last(text: Seq<u8>, spans: Seq<Span>, space: bool)
    requires
        spans.len() > 0,
        erasable(spans, text.len(), space),
    ensures
        erasable(
            spans.drop_last(),
            replaced(text, spans.last(), space).len(),
            space,
        ),
        replaced(text, spans.last(), space).len() + spans.last().len() + (if space {
            0
        } else {
            spans.last().len()
        }) == text.len() + spans.last().len(),
{
    let s = spans.last();
    let rest = spans.drop_last();
    assert(s == spans[spans.len() - 1]);
    let next = replaced(text, s, space);
    assert forall|i: int| 0 <= i < rest.len() implies (#[trigger] rest[i]).start <= rest[i].end
        <= next.len() by {
        assert(rest[i] == spans[i]);
        if !space {
            assert(spans[i].end <= spans[spans.len() - 1].start);
        }
    }
    if !space {
        assert forall|i: int, j: int| 0 <= i < j < rest.len() implies (#[trigger] rest[i]).end
            <= (#[trigger] rest[j]).start by {
            assert(rest[i] == spans[i]);
            assert(rest[j] == spans[j]);
        }
        assert forall|i: int| 0 <= i < rest.len() implies (#[trigger] rest[i]).start
            <= rest[i].end by {
            assert(rest[i] == spans[i]);
        }
    }
}

/// In space-fill mode the output is exactly as long as the input, whatever
/// the order of the spans; in removal mode, with spans in order, it is
/// shorter by the total length of the spans.
pub proof fn lemma_spliced_len(text: Seq<u8>, spans: Seq<Span>, space: bool)
    requires
        erasable(spans, text.len(), space),
    ensures
        space ==> spliced(text, spans, space).len() == text.len(),
        !space ==> spliced(text, spans, space).len() + total_len(spans) == text.len(),
    decreases spans.len(),
{
    if spans.len() > 0 {
        lemma_erasable_drop_last(text, spans, space);
        lemma_spliced_len(replaced(text, spans.last(), space), spans.drop_last(), space);
    }
}

/// In space-fill mode every byte keeps its offset, whatever the order of the
/// spans: a byte inside some span becomes a space and every other byte is
/// unchanged.
pub proof fn lemma_spliced_positions(text: Seq<u8>, spans: Seq<Span>)
    requires
        in_bounds(spans, text.len()),
    ensures
        spliced(text, spans, true).len() == text.len(),
        forall|i: int|
            0 <= i < text.len() ==> #[trigger] spliced(text, spans, true)[i] == if covered(
                spans,
                i,
            ) {
                32u8
            } else {
                text[i]
            },
    decreases spans.len(),
{
    lemma_spliced_len(text, spans, true);
    if spans.len() > 0 {
        let s = spans.last();
        let rest = spans.drop_last();
        assert(s == spans[spans.len() - 1]);
        let next = replaced(text, s, true);
        lemma_erasable_drop_last(text, spans, true);
        lemma_spliced_positions(next, rest);
        assert forall|i: int| 0 <= i < text.len() implies #[trigger] spliced(text, spans, true)[i]
            == if covered(spans, i) {
            32u8
        } else {
            text[i]
        } by {
            assert(next[i] == if s.contains(i) {
                32u8
            } else {
                text[i]
            });
            if covered(rest, i) {
                let k = choose|k: int| 0 <= k < rest.len() && (#[trigger] rest[k]).contains(i);
                assert(spans[k] == rest[k]);
            }
            if covered(spans, i) && !s.contains(i) {
                let k = choose|k: int| 0 <= k < spans.len() && (#[trigger] spans[k]).contains(i);
                assert(k != spans.len() - 1);
                assert(spans[k] == rest[k]);
            }
        }
    }
}

/// A run of spaces is valid UTF-8.
pub proof fn lemma_fill_valid(n: nat, space: bool)
    ensures
        valid_utf8(fill(n, space)),
{
    let f = fill(n, space);
    assert(valid_utf8(f.subrange(0, 0))) by {
        assert(f.subrange(0, 0).len() == 0);
    }
    if space {
        partial_valid_utf8_extend_ascii_block(f, 0, n as int);
        assert(f.subrange(0, n as int) =~= f);
    } else {
        assert(f.len() == 0);
    }
}

/// The bytes between two character boundaries of valid UTF-8 are valid UTF-8.
pub proof fn lemma_middle_valid(t: Seq<u8>, a: int, b: int)
    requires
        valid_utf8(t),
        0 <= a <= b <= t.len(),
        is_char_boundary(t, a),
        is_char_boundary(t, b),
    ensures
        valid_utf8(t.subrange(a, b)),
{
    valid_utf8_split(t, a);
    let u = t.subrange(a, t.len() as int);
    if b == t.len() {
        assert(t.subrange(a, b) == u);
    } else {
        is_char_boundary_iff_not_is_continuation_byte(t, b);
        assert(u[b - a] == t[b]);
        is_char_boundary_iff_not_is_continuation_byte(u, b - a);
        valid_utf8_split(u, b - a);
        assert(u.subrange(0, b - a) =~= t.subrange(a, b));
    }
}

/// Every span starts and ends on a character boundary of `text`.
pub open spec fn on_boundaries(text: Seq<u8>, spans: Seq<Span>) -> bool {
    forall|i: int|
        0 <= i < spans.len() ==> is_char_boundary(text, (#[trigger] spans[i]).start as int)
            && is_char_boundary(text, spans[i].end as int)
}

/// Blanking one span between character boundaries of valid UTF-8 gives valid
/// UTF-8 of the same length, in which every old boundary is still one.
proof fn lemma_blank_valid(c: Seq<u8>, s: Span)
    requires
        valid_utf8(c),
        s.start <= s.end <= c.len(),
        is_char_boundary(c, s.start as int),
        is_char_boundary(c, s.end as int),
    ensures
        valid_utf8(replaced(c, s, true)),
        replaced(c, s, true).len() == c.len(),
        forall|x: int|
            0 <= x <= c.len() && is_char_boundary(c, x) ==> #[trigger] is_char_boundary(
                replaced(c, s, true),
                x,
            ),
{
    let st = s.start as int;
    let en = s.end as int;
    let r = replaced(c, s, true);
    is_char_boundary_start_end_of_seq(c);
    lemma_middle_valid(c, 0, st);
    lemma_middle_valid(c, en, c.len() as int);
    lemma_fill_valid(s.len(), true);
    valid_utf8_concat(c.subrange(0, st), fill(s.len(), true));
    valid_utf8_concat(c.subrange(0, st) + fill(s.len(), true), c.subrange(en, c.len() as int));
    assert(r.len() == c.len());
    assert forall|x: int| 0 <= x <= c.len() && is_char_boundary(c, x) implies #[trigger] is_char_boundary(r, x) by {
        if x == c.len() {
            is_char_boundary_start_end_of_seq(r);
        } else {
            is_char_boundary_iff_not_is_continuation_byte(c, x);
            assert(r[x] == if st <= x < en {
                32u8
            } else {
                c[x]
            });
            is_char_boundary_iff_not_is_continuation_byte(r, x);
        }
    }
}

/// Blanking spans on character boundaries, in any order, keeps valid UTF-8
/// valid.
proof fn lemma_blanked_valid(c: Seq<u8>, spans: Seq<Span>)
    requires
        valid_utf8(c),
        in_bounds(spans, c.len()),
        on_boundaries(c, spans),
    ensures
        valid_utf8(spliced(c, spans, true)),
    decreases spans.len(),
{
    if spans.len() > 0 {
        let s = spans.last();
        let rest = spans.drop_last();
        assert(s == spans[spans.len() - 1]);
        lemma_blank_valid(c, s);
        let next = replaced(c, s, true);
        lemma_erasable_drop_last(c, spans, true);
        assert forall|i: int| 0 <= i < rest.len() implies is_char_boundary(
            next,
            (#[trigger] rest[i]).start as int,
        ) && is_char_boundary(next, rest[i].end as int) by {
            assert(rest[i] == spans[i]);
            assert(is_char_boundary(next, rest[i].start as int));
            assert(is_char_boundary(next, rest[i].end as int));
        }
        lemma_blanked_valid(next, rest);
    }
}

proof fn lemma_spliced_valid_from(
    text: Seq<u8>,
    code: Seq<u8>,
    b: int,
    rest: Seq<u8>,
    spans: Seq<Span>,
    space: bool,
)
    requires
        valid_utf8(text),
        0 <= b <= text.len(),
        is_char_boundary(text, b),
        code == text.subrange(0, b) + rest,
        valid_utf8(rest),
        ordered(spans),
        forall|i: int| 0 <= i < spans.len() ==> (#[trigger] spans[i]).end <= b,
        on_boundaries(text, spans),
    ensures
        valid_utf8(spliced(code, spans, space)),
    decreases spans.len(),
{
    if spans.len() == 0 {
        valid_utf8_split(text, b);
        valid_utf8_concat(text.subrange(0, b), rest);
    } else {
        let s = spans.last();
        let others = spans.drop_last();
        assert(s == spans[spans.len() - 1]);
        let st = s.start as int;
        let en = s.end as int;
        let f = fill(s.len(), space);
        let mid = text.subrange(en, b);
        let rest2 = f + mid + rest;
        lemma_fill_valid(s.len(), space);
        lemma_middle_valid(text, en, b);
        valid_utf8_concat(f, mid);
        valid_utf8_concat(f + mid, rest);
        assert(code.subrange(0, st) =~= text.subrange(0, st));
        assert(code.subrange(en, code.len() as int) =~= mid + rest);
        assert(replaced(code, s, space) =~= text.subrange(0, st) + rest2);
        assert forall|i: int| 0 <= i < others.len() implies (#[trigger] others[i]).end <= st by {
            assert(others[i] == spans[i]);
        }
        assert forall|i: int, j: int| 0 <= i < j < others.len() implies (#[trigger] others[i]).end
            <= (#[trigger] others[j]).start by {
            assert(others[i] == spans[i]);
            assert(others[j] == spans[j]);
        }
        assert forall|i: int| 0 <= i < others.len() implies (#[trigger] others[i]).start
            <= others[i].end by {
            assert(others[i] == spans[i]);
        }
        assert forall|i: int| 0 <= i < others.len() implies is_char_boundary(
            text,
            (#[trigger] others[i]).start as int,
        ) && is_char_boundary(text, others[i].end as int) by {
            assert(others[i] == spans[i]);
        }
        lemma_spliced_valid_from(text, replaced(code, s, space), st, rest2, others, space);
    }
}

/// Erasing spans that start and end on character boundaries keeps a valid
/// UTF-8 text valid: blanking in any order, removing in increasing order.
pub proof fn lemma_spliced_valid(text: Seq<u8>, spans: Seq<Span>, space: bool)
    requires
        valid_utf8(text),
        erasable(spans, text.len(), space),
        on_boundaries(text, spans),
    ensures
        valid_utf8(spliced(text, spans, space)),
{
    if space {
        lemma_blanked_valid(text, spans);
    } else {
        is_char_boundary_start_end_of_seq(text);
        assert(valid_utf8(Seq::<u8>::empty())) by {
            assert(Seq::<u8>::empty().len() == 0);
        }
        assert(text =~= text.subrange(0, text.len() as int) + Seq::<u8>::empty());
        lemma_spliced_valid_from(text, text, text.len() as int, Seq::empty(), spans, space);
    }
}

} // verus!
