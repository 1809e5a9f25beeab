//! What a second pass of unlinking finds in a note.
use crate::markup::{
    after_mark, bar_from, before_mark, blanked, body_start, bracket_from, comment_close,
    comment_open, covered, find_from, law_links_follow_each_other, law_no_link_is_missed,
    lemma_bracket_from, lemma_bracket_is, lemma_no_code, lies_in, link_at, link_span, link_spans,
    note_spans, prose, region_from, stands_at, target_name, trimmed, trimmed_end, white_space,
    LinkSpan, Region,
};
use crate::replaced::{lemma_dealt, lemma_moved_after, lemma_moved_run};
use crate::text::{lemma_ascii_byte, lemma_encode_concat};
use crate::unlink::{
    dead_count, dealt_with, free_of_dead_links, in_order, is_dead,
    law_dead_links_become_plain_text, law_other_text_is_kept,
    law_without_dead_links_nothing_changes, lemma_after_ascii, lemma_in_order_take, moved_to,
    plain_text, rewritten, unlinked,
};
use vstd::prelude::*;
use vstd::utf8::{decode_utf8, encode_utf8, is_char_boundary, is_continuation_byte, valid_utf8};

verus! {

/// There is no `[` in the target or in the alias of a link.
pub open spec fn bracket_free(span: LinkSpan) -> bool {
    !span.target.contains('[') && (span.alias is Some ==> !span.alias->0.contains('['))
}

/// The two `]` that close `link`, which stands in what becomes of a note, came together when a dead
/// link between them left nothing behind.
pub open spec fn is_closed_by_joining(
    text: Seq<u8>,
    spans: Seq<LinkSpan>,
    names: Set<Seq<char>>,
    link: LinkSpan,
) -> bool {
    exists|i: int|
        0 <= i < spans.len() && is_dead(#[trigger] spans[i], names) && plain_text(spans[i]).len()
            == 0 && moved_to(text, spans, names, spans[i].start) == link.end - 1
}

/// There is a comment inside `link`, which stands in `out`.
pub open spec fn reads_over_comment(out: Seq<u8>, link: LinkSpan) -> bool {
    prose(out).subrange(link.start, link.end) != out.subrange(link.start, link.end)
}

/// `link`, which stands in what becomes of a note, was not in the note: its closing brackets came
/// together, or a `<!--` of the note was closed inside it.
pub open spec fn is_made_anew(
    text: Seq<u8>,
    spans: Seq<LinkSpan>,
    names: Set<Seq<char>>,
    link: LinkSpan,
) -> bool {
    ||| is_closed_by_joining(text, spans, names, link)
    ||| (exists|at: int| #[trigger] stands_at(text, comment_open(), at)) && reads_over_comment(
        unlinked(text, spans, names),
        link,
    )
}

proof fn lemma_trimmed_end_within(text: Seq<char>) -> (j: int)
    ensures
        0 <= j <= text.len(),
        trimmed_end(text) == text.subrange(0, j),
    decreases text.len(),
{
    if text.len() > 0 && trimmed_end(text) != text {
        let j = lemma_trimmed_end_within(text.drop_last());
        assert(text.drop_last().subrange(0, j) =~= text.subrange(0, j));
        j
    } else {
        assert(text.subrange(0, text.len() as int) =~= text);
        text.len() as int
    }
}

proof fn lemma_trimmed_within(text: Seq<char>) -> (r: (int, int))
    ensures
        0 <= r.0 <= r.1 <= text.len(),
        trimmed(text) == text.subrange(r.0, r.1),
    decreases text.len(),
{
    if text.len() > 0 && white_space(text[0]) {
        let (i, j) = lemma_trimmed_within(text.drop_first());
        assert(text.drop_first().subrange(i, j) =~= text.subrange(i + 1, j + 1));
        (i + 1, j + 1)
    } else {
        let j = lemma_trimmed_end_within(text);
        (0, j)
    }
}

proof fn lemma_before_within(text: Seq<char>, mark: char) -> (j: int)
    ensures
        0 <= j <= text.len(),
        before_mark(text, mark) == text.subrange(0, j),
    decreases text.len(),
{
    if text.len() == 0 || text[0] == mark {
        assert(text.subrange(0, 0) =~= Seq::<char>::empty());
        0
    } else {
        let j = lemma_before_within(text.drop_first(), mark);
        assert(before_mark(text, mark) =~= text.subrange(0, j + 1));
        j + 1
    }
}

proof fn lemma_after_within(text: Seq<char>, mark: char) -> (i: int)
    ensures
        0 <= i <= text.len(),
        after_mark(text, mark) == text.subrange(i, text.len() as int),
    decreases text.len(),
{
    if text.len() == 0 || text.last() == mark {
        assert(text.subrange(text.len() as int, text.len() as int) =~= Seq::<char>::empty());
        text.len() as int
    } else {
        let i = lemma_after_within(text.drop_last(), mark);
        assert(after_mark(text, mark) =~= text.subrange(i, text.len() as int));
        i
    }
}

/// The name that a target gives is a part of it.
proof fn lemma_name_within(target: Seq<char>) -> (r: (int, int))
    requires
        target_name(target) is Some,
    ensures
        0 <= r.0 <= r.1 <= target.len(),
        target_name(target)->0 == target.subrange(r.0, r.1),
{
    let a = trimmed(target);
    let (ai, aj) = lemma_trimmed_within(target);
    let b = before_mark(a, '#');
    let bj = lemma_before_within(a, '#');
    let c = before_mark(b, '^');
    let cj = lemma_before_within(b, '^');
    let d = trimmed(c);
    let (di, dj) = lemma_trimmed_within(c);
    let e = after_mark(d, '/');
    let ei = lemma_after_within(d, '/');
    let (fi, fj) = lemma_trimmed_within(e);
    let from = ai + di + ei + fi;
    let to = ai + di + ei + fj;
    assert(b =~= target.subrange(ai, ai + bj));
    assert(c =~= target.subrange(ai, ai + cj));
    assert(d =~= target.subrange(ai + di, ai + dj));
    assert(e =~= target.subrange(ai + di + ei, ai + dj));
    assert(trimmed(e) =~= target.subrange(from, to));
    (from, to)
}

proof fn lemma_cut_encoded(text: Seq<u8>, from: int, to: int)
    requires
        valid_utf8(text),
        0 <= from <= to <= text.len(),
        is_char_boundary(text, from),
        is_char_boundary(text, to),
    ensures
        encode_utf8(decode_utf8(text.subrange(from, to))) == text.subrange(from, to),
{
    broadcast use vstd::utf8::group_utf8_lib;

    let head = text.subrange(0, to);
    vstd::utf8::valid_utf8_split(text, to);
    if from < to {
        assert(head[from] == text[from]);
        assert(is_char_boundary(text, from) <==> !is_continuation_byte(text[from]));
        assert(is_char_boundary(head, from) <==> !is_continuation_byte(head[from]));
    } else {
        assert(is_char_boundary(head, head.len() as int));
    }
    vstd::utf8::valid_utf8_split(head, from);
    assert(head.subrange(from, head.len() as int) =~= text.subrange(from, to));
}

proof fn lemma_bar_within(text: Seq<u8>, from: int, end: int)
    requires
        from <= end,
    ensures
        from <= bar_from(text, from, end) <= end,
        bar_from(text, from, end) < end ==> text[bar_from(text, from, end)] == 0x7c,
    decreases end - from,
{
    if from < end && text[from] != 0x7c {
        lemma_bar_within(text, from + 1, end);
    }
}

/// The target and the alias of a link are what stands between its brackets.
proof fn lemma_parts_of_link(text: Seq<u8>, at: int)
    requires
        valid_utf8(text),
        link_at(text, at),
    ensures
        ({
            let span = link_span(text, at);
            let body = body_start(text, at);
            let close = bracket_from(text, body);
            let bar = bar_from(text, body, close);
            &&& body <= bar <= close
            &&& close + 2 == span.end <= text.len()
            &&& encode_utf8(span.target) == text.subrange(body, bar)
            &&& span.alias is Some <==> bar < close
            &&& span.alias is Some ==> encode_utf8(span.alias->0) == text.subrange(bar + 1, close)
            &&& bar < close ==> text[bar] == 0x7c
        }),
{
    broadcast use vstd::utf8::group_utf8_lib;

    let body = body_start(text, at);
    let close = bracket_from(text, body);
    let bar = bar_from(text, body, close);
    lemma_bracket_from(text, body);
    lemma_bar_within(text, body, close);
    lemma_after_ascii(text, body - 1);
    assert(!is_continuation_byte(text[close]));
    assert(is_char_boundary(text, close));
    assert(is_char_boundary(text, body));
    if bar < close {
        assert(!is_continuation_byte(text[bar]));
        assert(is_char_boundary(text, bar));
        lemma_after_ascii(text, bar);
        assert(is_char_boundary(text, bar + 1));
        lemma_cut_encoded(text, bar + 1, close);
    }
    lemma_cut_encoded(text, body, bar);
}

/// A link without `[` in its target and alias has none between its brackets.
proof fn lemma_no_bracket_inside(text: Seq<u8>, at: int, k: int)
    requires
        valid_utf8(text),
        link_at(text, at),
        bracket_free(link_span(text, at)),
        body_start(text, at) <= k < bracket_from(text, body_start(text, at)),
    ensures
        text[k] != 0x5b,
{
    let span = link_span(text, at);
    let body = body_start(text, at);
    let close = bracket_from(text, body);
    let bar = bar_from(text, body, close);
    lemma_parts_of_link(text, at);
    if text[k] == 0x5b {
        if k < bar {
            assert(encode_utf8(span.target)[k - body] == 0x5b);
            let i = lemma_ascii_byte(span.target, k - body);
            vstd::utf8::char_u32_cast(span.target[i], 0x5b);
            vstd::utf8::char_u32_cast('[', 0x5b);
            assert(span.target[i] == '[');
        } else {
            let alias = span.alias->0;
            assert(encode_utf8(alias)[k - bar - 1] == 0x5b);
            let i = lemma_ascii_byte(alias, k - bar - 1);
            vstd::utf8::char_u32_cast(alias[i], 0x5b);
            vstd::utf8::char_u32_cast('[', 0x5b);
            assert(alias[i] == '[');
        }
    }
}

/// The plain text of a link with a name is part of what stands between its brackets.
proof fn lemma_plain_within(text: Seq<u8>, at: int) -> (r: (int, int))
    requires
        valid_utf8(text),
        link_at(text, at),
        target_name(link_span(text, at).target) is Some,
    ensures
        body_start(text, at) <= r.0 <= r.1 <= bracket_from(text, body_start(text, at)),
        encode_utf8(plain_text(link_span(text, at))) == text.subrange(r.0, r.1),
{
    let span = link_span(text, at);
    let body = body_start(text, at);
    let close = bracket_from(text, body);
    let bar = bar_from(text, body, close);
    lemma_parts_of_link(text, at);
    if span.alias is Some {
        (bar + 1, close)
    } else {
        let target = span.target;
        let (i, j) = lemma_name_within(target);
        let a = target.subrange(0, i);
        let name = target.subrange(i, j);
        let b = target.subrange(j, target.len() as int);
        assert(a + name + b =~= target);
        lemma_encode_concat(a, name);
        lemma_encode_concat(a + name, b);
        let x = body + encode_utf8(a).len();
        let y = x + encode_utf8(name).len();
        assert(encode_utf8(target) == encode_utf8(a) + encode_utf8(name) + encode_utf8(b));
        assert forall|k: int| 0 <= k < y - x implies #[trigger] text.subrange(x, y)[k]
            == encode_utf8(name)[k] by {
            assert(text[x + k] == text.subrange(body, bar)[x + k - body]);
        }
        assert(text.subrange(x, y) =~= encode_utf8(name));
        (x, y)
    }
}

/// Where a byte of the text up to the last dead link comes from.
proof fn lemma_origin_before(
    text: Seq<u8>,
    spans: Seq<LinkSpan>,
    names: Set<Seq<char>>,
    q: int,
) -> (r: (bool, int))
    requires
        in_order(text, spans),
        0 <= q < rewritten(text, spans, names).len(),
    ensures
        ({
            let (kept, at) = r;
            if kept {
                &&& 0 <= at < dealt_with(spans, names)
                &&& free_of_dead_links(spans, names, at, at + 1)
                &&& moved_to(text, spans, names, at) == q
            } else {
                &&& 0 <= at < spans.len()
                &&& is_dead(spans[at], names)
                &&& moved_to(text, spans, names, spans[at].start) <= q
                &&& q < moved_to(text, spans, names, spans[at].start) + encode_utf8(
                    plain_text(spans[at]),
                ).len()
            }
        }),
    decreases spans.len(),
{
    let shorter = spans.drop_last();
    let last = spans.last();
    assert(shorter =~= spans.take(spans.len() - 1));
    lemma_in_order_take(text, spans, spans.len() - 1);
    lemma_dealt(text, shorter, names);
    assert(spans[spans.len() - 1] == last);
    if shorter.len() > 0 {
        assert(spans[shorter.len() - 1] == shorter.last());
    }
    let before = rewritten(text, shorter, names);
    let d = dealt_with(shorter, names);
    if q < before.len() {
        let (kept, at) = lemma_origin_before(text, shorter, names, q);
        if kept {
            assert(free_of_dead_links(spans, names, at, at + 1)) by {
                assert forall|j: int| 0 <= j < spans.len() && is_dead(#[trigger] spans[j], names)
                    implies spans[j].end <= at || at + 1 <= spans[j].start by {
                    if j < shorter.len() {
                        assert(shorter[j] == spans[j]);
                    }
                }
            }
        } else {
            assert(shorter[at] == spans[at]);
            assert(spans[at].end <= spans[spans.len() - 1].start);
        }
        (kept, at)
    } else if q < before.len() + (last.start - d) {
        let t = d + q - before.len();
        assert(free_of_dead_links(spans, names, t, t + 1)) by {
            assert forall|j: int| 0 <= j < spans.len() && is_dead(#[trigger] spans[j], names)
                implies spans[j].end <= t || t + 1 <= spans[j].start by {
                if j < shorter.len() {
                    assert(shorter[j] == spans[j]);
                }
            }
        }
        lemma_moved_after(text, shorter, names, t);
        (true, t)
    } else {
        lemma_moved_after(text, shorter, names, last.start);
        (false, spans.len() - 1)
    }
}

/// Where a byte of the new text comes from: a place in the text that is not part of a dead link, or
/// the plain text of a dead link.
proof fn lemma_origin(text: Seq<u8>, spans: Seq<LinkSpan>, names: Set<Seq<char>>, q: int) -> (r: (
    bool,
    int,
))
    requires
        in_order(text, spans),
        0 <= q < unlinked(text, spans, names).len(),
    ensures
        ({
            let (kept, at) = r;
            if kept {
                &&& 0 <= at < text.len()
                &&& free_of_dead_links(spans, names, at, at + 1)
                &&& moved_to(text, spans, names, at) == q
            } else {
                &&& 0 <= at < spans.len()
                &&& is_dead(spans[at], names)
                &&& moved_to(text, spans, names, spans[at].start) <= q
                &&& q < moved_to(text, spans, names, spans[at].start) + encode_utf8(
                    plain_text(spans[at]),
                ).len()
            }
        }),
{
    let head = rewritten(text, spans, names);
    lemma_dealt(text, spans, names);
    if q < head.len() {
        lemma_origin_before(text, spans, names, q)
    } else {
        let t = dealt_with(spans, names) + q - head.len();
        assert(free_of_dead_links(spans, names, t, t + 1)) by {
            assert forall|j: int| 0 <= j < spans.len() && is_dead(#[trigger] spans[j], names)
                implies spans[j].end <= t || t + 1 <= spans[j].start by {
                assert(spans[j].end <= dealt_with(spans, names));
            }
        }
        lemma_moved_after(text, spans, names, t);
        (true, t)
    }
}

/// The first dead link at or after a place that is not inside a dead link, or the number of links.
proof fn lemma_next_dead(
    text: Seq<u8>,
    spans: Seq<LinkSpan>,
    names: Set<Seq<char>>,
    p: int,
    from: int,
) -> (n: int)
    requires
        in_order(text, spans),
        0 <= from <= spans.len(),
        forall|j: int|
            0 <= j < spans.len() && is_dead(#[trigger] spans[j], names) ==> spans[j].end <= p || p
                <= spans[j].start,
        forall|j: int|
            0 <= j < from && is_dead(#[trigger] spans[j], names) ==> spans[j].end <= p,
    ensures
        from <= n <= spans.len(),
        forall|j: int| 0 <= j < n && is_dead(#[trigger] spans[j], names) ==> spans[j].end <= p,
        n < spans.len() ==> is_dead(spans[n], names) && p <= spans[n].start,
    decreases spans.len() - from,
{
    if from == spans.len() {
        from
    } else if is_dead(spans[from], names) && spans[from].end > p {
        from
    } else {
        lemma_next_dead(text, spans, names, p, from + 1)
    }
}

/// What is asked of a text: it has no backticks, and no `[` inside its links.
spec fn quiet(text: Seq<u8>, spans: Seq<LinkSpan>) -> bool {
    &&& valid_utf8(text)
    &&& spans == link_spans(text, 0)
    &&& forall|at: int| 0 <= at < text.len() ==> #[trigger] text[at] != 0x60
    &&& forall|i: int| 0 <= i < spans.len() ==> bracket_free(#[trigger] spans[i])
}

proof fn lemma_quiet(text: Seq<u8>, spans: Seq<LinkSpan>)
    requires
        quiet(text, spans),
    ensures
        in_order(text, spans),
        forall|i: int| 0 <= i < spans.len() ==> lies_in(text, #[trigger] spans[i]),
{
    law_links_follow_each_other(text, 0);
    assert forall|i: int| 0 <= i < spans.len() implies 0 <= (#[trigger] spans[i]).start < spans[i].end
        <= text.len() by {
        assert(lies_in(text, spans[i]));
    }
}

proof fn lemma_plain_bytes(text: Seq<u8>, spans: Seq<LinkSpan>, names: Set<Seq<char>>, i: int)
    requires
        quiet(text, spans),
        0 <= i < spans.len(),
        is_dead(spans[i], names),
    ensures
        forall|k: int|
            0 <= k < encode_utf8(plain_text(spans[i])).len() ==> {
                let byte = #[trigger] encode_utf8(plain_text(spans[i]))[k];
                byte != 0x5b && byte != 0x5d && byte != 0x60
            },
{
    lemma_quiet(text, spans);
    assert(lies_in(text, spans[i]));
    let at = spans[i].start;
    let plain = encode_utf8(plain_text(spans[i]));
    let (x, y) = lemma_plain_within(text, at);
    lemma_bracket_from(text, body_start(text, at));
    assert forall|k: int| 0 <= k < plain.len() implies {
        let byte = #[trigger] plain[k];
        byte != 0x5b && byte != 0x5d && byte != 0x60
    } by {
        assert(plain[k] == text[x + k]);
        assert(bracket_free(spans[i]));
        lemma_no_bracket_inside(text, at, x + k);
    }
}

/// A byte of the new text that is `[`, `]` or a backtick was there before.
proof fn lemma_marks_are_kept(
    text: Seq<u8>,
    spans: Seq<LinkSpan>,
    names: Set<Seq<char>>,
    q: int,
) -> (p: int)
    requires
        quiet(text, spans),
        0 <= q < unlinked(text, spans, names).len(),
        ({
            let byte = unlinked(text, spans, names)[q];
            byte == 0x5b || byte == 0x5d || byte == 0x60
        }),
    ensures
        0 <= p < text.len(),
        free_of_dead_links(spans, names, p, p + 1),
        moved_to(text, spans, names, p) == q,
        text[p] == unlinked(text, spans, names)[q],
{
    let out = unlinked(text, spans, names);
    lemma_quiet(text, spans);
    let (kept, at) = lemma_origin(text, spans, names, q);
    if kept {
        law_other_text_is_kept(text, spans, names, at, at + 1);
        assert(out.subrange(q, q + 1)[0] == text.subrange(at, at + 1)[0]);
        at
    } else {
        let plain = encode_utf8(plain_text(spans[at]));
        let start = moved_to(text, spans, names, spans[at].start);
        law_dead_links_become_plain_text(text, spans, names, at);
        lemma_plain_bytes(text, spans, names, at);
        assert(out.subrange(start, start + plain.len())[q - start] == plain[q - start]);
        0
    }
}

proof fn lemma_no_new_backticks(text: Seq<u8>, spans: Seq<LinkSpan>, names: Set<Seq<char>>)
    requires
        quiet(text, spans),
    ensures
        forall|q: int|
            0 <= q < unlinked(text, spans, names).len() ==> #[trigger] unlinked(
                text,
                spans,
                names,
            )[q] != 0x60,
{
    assert forall|q: int| 0 <= q < unlinked(text, spans, names).len() implies #[trigger] unlinked(
        text,
        spans,
        names,
    )[q] != 0x60 by {
        if unlinked(text, spans, names)[q] == 0x60 {
            let p = lemma_marks_are_kept(text, spans, names, q);
        }
    }
}

/// With a `!` before it, a link is an embed.
proof fn lemma_link_with_mark(text: Seq<u8>, at: int)
    requires
        link_at(text, at),
        text[at] != 0x21,
        at > 0,
        text[at - 1] == 0x21,
    ensures
        link_at(text, at - 1),
{
}

/// A link that is found is not preceded by a `!`, unless that belongs to it.
proof fn lemma_no_mark_before(text: Seq<u8>, k: int)
    requires
        0 <= k < link_spans(text, 0).len(),
        !link_spans(text, 0)[k].embed,
    ensures
        link_spans(text, 0)[k].start > 0 ==> text[link_spans(text, 0)[k].start - 1] != 0x21,
{
    let spans = link_spans(text, 0);
    let at = spans[k].start;
    law_links_follow_each_other(text, 0);
    assert(lies_in(text, spans[k]));
    if at > 0 && text[at - 1] == 0x21 {
        lemma_link_with_mark(text, at);
        let i = law_no_link_is_missed(text, 0, at - 1);
        assert(lies_in(text, spans[i]));
        if i < k {
            assert(spans[i].end <= spans[k].start);
        } else if k < i {
            assert(spans[k].end <= spans[i].start);
        }
    }
}

/// A link that is found is not preceded by a `[`.
proof fn lemma_no_bracket_before(text: Seq<u8>, k: int)
    requires
        0 <= k < link_spans(text, 0).len(),
        !link_spans(text, 0)[k].embed,
    ensures
        link_spans(text, 0)[k].start > 0 ==> text[link_spans(text, 0)[k].start - 1] != 0x5b,
{
    let spans = link_spans(text, 0);
    let at = spans[k].start;
    law_links_follow_each_other(text, 0);
    assert(lies_in(text, spans[k]));
    if at > 0 && text[at - 1] == 0x5b {
        let close = bracket_from(text, at + 2);
        lemma_bracket_from(text, at + 2);
        assert(text[at + 1] == 0x5b);
        lemma_bracket_is(text, at + 1, close);
        assert(link_at(text, at - 1));
        let i = law_no_link_is_missed(text, 0, at - 1);
        assert(lies_in(text, spans[i]));
        if i < k {
            assert(spans[i].end <= spans[k].start);
        } else if k < i {
            assert(spans[k].end <= spans[i].start);
        }
    }
}

/// Nothing that opens a link before a dead link is left open up to it.
proof fn lemma_nothing_left_open(
    text: Seq<u8>,
    spans: Seq<LinkSpan>,
    names: Set<Seq<char>>,
    p: int,
    n: int,
)
    requires
        quiet(text, spans),
        0 <= n < spans.len(),
        is_dead(spans[n], names),
        0 <= p,
        p + 2 <= spans[n].start,
        text[p] == 0x5b,
        text[p + 1] == 0x5b,
        p + 2 < spans[n].start ==> text[p + 2] != 0x7c,
    ensures
        exists|k: int| p + 2 <= k < spans[n].start && #[trigger] text[k] == 0x5d,
{
    lemma_quiet(text, spans);
    let s = spans[n].start;
    assert(lies_in(text, spans[n]));
    if forall|k: int| p + 2 <= k < s ==> #[trigger] text[k] != 0x5d {
        lemma_no_bracket_before(text, n);
        let close = bracket_from(text, s + 2);
        lemma_bracket_from(text, s + 2);
        assert forall|k: int| p + 2 <= k < close implies #[trigger] text[k] != 0x5d by {}
        lemma_bracket_is(text, p + 2, close);
        assert(p + 2 < s);
        assert(link_at(text, p));
        let i = law_no_link_is_missed(text, 0, p);
        assert(lies_in(text, spans[i]));
        if n < i {
            assert(spans[n].end <= spans[i].start);
        }
        if i < n {
            assert(spans[i].end <= spans[n].start);
            assert(text[spans[i].end - 2] == 0x5d) by {
                lemma_bracket_from(text, body_start(text, spans[i].start));
            }
            assert(text[spans[i].end - 1] == 0x5d);
        }
    }
}

proof fn lemma_find(text: Seq<u8>, pattern: Seq<u8>, from: int)
    ensures
        find_from(text, pattern, from) matches Some(at) ==> from <= at && stands_at(
            text,
            pattern,
            at,
        ),
    decreases text.len() - from,
{
    if 0 <= from < text.len() && !stands_at(text, pattern, from) {
        lemma_find(text, pattern, from + 1);
    }
}

/// The comment that a place lies in.
proof fn lemma_comment_around(text: Seq<u8>, from: int, at: int) -> (r: (int, int))
    requires
        0 <= from,
        covered(text, Region::Comment, from, at),
    ensures
        from <= r.0 <= at < r.1 <= text.len(),
        stands_at(text, comment_open(), r.0),
        text[r.1 - 1] == 0x3e,
        forall|x: int| r.0 <= x < r.1 ==> #[trigger] covered(text, Region::Comment, from, x),
    decreases text.len() - from,
{
    let (start, end) = region_from(text, Region::Comment, from)->0;
    lemma_find(text, comment_open(), from);
    lemma_find(text, comment_close(), start + 4);
    assert(stands_at(text, comment_close(), end - 3));
    assert(text.subrange(end - 3, end)[2] == comment_close()[2]);
    if start <= at < end {
        (start, end)
    } else {
        let (u, v) = lemma_comment_around(text, end, at);
        assert forall|x: int| u <= x < v implies #[trigger] covered(
            text,
            Region::Comment,
            from,
            x,
        ) by {
            assert(covered(text, Region::Comment, end, x));
        }
        (u, v)
    }
}

/// Where the text and the new text go on alike from a place up to the next dead link, no comment
/// covers what comes before a `]`.
proof fn lemma_not_covered(
    text: Seq<u8>,
    out: Seq<u8>,
    p: int,
    q: int,
    len: int,
    c: int,
    x: int,
)
    requires
        forall|at: int| !#[trigger] stands_at(text, comment_open(), at),
        0 <= p,
        p + len <= text.len(),
        0 <= q <= x <= c < q + len <= out.len(),
        out.subrange(q, q + len) == text.subrange(p, p + len),
        out[c] == 0x5d,
        blanked(out, Region::Comment)[q] == 0x5b,
    ensures
        blanked(out, Region::Comment)[x] == out[x],
{
    let shown = blanked(out, Region::Comment);
    if shown[x] != out[x] {
        assert(covered(out, Region::Comment, 0, x));
        let (u, v) = lemma_comment_around(out, 0, x);
        assert(q < u) by {
            if u <= q {
                assert(covered(out, Region::Comment, 0, q));
            }
        }
        let open = out.subrange(u, u + 4);
        assert(open == comment_open());
        if u + 4 <= q + len {
            assert forall|k: int| 0 <= k < 4 implies #[trigger] text.subrange(
                p + u - q,
                p + u - q + 4,
            )[k] == open[k] by {
                assert(out.subrange(q, q + len)[u - q + k] == out[u + k]);
                assert(text.subrange(p, p + len)[u - q + k] == text[p + u - q + k]);
                assert(open[k] == out[u + k]);
            }
            assert(text.subrange(p + u - q, p + u - q + 4) =~= comment_open());
            assert(stands_at(text, comment_open(), p + u - q));
        } else {
            assert(open[c - u] == 0x5d);
        }
    }
}

proof fn lemma_no_bytes_no_text(text: Seq<char>)
    requires
        encode_utf8(text).len() == 0,
    ensures
        text.len() == 0,
{
    broadcast use vstd::utf8::group_utf8_lib;

    assert(encode_utf8(text) =~= Seq::<u8>::empty());
    assert(decode_utf8(encode_utf8(text)) == text);
    assert(decode_utf8(Seq::<u8>::empty()) =~= Seq::<char>::empty());
}

/// In the new text only comments are blanked.
proof fn lemma_prose_of_new_text(text: Seq<u8>, spans: Seq<LinkSpan>, names: Set<Seq<char>>)
    requires
        quiet(text, spans),
    ensures
        prose(unlinked(text, spans, names)) == blanked(
            unlinked(text, spans, names),
            Region::Comment,
        ),
{
    lemma_no_new_backticks(text, spans, names);
    lemma_no_code(unlinked(text, spans, names));
}

/// A link in the new text was there before, as it is, unless it was made anew.
proof fn lemma_link_was_there(
    text: Seq<u8>,
    spans: Seq<LinkSpan>,
    names: Set<Seq<char>>,
    q: int,
) -> (p: int)
    requires
        quiet(text, spans),
        link_at(prose(unlinked(text, spans, names)), q),
        prose(unlinked(text, spans, names))[q] == 0x5b,
        !is_made_anew(text, spans, names, link_span(prose(unlinked(text, spans, names)), q)),
    ensures
        0 <= p < text.len(),
        free_of_dead_links(spans, names, p, p + 1),
        moved_to(text, spans, names, p) == q,
        text[p] == 0x5b,
        link_at(text, p),
        ({
            let shown = prose(unlinked(text, spans, names));
            let c = bracket_from(shown, q + 2);
            &&& bracket_from(text, p + 2) == p + c - q
            &&& c + 2 <= shown.len()
            &&& shown.subrange(q, c + 2) == text.subrange(p, p + c - q + 2)
        }),
{
    let out = unlinked(text, spans, names);
    let shown = prose(out);
    let c = bracket_from(shown, q + 2);
    lemma_prose_of_new_text(text, spans, names);
    lemma_quiet(text, spans);
    lemma_dealt(text, spans, names);
    lemma_bracket_from(shown, q + 2);
    assert(out[q] == 0x5b && out[q + 1] == 0x5b);
    let p = lemma_marks_are_kept(text, spans, names, q);
    assert forall|j: int| 0 <= j < spans.len() && is_dead(#[trigger] spans[j], names) implies spans[j].end
        <= p || p <= spans[j].start by {}
    let n = lemma_next_dead(text, spans, names, p, 0);
    let b = if n < spans.len() {
        spans[n].start
    } else {
        text.len() as int
    };
    assert(p < b);
    assert forall|j: int| 0 <= j < spans.len() && is_dead(#[trigger] spans[j], names) implies spans[j].end
        <= p || b <= spans[j].start by {
        if n < j {
            assert(spans[n].end <= spans[j].start);
        }
    }
    assert(free_of_dead_links(spans, names, p, b));
    law_other_text_is_kept(text, spans, names, p, b);
    lemma_moved_run(text, spans, names, p, b);
    if n == spans.len() {
        lemma_moved_after(text, spans, names, b);
    }
    let len = b - p;
    assert(out.subrange(q, q + len) == text.subrange(p, p + len));
    assert forall|k: int| 0 <= k < len implies #[trigger] out[q + k] == text[p + k] by {
        assert(out.subrange(q, q + len)[k] == text.subrange(p, p + len)[k]);
    }
    assert(len >= 2) by {
        if len == 1 && n < spans.len() {
            lemma_no_bracket_before(text, n);
        }
    }
    assert(out[q + 1] == text[p + 1]);
    if len > 2 {
        assert(out[q + 2] == text[p + 2]);
        if out[q + 2] == 0x7c {
            assert(covered(out, Region::Comment, 0, q + 2));
            let (u, v) = lemma_comment_around(out, 0, q + 2);
            assert(out.subrange(u, u + 4)[0] == comment_open()[0]);
            assert(covered(out, Region::Comment, 0, u));
            if u <= q {
                assert(covered(out, Region::Comment, 0, q));
            }
        }
    }
    let c0 = bracket_from(text, p + 2);
    lemma_bracket_from(text, p + 2);
    assert(c0 < b) by {
        if n < spans.len() {
            lemma_nothing_left_open(text, spans, names, p, n);
            let k = choose|k: int| p + 2 <= k < spans[n].start && #[trigger] text[k] == 0x5d;
            assert(text[k] == 0x5d);
        } else if c0 == text.len() {
            assert(shown[c] == 0x5d && out[c] == 0x5d);
            assert(out[q + (c - q)] == text[p + (c - q)]);
        }
    }
    let cr = q + c0 - p;
    assert(out[q + (c0 - p)] == text[p + (c0 - p)]);
    assert forall|x: int| q <= x <= cr implies #[trigger] shown[x] == out[x] by {
        if exists|at: int| #[trigger] stands_at(text, comment_open(), at) {
            assert(shown.subrange(q, c + 2) == out.subrange(q, c + 2));
            assert(shown.subrange(q, c + 2)[c - q] == out.subrange(q, c + 2)[c - q]);
            assert(cr <= c) by {
                if c < cr {
                    assert(out[q + (c - q)] == text[p + (c - q)]);
                }
            }
            assert(shown.subrange(q, c + 2)[x - q] == out.subrange(q, c + 2)[x - q]);
        } else {
            lemma_not_covered(text, out, p, q, len, cr, x);
        }
    }
    assert forall|k: int| q + 2 <= k < cr implies #[trigger] shown[k] != 0x5d by {
        assert(out[q + (k - q)] == text[p + (k - q)]);
    }
    lemma_bracket_is(shown, q + 2, cr);
    assert(c == cr);
    assert(out[c + 1] == 0x5d);
    assert(c0 + 1 < b) by {
        if c0 + 1 == b && n < spans.len() {
            let plain = encode_utf8(plain_text(spans[n]));
            law_dead_links_become_plain_text(text, spans, names, n);
            lemma_plain_bytes(text, spans, names, n);
            if plain.len() > 0 {
                assert(out.subrange(c + 1, c + 1 + plain.len())[0] == plain[0]);
            } else {
                lemma_no_bytes_no_text(plain_text(spans[n]));
                assert(moved_to(text, spans, names, spans[n].start) == c + 1);
                assert(is_closed_by_joining(text, spans, names, link_span(shown, q)));
            }
        }
    }
    assert(out[q + (c0 + 1 - p)] == text[p + (c0 + 1 - p)]);
    assert forall|k: int| 0 <= k < c + 2 - q implies #[trigger] shown.subrange(q, c + 2)[k]
        == text.subrange(p, p + c - q + 2)[k] by {
        assert(out[q + k] == text[p + k]);
        if q + k <= cr {
            assert(shown[q + k] == out[q + k]);
        }
    }
    assert(shown.subrange(q, c + 2) =~= text.subrange(p, p + c - q + 2));
    assert(shown[q + 2] == out[q + 2]);
    assert(link_at(text, p));
    p
}

proof fn lemma_same_bar(a: Seq<u8>, b: Seq<u8>, from: int, to: int, end: int)
    requires
        0 <= from <= end <= a.len(),
        0 <= to,
        to + end - from <= b.len(),
        a.subrange(from, end) == b.subrange(to, to + end - from),
    ensures
        bar_from(b, to, to + end - from) == to + bar_from(a, from, end) - from,
    decreases end - from,
{
    if from < end {
        assert(a.subrange(from, end)[0] == a[from]);
        assert(b.subrange(to, to + end - from)[0] == b[to]);
        assert(a.subrange(from + 1, end) =~= a.subrange(from, end).skip(1));
        assert(b.subrange(to + 1, to + end - from) =~= b.subrange(to, to + end - from).skip(1));
        lemma_same_bar(a, b, from + 1, to + 1, end);
    }
}

/// The mark of an embed stays before it.
proof fn lemma_mark_is_kept(
    text: Seq<u8>,
    spans: Seq<LinkSpan>,
    names: Set<Seq<char>>,
    i: int,
    q: int,
)
    requires
        quiet(text, spans),
        0 <= i < spans.len(),
        spans[i].embed,
        moved_to(text, spans, names, spans[i].start + 1) == q,
        0 <= q < unlinked(text, spans, names).len(),
        prose(unlinked(text, spans, names))[q] == 0x5b,
    ensures
        q > 0,
        prose(unlinked(text, spans, names))[q - 1] == 0x21,
{
    let out = unlinked(text, spans, names);
    let shown = prose(out);
    let s = spans[i].start;
    lemma_prose_of_new_text(text, spans, names);
    lemma_quiet(text, spans);
    assert(lies_in(text, spans[i]));
    assert forall|j: int| 0 <= j < spans.len() && is_dead(#[trigger] spans[j], names) implies spans[j].end
        <= s || s + 1 < spans[j].start by {
        if j < i {
            assert(spans[j].end <= spans[i].start);
        } else if i < j {
            assert(spans[i].end <= spans[j].start);
        }
    }
    assert(free_of_dead_links(spans, names, s, s + 1));
    lemma_moved_run(text, spans, names, s, s + 1);
    law_other_text_is_kept(text, spans, names, s, s + 1);
    assert(out.subrange(q - 1, q)[0] == text.subrange(s, s + 1)[0]);
    if shown[q - 1] != out[q - 1] {
        assert(covered(out, Region::Comment, 0, q - 1));
        let (u, v) = lemma_comment_around(out, 0, q - 1);
        if q < v {
            assert(covered(out, Region::Comment, 0, q));
        }
    }
}

/// A link found in the new text does not lead to one of the names, unless it was made anew.
proof fn lemma_found_link_is_alive(
    text: Seq<u8>,
    spans: Seq<LinkSpan>,
    names: Set<Seq<char>>,
    k: int,
)
    requires
        quiet(text, spans),
        0 <= k < link_spans(prose(unlinked(text, spans, names)), 0).len(),
        !is_made_anew(
            text,
            spans,
            names,
            link_spans(prose(unlinked(text, spans, names)), 0)[k],
        ),
    ensures
        !is_dead(link_spans(prose(unlinked(text, spans, names)), 0)[k], names),
{
    let out = unlinked(text, spans, names);
    let shown = prose(out);
    let found = link_spans(shown, 0);
    let q = found[k].start;
    law_links_follow_each_other(shown, 0);
    assert(lies_in(shown, found[k]));
    if !found[k].embed {
        lemma_quiet(text, spans);
        lemma_no_mark_before(shown, k);
        let p = lemma_link_was_there(text, spans, names, q);
        let c = bracket_from(shown, q + 2);
        let c0 = bracket_from(text, p + 2);
        lemma_bracket_from(shown, q + 2);
        let whole = shown.subrange(q, c + 2);
        assert(shown.subrange(q + 2, c) =~= whole.subrange(2, c - q));
        assert(text.subrange(p + 2, c0) =~= whole.subrange(2, c - q));
        lemma_same_bar(shown, text, q + 2, p + 2, c);
        lemma_bar_within(shown, q + 2, c);
        let bar = bar_from(shown, q + 2, c);
        assert(shown.subrange(q + 2, bar) =~= whole.subrange(2, bar - q));
        assert(text.subrange(p + 2, p + bar - q) =~= whole.subrange(2, bar - q));
        assert(link_span(text, p).target == found[k].target);
        let i = law_no_link_is_missed(text, 0, p);
        assert(lies_in(text, spans[i]));
        let s = spans[i].start;
        if s < p {
            assert(bracket_free(spans[i]));
            let body = body_start(text, s);
            lemma_bracket_from(text, body);
            assert(text[p + 1] == 0x5b);
            if body <= p {
                lemma_no_bracket_inside(text, s, p);
            } else if p + 1 == body {
                lemma_no_bracket_inside(text, s, p + 1);
            } else {
                lemma_mark_is_kept(text, spans, names, i, q);
            }
        } else {
            assert(spans[i] == link_span(text, p));
        }
    }
}

/// Of a note without code, without comments and without `[` inside its links, a second pass with the
/// same names finds only links that the first has made.
pub proof fn law_links_left_over_are_new(
    content: Seq<char>,
    names: Set<Seq<char>>,
    again: Seq<char>,
    k: int,
)
    requires
        !content.contains('`'),
        prose(encode_utf8(content)) == encode_utf8(content),
        forall|i: int|
            0 <= i < note_spans(content).len() ==> bracket_free(#[trigger] note_spans(content)[i]),
        encode_utf8(again) == unlinked(encode_utf8(content), note_spans(content), names),
        0 <= k < note_spans(again).len(),
        is_dead(note_spans(again)[k], names),
    ensures
        is_made_anew(
            encode_utf8(content),
            note_spans(content),
            names,
            note_spans(again)[k],
        ),
{
    broadcast use vstd::utf8::group_utf8_lib;

    let text = encode_utf8(content);
    let spans = note_spans(content);
    assert forall|at: int| 0 <= at < text.len() implies #[trigger] text[at] != 0x60 by {
        if text[at] == 0x60 {
            let i = lemma_ascii_byte(content, at);
            vstd::utf8::char_u32_cast(content[i], 0x60);
            vstd::utf8::char_u32_cast('`', 0x60);
            assert(content[i] == '`');
        }
    }
    assert(quiet(text, spans));
    if !is_made_anew(text, spans, names, note_spans(again)[k]) {
        lemma_found_link_is_alive(text, spans, names, k);
    }
}

/// A second pass over a note with the same names finds no link to turn into plain text, and leaves
/// the note as it is.
///
/// The note holds no code and no comments, no link in it holds a `[`, and no link that the first
/// pass makes leads to one of the names. The last fails for `[[x][[D|]]]` with the names `D` and
/// `x`, which becomes `[[x]]`.
pub proof fn law_a_second_pass_finds_nothing(
    content: Seq<char>,
    names: Set<Seq<char>>,
    again: Seq<char>,
)
    requires
        !content.contains('`'),
        prose(encode_utf8(content)) == encode_utf8(content),
        forall|i: int|
            0 <= i < note_spans(content).len() ==> bracket_free(#[trigger] note_spans(content)[i]),
        encode_utf8(again) == unlinked(encode_utf8(content), note_spans(content), names),
        forall|k: int|
            0 <= k < note_spans(again).len() && is_made_anew(
                encode_utf8(content),
                note_spans(content),
                names,
                #[trigger] note_spans(again)[k],
            ) ==> !is_dead(note_spans(again)[k], names),
    ensures
        dead_count(note_spans(again), names) == 0,
        unlinked(encode_utf8(again), note_spans(again), names) == encode_utf8(again),
{
    assert forall|k: int| 0 <= k < note_spans(again).len() implies !is_dead(
        #[trigger] note_spans(again)[k],
        names,
    ) by {
        if is_dead(note_spans(again)[k], names) {
            law_links_left_over_are_new(content, names, again, k);
        }
    }
    law_without_dead_links_nothing_changes(encode_utf8(again), note_spans(again), names);
}

} // verus!
