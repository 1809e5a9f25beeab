//! What becomes of a note whose dead links are turned into plain text.
use crate::markup::{law_names_are_bare, note_spans, target_name, white_space, LinkSpan};
use crate::unlink::{
    dead_count, dealt_with, free_of_dead_links, in_order, is_dead,
    law_dead_links_become_plain_text, law_note_links_are_in_order, law_other_text_is_kept,
    lemma_in_order_take, moved_to, plain_text, rewritten, unlinked,
};
use vstd::prelude::*;
use vstd::utf8::encode_utf8;

verus! {

/// No dead link goes beyond what has been dealt with.
pub proof fn lemma_dealt(text: Seq<u8>, spans: Seq<LinkSpan>, names: Set<Seq<char>>)
    requires
        in_order(text, spans),
    ensures
        0 <= dealt_with(spans, names) <= text.len(),
        spans.len() > 0 ==> dealt_with(spans, names) <= spans.last().end,
        forall|j: int|
            0 <= j < spans.len() && is_dead(#[trigger] spans[j], names) ==> spans[j].end
                <= dealt_with(spans, names),
    decreases spans.len(),
{
    if spans.len() > 0 {
        let shorter = spans.drop_last();
        assert(shorter =~= spans.take(spans.len() - 1));
        lemma_in_order_take(text, spans, spans.len() - 1);
        lemma_dealt(text, shorter, names);
        assert(spans[spans.len() - 1] == spans.last());
        if shorter.len() > 0 {
            assert(spans[shorter.len() - 1] == shorter.last());
        }
        assert forall|j: int|
            0 <= j < spans.len() && is_dead(#[trigger] spans[j], names) implies spans[j].end
            <= dealt_with(spans, names) by {
            if j < shorter.len() {
                assert(shorter[j] == spans[j]);
                assert(spans[j].end <= spans[spans.len() - 1].start);
            }
        }
    }
}

/// Where what comes after the last dead link goes.
pub proof fn lemma_moved_after(text: Seq<u8>, spans: Seq<LinkSpan>, names: Set<Seq<char>>, t: int)
    requires
        dealt_with(spans, names) <= t,
    ensures
        moved_to(text, spans, names, t) == rewritten(text, spans, names).len() + t - dealt_with(
            spans,
            names,
        ),
    decreases spans.len(),
{
    if spans.len() > 0 && !is_dead(spans.last(), names) {
        lemma_moved_after(text, spans.drop_last(), names, t);
    }
}

/// Text that no dead link ends in stays together.
pub proof fn lemma_moved_run(
    text: Seq<u8>,
    spans: Seq<LinkSpan>,
    names: Set<Seq<char>>,
    from: int,
    to: int,
)
    requires
        from <= to,
        forall|j: int|
            0 <= j < spans.len() && is_dead(#[trigger] spans[j], names) ==> spans[j].end <= from
                || to < spans[j].end,
    ensures
        moved_to(text, spans, names, to) == moved_to(text, spans, names, from) + to - from,
    decreases spans.len(),
{
    if spans.len() > 0 {
        let shorter = spans.drop_last();
        assert(spans[spans.len() - 1] == spans.last());
        assert forall|j: int|
            0 <= j < shorter.len() && is_dead(#[trigger] shorter[j], names) implies shorter[j].end
            <= from || to < shorter[j].end by {
            assert(shorter[j] == spans[j]);
        }
        lemma_moved_run(text, shorter, names, from, to);
    }
}

/// The plain text of a dead link ends where what followed the link begins.
proof fn lemma_moved_past(text: Seq<u8>, spans: Seq<LinkSpan>, names: Set<Seq<char>>, n: int)
    requires
        in_order(text, spans),
        0 <= n < spans.len(),
        is_dead(spans[n], names),
    ensures
        moved_to(text, spans, names, spans[n].end) == moved_to(text, spans, names, spans[n].start)
            + encode_utf8(plain_text(spans[n])).len(),
    decreases spans.len(),
{
    let shorter = spans.drop_last();
    assert(shorter =~= spans.take(spans.len() - 1));
    lemma_in_order_take(text, spans, spans.len() - 1);
    lemma_dealt(text, shorter, names);
    if n < shorter.len() {
        assert(shorter[n] == spans[n]);
        lemma_moved_past(text, shorter, names, n);
        assert(spans[n].end <= spans[spans.len() - 1].start);
    } else {
        if shorter.len() > 0 {
            assert(spans[shorter.len() - 1] == shorter.last());
            assert(shorter.last().end <= spans[n].start);
        }
        lemma_moved_after(text, shorter, names, spans[n].start);
    }
}

/// What a note becomes, link by link. Gives the place in the new text of each link, or of what took
/// its place.
///
/// A link that is no embed and whose name is one of the dead ones gives way to its alias, or if it
/// has none to that very name. All other links, and the text before, between and after the links,
/// stay as they were.
pub proof fn law_dead_links_give_way_to_their_names(
    content: Seq<char>,
    names: Set<Seq<char>>,
    out: Seq<char>,
) -> (at: Seq<(int, int)>)
    requires
        encode_utf8(out) == unlinked(encode_utf8(content), note_spans(content), names),
    ensures
        ({
            let text = encode_utf8(content);
            let new = encode_utf8(out);
            let spans = note_spans(content);
            &&& at.len() == spans.len()
            &&& forall|k: int|
                0 <= k < spans.len() ==> {
                    let span = #[trigger] spans[k];
                    &&& 0 <= at[k].0 <= at[k].1 <= new.len()
                    &&& new.subrange(at[k].0, at[k].1) == if !span.embed && target_name(
                        span.target,
                    ) is Some && names.contains(target_name(span.target)->0) {
                        match span.alias {
                            Some(alias) => encode_utf8(alias),
                            None => encode_utf8(target_name(span.target)->0),
                        }
                    } else {
                        text.subrange(span.start, span.end)
                    }
                }
            &&& forall|k: int|
                0 < k < spans.len() ==> {
                    let from = spans[k - 1].end;
                    let to = (#[trigger] spans[k]).start;
                    &&& at[k - 1].1 + (to - from) == at[k].0
                    &&& new.subrange(at[k - 1].1, at[k].0) == text.subrange(from, to)
                }
            &&& spans.len() == 0 ==> new == text
            &&& spans.len() > 0 ==> {
                let first = spans[0].start;
                let last = spans[spans.len() - 1].end;
                let end = at[spans.len() - 1].1;
                &&& at[0].0 == first
                &&& new.take(first) == text.take(first)
                &&& new.len() - end == text.len() - last
                &&& new.skip(end) == text.skip(last)
            }
        }),
{
    let text = encode_utf8(content);
    let new = encode_utf8(out);
    let spans = note_spans(content);
    law_note_links_are_in_order(content);
    lemma_dealt(text, spans, names);
    let at = Seq::new(
        spans.len(),
        |k: int|
            (
                moved_to(text, spans, names, spans[k].start),
                moved_to(text, spans, names, spans[k].end),
            ),
    );
    lemma_moved_after(text, spans, names, text.len() as int);
    assert(moved_to(text, spans, names, text.len() as int) == new.len());
    assert forall|k: int| 0 <= k < spans.len() implies {
        let span = #[trigger] spans[k];
        &&& 0 <= at[k].0 <= at[k].1 <= new.len()
        &&& new.subrange(at[k].0, at[k].1) == if !span.embed && target_name(span.target) is Some
            && names.contains(target_name(span.target)->0) {
            match span.alias {
                Some(alias) => encode_utf8(alias),
                None => encode_utf8(target_name(span.target)->0),
            }
        } else {
            text.subrange(span.start, span.end)
        }
    } by {
        let span = spans[k];
        if is_dead(span, names) {
            law_dead_links_become_plain_text(text, spans, names, k);
            lemma_moved_past(text, spans, names, k);
        } else {
            lemma_free_between(text, spans, names, span.start, span.end, k, k);
            law_other_text_is_kept(text, spans, names, span.start, span.end);
        }
    }
    assert forall|k: int| 0 < k < spans.len() implies {
        let from = spans[k - 1].end;
        let to = (#[trigger] spans[k]).start;
        &&& at[k - 1].1 + (to - from) == at[k].0
        &&& new.subrange(at[k - 1].1, at[k].0) == text.subrange(from, to)
    } by {
        let from = spans[k - 1].end;
        let to = spans[k].start;
        assert(spans[k - 1].end <= spans[k].start);
        lemma_free_between(text, spans, names, from, to, k - 1, k);
        if from < to {
            law_other_text_is_kept(text, spans, names, from, to);
        } else {
            assert(new.subrange(at[k].0, at[k].0) =~= text.subrange(from, to));
        }
    }
    if spans.len() == 0 {
        assert(new =~= text);
    } else {
        let first = spans[0].start;
        let last = spans[spans.len() - 1].end;
        let end = at[spans.len() - 1].1;
        lemma_free_between(text, spans, names, 0, first, -1, 0);
        assert(moved_to(text, spans, names, 0) == 0) by {
            lemma_moved_from_start(text, spans, names);
        }
        if first > 0 {
            law_other_text_is_kept(text, spans, names, 0, first);
            assert(new.take(first) =~= new.subrange(0, first));
            assert(text.take(first) =~= text.subrange(0, first));
        } else {
            assert(new.take(first) =~= text.take(first));
        }
        lemma_free_between(
            text,
            spans,
            names,
            last,
            text.len() as int,
            spans.len() - 1,
            spans.len() as int,
        );
        if last < text.len() {
            law_other_text_is_kept(text, spans, names, last, text.len() as int);
            assert(new.skip(end) =~= new.subrange(end, new.len() as int));
            assert(text.skip(last) =~= text.subrange(last, text.len() as int));
        } else {
            assert(new.skip(end) =~= text.skip(last));
        }
    }
    at
}

/// Between two links there is no dead one.
proof fn lemma_free_between(
    text: Seq<u8>,
    spans: Seq<LinkSpan>,
    names: Set<Seq<char>>,
    from: int,
    to: int,
    left: int,
    right: int,
)
    requires
        in_order(text, spans),
        from <= to <= text.len(),
        -1 <= left <= right <= spans.len(),
        right <= left + 1,
        left == right ==> 0 <= left < spans.len() && !is_dead(spans[left], names) && from
            == spans[left].start && to == spans[left].end,
        left < right && left >= 0 ==> from == spans[left].end,
        left < right && right < spans.len() ==> to == spans[right].start,
        left == -1 ==> from == 0,
        left < right && right == spans.len() ==> to == text.len(),
    ensures
        free_of_dead_links(spans, names, from, to),
        moved_to(text, spans, names, to) == moved_to(text, spans, names, from) + to - from,
{
    assert forall|j: int| 0 <= j < spans.len() && is_dead(#[trigger] spans[j], names) implies (
    spans[j].end <= from || to <= spans[j].start) && (spans[j].end <= from || to < spans[j].end) by {
        if left < right {
            if j < left {
                assert(spans[j].end <= spans[left].start);
            } else if right < j {
                assert(spans[right].end <= spans[j].start);
            }
        } else if j < left {
            assert(spans[j].end <= spans[left].start);
        } else {
            assert(spans[left].end <= spans[j].start);
        }
    }
    lemma_moved_run(text, spans, names, from, to);
}

proof fn lemma_moved_from_start(text: Seq<u8>, spans: Seq<LinkSpan>, names: Set<Seq<char>>)
    requires
        in_order(text, spans),
    ensures
        moved_to(text, spans, names, 0) == 0,
    decreases spans.len(),
{
    if spans.len() > 0 {
        assert(spans.drop_last() =~= spans.take(spans.len() - 1));
        lemma_in_order_take(text, spans, spans.len() - 1);
        lemma_moved_from_start(text, spans.drop_last(), names);
        assert(spans[spans.len() - 1] == spans.last());
    }
}

/// What takes the place of a dead link without an alias is one of the dead names, bare of folders,
/// anchors, block references and white space around it.
pub proof fn law_names_left_behind_are_bare(
    content: Seq<char>,
    names: Set<Seq<char>>,
    out: Seq<char>,
    k: int,
) -> (r: (int, Seq<char>))
    requires
        encode_utf8(out) == unlinked(encode_utf8(content), note_spans(content), names),
        0 <= k < note_spans(content).len(),
        !note_spans(content)[k].embed,
        note_spans(content)[k].alias is None,
        target_name(note_spans(content)[k].target) is Some,
        names.contains(target_name(note_spans(content)[k].target)->0),
    ensures
        ({
            let (at, name) = r;
            let new = encode_utf8(out);
            &&& names.contains(name)
            &&& target_name(note_spans(content)[k].target) == Some(name)
            &&& 0 <= at
            &&& at + encode_utf8(name).len() <= new.len()
            &&& new.subrange(at, at + encode_utf8(name).len()) == encode_utf8(name)
            &&& name.len() > 0
            &&& !name.contains('#')
            &&& !name.contains('^')
            &&& !name.contains('/')
            &&& !white_space(name[0])
            &&& !white_space(name.last())
        }),
{
    let name = target_name(note_spans(content)[k].target)->0;
    let places = law_dead_links_give_way_to_their_names(content, names, out);
    let at = places[k].0;
    law_names_are_bare(note_spans(content)[k].target);
    assert(note_spans(content)[k] == note_spans(content)[k]);
    assert(encode_utf8(out).subrange(places[k].0, places[k].1).len() == places[k].1 - places[k].0);
    (at, name)
}

/// One more link adds one to the number of dead ones if it is no embed and its name is one of the
/// dead ones, and else nothing.
pub proof fn law_each_dead_link_is_counted(
    spans: Seq<LinkSpan>,
    names: Set<Seq<char>>,
    span: LinkSpan,
)
    ensures
        dead_count(Seq::empty(), names) == 0,
        dead_count(spans.push(span), names) == dead_count(spans, names) + if !span.embed
            && target_name(span.target) is Some && names.contains(target_name(span.target)->0) {
            1nat
        } else {
            0nat
        },
{
    assert(spans.push(span).drop_last() =~= spans);
}

} // verus!
