//! Wikilinks in the text of a note, and the code and comments in which they do not count.
use crate::text::{lemma_ascii_byte, lemma_encode_concat};
use vstd::prelude::*;
use vstd::utf8::{decode_utf8, encode_utf8, is_ascii_chars};

verus! {

/// `pattern` stands in `text` at `at`.
pub open spec fn stands_at(text: Seq<u8>, pattern: Seq<u8>, at: int) -> bool {
    0 <= at && at + pattern.len() <= text.len() && text.subrange(at, at + pattern.len()) == pattern
}

/// The first place at or after `from` where `pattern` stands.
pub open spec fn find_from(text: Seq<u8>, pattern: Seq<u8>, from: int) -> Option<int>
    decreases text.len() - from,
{
    if from < 0 || from >= text.len() {
        None
    } else if stands_at(text, pattern, from) {
        Some(from)
    } else {
        find_from(text, pattern, from + 1)
    }
}

/// The first place at or after `from` that holds a backtick or a line feed, or the end of the text.
pub open spec fn tick_or_line_end(text: Seq<u8>, from: int) -> int
    decreases text.len() - from,
{
    if from < 0 || from >= text.len() || text[from] == 0x60 || text[from] == 0x0a {
        from
    } else {
        tick_or_line_end(text, from + 1)
    }
}

/// The marks around a fenced block.
pub open spec fn three_ticks() -> Seq<u8> {
    seq![0x60, 0x60, 0x60]
}

/// `<!--`, which opens a comment.
pub open spec fn comment_open() -> Seq<u8> {
    seq![0x3c, 0x21, 0x2d, 0x2d]
}

/// `-->`, which closes a comment.
pub open spec fn comment_close() -> Seq<u8> {
    seq![0x2d, 0x2d, 0x3e]
}

/// The kinds of regions in which links do not count.
pub enum Region {
    /// From three backticks to the next three, over any number of lines.
    Fence,
    /// From a backtick to the next one, within a line.
    Inline,
    /// From `<!--` to the next `-->`, over any number of lines.
    Comment,
}

/// The first region of a kind that begins at or after `from`: where it begins and where it ends.
pub open spec fn region_from(text: Seq<u8>, kind: Region, from: int) -> Option<(int, int)>
    decreases text.len() - from,
{
    match kind {
        Region::Fence => match find_from(text, three_ticks(), from) {
            Some(start) => match find_from(text, three_ticks(), start + 3) {
                Some(end) => Some((start, end + 3)),
                None => None,
            },
            None => None,
        },
        Region::Comment => match find_from(text, comment_open(), from) {
            Some(start) => match find_from(text, comment_close(), start + 4) {
                Some(end) => Some((start, end + 3)),
                None => None,
            },
            None => None,
        },
        Region::Inline => if from < 0 || from >= text.len() {
            None
        } else {
            let end = tick_or_line_end(text, from + 1);
            if text[from] == 0x60 && end < text.len() && text[end] == 0x60 {
                Some((from, end + 1))
            } else {
                region_from(text, kind, from + 1)
            }
        },
    }
}

/// `at` lies in one of the regions of a kind that follow each other from `from` on.
pub open spec fn covered(text: Seq<u8>, kind: Region, from: int, at: int) -> bool
    decreases text.len() - from,
{
    match region_from(text, kind, from) {
        Some((start, end)) => (start <= at < end) || (from < end <= text.len() && covered(
            text,
            kind,
            end,
            at,
        )),
        None => false,
    }
}

/// `text` with a space in place of each byte in a region of a kind.
pub open spec fn blanked(text: Seq<u8>, kind: Region) -> Seq<u8> {
    Seq::new(
        text.len(),
        |at: int|
            if covered(text, kind, 0, at) {
                0x20u8
            } else {
                text[at]
            },
    )
}

/// `text` with its code blanked: fenced blocks, then inline code in what is left.
pub open spec fn code_blanked(text: Seq<u8>) -> Seq<u8> {
    blanked(blanked(text, Region::Fence), Region::Inline)
}

/// The part of a note in which links count: its code and comments are blanked.
pub open spec fn prose(text: Seq<u8>) -> Seq<u8> {
    blanked(code_blanked(text), Region::Comment)
}

/// `trama::strip_code_regions`: puts a space in place of each byte of fenced blocks, then of inline
/// code.
#[verifier::external_body]
fn strip_code_regions(text: &str) -> (out: String)
    ensures
        encode_utf8(out@) == code_blanked(encode_utf8(text@)),
{
    trama::strip_code_regions(text)
}

/// `trama::strip_html_comments`: puts a space in place of each byte of comments.
#[verifier::external_body]
fn strip_html_comments(text: &str) -> (out: String)
    ensures
        encode_utf8(out@) == blanked(encode_utf8(text@), Region::Comment),
{
    trama::strip_html_comments(text)
}

/// The first `]` at or after `from`, or the end of the text.
pub open spec fn bracket_from(text: Seq<u8>, from: int) -> int
    decreases text.len() - from,
{
    if from < 0 || from >= text.len() || text[from] == 0x5d {
        from
    } else {
        bracket_from(text, from + 1)
    }
}

/// The first `|` at or after `from` and before `end`, or `end`.
pub open spec fn bar_from(text: Seq<u8>, from: int, end: int) -> int
    decreases end - from,
{
    if from >= end || text[from] == 0x7c {
        from
    } else {
        bar_from(text, from + 1, end)
    }
}

/// A wikilink as it stands in a text: from `start` to `end`, with its target and alias.
#[verifier::ext_equal]
pub struct LinkSpan {
    pub start: int,
    pub end: int,
    pub embed: bool,
    pub target: Seq<char>,
    pub alias: Option<Seq<char>>,
}

/// Where the part between the double brackets begins, for a link that begins at `at`.
pub open spec fn body_start(text: Seq<u8>, at: int) -> int {
    if text[at] == 0x21 {
        at + 3
    } else {
        at + 2
    }
}

/// A wikilink begins at `at`: an optional `!`, then `[[`, then at least one byte and no `]`, the
/// first of them no `|`, then `]]`.
pub open spec fn link_at(text: Seq<u8>, at: int) -> bool {
    let body = body_start(text, at);
    let close = bracket_from(text, body);
    &&& 0 <= at
    &&& body < text.len()
    &&& text[body - 2] == 0x5b
    &&& text[body - 1] == 0x5b
    &&& body < close
    &&& text[body] != 0x7c
    &&& close + 1 < text.len()
    &&& text[close + 1] == 0x5d
}

/// The wikilink that begins at `at`. Its target goes up to the first `|`; what follows that is its
/// alias.
pub open spec fn link_span(text: Seq<u8>, at: int) -> LinkSpan {
    let body = body_start(text, at);
    let close = bracket_from(text, body);
    let bar = bar_from(text, body, close);
    LinkSpan {
        start: at,
        end: close + 2,
        embed: text[at] == 0x21,
        target: decode_utf8(text.subrange(body, bar)),
        alias: if bar < close {
            Some(decode_utf8(text.subrange(bar + 1, close)))
        } else {
            None
        },
    }
}

/// The wikilinks of a text that begin at or after `from`, each after the end of the one before it.
pub open spec fn link_spans(text: Seq<u8>, from: int) -> Seq<LinkSpan>
    decreases text.len() - from,
{
    if from < 0 || from >= text.len() {
        Seq::empty()
    } else if link_at(text, from) {
        let link = link_span(text, from);
        if from < link.end <= text.len() {
            seq![link] + link_spans(text, link.end)
        } else {
            Seq::empty()
        }
    } else {
        link_spans(text, from + 1)
    }
}

/// A wikilink found in a text.
#[derive(Debug, PartialEq, Eq)]
pub struct Wikilink {
    /// Where it begins, in bytes.
    pub start: usize,
    /// Where it ends, in bytes.
    pub end: usize,
    /// `!` for an embed, nothing for a link.
    pub marker: String,
    /// What stands before the first `|`, or all of it.
    pub target: String,
    /// What stands after the first `|`.
    pub alias: Option<String>,
}

impl Wikilink {
    /// What it stands for.
    pub open spec fn is_span(&self, span: LinkSpan) -> bool {
        &&& self.start == span.start
        &&& self.end == span.end
        &&& self.marker@ == (if span.embed {
            seq!['!']
        } else {
            Seq::<char>::empty()
        })
        &&& self.target@ == span.target
        &&& self.alias.deep_view() == span.alias
    }
}

/// `trama::wikilink_regex` and the `captures_iter` of that regular expression: the wikilinks of a
/// text, from left to right, with the bytes that each takes up and its captured parts.
#[verifier::external_body]
fn find_wikilinks(text: &str) -> (out: Vec<Wikilink>)
    ensures
        out.len() == link_spans(encode_utf8(text@), 0).len(),
        forall|i: int|
            0 <= i < out.len() ==> (#[trigger] out[i]).is_span(
                link_spans(encode_utf8(text@), 0)[i],
            ),
{
    trama::wikilink_regex()
        .captures_iter(text)
        .map(|found| Wikilink {
            start: found.get(0).map_or(0, |whole| whole.start()),
            end: found.get(0).map_or(0, |whole| whole.end()),
            marker: found.get(1).map_or("", |marker| marker.as_str()).to_string(),
            target: found.get(2).map_or("", |target| target.as_str()).to_string(),
            alias: found.get(3).map(|alias| alias.as_str().to_string()),
        })
        .collect()
}

/// The characters with the Unicode property `White_Space`.
pub open spec fn white_space(c: char) -> bool {
    let u = c as u32;
    ||| 0x9 <= u <= 0xd
    ||| u == 0x20
    ||| u == 0x85
    ||| u == 0xa0
    ||| u == 0x1680
    ||| 0x2000 <= u <= 0x200a
    ||| u == 0x2028
    ||| u == 0x2029
    ||| u == 0x202f
    ||| u == 0x205f
    ||| u == 0x3000
}

/// `text` without white space at its end.
pub open spec fn trimmed_end(text: Seq<char>) -> Seq<char>
    decreases text.len(),
{
    if text.len() > 0 && white_space(text.last()) {
        trimmed_end(text.drop_last())
    } else {
        text
    }
}

/// `text` without white space at either end.
pub open spec fn trimmed(text: Seq<char>) -> Seq<char>
    decreases text.len(),
{
    if text.len() > 0 && white_space(text[0]) {
        trimmed(text.drop_first())
    } else {
        trimmed_end(text)
    }
}

/// What stands before the first `mark`, or all of `text`.
pub open spec fn before_mark(text: Seq<char>, mark: char) -> Seq<char>
    decreases text.len(),
{
    if text.len() == 0 || text[0] == mark {
        Seq::empty()
    } else {
        seq![text[0]] + before_mark(text.drop_first(), mark)
    }
}

/// What stands after the last `mark`, or all of `text`.
pub open spec fn after_mark(text: Seq<char>, mark: char) -> Seq<char>
    decreases text.len(),
{
    if text.len() == 0 || text.last() == mark {
        Seq::empty()
    } else {
        after_mark(text.drop_last(), mark).push(text.last())
    }
}

/// The name of the note that a link leads to: the last component of its target, without an anchor
/// or a block reference and without white space around it. A target may have no name.
pub open spec fn target_name(target: Seq<char>) -> Option<Seq<char>> {
    let path = trimmed(before_mark(before_mark(trimmed(target), '#'), '^'));
    let name = trimmed(after_mark(path, '/'));
    if name.len() == 0 {
        None
    } else {
        Some(name)
    }
}

/// `trama::normalize_target`: the name that a target gives.
#[verifier::external_body]
fn normalize_target(target: &str) -> (out: Option<String>)
    ensures
        out.deep_view() == target_name(target@),
{
    trama::normalize_target(target)
}

/// The names that links, or embeds, lead to, in order.
pub open spec fn names_of(spans: Seq<LinkSpan>, embeds: bool) -> Seq<Seq<char>>
    decreases spans.len(),
{
    if spans.len() == 0 {
        Seq::empty()
    } else {
        let before = names_of(spans.drop_last(), embeds);
        match target_name(spans.last().target) {
            Some(name) => if spans.last().embed == embeds {
                before.push(name)
            } else {
                before
            },
            None => before,
        }
    }
}

/// The wikilinks that count in a note.
pub open spec fn note_spans(content: Seq<char>) -> Seq<LinkSpan> {
    link_spans(prose(encode_utf8(content)), 0)
}

/// `trama::extract_wikilinks`: the names that the links of a note lead to, and those that its
/// embeds lead to.
#[verifier::external_body]
fn extracted(content: &str) -> (out: (Vec<String>, Vec<String>))
    ensures
        out.0.deep_view() == names_of(note_spans(content@), false),
        out.1.deep_view() == names_of(note_spans(content@), true),
{
    trama::extract_wikilinks(content)
}

/// The names that the links of a note lead to, and those that its embeds lead to.
pub fn extract_wikilinks(content: &str) -> (out: (Vec<String>, Vec<String>))
    ensures
        out.0.deep_view() == names_of(note_spans(content@), false),
        out.1.deep_view() == names_of(note_spans(content@), true),
{
    extracted(content)
}

/// The name of the note that a link leads to.
pub fn name_of_target(target: &str) -> (out: Option<String>)
    ensures
        out.deep_view() == target_name(target@),
{
    normalize_target(target)
}

/// The wikilinks that count in a note, with their places in its text.
pub fn note_wikilinks(content: &str) -> (out: Vec<Wikilink>)
    ensures
        out.len() == note_spans(content@).len(),
        forall|i: int|
            0 <= i < out.len() ==> (#[trigger] out[i]).is_span(note_spans(content@)[i]),
        forall|i: int|
            0 <= i < out.len() ==> {
                let span = note_spans(content@)[i];
                &&& (#[trigger] out[i]).start == span.start
                &&& out[i].end == span.end
                &&& out[i].marker@.len() == 1 <==> span.embed
                &&& out[i].marker@.len() <= 1
                &&& out[i].target@ == span.target
                &&& out[i].alias.deep_view() == span.alias
            },
{
    let without_code = strip_code_regions(content);
    let text = strip_html_comments(without_code.as_str());
    find_wikilinks(text.as_str())
}

/// Blanking moves nothing: each byte of the prose is that of the note or a space.
pub proof fn law_blanking_keeps_places(text: Seq<u8>)
    ensures
        prose(text).len() == text.len(),
        forall|i: int|
            0 <= i < text.len() ==> (#[trigger] prose(text)[i] == text[i] || prose(text)[i] == 0x20),
{
    let fenced = blanked(text, Region::Fence);
    let code = blanked(fenced, Region::Inline);
    assert forall|i: int| 0 <= i < text.len() implies (#[trigger] prose(text)[i] == text[i]
        || prose(text)[i] == 0x20) by {
        assert(fenced[i] == text[i] || fenced[i] == 0x20);
        assert(code[i] == fenced[i] || code[i] == 0x20);
    }
}

/// Up to the first `]` there is none.
pub proof fn lemma_bracket_from(text: Seq<u8>, from: int)
    requires
        0 <= from <= text.len(),
    ensures
        from <= bracket_from(text, from) <= text.len(),
        forall|k: int| from <= k < bracket_from(text, from) ==> #[trigger] text[k] != 0x5d,
        bracket_from(text, from) < text.len() ==> text[bracket_from(text, from)] == 0x5d,
    decreases text.len() - from,
{
    if from < text.len() && text[from] != 0x5d {
        lemma_bracket_from(text, from + 1);
    }
}

/// What is known of a wikilink: it lies in the text, begins with `!` or `[`, and ends with `]`.
pub open spec fn lies_in(text: Seq<u8>, span: LinkSpan) -> bool {
    &&& 0 <= span.start
    &&& span.start + 5 <= span.end <= text.len()
    &&& link_at(text, span.start)
    &&& span == link_span(text, span.start)
    &&& text[span.start] == 0x21 || text[span.start] == 0x5b
    &&& text[span.end - 1] == 0x5d
}

proof fn lemma_link_lies_in(text: Seq<u8>, at: int)
    requires
        link_at(text, at),
    ensures
        lies_in(text, link_span(text, at)),
{
    lemma_bracket_from(text, body_start(text, at));
}

/// The wikilinks found in a text lie in it, one after the other.
pub proof fn law_links_follow_each_other(text: Seq<u8>, from: int)
    requires
        0 <= from,
    ensures
        forall|i: int|
            0 <= i < link_spans(text, from).len() ==> lies_in(
                text,
                #[trigger] link_spans(text, from)[i],
            ) && from <= link_spans(text, from)[i].start,
        forall|i: int, j: int|
            0 <= i < j < link_spans(text, from).len() ==> (#[trigger] link_spans(text, from)[i]).end
                <= (#[trigger] link_spans(text, from)[j]).start,
    decreases text.len() - from,
{
    if from < text.len() {
        if link_at(text, from) {
            let link = link_span(text, from);
            lemma_link_lies_in(text, from);
            law_links_follow_each_other(text, link.end);
            let rest = link_spans(text, link.end);
            let all = link_spans(text, from);
            assert(all == seq![link] + rest);
            assert forall|i: int| 0 <= i < all.len() implies lies_in(text, #[trigger] all[i])
                && from <= all[i].start by {
                if i > 0 {
                    assert(all[i] == rest[i - 1]);
                }
            }
            assert forall|i: int, j: int| 0 <= i < j < all.len() implies (#[trigger] all[i]).end <= (
            #[trigger] all[j]).start by {
                assert(all[j] == rest[j - 1]);
                if i > 0 {
                    assert(all[i] == rest[i - 1]);
                }
            }
        } else {
            law_links_follow_each_other(text, from + 1);
        }
    }
}

/// No wikilink is missed: where one begins, there is one among those found, or it lies in one of
/// them. Gives the place of the latter among those found.
pub proof fn law_no_link_is_missed(text: Seq<u8>, from: int, at: int) -> (i: int)
    requires
        0 <= from <= at,
        link_at(text, at),
    ensures
        0 <= i < link_spans(text, from).len(),
        link_spans(text, from)[i].start <= at < link_spans(text, from)[i].end,
    decreases text.len() - from,
{
    lemma_link_lies_in(text, at);
    if link_at(text, from) {
        let link = link_span(text, from);
        lemma_link_lies_in(text, from);
        let rest = link_spans(text, link.end);
        assert(link_spans(text, from) == seq![link] + rest);
        if at < link.end {
            0
        } else {
            let i = law_no_link_is_missed(text, link.end, at);
            assert(link_spans(text, from)[i + 1] == rest[i]);
            i + 1
        }
    } else {
        law_no_link_is_missed(text, from + 1, at)
    }
}

/// Neither end of a link that counts lies in a fenced block, in inline code or in a comment.
pub proof fn law_links_in_code_do_not_count(content: Seq<char>, i: int, at: int)
    requires
        0 <= i < note_spans(content).len(),
        at == note_spans(content)[i].start || at == note_spans(content)[i].end - 1,
    ensures
        !covered(encode_utf8(content), Region::Fence, 0, at),
        !covered(blanked(encode_utf8(content), Region::Fence), Region::Inline, 0, at),
        !covered(code_blanked(encode_utf8(content)), Region::Comment, 0, at),
{
    let text = encode_utf8(content);
    law_links_follow_each_other(prose(text), 0);
    assert(lies_in(prose(text), note_spans(content)[i]));
    let fenced = blanked(text, Region::Fence);
    let code = code_blanked(text);
    assert(prose(text)[at] != 0x20);
    assert(prose(text)[at] == code[at]);
    assert(code[at] == fenced[at]);
}

proof fn lemma_nowhere(text: Seq<u8>, pattern: Seq<u8>, from: int)
    requires
        forall|at: int| !#[trigger] stands_at(text, pattern, at),
    ensures
        find_from(text, pattern, from) is None,
    decreases text.len() - from,
{
    if 0 <= from < text.len() {
        lemma_nowhere(text, pattern, from + 1);
    }
}

proof fn lemma_no_inline(text: Seq<u8>, from: int)
    requires
        forall|at: int| 0 <= at < text.len() ==> #[trigger] text[at] != 0x60,
    ensures
        region_from(text, Region::Inline, from) is None,
    decreases text.len() - from,
{
    if 0 <= from < text.len() {
        assert(text[from] != 0x60);
        lemma_no_inline(text, from + 1);
    }
}

/// A text without backticks has no code in it.
pub proof fn lemma_no_code(text: Seq<u8>)
    requires
        forall|at: int| 0 <= at < text.len() ==> #[trigger] text[at] != 0x60,
    ensures
        code_blanked(text) == text,
{
    assert forall|at: int| !#[trigger] stands_at(text, three_ticks(), at) by {
        if stands_at(text, three_ticks(), at) {
            assert(text.subrange(at, at + 3)[0] == three_ticks()[0]);
            assert(text[at] != 0x60);
        }
    }
    lemma_nowhere(text, three_ticks(), 0);
    assert(blanked(text, Region::Fence) =~= text);
    lemma_no_inline(text, 0);
    assert(blanked(text, Region::Inline) =~= text);
}

/// A text without backticks and without `<!--` is prose throughout.
pub proof fn law_plain_text_is_prose(text: Seq<u8>)
    requires
        forall|at: int| 0 <= at < text.len() ==> #[trigger] text[at] != 0x60,
        forall|at: int| !#[trigger] stands_at(text, comment_open(), at),
    ensures
        prose(text) == text,
{
    lemma_no_code(text);
    lemma_nowhere(text, comment_open(), 0);
    assert(blanked(text, Region::Comment) =~= text);
}

/// A wikilink written out.
pub open spec fn written(embed: bool, target: Seq<char>, alias: Option<Seq<char>>) -> Seq<char> {
    (if embed {
        seq!['!', '[', '[']
    } else {
        seq!['[', '[']
    }) + target + (match alias {
        Some(alias) => seq!['|'] + alias,
        None => Seq::<char>::empty(),
    }) + seq![']', ']']
}

/// Where the first `]` is.
pub proof fn lemma_bracket_is(text: Seq<u8>, from: int, at: int)
    requires
        0 <= from <= at < text.len(),
        forall|k: int| from <= k < at ==> #[trigger] text[k] != 0x5d,
        text[at] == 0x5d,
    ensures
        bracket_from(text, from) == at,
    decreases at - from,
{
    if from < at {
        assert(text[from] != 0x5d);
        lemma_bracket_is(text, from + 1, at);
    }
}

proof fn lemma_bar_is(text: Seq<u8>, from: int, at: int, end: int)
    requires
        0 <= from <= at <= end <= text.len(),
        forall|k: int| from <= k < at ==> #[trigger] text[k] != 0x7c,
        at < end ==> text[at] == 0x7c,
    ensures
        bar_from(text, from, end) == at,
    decreases at - from,
{
    if from < at {
        assert(text[from] != 0x7c);
        lemma_bar_is(text, from + 1, at, end);
    }
}

proof fn lemma_mark_free(text: Seq<char>, mark: char, byte: u8)
    requires
        byte < 0x80,
        mark as u32 == byte as u32,
        !text.contains(mark),
    ensures
        forall|k: int| 0 <= k < encode_utf8(text).len() ==> #[trigger] encode_utf8(text)[k] != byte,
{
    assert forall|k: int| 0 <= k < encode_utf8(text).len() implies #[trigger] encode_utf8(text)[k]
        != byte by {
        if encode_utf8(text)[k] == byte {
            let i = lemma_ascii_byte(text, k);
            vstd::utf8::char_u32_cast(text[i], byte as u32);
            vstd::utf8::char_u32_cast(mark, byte as u32);
            assert(text[i] == mark);
        }
    }
}

/// A wikilink that is written out is read as it was meant: as one link, or embed, with that target
/// and that alias.
pub proof fn law_written_links_are_read(embed: bool, target: Seq<char>, alias: Option<Seq<char>>)
    requires
        target.len() > 0,
        !target.contains(']'),
        !target.contains('|'),
        alias is Some ==> !alias->0.contains(']'),
    ensures
        link_spans(encode_utf8(written(embed, target, alias)), 0) == seq![
            (LinkSpan {
                start: 0,
                end: encode_utf8(written(embed, target, alias)).len() as int,
                embed,
                target,
                alias,
            }),
        ],
{
    broadcast use vstd::utf8::group_utf8_lib;

    let open = if embed {
        seq!['!', '[', '[']
    } else {
        seq!['[', '[']
    };
    let tail = match alias {
        Some(alias) => seq!['|'] + alias,
        None => Seq::<char>::empty(),
    };
    let close = seq![']', ']'];
    let o = encode_utf8(open);
    let t = encode_utf8(target);
    let a = encode_utf8(tail);
    let c = encode_utf8(close);
    let text = encode_utf8(written(embed, target, alias));
    assert(is_ascii_chars(open) && is_ascii_chars(close));
    assert(c =~= seq![0x5du8, 0x5d]);
    if embed {
        assert(o =~= seq![0x21u8, 0x5b, 0x5b]);
    } else {
        assert(o =~= seq![0x5bu8, 0x5b]);
    }
    lemma_encode_concat(open, target);
    lemma_encode_concat(open + target, tail);
    lemma_encode_concat(open + target + tail, close);
    assert(text == o + t + a + c);
    lemma_mark_free(target, ']', 0x5d);
    lemma_mark_free(target, '|', 0x7c);
    assert(t.len() > 0) by {
        if t.len() == 0 {
            assert(t =~= Seq::<u8>::empty());
            assert(decode_utf8(t) == target);
            assert(decode_utf8(Seq::<u8>::empty()) =~= Seq::<char>::empty());
        }
    }
    let body = o.len() as int;
    let bar = body + t.len();
    let end = bar + a.len();
    assert forall|k: int| body <= k < bar implies #[trigger] text[k] != 0x5d && text[k] != 0x7c by {
        assert(text[k] == t[k - body]);
    }
    if alias is Some {
        let words = alias->0;
        let w = encode_utf8(words);
        lemma_encode_concat(seq!['|'], words);
        assert(is_ascii_chars(seq!['|']));
        assert(encode_utf8(seq!['|']) =~= seq![0x7cu8]);
        assert(a == seq![0x7cu8] + w);
        lemma_mark_free(words, ']', 0x5d);
        assert forall|k: int| bar <= k < end implies #[trigger] text[k] != 0x5d by {
            assert(text[k] == a[k - bar]);
            if k > bar {
                assert(a[k - bar] == w[k - bar - 1]);
            }
        }
        assert(text[bar] == a[0]);
        assert(text.subrange(bar + 1, end) =~= w);
    } else {
        assert(a =~= Seq::<u8>::empty());
    }
    assert(text[end] == c[0] && text[end + 1] == c[1]);
    assert(text[0] == o[0] && text[body - 2] == o[body - 2] && text[body - 1] == o[body - 1]);
    lemma_bracket_is(text, body, end);
    lemma_bar_is(text, body, bar, end);
    assert(text.subrange(body, bar) =~= t);
    assert(body_start(text, 0) == body);
    assert(link_at(text, 0));
    assert(text.len() == end + 2);
    assert(link_spans(text, end + 2) =~= Seq::<LinkSpan>::empty());
    assert(link_spans(text, 0) =~= seq![link_span(text, 0)]);
}

proof fn lemma_trimmed_ends(text: Seq<char>)
    ensures
        trimmed_end(text).len() > 0 ==> !white_space(trimmed_end(text).last()),
        trimmed_end(text).len() > 0 ==> trimmed_end(text)[0] == text[0],
        forall|c: char| trimmed_end(text).contains(c) ==> text.contains(c),
    decreases text.len(),
{
    if text.len() > 0 && white_space(text.last()) {
        let shorter = text.drop_last();
        lemma_trimmed_ends(shorter);
        assert forall|c: char| trimmed_end(text).contains(c) implies text.contains(c) by {
            assert(shorter.contains(c));
            let i = choose|i: int| 0 <= i < shorter.len() && shorter[i] == c;
            assert(text[i] == c);
        }
        if trimmed_end(text).len() > 0 {
            assert(shorter.len() > 0) by {
                if shorter.len() == 0 {
                    assert(trimmed_end(shorter) == shorter);
                }
            }
        }
    }
}

/// Trimmed text has no white space at its ends, and nothing that was not there.
pub proof fn law_trimmed_text_has_bare_ends(text: Seq<char>)
    ensures
        trimmed(text).len() > 0 ==> !white_space(trimmed(text)[0]) && !white_space(
            trimmed(text).last(),
        ),
        forall|c: char| trimmed(text).contains(c) ==> text.contains(c),
    decreases text.len(),
{
    if text.len() > 0 && white_space(text[0]) {
        let shorter = text.drop_first();
        law_trimmed_text_has_bare_ends(shorter);
        assert forall|c: char| trimmed(text).contains(c) implies text.contains(c) by {
            assert(shorter.contains(c));
            let i = choose|i: int| 0 <= i < shorter.len() && shorter[i] == c;
            assert(text[i + 1] == c);
        }
    } else {
        lemma_trimmed_ends(text);
    }
}

proof fn lemma_before_mark_lacks(text: Seq<char>, mark: char)
    ensures
        !before_mark(text, mark).contains(mark),
        forall|c: char| before_mark(text, mark).contains(c) ==> text.contains(c),
    decreases text.len(),
{
    if text.len() > 0 && text[0] != mark {
        let rest = text.drop_first();
        let all = before_mark(text, mark);
        lemma_before_mark_lacks(rest, mark);
        assert forall|c: char| all.contains(c) implies text.contains(c) && c != mark by {
            let i = choose|i: int| 0 <= i < all.len() && all[i] == c;
            if i > 0 {
                assert(before_mark(rest, mark)[i - 1] == c);
                assert(before_mark(rest, mark).contains(c));
                assert(rest.contains(c));
                let j = choose|j: int| 0 <= j < rest.len() && rest[j] == c;
                assert(text[j + 1] == c);
            }
        }
    }
}

proof fn lemma_after_mark_lacks(text: Seq<char>, mark: char)
    ensures
        !after_mark(text, mark).contains(mark),
        forall|c: char| after_mark(text, mark).contains(c) ==> text.contains(c),
    decreases text.len(),
{
    if text.len() > 0 && text.last() != mark {
        let rest = text.drop_last();
        let all = after_mark(text, mark);
        lemma_after_mark_lacks(rest, mark);
        assert forall|c: char| all.contains(c) implies text.contains(c) && c != mark by {
            let i = choose|i: int| 0 <= i < all.len() && all[i] == c;
            if i < all.len() - 1 {
                assert(after_mark(rest, mark)[i] == c);
                assert(after_mark(rest, mark).contains(c));
                assert(rest.contains(c));
                let j = choose|j: int| 0 <= j < rest.len() && rest[j] == c;
                assert(text[j] == c);
            } else {
                assert(text[text.len() - 1] == c);
            }
        }
    }
}

/// The name that a target gives is not empty, and bare of folders, anchors, block references and
/// white space around it.
pub proof fn law_names_are_bare(target: Seq<char>)
    ensures
        target_name(target) matches Some(name) ==> {
            &&& name.len() > 0
            &&& !name.contains('#')
            &&& !name.contains('^')
            &&& !name.contains('/')
            &&& !white_space(name[0])
            &&& !white_space(name.last())
            &&& forall|c: char| #[trigger] name.contains(c) ==> target.contains(c)
        },
{
    let a = trimmed(target);
    let b = before_mark(a, '#');
    let c = before_mark(b, '^');
    let d = trimmed(c);
    let e = after_mark(d, '/');
    law_trimmed_text_has_bare_ends(target);
    lemma_before_mark_lacks(a, '#');
    lemma_before_mark_lacks(b, '^');
    law_trimmed_text_has_bare_ends(c);
    lemma_after_mark_lacks(d, '/');
    law_trimmed_text_has_bare_ends(e);
}

proof fn lemma_bare_is_trimmed(name: Seq<char>)
    requires
        name.len() > 0,
        !white_space(name[0]),
        !white_space(name.last()),
    ensures
        trimmed(name) == name,
{
}

proof fn lemma_before_mark_is(text: Seq<char>, mark: char, rest: Seq<char>)
    requires
        !text.contains(mark),
    ensures
        before_mark(text, mark) == text,
        before_mark(text + seq![mark] + rest, mark) == text,
    decreases text.len(),
{
    let all = text + seq![mark] + rest;
    if text.len() == 0 {
        assert(all[0] == mark);
        assert(before_mark(all, mark) =~= text);
        assert(before_mark(text, mark) =~= text);
    } else {
        let shorter = text.drop_first();
        assert(text.contains(text[0]));
        assert(!shorter.contains(mark)) by {
            if shorter.contains(mark) {
                let i = choose|i: int| 0 <= i < shorter.len() && shorter[i] == mark;
                assert(text[i + 1] == mark);
            }
        }
        lemma_before_mark_is(shorter, mark, rest);
        assert(all.drop_first() =~= shorter + seq![mark] + rest);
        assert(seq![text[0]] + shorter =~= text);
    }
}

proof fn lemma_after_mark_is(before: Seq<char>, mark: char, text: Seq<char>)
    requires
        !text.contains(mark),
    ensures
        after_mark(text, mark) == text,
        after_mark(before + seq![mark] + text, mark) == text,
    decreases text.len(),
{
    let all = before + seq![mark] + text;
    if text.len() == 0 {
        assert(all.last() == mark);
        assert(after_mark(all, mark) =~= text);
        assert(after_mark(text, mark) =~= text);
    } else {
        let shorter = text.drop_last();
        assert(text.contains(text[text.len() - 1]));
        assert(!shorter.contains(mark)) by {
            if shorter.contains(mark) {
                let i = choose|i: int| 0 <= i < shorter.len() && shorter[i] == mark;
                assert(text[i] == mark);
            }
        }
        lemma_after_mark_is(before, mark, shorter);
        assert(all.drop_last() =~= before + seq![mark] + shorter);
        assert(shorter.push(text.last()) =~= text);
    }
}

/// A bare name is what a target gives that consists of it, and also when a folder stands before it
/// and an anchor or a block reference after it.
pub proof fn law_targets_give_their_name(
    folder: Seq<char>,
    name: Seq<char>,
    mark: char,
    rest: Seq<char>,
)
    requires
        name.len() > 0,
        !name.contains('#'),
        !name.contains('^'),
        !name.contains('/'),
        !white_space(name[0]),
        !white_space(name.last()),
        folder.len() > 0,
        !folder.contains('#'),
        !folder.contains('^'),
        !white_space(folder[0]),
        mark == '#' || mark == '^',
        rest.len() > 0,
        !white_space(rest.last()),
        !rest.contains('#'),
    ensures
        target_name(name) == Some(name),
        target_name(folder + seq!['/'] + name) == Some(name),
        target_name(name + seq![mark] + rest) == Some(name),
        target_name(folder + seq!['/'] + name + seq![mark] + rest) == Some(name),
{
    let path = folder + seq!['/'] + name;
    let none = Seq::<char>::empty();
    lemma_bare_is_trimmed(name);
    lemma_bare_is_trimmed(path);
    lemma_before_mark_is(name, '#', none);
    lemma_before_mark_is(name, '^', none);
    lemma_after_mark_is(folder, '/', name);
    assert(!path.contains('#') && !path.contains('^')) by {
        assert forall|c: char| path.contains(c) implies folder.contains(c) || c == '/'
            || name.contains(c) by {
            let i = choose|i: int| 0 <= i < path.len() && path[i] == c;
            if i < folder.len() {
                assert(folder[i] == c);
            } else if i > folder.len() {
                assert(name[i - folder.len() - 1] == c);
            }
        }
    }
    lemma_before_mark_is(path, '#', none);
    lemma_before_mark_is(path, '^', none);
    lemma_marked(name, mark, rest);
    lemma_marked(path, mark, rest);
}

proof fn lemma_marked(text: Seq<char>, mark: char, rest: Seq<char>)
    requires
        text.len() > 0,
        !white_space(text[0]),
        !text.contains('#'),
        !text.contains('^'),
        mark == '#' || mark == '^',
        rest.len() > 0,
        !white_space(rest.last()),
        !rest.contains('#'),
    ensures
        before_mark(before_mark(trimmed(text + seq![mark] + rest), '#'), '^') == text,
{
    let all = text + seq![mark] + rest;
    let none = Seq::<char>::empty();
    lemma_bare_is_trimmed(all);
    if mark == '#' {
        lemma_before_mark_is(text, '#', rest);
        lemma_before_mark_is(text, '^', none);
    } else {
        assert(!all.contains('#')) by {
            if all.contains('#') {
                let i = choose|i: int| 0 <= i < all.len() && all[i] == '#';
                if i < text.len() {
                    assert(text[i] == '#');
                } else if i > text.len() {
                    assert(rest[i - text.len() - 1] == '#');
                }
            }
        }
        lemma_before_mark_is(all, '#', none);
        lemma_before_mark_is(text, '^', rest);
    }
}

/// One more wikilink adds the name that it leads to at the end of the names of links, or of embeds,
/// if it is one and has a name, and else nothing.
pub proof fn law_each_name_is_listed(spans: Seq<LinkSpan>, span: LinkSpan, embeds: bool)
    ensures
        names_of(Seq::empty(), embeds) == Seq::<Seq<char>>::empty(),
        names_of(spans.push(span), embeds) == if span.embed == embeds && target_name(
            span.target,
        ) is Some {
            names_of(spans, embeds).push(target_name(span.target)->0)
        } else {
            names_of(spans, embeds)
        },
{
    assert(spans.push(span).drop_last() =~= spans);
}

} // verus!
