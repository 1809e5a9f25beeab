//! Turning broken links into plain text.
use crate::graph::{is_analysis, is_broken, leads_nowhere, Analysis, NoteView};
use crate::markup::{
    law_blanking_keeps_places, law_links_follow_each_other, lies_in, name_of_target, names_of,
    note_spans, note_wikilinks, prose, target_name, LinkSpan, Wikilink,
};
use crate::order::{keys, lemma_key_added};
use crate::path::{normal_path, NotePath};
use crate::text::{decimal, decimal_text, lemma_encode_concat};
use vstd::hash_map::StringHashMap;
use vstd::hash_set::StringHashSet;
use vstd::prelude::*;
use vstd::utf8::{
    encode_utf8, is_char_boundary, is_continuation_byte, is_leading_byte_width_1, pop_first_scalar,
    valid_utf8,
};

verus! {

/// A link that leads to one of the given names. Embeds do not count.
pub open spec fn is_dead(span: LinkSpan, names: Set<Seq<char>>) -> bool {
    !span.embed && match target_name(span.target) {
        Some(name) => names.contains(name),
        None => false,
    }
}

/// What takes the place of a link: its alias, or else the name that it leads to. Where there is code
/// or a comment inside the alias, there are spaces in its place.
pub open spec fn plain_text(span: LinkSpan) -> Seq<char> {
    match span.alias {
        Some(alias) => alias,
        None => target_name(span.target)->0,
    }
}

/// How many of the links are dead.
pub open spec fn dead_count(spans: Seq<LinkSpan>, names: Set<Seq<char>>) -> nat
    decreases spans.len(),
{
    if spans.len() == 0 {
        0
    } else {
        dead_count(spans.drop_last(), names) + if is_dead(spans.last(), names) {
            1nat
        } else {
            0nat
        }
    }
}

/// Where the last dead link ends, or the beginning of the text.
pub open spec fn dealt_with(spans: Seq<LinkSpan>, names: Set<Seq<char>>) -> int
    decreases spans.len(),
{
    if spans.len() == 0 {
        0
    } else if is_dead(spans.last(), names) {
        spans.last().end
    } else {
        dealt_with(spans.drop_last(), names)
    }
}

/// The text up to the end of the last dead link, with each dead link replaced by plain text.
pub open spec fn rewritten(text: Seq<u8>, spans: Seq<LinkSpan>, names: Set<Seq<char>>) -> Seq<u8>
    decreases spans.len(),
{
    if spans.len() == 0 {
        Seq::empty()
    } else {
        let before = rewritten(text, spans.drop_last(), names);
        if is_dead(spans.last(), names) {
            before + text.subrange(
                dealt_with(spans.drop_last(), names),
                spans.last().start,
            ) + encode_utf8(plain_text(spans.last()))
        } else {
            before
        }
    }
}

/// The text of a note with each dead link replaced by plain text, and all else as it was.
pub open spec fn unlinked(text: Seq<u8>, spans: Seq<LinkSpan>, names: Set<Seq<char>>) -> Seq<u8> {
    rewritten(text, spans, names) + text.subrange(dealt_with(spans, names), text.len() as int)
}

/// In valid UTF-8, no continuation byte follows an ASCII byte.
pub proof fn lemma_after_ascii(bytes: Seq<u8>, at: int)
    requires
        valid_utf8(bytes),
        0 <= at,
        at + 1 < bytes.len(),
        bytes[at] < 0x80,
    ensures
        !is_continuation_byte(bytes[at + 1]),
{
    broadcast use vstd::utf8::group_utf8_lib;

    assert(!is_continuation_byte(bytes[at]));
    assert(is_char_boundary(bytes, at));
    let rest = bytes.subrange(at, bytes.len() as int);
    vstd::utf8::valid_utf8_split(bytes, at);
    assert(valid_utf8(rest));
    assert(is_leading_byte_width_1(rest[0]));
    let next = pop_first_scalar(rest);
    assert(valid_utf8(next));
    assert(next[0] == bytes[at + 1]);
}

/// The part of `text` from `from` to `to`, and what follows it.
fn cut(text: &str, from: usize, to: usize) -> (out: (&str, &str))
    requires
        from <= to <= encode_utf8(text@).len(),
        is_char_boundary(encode_utf8(text@), from as int),
        is_char_boundary(encode_utf8(text@), to as int),
    ensures
        encode_utf8(out.0@) == encode_utf8(text@).subrange(from as int, to as int),
        encode_utf8(out.1@) == encode_utf8(text@).subrange(
            to as int,
            encode_utf8(text@).len() as int,
        ),
{
    broadcast use vstd::utf8::group_utf8_lib;

    let ghost bytes = encode_utf8(text@);
    let (head, tail) = text.split_at(to);
    proof {
        let first = encode_utf8(head@);
        assert(first =~= bytes.subrange(0, to as int));
        if from < to {
            assert(first[from as int] == bytes[from as int]);
            assert(is_char_boundary(bytes, from as int) <==> !is_continuation_byte(
                bytes[from as int],
            ));
            assert(is_char_boundary(first, from as int) <==> !is_continuation_byte(
                first[from as int],
            ));
        } else {
            assert(is_char_boundary(first, first.len() as int));
        }
    }
    let (_, part) = head.split_at(from);
    proof {
        assert(encode_utf8(part@) =~= bytes.subrange(from as int, to as int));
    }
    (part, tail)
}

/// Both ends of a link that counts are character boundaries of the note.
proof fn lemma_link_boundaries(content: Seq<char>, i: int)
    requires
        0 <= i < note_spans(content).len(),
    ensures
        note_spans(content)[i].start + 5 <= note_spans(content)[i].end <= encode_utf8(
            content,
        ).len(),
        is_char_boundary(encode_utf8(content), note_spans(content)[i].start),
        is_char_boundary(encode_utf8(content), note_spans(content)[i].end),
{
    broadcast use vstd::utf8::group_utf8_lib;

    let bytes = encode_utf8(content);
    let span = note_spans(content)[i];
    law_blanking_keeps_places(bytes);
    law_links_follow_each_other(prose(bytes), 0);
    assert(lies_in(prose(bytes), span));
    assert(prose(bytes)[span.start] == bytes[span.start]);
    assert(prose(bytes)[span.end - 1] == bytes[span.end - 1]);
    assert(!is_continuation_byte(bytes[span.start]));
    if span.end < bytes.len() {
        lemma_after_ascii(bytes, span.end - 1);
    } else {
        assert(is_char_boundary(bytes, bytes.len() as int));
    }
}

/// A note with links to be turned into plain text: those that lead to certain names.
pub struct UnlinkJob {
    source: NotePath,
    names: StringHashSet,
}

/// The text of a note with dead links turned into plain text.
#[derive(Debug, PartialEq, Eq)]
pub struct Unlinked {
    pub text: String,
    /// How many links were turned into plain text.
    pub count: usize,
}

impl UnlinkJob {
    /// The path of the note, as it is spelled.
    pub closed spec fn note(&self) -> Seq<char> {
        self.source@
    }

    /// The names that its dead links lead to.
    pub closed spec fn dead_names(&self) -> Set<Seq<char>> {
        self.names@
    }

    /// The path of the note.
    pub fn source(&self) -> (out: &NotePath)
        ensures
            out@ == self.note(),
    {
        &self.source
    }

    /// The plain text that takes the place of a link, if it is dead.
    fn replacement(&self, link: &Wikilink, Ghost(span): Ghost<LinkSpan>) -> (out: Option<String>)
        requires
            link.is_span(span),
        ensures
            match out {
                Some(text) => is_dead(span, self.dead_names()) && text@ == plain_text(span),
                None => !is_dead(span, self.dead_names()),
            },
    {
        if !link.marker.as_str().is_empty() {
            return None;
        }
        let name = name_of_target(link.target.as_str());
        match name {
            None => None,
            Some(name) => {
                if !self.names.contains(name.as_str()) {
                    return None;
                }
                match &link.alias {
                    Some(alias) => Some(alias.clone()),
                    None => Some(name),
                }
            },
        }
    }

    /// Turns the dead links of a note into plain text.
    pub fn rewrite(&self, content: &str) -> (out: Unlinked)
        ensures
            encode_utf8(out.text@) == unlinked(
                encode_utf8(content@),
                note_spans(content@),
                self.dead_names(),
            ),
            out.count == dead_count(note_spans(content@), self.dead_names()),
    {
        broadcast use vstd::utf8::group_utf8_lib;

        let ghost bytes = encode_utf8(content@);
        let ghost spans = note_spans(content@);
        let ghost names = self.dead_names();
        let links = note_wikilinks(content);
        let mut text = String::new();
        let mut done: usize = 0;
        let mut count: usize = 0;
        let mut i: usize = 0;
        proof {
            assert(spans.take(0) =~= Seq::<LinkSpan>::empty());
            assert(encode_utf8(text@) =~= Seq::<u8>::empty());
            law_links_follow_each_other(prose(bytes), 0);
        }
        while i < links.len()
            invariant
                i <= links.len(),
                bytes == encode_utf8(content@),
                spans == note_spans(content@),
                names == self.dead_names(),
                links.len() == spans.len(),
                forall|j: int| 0 <= j < links.len() ==> (#[trigger] links[j]).is_span(spans[j]),
                forall|j: int, k: int|
                    0 <= j < k < spans.len() ==> (#[trigger] spans[j]).end <= (
                    #[trigger] spans[k]).start,
                forall|j: int| i <= j < spans.len() ==> done <= (#[trigger] spans[j]).start,
                done <= bytes.len(),
                is_char_boundary(bytes, done as int),
                done == dealt_with(spans.take(i as int), names),
                count == dead_count(spans.take(i as int), names),
                count <= i,
                encode_utf8(text@) == rewritten(bytes, spans.take(i as int), names),
            decreases links.len() - i,
        {
            let ghost span = spans[i as int];
            let link = &links[i];
            proof {
                assert(spans.take(i + 1).drop_last() =~= spans.take(i as int));
                assert(spans.take(i + 1).last() == span);
                lemma_link_boundaries(content@, i as int);
            }
            let replacement = self.replacement(link, Ghost(span));
            if let Some(plain) = replacement {
                let (kept, _) = cut(content, done, link.start);
                let ghost before = text@;
                text.append(kept);
                text.append(plain.as_str());
                proof {
                    lemma_encode_concat(before, kept@);
                    lemma_encode_concat(before + kept@, plain@);
                }
                done = link.end;
                count += 1;
            }
            i += 1;
        }
        let ghost before = text@;
        let end: usize = content.as_bytes().len();
        proof {
            assert(is_char_boundary(bytes, bytes.len() as int));
        }
        let (kept, _) = cut(content, done, end);
        text.append(kept);
        proof {
            lemma_encode_concat(before, kept@);
            assert(spans.take(i as int) =~= spans);
        }
        Unlinked { text, count }
    }
}

/// One of the paths is the same as `path`.
pub open spec fn is_among(paths: Seq<Seq<char>>, path: Seq<char>) -> bool {
    exists|i: int| 0 <= i < paths.len() && normal_path(#[trigger] paths[i]) == normal_path(path)
}

/// The notes with broken links, each once, in the order in which they first occur and as they are
/// spelled there.
pub open spec fn sources_of(broken: Seq<(Seq<char>, Seq<char>)>) -> Seq<Seq<char>>
    decreases broken.len(),
{
    if broken.len() == 0 {
        Seq::empty()
    } else {
        let before = sources_of(broken.drop_last());
        if is_among(before, broken.last().0) {
            before
        } else {
            before.push(broken.last().0)
        }
    }
}

/// The names that the broken links of a note lead to.
pub open spec fn names_in(broken: Seq<(Seq<char>, Seq<char>)>, source: Seq<char>) -> Set<Seq<char>>
    decreases broken.len(),
{
    if broken.len() == 0 {
        Set::empty()
    } else {
        let before = names_in(broken.drop_last(), source);
        if normal_path(broken.last().0) == normal_path(source) {
            before.insert(broken.last().1)
        } else {
            before
        }
    }
}

proof fn lemma_no_names(broken: Seq<(Seq<char>, Seq<char>)>, source: Seq<char>)
    requires
        !is_among(sources_of(broken), source),
    ensures
        names_in(broken, source) == Set::<Seq<char>>::empty(),
    decreases broken.len(),
{
    if broken.len() > 0 {
        let before = sources_of(broken.drop_last());
        let last = broken.last().0;
        if is_among(before, source) {
            let i = choose|i: int|
                0 <= i < before.len() && normal_path(#[trigger] before[i]) == normal_path(source);
            assert(sources_of(broken)[i] == before[i]);
        }
        if normal_path(last) == normal_path(source) && !is_among(before, last) {
            assert(sources_of(broken)[before.len() as int] == last);
        }
        lemma_no_names(broken.drop_last(), source);
    }
}

/// Groups broken links by the note that they stand in, so that each note is read and written once.
pub fn unlink_jobs(broken_links: &[(NotePath, String)]) -> (out: Vec<UnlinkJob>)
    ensures
        out.len() == sources_of(broken_links.deep_view()).len(),
        forall|i: int|
            0 <= i < out.len() ==> {
                &&& (#[trigger] out[i]).note() == sources_of(broken_links.deep_view())[i]
                &&& out[i].dead_names() == names_in(broken_links.deep_view(), out[i].note())
            },
{
    let ghost broken = broken_links.deep_view();
    let mut jobs: Vec<UnlinkJob> = Vec::new();
    let mut places: StringHashMap<usize> = StringHashMap::new();
    let mut i: usize = 0;
    proof {
        assert(broken.take(0) =~= Seq::<(Seq<char>, Seq<char>)>::empty());
    }
    while i < broken_links.len()
        invariant
            i <= broken_links.len(),
            broken == broken_links.deep_view(),
            jobs.len() == sources_of(broken.take(i as int)).len(),
            forall|j: int|
                0 <= j < jobs.len() ==> {
                    &&& (#[trigger] jobs[j]).note() == sources_of(broken.take(i as int))[j]
                    &&& jobs[j].dead_names() == names_in(broken.take(i as int), jobs[j].note())
                },
            forall|id: Seq<char>| #[trigger]
                places@.contains_key(id) ==> places@[id] < jobs.len() && normal_path(
                    sources_of(broken.take(i as int))[places@[id] as int],
                ) == id,
            forall|j: int|
                0 <= j < jobs.len() ==> {
                    let id = normal_path(#[trigger] sources_of(broken.take(i as int))[j]);
                    places@.contains_key(id) && places@[id] == j
                },
        decreases broken_links.len() - i,
    {
        let source = &broken_links[i].0;
        let name = &broken_links[i].1;
        let ghost seen = broken.take(i as int);
        let ghost next = broken.take(i + 1);
        proof {
            assert(next.drop_last() =~= seen);
            assert(next.last() == (source@, name@));
        }
        let place: Option<&usize> = places.get(source.text());
        let ghost before = jobs@;
        match place {
            Some(place) => {
                let place: usize = *place;
                jobs[place].names.insert(name.clone());
                proof {
                    assert(is_among(sources_of(seen), source@)) by {
                        assert(normal_path(sources_of(seen)[place as int]) == normal_path(source@));
                    }
                    assert(sources_of(next) == sources_of(seen));
                    assert forall|j: int| 0 <= j < jobs.len() implies {
                        &&& (#[trigger] jobs[j]).note() == sources_of(next)[j]
                        &&& jobs[j].dead_names() == names_in(next, jobs[j].note())
                    } by {
                        assert(before[j].note() == sources_of(seen)[j]);
                        assert(places@[normal_path(sources_of(seen)[j])] == j);
                    }
                }
            },
            None => {
                let mut names = StringHashSet::new();
                names.insert(name.clone());
                places.insert(source.text().to_owned(), jobs.len());
                jobs.push(UnlinkJob { source: source.clone(), names });
                proof {
                    assert(!is_among(sources_of(seen), source@)) by {
                        if is_among(sources_of(seen), source@) {
                            let j = choose|j: int|
                                0 <= j < sources_of(seen).len() && normal_path(
                                    #[trigger] sources_of(seen)[j],
                                ) == normal_path(source@);
                            assert(normal_path(sources_of(seen)[j]) == normal_path(source@));
                        }
                    }
                    lemma_no_names(seen, source@);
                    assert(sources_of(next) == sources_of(seen).push(source@));
                    assert forall|j: int| 0 <= j < jobs.len() implies {
                        &&& (#[trigger] jobs[j]).note() == sources_of(next)[j]
                        &&& jobs[j].dead_names() == names_in(next, jobs[j].note())
                    } by {
                        if j < before.len() {
                            assert(jobs[j] == before[j]);
                            assert(before[j].note() == sources_of(seen)[j]);
                            assert(is_among(sources_of(seen), sources_of(seen)[j]));
                        } else {
                            assert(names_in(next, source@) =~= Set::<Seq<char>>::empty().insert(
                                name@,
                            ));
                        }
                    }
                    assert forall|j: int| 0 <= j < jobs.len() implies {
                        let id = normal_path(#[trigger] sources_of(next)[j]);
                        places@.contains_key(id) && places@[id] == j
                    } by {
                        if j < before.len() {
                            assert(sources_of(next)[j] == sources_of(seen)[j]);
                            assert(is_among(sources_of(seen), sources_of(seen)[j]));
                            if normal_path(sources_of(seen)[j]) == normal_path(source@) {
                                assert(is_among(sources_of(seen), source@));
                            }
                        }
                    }
                }
            },
        }
        i += 1;
    }
    proof {
        assert(broken.take(i as int) =~= broken);
    }
    jobs
}

/// What has been done so far.
#[derive(Debug, Clone, Copy, PartialEq, Eq, Structural)]
pub struct UnlinkTotals {
    /// Links turned into plain text.
    pub links: usize,
    /// Notes that had such links.
    pub files: usize,
}

impl UnlinkTotals {
    /// Nothing yet.
    pub fn new() -> (out: UnlinkTotals)
        ensures
            out.links == 0,
            out.files == 0,
    {
        UnlinkTotals { links: 0, files: 0 }
    }

    /// Whether a note with so many links turned into plain text can be counted in.
    pub open spec fn has_room_for(&self, links: nat) -> bool {
        self.links + links <= usize::MAX && self.files < usize::MAX
    }

    /// Whether a note can be counted in.
    pub fn has_room(&self, note: &Unlinked) -> (out: bool)
        ensures
            out == self.has_room_for(note.count as nat),
    {
        self.files < usize::MAX && note.count <= usize::MAX - self.links
    }

    /// Counts a note in: on a dry run in any case, else if its new text was written. A note that
    /// could not be written still has its links.
    pub fn count_in(&mut self, note: &Unlinked, dry_run: bool, written: bool)
        requires
            dry_run || written ==> old(self).has_room_for(note.count as nat),
        ensures
            if dry_run || written {
                &&& final(self).links == old(self).links + note.count
                &&& final(self).files == old(self).files + 1
            } else {
                *final(self) == *old(self)
            },
    {
        if dry_run || written {
            self.links = self.links + note.count;
            self.files = self.files + 1;
        }
    }
}

impl Unlinked {
    /// What is to be written in place of the note: nothing on a dry run.
    pub fn to_write(&self, dry_run: bool) -> (out: Option<&str>)
        ensures
            match out {
                Some(text) => !dry_run && text@ == self.text@,
                None => dry_run,
            },
    {
        if dry_run {
            None
        } else {
            Some(self.text.as_str())
        }
    }
}

/// What is to become of a note, given its content, or nothing if it could not be read. A note
/// without dead links is left alone.
pub fn planned(job: &UnlinkJob, content: Option<&str>) -> (out: Option<Unlinked>)
    ensures
        ({
            let spans = note_spans(content->0@);
            let count = dead_count(spans, job.dead_names());
            match out {
                Some(note) => {
                    &&& content is Some
                    &&& count > 0
                    &&& note.count == count
                    &&& encode_utf8(note.text@) == unlinked(
                        encode_utf8(content->0@),
                        spans,
                        job.dead_names(),
                    )
                },
                None => content is None || count == 0,
            }
        }),
{
    match content {
        None => None,
        Some(content) => {
            let note = job.rewrite(content);
            if note.count == 0 {
                None
            } else {
                Some(note)
            }
        },
    }
}

/// What is said at the end.
pub open spec fn summary_line(links: nat, files: nat, dry_run: bool) -> Seq<char> {
    (if dry_run {
        "Dry run: would unlink "@
    } else {
        "Unlinked "@
    }) + decimal(links) + " broken links across "@ + decimal(files) + " files"@
}

/// Says how many links were, or on a dry run would have been, turned into plain text.
pub fn unlink_summary(totals: &UnlinkTotals, dry_run: bool) -> (out: String)
    ensures
        out@ == summary_line(totals.links as nat, totals.files as nat, dry_run),
{
    let mut out = if dry_run {
        "Dry run: would unlink ".to_owned()
    } else {
        "Unlinked ".to_owned()
    };
    out.append(decimal_text(totals.links as u64).as_str());
    out.append(" broken links across ");
    out.append(decimal_text(totals.files as u64).as_str());
    out.append(" files");
    out
}

/// A note without dead links stays as it is.
pub proof fn law_without_dead_links_nothing_changes(
    text: Seq<u8>,
    spans: Seq<LinkSpan>,
    names: Set<Seq<char>>,
)
    requires
        forall|i: int| 0 <= i < spans.len() ==> !is_dead(#[trigger] spans[i], names),
    ensures
        dead_count(spans, names) == 0,
        unlinked(text, spans, names) == text,
{
    lemma_nothing_dead(text, spans, names);
    assert(unlinked(text, spans, names) =~= text);
}

proof fn lemma_nothing_dead(text: Seq<u8>, spans: Seq<LinkSpan>, names: Set<Seq<char>>)
    requires
        forall|i: int| 0 <= i < spans.len() ==> !is_dead(#[trigger] spans[i], names),
    ensures
        dead_count(spans, names) == 0,
        dealt_with(spans, names) == 0,
        rewritten(text, spans, names) == Seq::<u8>::empty(),
    decreases spans.len(),
{
    if spans.len() > 0 {
        assert forall|i: int| 0 <= i < spans.drop_last().len() implies !is_dead(
            #[trigger] spans.drop_last()[i],
            names,
        ) by {
            assert(!is_dead(spans[i], names));
        }
        lemma_nothing_dead(text, spans.drop_last(), names);
        assert(!is_dead(spans[spans.len() - 1], names));
    }
}

/// Links lie in a text, one after the other.
pub open spec fn in_order(text: Seq<u8>, spans: Seq<LinkSpan>) -> bool {
    &&& forall|i: int|
        0 <= i < spans.len() ==> 0 <= (#[trigger] spans[i]).start < spans[i].end <= text.len()
    &&& forall|i: int, j: int|
        0 <= i < j < spans.len() ==> (#[trigger] spans[i]).end <= (#[trigger] spans[j]).start
}

/// Where the byte at `place` ends up, unless it lies inside a dead link: for the first byte of a
/// dead link, where its plain text begins.
pub open spec fn moved_to(
    text: Seq<u8>,
    spans: Seq<LinkSpan>,
    names: Set<Seq<char>>,
    place: int,
) -> int
    decreases spans.len(),
{
    if spans.len() == 0 {
        place
    } else if is_dead(spans.last(), names) && spans.last().end <= place {
        rewritten(text, spans, names).len() + place - spans.last().end
    } else {
        moved_to(text, spans.drop_last(), names, place)
    }
}

/// No part of the text from `from` to `to` belongs to a dead link.
pub open spec fn free_of_dead_links(
    spans: Seq<LinkSpan>,
    names: Set<Seq<char>>,
    from: int,
    to: int,
) -> bool {
    forall|i: int|
        0 <= i < spans.len() && is_dead(#[trigger] spans[i], names) ==> spans[i].end <= from || to
            <= spans[i].start
}

/// The first of the links lie in the text, one after the other.
pub proof fn lemma_in_order_take(text: Seq<u8>, spans: Seq<LinkSpan>, i: int)
    requires
        in_order(text, spans),
        0 <= i <= spans.len(),
    ensures
        in_order(text, spans.take(i)),
{
    let some = spans.take(i);
    assert forall|j: int| 0 <= j < some.len() implies 0 <= (#[trigger] some[j]).start < some[j].end
        <= text.len() by {
        assert(some[j] == spans[j]);
    }
    assert forall|j: int, k: int| 0 <= j < k < some.len() implies (#[trigger] some[j]).end <= (
    #[trigger] some[k]).start by {
        assert(some[j] == spans[j] && some[k] == spans[k]);
    }
}

proof fn lemma_kept(
    text: Seq<u8>,
    spans: Seq<LinkSpan>,
    names: Set<Seq<char>>,
    from: int,
    to: int,
)
    requires
        in_order(text, spans),
        free_of_dead_links(spans, names, from, to),
        0 <= from < to <= text.len(),
    ensures
        0 <= dealt_with(spans, names) <= text.len(),
        spans.len() > 0 ==> dealt_with(spans, names) <= spans.last().end,
        dealt_with(spans, names) <= from || to <= dealt_with(spans, names),
        ({
            let at = moved_to(text, spans, names, from);
            let out = rewritten(text, spans, names);
            if dealt_with(spans, names) <= from {
                at == out.len() + from - dealt_with(spans, names)
            } else {
                &&& 0 <= at
                &&& at + (to - from) <= out.len()
                &&& out.subrange(at, at + (to - from)) == text.subrange(from, to)
            }
        }),
    decreases spans.len(),
{
    if spans.len() > 0 {
        let shorter = spans.drop_last();
        let last = spans.last();
        assert(shorter =~= spans.take(spans.len() - 1));
        lemma_in_order_take(text, spans, spans.len() - 1);
        assert(free_of_dead_links(shorter, names, from, to)) by {
            assert forall|i: int| 0 <= i < shorter.len() && is_dead(#[trigger] shorter[i], names) implies shorter[i].end
                <= from || to <= shorter[i].start by {
                assert(shorter[i] == spans[i]);
            }
        }
        lemma_kept(text, shorter, names, from, to);
        assert(spans[spans.len() - 1] == last);
        if shorter.len() > 0 {
            assert(spans[shorter.len() - 1] == shorter.last());
            assert(shorter.last().end <= last.start);
        }
        if is_dead(last, names) && to <= last.start {
            let before = rewritten(text, shorter, names);
            let d = dealt_with(shorter, names);
            let copied = text.subrange(d, last.start);
            let plain = encode_utf8(plain_text(last));
            let out = rewritten(text, spans, names);
            let at = moved_to(text, spans, names, from);
            assert(out == before + copied + plain);
            assert(at == moved_to(text, shorter, names, from));
            let got = out.subrange(at, at + (to - from));
            let want = text.subrange(from, to);
            assert forall|k: int| 0 <= k < to - from implies #[trigger] got[k] == want[k] by {
                if d <= from {
                    assert(out[at + k] == copied[at + k - before.len()]);
                } else {
                    assert(out[at + k] == before[at + k]);
                    assert(before.subrange(at, at + (to - from))[k] == want[k]);
                }
            }
            assert(got =~= want);
        }
    }
}

/// Text that is not part of a dead link is kept as it was, only moved.
pub proof fn law_other_text_is_kept(
    text: Seq<u8>,
    spans: Seq<LinkSpan>,
    names: Set<Seq<char>>,
    from: int,
    to: int,
)
    requires
        in_order(text, spans),
        free_of_dead_links(spans, names, from, to),
        0 <= from < to <= text.len(),
    ensures
        ({
            let at = moved_to(text, spans, names, from);
            let out = unlinked(text, spans, names);
            &&& 0 <= at
            &&& at + (to - from) <= out.len()
            &&& out.subrange(at, at + (to - from)) == text.subrange(from, to)
        }),
{
    lemma_kept(text, spans, names, from, to);
    let at = moved_to(text, spans, names, from);
    let head = rewritten(text, spans, names);
    let d = dealt_with(spans, names);
    let tail = text.subrange(d, text.len() as int);
    let out = unlinked(text, spans, names);
    assert(out == head + tail);
    let got = out.subrange(at, at + (to - from));
    let want = text.subrange(from, to);
    assert forall|k: int| 0 <= k < to - from implies #[trigger] got[k] == want[k] by {
        if d <= from {
            assert(out[at + k] == tail[at + k - head.len()]);
        } else {
            assert(out[at + k] == head[at + k]);
            assert(head.subrange(at, at + (to - from))[k] == want[k]);
        }
    }
    assert(got =~= want);
}

proof fn lemma_replaced(text: Seq<u8>, spans: Seq<LinkSpan>, names: Set<Seq<char>>, i: int)
    requires
        in_order(text, spans),
        0 <= i < spans.len(),
        is_dead(spans[i], names),
    ensures
        ({
            let plain = encode_utf8(plain_text(spans[i]));
            let at = moved_to(text, spans, names, spans[i].start);
            let out = rewritten(text, spans, names);
            &&& 0 <= at
            &&& at + plain.len() <= out.len()
            &&& out.subrange(at, at + plain.len()) == plain
        }),
    decreases spans.len(),
{
    let shorter = spans.drop_last();
    let last = spans.last();
    let plain = encode_utf8(plain_text(spans[i]));
    let before = rewritten(text, shorter, names);
    let out = rewritten(text, spans, names);
    let at = moved_to(text, spans, names, spans[i].start);
    assert(shorter =~= spans.take(spans.len() - 1));
    lemma_in_order_take(text, spans, spans.len() - 1);
    if i < shorter.len() {
        assert(shorter[i] == spans[i]);
        lemma_replaced(text, shorter, names, i);
        assert(spans[i].end <= spans[spans.len() - 1].start);
        assert(at == moved_to(text, shorter, names, spans[i].start));
        assert(before.subrange(at, at + plain.len()) == plain);
        assert forall|k: int| 0 <= k < before.len() implies #[trigger] out[k] == before[k] by {}
        assert(out.len() >= before.len());
        assert(out.subrange(at, at + plain.len()) =~= before.subrange(at, at + plain.len()));
    } else {
        assert(last == spans[i]);
        assert(free_of_dead_links(shorter, names, last.start, last.end)) by {
            assert forall|j: int| 0 <= j < shorter.len() && is_dead(#[trigger] shorter[j], names)
                implies shorter[j].end <= last.start || last.end <= shorter[j].start by {
                assert(spans[j].end <= spans[i].start);
                assert(shorter[j] == spans[j]);
            }
        }
        lemma_kept(text, shorter, names, last.start, last.end);
        if shorter.len() > 0 {
            assert(shorter.last() == spans[shorter.len() - 1]);
            assert(shorter.last().end <= last.start);
        }
        let copied = text.subrange(dealt_with(shorter, names), last.start);
        assert(out == before + copied + plain);
        assert(at == before.len() + copied.len());
        assert(out.subrange(at, at + plain.len()) =~= plain);
    }
}

/// Where a dead link was, there is now its plain text.
pub proof fn law_dead_links_become_plain_text(
    text: Seq<u8>,
    spans: Seq<LinkSpan>,
    names: Set<Seq<char>>,
    i: int,
)
    requires
        in_order(text, spans),
        0 <= i < spans.len(),
        is_dead(spans[i], names),
    ensures
        ({
            let plain = encode_utf8(plain_text(spans[i]));
            let at = moved_to(text, spans, names, spans[i].start);
            let out = unlinked(text, spans, names);
            &&& 0 <= at
            &&& at + plain.len() <= out.len()
            &&& out.subrange(at, at + plain.len()) == plain
        }),
{
    lemma_replaced(text, spans, names, i);
    let plain = encode_utf8(plain_text(spans[i]));
    let at = moved_to(text, spans, names, spans[i].start);
    let head = rewritten(text, spans, names);
    let out = unlinked(text, spans, names);
    assert(out.subrange(at, at + plain.len()) =~= head.subrange(at, at + plain.len()));
}

/// The links that count in a note lie in it, one after the other.
pub proof fn law_note_links_are_in_order(content: Seq<char>)
    ensures
        in_order(encode_utf8(content), note_spans(content)),
{
    let text = encode_utf8(content);
    let spans = note_spans(content);
    law_links_follow_each_other(prose(text), 0);
    law_blanking_keeps_places(text);
    assert forall|j: int| 0 <= j < spans.len() implies 0 <= (#[trigger] spans[j]).start < spans[j].end
        <= text.len() by {
        assert(lies_in(prose(text), spans[j]));
    }
}

/// Embeds, and links that lead to other names, are kept as they were, only moved.
pub proof fn law_other_links_are_kept(content: Seq<char>, names: Set<Seq<char>>, i: int)
    requires
        0 <= i < note_spans(content).len(),
        !is_dead(note_spans(content)[i], names),
    ensures
        ({
            let text = encode_utf8(content);
            let span = note_spans(content)[i];
            let at = moved_to(text, note_spans(content), names, span.start);
            let out = unlinked(text, note_spans(content), names);
            &&& 0 <= at
            &&& at + (span.end - span.start) <= out.len()
            &&& out.subrange(at, at + (span.end - span.start)) == text.subrange(
                span.start,
                span.end,
            )
        }),
{
    let text = encode_utf8(content);
    let spans = note_spans(content);
    let span = spans[i];
    law_note_links_are_in_order(content);
    assert(free_of_dead_links(spans, names, span.start, span.end)) by {
        assert forall|j: int| 0 <= j < spans.len() && is_dead(#[trigger] spans[j], names) implies spans[j].end
            <= span.start || span.end <= spans[j].start by {
            if j < i {
                assert(spans[j].end <= spans[i].start);
            } else {
                assert(spans[i].end <= spans[j].start);
            }
        }
    }
    law_other_text_is_kept(text, spans, names, span.start, span.end);
}

proof fn lemma_names_in(
    broken: Seq<(Seq<char>, Seq<char>)>,
    source: Seq<char>,
    name: Seq<char>,
)
    ensures
        names_in(broken, source).contains(name) <==> keys::<(NotePath, String)>(broken).contains(
            (normal_path(source), name),
        ),
    decreases broken.len(),
{
    if broken.len() > 0 {
        let shorter = broken.drop_last();
        lemma_names_in(shorter, source, name);
        lemma_key_added::<(NotePath, String)>(shorter, broken.last());
        assert(shorter.push(broken.last()) =~= broken);
    }
}

proof fn lemma_name_is_listed(spans: Seq<LinkSpan>, embeds: bool, i: int)
    requires
        0 <= i < spans.len(),
        spans[i].embed == embeds,
        target_name(spans[i].target) is Some,
    ensures
        names_of(spans, embeds).contains(target_name(spans[i].target)->0),
    decreases spans.len(),
{
    let name = target_name(spans[i].target)->0;
    let all = names_of(spans, embeds);
    let before = names_of(spans.drop_last(), embeds);
    if i < spans.len() - 1 {
        assert(spans.drop_last()[i] == spans[i]);
        lemma_name_is_listed(spans.drop_last(), embeds, i);
        let k = choose|k: int| 0 <= k < before.len() && before[k] == name;
        assert(all[k] == name);
    } else {
        assert(all[before.len() as int] == name);
    }
}

/// In a note that has not changed since it was analysed, the links that are turned into plain text
/// are just those that lead nowhere.
pub proof fn law_dead_links_are_those_that_lead_nowhere(
    analysis: Analysis,
    files: Seq<Seq<char>>,
    parsed: Seq<NoteView>,
    index: Map<Seq<char>, Seq<char>>,
    assets: Set<Seq<char>>,
    note: int,
    content: Seq<char>,
    i: int,
)
    requires
        is_analysis(analysis, files, parsed, index, assets),
        0 <= note < parsed.len(),
        parsed[note].1 == names_of(note_spans(content), false),
        0 <= i < note_spans(content).len(),
    ensures
        ({
            let names = names_in(analysis.broken_links.deep_view(), parsed[note].0);
            let span = note_spans(content)[i];
            is_dead(span, names) <==> !span.embed && match target_name(span.target) {
                Some(name) => leads_nowhere(index, assets, name),
                None => false,
            }
        }),
{
    let broken = analysis.broken_links.deep_view();
    let source = parsed[note].0;
    let span = note_spans(content)[i];
    if !span.embed && target_name(span.target) is Some {
        let name = target_name(span.target)->0;
        lemma_names_in(broken, source, name);
        lemma_name_is_listed(note_spans(content), false, i);
        assert(parsed[note].1.contains(name));
        let id = normal_path(source);
        assert(keys::<(NotePath, String)>(broken).contains((id, name)) <==> is_broken(
            parsed,
            index,
            assets,
            id,
            name,
        ));
    }
}

/// Every broken link is dealt with in the job for its note, and in no other: there is one job whose
/// path is the same, and the name is one of its names.
pub proof fn law_each_broken_link_has_its_job(broken: Seq<(Seq<char>, Seq<char>)>, k: int) -> (j:
    int)
    requires
        0 <= k < broken.len(),
    ensures
        0 <= j < sources_of(broken).len(),
        normal_path(sources_of(broken)[j]) == normal_path(broken[k].0),
        names_in(broken, sources_of(broken)[j]).contains(broken[k].1),
        forall|l: int|
            0 <= l < sources_of(broken).len() && normal_path(#[trigger] sources_of(broken)[l])
                == normal_path(broken[k].0) ==> l == j,
{
    let all = sources_of(broken);
    let j = lemma_source_listed(broken, k);
    lemma_sources_differ(broken);
    let (source, name) = broken[k];
    lemma_names_in(broken, all[j], name);
    assert(keys::<(NotePath, String)>(broken)[k] == (normal_path(source), name));
    j
}

proof fn lemma_source_listed(broken: Seq<(Seq<char>, Seq<char>)>, k: int) -> (j: int)
    requires
        0 <= k < broken.len(),
    ensures
        0 <= j < sources_of(broken).len(),
        normal_path(sources_of(broken)[j]) == normal_path(broken[k].0),
    decreases broken.len(),
{
    let shorter = broken.drop_last();
    let before = sources_of(shorter);
    if k < shorter.len() {
        let j = lemma_source_listed(shorter, k);
        assert(sources_of(broken)[j] == before[j]);
        j
    } else if is_among(before, broken.last().0) {
        choose|j: int|
            0 <= j < before.len() && normal_path(#[trigger] before[j]) == normal_path(
                broken.last().0,
            )
    } else {
        before.len() as int
    }
}

proof fn lemma_sources_differ(broken: Seq<(Seq<char>, Seq<char>)>)
    ensures
        forall|j: int, l: int|
            0 <= j < l < sources_of(broken).len() ==> normal_path(#[trigger] sources_of(broken)[j])
                != normal_path(#[trigger] sources_of(broken)[l]),
    decreases broken.len(),
{
    if broken.len() > 0 {
        let before = sources_of(broken.drop_last());
        let all = sources_of(broken);
        lemma_sources_differ(broken.drop_last());
        assert forall|j: int, l: int| 0 <= j < l < all.len() implies normal_path(
            #[trigger] all[j],
        ) != normal_path(#[trigger] all[l]) by {
            assert(all[j] == before[j]);
            if l < before.len() {
                assert(all[l] == before[l]);
            }
        }
    }
}

/// A job is for a note with a broken link, spelled as it first is there, and each of its names is
/// that of a broken link of that note.
pub proof fn law_jobs_are_for_broken_links(
    broken: Seq<(Seq<char>, Seq<char>)>,
    j: int,
    name: Seq<char>,
)
    requires
        0 <= j < sources_of(broken).len(),
    ensures
        exists|k: int|
            0 <= k < broken.len() && (#[trigger] broken[k]).0 == sources_of(broken)[j] && (forall|
                m: int,
            |
                0 <= m < k ==> normal_path((#[trigger] broken[m]).0) != normal_path(
                    sources_of(broken)[j],
                )),
        names_in(broken, sources_of(broken)[j]).contains(name) <==> exists|k: int|
            0 <= k < broken.len() && normal_path((#[trigger] broken[k]).0) == normal_path(
                sources_of(broken)[j],
            ) && broken[k].1 == name,
{
    let source = sources_of(broken)[j];
    lemma_source_is_first(broken, j);
    lemma_names_in(broken, source, name);
    let all = keys::<(NotePath, String)>(broken);
    if all.contains((normal_path(source), name)) {
        let k = choose|k: int| 0 <= k < all.len() && all[k] == (normal_path(source), name);
        assert(normal_path(broken[k].0) == normal_path(source) && broken[k].1 == name);
    }
    if exists|k: int|
        0 <= k < broken.len() && normal_path((#[trigger] broken[k]).0) == normal_path(source)
            && broken[k].1 == name {
        let k = choose|k: int|
            0 <= k < broken.len() && normal_path((#[trigger] broken[k]).0) == normal_path(source)
                && broken[k].1 == name;
        assert(all[k] == (normal_path(source), name));
    }
}

proof fn lemma_source_is_first(broken: Seq<(Seq<char>, Seq<char>)>, j: int)
    requires
        0 <= j < sources_of(broken).len(),
    ensures
        exists|k: int|
            0 <= k < broken.len() && (#[trigger] broken[k]).0 == sources_of(broken)[j] && (forall|
                m: int,
            |
                0 <= m < k ==> normal_path((#[trigger] broken[m]).0) != normal_path(
                    sources_of(broken)[j],
                )),
    decreases broken.len(),
{
    let shorter = broken.drop_last();
    let before = sources_of(shorter);
    let source = sources_of(broken)[j];
    if j < before.len() {
        lemma_source_is_first(shorter, j);
        let k = choose|k: int|
            0 <= k < shorter.len() && (#[trigger] shorter[k]).0 == before[j] && (forall|m: int|
                0 <= m < k ==> normal_path((#[trigger] shorter[m]).0) != normal_path(before[j]));
        assert(broken[k].0 == source);
        assert forall|m: int| 0 <= m < k implies normal_path((#[trigger] broken[m]).0)
            != normal_path(source) by {
            assert(shorter[m] == broken[m]);
        }
    } else {
        let k = broken.len() - 1;
        assert(broken[k].0 == source);
        assert forall|m: int| 0 <= m < k implies normal_path((#[trigger] broken[m]).0)
            != normal_path(source) by {
            assert(shorter[m] == broken[m]);
            let l = lemma_source_listed(shorter, m);
            assert(normal_path(before[l]) == normal_path(broken[m].0));
            assert(!is_among(before, source));
        }
    }
}

/// What is said at the end names both totals, as they are read.
pub proof fn law_the_summary_names_both_totals(links: nat, files: nat)
    ensures
        summary_line(links, files, false) == "Unlinked "@ + decimal(links)
            + " broken links across "@ + decimal(files) + " files"@,
        summary_line(links, files, true) == "Dry run: would unlink "@ + decimal(links)
            + " broken links across "@ + decimal(files) + " files"@,
{
}

} // verus!
