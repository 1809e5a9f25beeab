//! What links to what in a vault: missing backlinks, orphans and broken links.
use crate::markup::{extract_wikilinks, names_of, note_spans};
use crate::names::{
    ascii_lower, law_ascii_case_is_ignored, name_key, FileIndex, KnownAssets,
};
use crate::order::{
    ascending, holds, keys, law_sorting_keeps_all_values, lemma_ascending_unique,
    lemma_first_with_key, lemma_key_added, lemma_strictly_ascending_unique, lemma_with_key,
    lemma_with_key_concat, sorted, sorted_distinct, strictly_ascending, with_key, Ranked,
};
use crate::path::{normal_path, path_before, NotePath};
use crate::text::text_before;
use vstd::hash_map::StringHashMap;
use vstd::hash_set::StringHashSet;
use vstd::prelude::*;
use vstd::utf8::is_ascii_chars;

verus! {

/// A note with the names that its links and its embeds lead to.
pub type ParsedNote = (NotePath, Vec<String>, Vec<String>);

/// What a `ParsedNote` stands for: the spelling of its path, and the names.
pub type NoteView = (Seq<char>, Seq<Seq<char>>, Seq<Seq<char>>);

/// The spelling of what a link to `name` leads to, if there is such a note.
pub open spec fn resolved(index: Map<Seq<char>, Seq<char>>, name: Seq<char>) -> Option<Seq<char>> {
    if index.contains_key(name_key(name)) {
        Some(index[name_key(name)])
    } else {
        None
    }
}

/// A link to `name` leads to the note with this path, which is in normal form.
pub open spec fn leads_to(
    index: Map<Seq<char>, Seq<char>>,
    name: Seq<char>,
    target: Seq<char>,
) -> bool {
    match resolved(index, name) {
        Some(path) => normal_path(path) == target,
        None => false,
    }
}

/// There is neither a note nor any other file of that name.
pub open spec fn leads_nowhere(
    index: Map<Seq<char>, Seq<char>>,
    assets: Set<Seq<char>>,
    name: Seq<char>,
) -> bool {
    !index.contains_key(name_key(name)) && !assets.contains(name_key(name))
}

/// The `j`th link of the `i`th parsed note is one from `source` to `target`. Here and in what
/// follows notes are known by the normal forms of their paths.
pub open spec fn is_link(
    parsed: Seq<NoteView>,
    index: Map<Seq<char>, Seq<char>>,
    source: Seq<char>,
    target: Seq<char>,
    i: int,
    j: int,
) -> bool {
    &&& 0 <= i < parsed.len()
    &&& 0 <= j < parsed[i].1.len()
    &&& normal_path(parsed[i].0) == source
    &&& leads_to(index, parsed[i].1[j], target)
}

/// The `j`th embed of the `i`th parsed note is one of `target` in `source`.
pub open spec fn is_embed(
    parsed: Seq<NoteView>,
    index: Map<Seq<char>, Seq<char>>,
    source: Seq<char>,
    target: Seq<char>,
    i: int,
    j: int,
) -> bool {
    &&& 0 <= i < parsed.len()
    &&& 0 <= j < parsed[i].2.len()
    &&& normal_path(parsed[i].0) == source
    &&& leads_to(index, parsed[i].2[j], target)
}

/// `source` links to `target`.
pub open spec fn links_to(
    parsed: Seq<NoteView>,
    index: Map<Seq<char>, Seq<char>>,
    source: Seq<char>,
    target: Seq<char>,
) -> bool {
    exists|i: int, j: int| #[trigger] is_link(parsed, index, source, target, i, j)
}

/// `source` embeds `target`.
pub open spec fn embeds(
    parsed: Seq<NoteView>,
    index: Map<Seq<char>, Seq<char>>,
    source: Seq<char>,
    target: Seq<char>,
) -> bool {
    exists|i: int, j: int| #[trigger] is_embed(parsed, index, source, target, i, j)
}

/// `source` links to or embeds `target`.
pub open spec fn points_to(
    parsed: Seq<NoteView>,
    index: Map<Seq<char>, Seq<char>>,
    source: Seq<char>,
    target: Seq<char>,
) -> bool {
    links_to(parsed, index, source, target) || embeds(parsed, index, source, target)
}

/// `source` links to `target`, which does not link back.
pub open spec fn misses_backlink(
    parsed: Seq<NoteView>,
    index: Map<Seq<char>, Seq<char>>,
    source: Seq<char>,
    target: Seq<char>,
) -> bool {
    links_to(parsed, index, source, target) && !links_to(parsed, index, target, source)
}

/// One of the two notes points to the other.
pub open spec fn touch(
    parsed: Seq<NoteView>,
    index: Map<Seq<char>, Seq<char>>,
    note: Seq<char>,
    other: Seq<char>,
) -> bool {
    points_to(parsed, index, note, other) || points_to(parsed, index, other, note)
}

/// Nothing points to `note`, and `note` points to nothing.
pub open spec fn is_isolated(
    parsed: Seq<NoteView>,
    index: Map<Seq<char>, Seq<char>>,
    note: Seq<char>,
) -> bool {
    forall|other: Seq<char>| !#[trigger] touch(parsed, index, note, other)
}

/// `name` is among the links or embeds of `source`, and leads nowhere.
pub open spec fn is_broken(
    parsed: Seq<NoteView>,
    index: Map<Seq<char>, Seq<char>>,
    assets: Set<Seq<char>>,
    source: Seq<char>,
    name: Seq<char>,
) -> bool {
    leads_nowhere(index, assets, name) && exists|i: int|
        0 <= i < parsed.len() && normal_path((#[trigger] parsed[i]).0) == source && (
        parsed[i].1.contains(name) || parsed[i].2.contains(name))
}

/// The number of embeds of all notes together.
pub open spec fn embed_total(parsed: Seq<NoteView>) -> nat
    decreases parsed.len(),
{
    if parsed.len() == 0 {
        0
    } else {
        embed_total(parsed.drop_last()) + parsed.last().2.len()
    }
}

/// What there is to say about the links of a vault.
#[derive(Debug, PartialEq, Eq)]
pub struct Analysis {
    /// Pairs of notes of which the first links to the second, but not the other way round.
    pub missing_backlinks: Vec<(NotePath, NotePath)>,
    /// Notes that nothing points to and that point to nothing.
    pub orphans: Vec<NotePath>,
    /// Notes with the names in them that lead nowhere.
    pub broken_links: Vec<(NotePath, String)>,
    /// The number of embeds.
    pub embed_count: usize,
}

/// The notes that links stand in, as they are spelled there.
pub open spec fn link_sources(links: Seq<(Seq<char>, Seq<char>)>) -> Seq<Seq<char>> {
    Seq::new(links.len(), |i: int| links[i].0)
}

/// How a missing backlink is spelled: the note that links as it is first spelled among the files,
/// or else among the notes with links, and the other as it is spelled where the first link leads.
pub open spec fn spelled_link(
    files: Seq<Seq<char>>,
    links: Seq<(Seq<char>, Seq<char>)>,
    source: Seq<char>,
    target: Seq<char>,
) -> (Seq<char>, Seq<char>) {
    (
        with_key::<NotePath>(files + link_sources(links), source)[0],
        with_key::<(NotePath, NotePath)>(links, (source, target))[0].1,
    )
}

/// `analysis` is what there is to say about a vault: the missing backlinks and the broken links,
/// each once and in order, the orphans among its notes in order, and the number of its embeds.
///
/// Orphans with the same path stay in their order, and a broken link is spelled as where it stands
/// first.
pub open spec fn is_analysis(
    analysis: Analysis,
    files: Seq<Seq<char>>,
    parsed: Seq<NoteView>,
    index: Map<Seq<char>, Seq<char>>,
    assets: Set<Seq<char>>,
) -> bool {
    let missing = analysis.missing_backlinks.deep_view();
    let missing_keys = keys::<(NotePath, NotePath)>(missing);
    let orphans = analysis.orphans.deep_view();
    let isolated = files.filter(|f: Seq<char>| is_isolated(parsed, index, normal_path(f)));
    let broken = analysis.broken_links.deep_view();
    let broken_keys = keys::<(NotePath, String)>(broken);
    &&& strictly_ascending::<(NotePath, NotePath)>(missing_keys)
    &&& forall|p: (Seq<char>, Seq<char>)| #[trigger]
        missing_keys.contains(p) <==> misses_backlink(parsed, index, p.0, p.1)
    &&& forall|i: int|
        0 <= i < missing.len() ==> #[trigger] missing[i] == spelled_link(
            files,
            all_links(parsed, index),
            missing_keys[i].0,
            missing_keys[i].1,
        )
    &&& ascending::<NotePath>(keys::<NotePath>(orphans))
    &&& forall|path: Seq<char>| #[trigger]
        with_key::<NotePath>(orphans, path) == with_key::<NotePath>(isolated, path)
    &&& strictly_ascending::<(NotePath, String)>(broken_keys)
    &&& forall|p: (Seq<char>, Seq<char>)| #[trigger]
        broken_keys.contains(p) <==> is_broken(parsed, index, assets, p.0, p.1)
    &&& forall|i: int|
        0 <= i < broken.len() ==> #[trigger] broken[i] == with_key::<(NotePath, String)>(
            all_broken(parsed, index, assets),
            broken_keys[i],
        )[0]
    &&& analysis.embed_count == embed_total(parsed)
}

/// The links and embeds of a note with the given content.
pub fn parse_note(path: &NotePath, content: &str) -> (out: ParsedNote)
    ensures
        out.deep_view() == (
            path@,
            names_of(note_spans(content@), false),
            names_of(note_spans(content@), true),
        ),
{
    let (links, embeds) = extract_wikilinks(content);
    (path.clone(), links, embeds)
}

/// The pairs of `source` and what the names in it lead to, in order.
pub open spec fn followed(
    source: Seq<char>,
    names: Seq<Seq<char>>,
    index: Map<Seq<char>, Seq<char>>,
) -> Seq<(Seq<char>, Seq<char>)>
    decreases names.len(),
{
    if names.len() == 0 {
        Seq::empty()
    } else {
        let before = followed(source, names.drop_last(), index);
        match resolved(index, names.last()) {
            Some(target) => before.push((source, target)),
            None => before,
        }
    }
}

/// The pairs of `source` and the names in it that lead nowhere, in order.
pub open spec fn left_over(
    source: Seq<char>,
    names: Seq<Seq<char>>,
    index: Map<Seq<char>, Seq<char>>,
    assets: Set<Seq<char>>,
) -> Seq<(Seq<char>, Seq<char>)>
    decreases names.len(),
{
    if names.len() == 0 {
        Seq::empty()
    } else {
        let before = left_over(source, names.drop_last(), index, assets);
        if leads_nowhere(index, assets, names.last()) {
            before.push((source, names.last()))
        } else {
            before
        }
    }
}

proof fn lemma_followed(
    source: Seq<char>,
    names: Seq<Seq<char>>,
    index: Map<Seq<char>, Seq<char>>,
    pair: (Seq<char>, Seq<char>),
)
    ensures
        keys::<(NotePath, NotePath)>(followed(source, names, index)).contains(pair) <==> pair.0
            == normal_path(source) && exists|j: int|
            0 <= j < names.len() && leads_to(index, #[trigger] names[j], pair.1),
    decreases names.len(),
{
    if names.len() > 0 {
        let shorter = names.drop_last();
        let before = followed(source, shorter, index);
        lemma_followed(source, shorter, index, pair);
        assert(names[names.len() - 1] == names.last());
        match resolved(index, names.last()) {
            Some(target) => {
                lemma_key_added::<(NotePath, NotePath)>(before, (source, target));
            },
            None => {},
        }
        if exists|j: int| 0 <= j < shorter.len() && leads_to(index, #[trigger] shorter[j], pair.1) {
            let j = choose|j: int|
                0 <= j < shorter.len() && leads_to(index, #[trigger] shorter[j], pair.1);
            assert(names[j] == shorter[j]);
        }
        if exists|j: int| 0 <= j < names.len() && leads_to(index, #[trigger] names[j], pair.1) {
            let j = choose|j: int|
                0 <= j < names.len() && leads_to(index, #[trigger] names[j], pair.1);
            if j < shorter.len() {
                assert(shorter[j] == names[j]);
            }
        }
    }
}

proof fn lemma_left_over(
    source: Seq<char>,
    names: Seq<Seq<char>>,
    index: Map<Seq<char>, Seq<char>>,
    assets: Set<Seq<char>>,
    pair: (Seq<char>, Seq<char>),
)
    ensures
        keys::<(NotePath, String)>(left_over(source, names, index, assets)).contains(pair)
            <==> pair.0 == normal_path(source) && names.contains(pair.1) && leads_nowhere(
            index,
            assets,
            pair.1,
        ),
    decreases names.len(),
{
    if names.len() > 0 {
        let shorter = names.drop_last();
        let before = left_over(source, shorter, index, assets);
        lemma_left_over(source, shorter, index, assets, pair);
        lemma_key_added::<(NotePath, String)>(before, (source, names.last()));
        assert(names[names.len() - 1] == names.last());
        if shorter.contains(pair.1) {
            let j = choose|j: int| 0 <= j < shorter.len() && shorter[j] == pair.1;
            assert(names[j] == pair.1);
        }
        if names.contains(pair.1) {
            let j = choose|j: int| 0 <= j < names.len() && names[j] == pair.1;
            if j < shorter.len() {
                assert(shorter[j] == pair.1);
            }
        }
    }
}

/// Follows the names in a note: adds what they lead to to `found`, and those that lead nowhere to
/// `broken`.
fn follow(
    source: &NotePath,
    names: &Vec<String>,
    index: &FileIndex,
    assets: &KnownAssets,
    found: &mut Vec<(NotePath, NotePath)>,
    broken: &mut Vec<(NotePath, String)>,
)
    ensures
        final(found).deep_view() == old(found).deep_view() + followed(
            source@,
            names.deep_view(),
            index@,
        ),
        final(broken).deep_view() == old(broken).deep_view() + left_over(
            source@,
            names.deep_view(),
            index@,
            assets@,
        ),
{
    let ghost texts = names.deep_view();
    let ghost found_before = found.deep_view();
    let ghost broken_before = broken.deep_view();
    let mut i: usize = 0;
    proof {
        assert(texts.take(0) =~= Seq::<Seq<char>>::empty());
        assert(found.deep_view() =~= found_before + followed(source@, texts.take(0), index@));
        assert(broken.deep_view() =~= broken_before + left_over(
            source@,
            texts.take(0),
            index@,
            assets@,
        ));
    }
    while i < names.len()
        invariant
            i <= names.len(),
            texts == names.deep_view(),
            found.deep_view() == found_before + followed(source@, texts.take(i as int), index@),
            broken.deep_view() == broken_before + left_over(
                source@,
                texts.take(i as int),
                index@,
                assets@,
            ),
        decreases names.len() - i,
    {
        let name = &names[i];
        let ghost found_now = found.deep_view();
        let ghost broken_now = broken.deep_view();
        proof {
            assert(texts.take(i + 1).drop_last() =~= texts.take(i as int));
            assert(texts.take(i + 1).last() == name@);
        }
        match index.get(name.as_str()) {
            Some(target) => {
                found.push((source.clone(), target.clone()));
                proof {
                    assert(found.deep_view() =~= found_now.push((source@, target@)));
                    assert(found.deep_view() =~= found_before + followed(
                        source@,
                        texts.take(i + 1),
                        index@,
                    ));
                }
            },
            None => {
                if !assets.contains(name.as_str()) {
                    broken.push((source.clone(), name.clone()));
                    proof {
                        assert(broken.deep_view() =~= broken_now.push((source@, name@)));
                        assert(broken.deep_view() =~= broken_before + left_over(
                            source@,
                            texts.take(i + 1),
                            index@,
                            assets@,
                        ));
                    }
                }
            },
        }
        i += 1;
    }
    proof {
        assert(texts.take(i as int) =~= texts);
    }
}

/// All links of all notes, in order.
pub open spec fn all_links(
    parsed: Seq<NoteView>,
    index: Map<Seq<char>, Seq<char>>,
) -> Seq<(Seq<char>, Seq<char>)>
    decreases parsed.len(),
{
    if parsed.len() == 0 {
        Seq::empty()
    } else {
        all_links(parsed.drop_last(), index) + followed(parsed.last().0, parsed.last().1, index)
    }
}

/// All embeds of all notes, in order.
spec fn all_embeds(
    parsed: Seq<NoteView>,
    index: Map<Seq<char>, Seq<char>>,
) -> Seq<(Seq<char>, Seq<char>)>
    decreases parsed.len(),
{
    if parsed.len() == 0 {
        Seq::empty()
    } else {
        all_embeds(parsed.drop_last(), index) + followed(parsed.last().0, parsed.last().2, index)
    }
}

/// All names that lead nowhere, with the notes that they stand in, in order.
pub open spec fn all_broken(
    parsed: Seq<NoteView>,
    index: Map<Seq<char>, Seq<char>>,
    assets: Set<Seq<char>>,
) -> Seq<(Seq<char>, Seq<char>)>
    decreases parsed.len(),
{
    if parsed.len() == 0 {
        Seq::empty()
    } else {
        let note = parsed.last();
        all_broken(parsed.drop_last(), index, assets) + left_over(note.0, note.1, index, assets)
            + left_over(note.0, note.2, index, assets)
    }
}

proof fn lemma_concat_contains<A>(a: Seq<A>, b: Seq<A>, x: A)
    ensures
        (a + b).contains(x) <==> a.contains(x) || b.contains(x),
{
    if (a + b).contains(x) {
        let k = choose|k: int| 0 <= k < (a + b).len() && (a + b)[k] == x;
        if k < a.len() {
            assert(a[k] == x);
        } else {
            assert(b[k - a.len()] == x);
        }
    }
    if a.contains(x) {
        let k = choose|k: int| 0 <= k < a.len() && a[k] == x;
        assert((a + b)[k] == x);
    }
    if b.contains(x) {
        let k = choose|k: int| 0 <= k < b.len() && b[k] == x;
        assert((a + b)[a.len() + k] == x);
    }
}

proof fn lemma_keys_concat<T: Ranked>(a: Seq<T::V>, b: Seq<T::V>, key: T::Key)
    ensures
        keys::<T>(a + b).contains(key) <==> keys::<T>(a).contains(key) || keys::<T>(b).contains(
            key,
        ),
{
    assert(keys::<T>(a + b) =~= keys::<T>(a) + keys::<T>(b));
    lemma_concat_contains(keys::<T>(a), keys::<T>(b), key);
}

proof fn lemma_all_links(
    parsed: Seq<NoteView>,
    index: Map<Seq<char>, Seq<char>>,
    pair: (Seq<char>, Seq<char>),
)
    ensures
        keys::<(NotePath, NotePath)>(all_links(parsed, index)).contains(pair) <==> links_to(
            parsed,
            index,
            pair.0,
            pair.1,
        ),
    decreases parsed.len(),
{
    if parsed.len() > 0 {
        let shorter = parsed.drop_last();
        let note = parsed.last();
        lemma_all_links(shorter, index, pair);
        lemma_followed(note.0, note.1, index, pair);
        lemma_keys_concat::<(NotePath, NotePath)>(
            all_links(shorter, index),
            followed(note.0, note.1, index),
            pair,
        );
        if links_to(shorter, index, pair.0, pair.1) {
            let (i, j) = choose|i: int, j: int| #[trigger]
                is_link(shorter, index, pair.0, pair.1, i, j);
            assert(is_link(parsed, index, pair.0, pair.1, i, j));
        }
        if keys::<(NotePath, NotePath)>(followed(note.0, note.1, index)).contains(pair) {
            let j = choose|j: int|
                0 <= j < note.1.len() && leads_to(index, #[trigger] note.1[j], pair.1);
            assert(is_link(parsed, index, pair.0, pair.1, parsed.len() - 1, j));
        }
        if links_to(parsed, index, pair.0, pair.1) {
            let (i, j) = choose|i: int, j: int| #[trigger]
                is_link(parsed, index, pair.0, pair.1, i, j);
            if i < shorter.len() {
                assert(is_link(shorter, index, pair.0, pair.1, i, j));
            } else {
                assert(leads_to(index, note.1[j], pair.1));
            }
        }
    }
}

proof fn lemma_all_embeds(
    parsed: Seq<NoteView>,
    index: Map<Seq<char>, Seq<char>>,
    pair: (Seq<char>, Seq<char>),
)
    ensures
        keys::<(NotePath, NotePath)>(all_embeds(parsed, index)).contains(pair) <==> embeds(
            parsed,
            index,
            pair.0,
            pair.1,
        ),
    decreases parsed.len(),
{
    if parsed.len() > 0 {
        let shorter = parsed.drop_last();
        let note = parsed.last();
        lemma_all_embeds(shorter, index, pair);
        lemma_followed(note.0, note.2, index, pair);
        lemma_keys_concat::<(NotePath, NotePath)>(
            all_embeds(shorter, index),
            followed(note.0, note.2, index),
            pair,
        );
        if embeds(shorter, index, pair.0, pair.1) {
            let (i, j) = choose|i: int, j: int| #[trigger]
                is_embed(shorter, index, pair.0, pair.1, i, j);
            assert(is_embed(parsed, index, pair.0, pair.1, i, j));
        }
        if keys::<(NotePath, NotePath)>(followed(note.0, note.2, index)).contains(pair) {
            let j = choose|j: int|
                0 <= j < note.2.len() && leads_to(index, #[trigger] note.2[j], pair.1);
            assert(is_embed(parsed, index, pair.0, pair.1, parsed.len() - 1, j));
        }
        if embeds(parsed, index, pair.0, pair.1) {
            let (i, j) = choose|i: int, j: int| #[trigger]
                is_embed(parsed, index, pair.0, pair.1, i, j);
            if i < shorter.len() {
                assert(is_embed(shorter, index, pair.0, pair.1, i, j));
            } else {
                assert(leads_to(index, note.2[j], pair.1));
            }
        }
    }
}

proof fn lemma_all_broken(
    parsed: Seq<NoteView>,
    index: Map<Seq<char>, Seq<char>>,
    assets: Set<Seq<char>>,
    pair: (Seq<char>, Seq<char>),
)
    ensures
        keys::<(NotePath, String)>(all_broken(parsed, index, assets)).contains(pair) <==> is_broken(
            parsed,
            index,
            assets,
            pair.0,
            pair.1,
        ),
    decreases parsed.len(),
{
    if parsed.len() > 0 {
        let shorter = parsed.drop_last();
        let note = parsed.last();
        let before = all_broken(shorter, index, assets);
        let in_links = left_over(note.0, note.1, index, assets);
        let in_embeds = left_over(note.0, note.2, index, assets);
        lemma_all_broken(shorter, index, assets, pair);
        lemma_left_over(note.0, note.1, index, assets, pair);
        lemma_left_over(note.0, note.2, index, assets, pair);
        lemma_keys_concat::<(NotePath, String)>(before, in_links, pair);
        lemma_keys_concat::<(NotePath, String)>(before + in_links, in_embeds, pair);
        if is_broken(shorter, index, assets, pair.0, pair.1) {
            let i = choose|i: int|
                0 <= i < shorter.len() && normal_path((#[trigger] shorter[i]).0) == pair.0 && (
                shorter[i].1.contains(pair.1) || shorter[i].2.contains(pair.1));
            assert(parsed[i] == shorter[i]);
        }
        if keys::<(NotePath, String)>(in_links).contains(pair) || keys::<(NotePath, String)>(
            in_embeds,
        ).contains(pair) {
            assert(parsed[parsed.len() - 1] == note);
        }
        if is_broken(parsed, index, assets, pair.0, pair.1) {
            let i = choose|i: int|
                0 <= i < parsed.len() && normal_path((#[trigger] parsed[i]).0) == pair.0 && (
                parsed[i].1.contains(pair.1) || parsed[i].2.contains(pair.1));
            if i < shorter.len() {
                assert(shorter[i] == parsed[i]);
            }
        }
    }
}

proof fn lemma_embed_total_grows(parsed: Seq<NoteView>, i: int)
    requires
        0 <= i <= parsed.len(),
    ensures
        embed_total(parsed.take(i)) <= embed_total(parsed),
    decreases parsed.len() - i,
{
    if i < parsed.len() {
        lemma_embed_total_grows(parsed, i + 1);
        assert(parsed.take(i + 1).drop_last() =~= parsed.take(i));
    } else {
        assert(parsed.take(i) =~= parsed);
    }
}

/// The first path with each normal form, by that form.
struct FirstPaths {
    entries: StringHashMap<NotePath>,
}

/// `first` holds the first of the paths with each normal form.
spec fn holds_first(first: Map<Seq<char>, NotePath>, paths: Seq<Seq<char>>) -> bool {
    &&& forall|path: Seq<char>| #[trigger]
        first.contains_key(path) <==> keys::<NotePath>(paths).contains(path)
    &&& forall|path: Seq<char>| #[trigger]
        first.contains_key(path) ==> first[path]@ == with_key::<NotePath>(paths, path)[0]
}

impl FirstPaths {
    /// Adds a path, unless there is one with the same normal form already.
    fn add(&mut self, path: &NotePath, Ghost(paths): Ghost<Seq<Seq<char>>>)
        requires
            holds_first(old(self).entries@, paths),
        ensures
            holds_first(final(self).entries@, paths.push(path@)),
    {
        let ghost before = self.entries@;
        let ghost all = paths.push(path@);
        proof {
            lemma_key_added::<NotePath>(paths, path@);
            assert(all.drop_last() =~= paths);
            assert forall|id: Seq<char>| #[trigger] before.contains_key(id) implies with_key::<
                NotePath,
            >(all, id)[0] == with_key::<NotePath>(paths, id)[0] by {
                lemma_with_key::<NotePath>(paths, id);
            }
            lemma_with_key::<NotePath>(paths, normal_path(path@));
        }
        if !self.entries.contains_key(path.text()) {
            self.entries.insert(path.text().to_owned(), path.clone());
        }
    }
}

/// Finds the first path with each normal form, among the files and then among the sources of links.
fn first_paths(files: &[NotePath], links: &Vec<(NotePath, NotePath)>) -> (out: FirstPaths)
    ensures
        holds_first(out.entries@, files.deep_view() + link_sources(links.deep_view())),
{
    let ghost all = files.deep_view();
    let ghost sources = link_sources(links.deep_view());
    let mut out = FirstPaths { entries: StringHashMap::new() };
    let mut i: usize = 0;
    proof {
        assert(all.take(0) =~= Seq::<Seq<char>>::empty());
        assert(keys::<NotePath>(all.take(0)) =~= Seq::<Seq<char>>::empty());
    }
    while i < files.len()
        invariant
            i <= files.len(),
            all == files.deep_view(),
            holds_first(out.entries@, all.take(i as int)),
        decreases files.len() - i,
    {
        out.add(&files[i], Ghost(all.take(i as int)));
        proof {
            assert(all.take(i as int).push(files[i as int]@) =~= all.take(i + 1));
        }
        i += 1;
    }
    let mut j: usize = 0;
    proof {
        assert(all.take(i as int) =~= all + sources.take(0));
    }
    while j < links.len()
        invariant
            j <= links.len(),
            sources == link_sources(links.deep_view()),
            holds_first(out.entries@, all + sources.take(j as int)),
        decreases links.len() - j,
    {
        out.add(&links[j].0, Ghost(all + sources.take(j as int)));
        proof {
            assert((all + sources.take(j as int)).push(links[j as int].0@) =~= all + sources.take(
                j + 1,
            ));
        }
        j += 1;
    }
    proof {
        assert(sources.take(j as int) =~= sources);
    }
    out
}

/// The links of a strictly ascending list that have no counterpart in it, in order. Their sources
/// are spelled as in `first`.
fn one_way(
    links: &Vec<(NotePath, NotePath)>,
    first: &FirstPaths,
    Ghost(paths): Ghost<Seq<Seq<char>>>,
) -> (out: Vec<(NotePath, NotePath)>)
    requires
        strictly_ascending::<(NotePath, NotePath)>(
            keys::<(NotePath, NotePath)>(links.deep_view()),
        ),
        holds_first(first.entries@, paths),
        forall|i: int|
            0 <= i < links.len() ==> keys::<NotePath>(paths).contains(
                normal_path((#[trigger] links.deep_view()[i]).0),
            ),
    ensures
        strictly_ascending::<(NotePath, NotePath)>(keys::<(NotePath, NotePath)>(out.deep_view())),
        forall|p: (Seq<char>, Seq<char>)| #[trigger]
            keys::<(NotePath, NotePath)>(out.deep_view()).contains(p) <==> keys::<
                (NotePath, NotePath),
            >(links.deep_view()).contains(p) && !keys::<(NotePath, NotePath)>(
                links.deep_view(),
            ).contains((p.1, p.0)),
        forall|a: int|
            0 <= a < out.len() ==> is_respelled(
                #[trigger] out.deep_view()[a],
                links.deep_view(),
                paths,
            ),
{
    let ghost all = links.deep_view();
    let ghost all_keys = keys::<(NotePath, NotePath)>(all);
    let mut out: Vec<(NotePath, NotePath)> = Vec::new();
    let mut i: usize = 0;
    proof {
        assert(all_keys.take(0) =~= Seq::<(Seq<char>, Seq<char>)>::empty());
        assert(keys::<(NotePath, NotePath)>(out.deep_view()) =~= Seq::<
            (Seq<char>, Seq<char>),
        >::empty());
    }
    while i < links.len()
        invariant
            i <= links.len(),
            all == links.deep_view(),
            all_keys == keys::<(NotePath, NotePath)>(all),
            strictly_ascending::<(NotePath, NotePath)>(all_keys),
            holds_first(first.entries@, paths),
            forall|j: int|
                0 <= j < all.len() ==> keys::<NotePath>(paths).contains(
                    normal_path((#[trigger] all[j]).0),
                ),
            strictly_ascending::<(NotePath, NotePath)>(
                keys::<(NotePath, NotePath)>(out.deep_view()),
            ),
            forall|a: int, k: int|
                0 <= a < out.len() && i <= k < all.len() ==> <(NotePath, NotePath)>::before(
                    #[trigger] keys::<(NotePath, NotePath)>(out.deep_view())[a],
                    #[trigger] all_keys[k],
                ),
            forall|p: (Seq<char>, Seq<char>)| #[trigger]
                keys::<(NotePath, NotePath)>(out.deep_view()).contains(p) <==> all_keys.take(
                    i as int,
                ).contains(p) && !all_keys.contains((p.1, p.0)),
            forall|a: int|
                0 <= a < out.len() ==> is_respelled(#[trigger] out.deep_view()[a], all, paths),
        decreases links.len() - i,
    {
        let source = &links[i].0;
        let target = &links[i].1;
        let back = (target.clone(), source.clone());
        let ghost before = out.deep_view();
        let ghost before_keys = keys::<(NotePath, NotePath)>(before);
        let ghost id = (normal_path(source@), normal_path(target@));
        let found: bool = holds(links, &back);
        proof {
            assert(all[i as int] == (source@, target@));
            assert(all_keys[i as int] == id);
            assert(back.deep_view() == (target@, source@));
            assert(all_keys.take(i + 1) =~= all_keys.take(i as int).push(id));
            assert forall|p: (Seq<char>, Seq<char>)| #[trigger]
                all_keys.take(i + 1).contains(p) <==> all_keys.take(i as int).contains(p) || p
                    == id by {
                lemma_concat_contains(all_keys.take(i as int), seq![id], p);
                assert(all_keys.take(i as int) + seq![id] =~= all_keys.take(i + 1));
                assert(seq![id][0] == id);
            }
            assert(first.entries@.contains_key(normal_path(all[i as int].0)));
            lemma_with_key::<NotePath>(paths, normal_path(source@));
        }
        if !found {
            if let Some(spelled) = first.entries.get(source.text()) {
                let ghost pair = (spelled@, target@);
                out.push((spelled.clone(), target.clone()));
                proof {
                    assert(out.deep_view() =~= before.push(pair));
                    lemma_key_added::<(NotePath, NotePath)>(before, pair);
                    assert(<(NotePath, NotePath)>::key(pair) == id);
                    assert(keys::<(NotePath, NotePath)>(out.deep_view()) =~= before_keys.push(id));
                    assert(is_respelled(pair, all, paths)) by {
                        assert(all[i as int].1 == target@);
                    }
                }
            }
        }
        proof {
            assert forall|p: (Seq<char>, Seq<char>)| #[trigger]
                keys::<(NotePath, NotePath)>(out.deep_view()).contains(p) <==> all_keys.take(
                    i + 1,
                ).contains(p) && !all_keys.contains((p.1, p.0)) by {
                assert(before_keys.contains(p) <==> all_keys.take(i as int).contains(p)
                    && !all_keys.contains((p.1, p.0)));
            }
        }
        i += 1;
    }
    proof {
        assert(all_keys.take(i as int) =~= all_keys);
    }
    out
}

/// `pair` is one of the links, with its source spelled as it is first among the paths.
spec fn is_respelled(
    pair: (Seq<char>, Seq<char>),
    links: Seq<(Seq<char>, Seq<char>)>,
    paths: Seq<Seq<char>>,
) -> bool {
    &&& pair.0 == with_key::<NotePath>(paths, normal_path(pair.0))[0]
    &&& exists|j: int|
        0 <= j < links.len() && (#[trigger] links[j]).1 == pair.1 && normal_path(links[j].0)
            == normal_path(pair.0)
}

/// Adds the notes at either end of the given pairs.
fn add_ends(pairs: &Vec<(NotePath, NotePath)>, ends: &mut StringHashSet)
    ensures
        forall|x: Seq<char>| #[trigger]
            final(ends)@.contains(x) <==> old(ends)@.contains(x) || is_end(
                keys::<(NotePath, NotePath)>(pairs.deep_view()),
                x,
            ),
{
    let ghost all = keys::<(NotePath, NotePath)>(pairs.deep_view());
    let ghost before = ends@;
    let mut i: usize = 0;
    while i < pairs.len()
        invariant
            i <= pairs.len(),
            all == keys::<(NotePath, NotePath)>(pairs.deep_view()),
            forall|x: Seq<char>| #[trigger]
                ends@.contains(x) <==> before.contains(x) || is_end(all.take(i as int), x),
        decreases pairs.len() - i,
    {
        let ghost now = ends@;
        ends.insert(pairs[i].0.text().to_owned());
        ends.insert(pairs[i].1.text().to_owned());
        proof {
            let pair = all[i as int];
            assert(pairs.deep_view()[i as int] == (pairs[i as int].0@, pairs[i as int].1@));
            assert(ends@ == now.insert(pair.0).insert(pair.1));
            assert forall|x: Seq<char>| #[trigger]
                ends@.contains(x) <==> before.contains(x) || is_end(all.take(i + 1), x) by {
                if is_end(all.take(i as int), x) {
                    let k = choose|k: int|
                        0 <= k < i && ((#[trigger] all.take(i as int)[k]).0 == x || all.take(
                            i as int,
                        )[k].1 == x);
                    assert(all.take(i + 1)[k] == all.take(i as int)[k]);
                }
                if is_end(all.take(i + 1), x) {
                    let k = choose|k: int|
                        0 <= k < i + 1 && ((#[trigger] all.take(i + 1)[k]).0 == x || all.take(
                            i + 1,
                        )[k].1 == x);
                    if k < i {
                        assert(all.take(i as int)[k] == all.take(i + 1)[k]);
                    }
                }
                assert(all.take(i + 1)[i as int] == pair);
            }
        }
        i += 1;
    }
    proof {
        assert(all.take(i as int) =~= all);
    }
}

/// `x` is at one end of one of the pairs.
spec fn is_end(pairs: Seq<(Seq<char>, Seq<char>)>, x: Seq<char>) -> bool {
    exists|k: int|
        0 <= k < pairs.len() && ((#[trigger] pairs[k]).0 == x || pairs[k].1 == x)
}

/// The given notes that are not among `ends`, in order.
fn outside(files: &[NotePath], ends: &StringHashSet) -> (out: Vec<NotePath>)
    ensures
        out.deep_view() == files.deep_view().filter(|f: Seq<char>| !ends@.contains(normal_path(f))),
{
    let ghost all = files.deep_view();
    let ghost wanted = |f: Seq<char>| !ends@.contains(normal_path(f));
    let mut out: Vec<NotePath> = Vec::new();
    let mut i: usize = 0;
    proof {
        reveal(Seq::filter);
        assert(all.take(0).filter(wanted) =~= Seq::<Seq<char>>::empty());
        assert(out.deep_view() =~= Seq::<Seq<char>>::empty());
    }
    while i < files.len()
        invariant
            i <= files.len(),
            all == files.deep_view(),
            wanted == (|f: Seq<char>| !ends@.contains(normal_path(f))),
            out.deep_view() == all.take(i as int).filter(wanted),
        decreases files.len() - i,
    {
        let ghost before = out.deep_view();
        proof {
            reveal(Seq::filter);
            assert(all.take(i + 1).drop_last() =~= all.take(i as int));
            assert(all.take(i + 1).last() == files[i as int]@);
        }
        if !ends.contains(files[i].text()) {
            out.push(files[i].clone());
            proof {
                assert(out.deep_view() =~= before.push(files[i as int]@));
            }
        }
        i += 1;
    }
    proof {
        assert(all.take(i as int) =~= all);
    }
    out
}

/// What the links and embeds of a vault come to.
struct Gathered {
    links: Vec<(NotePath, NotePath)>,
    embeds: Vec<(NotePath, NotePath)>,
    broken: Vec<(NotePath, String)>,
    embed_count: usize,
}

/// Follows the links and embeds of all notes.
fn gather(parsed_links: &[ParsedNote], index: &FileIndex, known_assets: &KnownAssets) -> (out:
    Gathered)
    requires
        embed_total(parsed_links.deep_view()) <= usize::MAX,
    ensures
        out.links.deep_view() == all_links(parsed_links.deep_view(), index@),
        out.embeds.deep_view() == all_embeds(parsed_links.deep_view(), index@),
        out.broken.deep_view() == all_broken(parsed_links.deep_view(), index@, known_assets@),
        out.embed_count == embed_total(parsed_links.deep_view()),
{
    let ghost parsed = parsed_links.deep_view();
    let mut links: Vec<(NotePath, NotePath)> = Vec::new();
    let mut embeds: Vec<(NotePath, NotePath)> = Vec::new();
    let mut broken: Vec<(NotePath, String)> = Vec::new();
    let mut embed_count: usize = 0;
    let mut i: usize = 0;
    proof {
        let none = Seq::<(Seq<char>, Seq<char>)>::empty();
        assert(parsed.take(0) =~= Seq::<NoteView>::empty());
        assert(links.deep_view() =~= none);
        assert(embeds.deep_view() =~= none);
        assert(broken.deep_view() =~= none);
    }
    while i < parsed_links.len()
        invariant
            i <= parsed_links.len(),
            parsed == parsed_links.deep_view(),
            embed_total(parsed) <= usize::MAX,
            links.deep_view() == all_links(parsed.take(i as int), index@),
            embeds.deep_view() == all_embeds(parsed.take(i as int), index@),
            broken.deep_view() == all_broken(parsed.take(i as int), index@, known_assets@),
            embed_count == embed_total(parsed.take(i as int)),
        decreases parsed_links.len() - i,
    {
        let note = &parsed_links[i];
        proof {
            assert(parsed.take(i + 1).drop_last() =~= parsed.take(i as int));
            assert(parsed.take(i + 1).last() == note.deep_view());
            lemma_embed_total_grows(parsed, i + 1);
        }
        follow(&note.0, &note.1, index, known_assets, &mut links, &mut broken);
        follow(&note.0, &note.2, index, known_assets, &mut embeds, &mut broken);
        embed_count += note.2.len();
        i += 1;
    }
    proof {
        assert(parsed.take(i as int) =~= parsed);
    }
    Gathered { links, embeds, broken, embed_count }
}

/// Analyses the links of a vault: `files` are its notes, `parsed_links` what could be read of
/// them, `index` leads from names to notes, and `known_assets` are the names of all its files.
pub fn analyze_graph(
    files: &[NotePath],
    parsed_links: &[ParsedNote],
    index: &FileIndex,
    known_assets: &KnownAssets,
) -> (out: Analysis)
    requires
        embed_total(parsed_links.deep_view()) <= usize::MAX,
    ensures
        is_analysis(
            out,
            files.deep_view(),
            parsed_links.deep_view(),
            index@,
            known_assets@,
        ),
{
    let ghost parsed = parsed_links.deep_view();
    let gathered = gather(parsed_links, index, known_assets);
    let ghost link_pairs = gathered.links.deep_view();
    let ghost embed_pairs = gathered.embeds.deep_view();
    let mut ends = StringHashSet::new();
    add_ends(&gathered.links, &mut ends);
    add_ends(&gathered.embeds, &mut ends);
    let alone = outside(files, &ends);
    let ghost alone_view = alone.deep_view();
    let orphans = sorted(alone);
    let ghost paths = files.deep_view() + link_sources(link_pairs);
    let first = first_paths(files, &gathered.links);
    let links = sorted_distinct(gathered.links);
    proof {
        assert forall|i: int| 0 <= i < links.len() implies keys::<NotePath>(paths).contains(
            normal_path((#[trigger] links.deep_view()[i]).0),
        ) by {
            lemma_link_source_listed(files.deep_view(), link_pairs, links.deep_view(), i);
        }
    }
    let missing_backlinks = one_way(&links, &first, Ghost(paths));
    let broken_links = sorted_distinct(gathered.broken);
    proof {
        assert forall|p: (Seq<char>, Seq<char>)| #[trigger]
            keys::<(NotePath, NotePath)>(missing_backlinks.deep_view()).contains(p)
                <==> misses_backlink(parsed, index@, p.0, p.1) by {
            lemma_all_links(parsed, index@, p);
            lemma_all_links(parsed, index@, (p.1, p.0));
            assert(keys::<(NotePath, NotePath)>(links.deep_view()).contains(p) <==> keys::<
                (NotePath, NotePath),
            >(link_pairs).contains(p));
            assert(keys::<(NotePath, NotePath)>(links.deep_view()).contains((p.1, p.0)) <==> keys::<
                (NotePath, NotePath),
            >(link_pairs).contains((p.1, p.0)));
        }
        assert forall|i: int| 0 <= i < missing_backlinks.len() implies #[trigger] missing_backlinks.deep_view()[i]
            == spelled_link(
            files.deep_view(),
            link_pairs,
            keys::<(NotePath, NotePath)>(missing_backlinks.deep_view())[i].0,
            keys::<(NotePath, NotePath)>(missing_backlinks.deep_view())[i].1,
        ) by {
            let pair = missing_backlinks.deep_view()[i];
            assert(is_respelled(pair, links.deep_view(), paths));
            let j = choose|j: int|
                0 <= j < links.len() && (#[trigger] links.deep_view()[j]).1 == pair.1
                    && normal_path(links.deep_view()[j].0) == normal_path(pair.0);
            assert(links.deep_view()[j] == with_key::<(NotePath, NotePath)>(
                link_pairs,
                <(NotePath, NotePath)>::key(links.deep_view()[j]),
            )[0]);
        }
        assert forall|p: (Seq<char>, Seq<char>)| #[trigger]
            keys::<(NotePath, String)>(broken_links.deep_view()).contains(p) <==> is_broken(
                parsed,
                index@,
                known_assets@,
                p.0,
                p.1,
            ) by {
            lemma_all_broken(parsed, index@, known_assets@, p);
        }
        let kept = |f: Seq<char>| !ends@.contains(normal_path(f));
        let isolated = |f: Seq<char>| is_isolated(parsed, index@, normal_path(f));
        assert forall|x: Seq<char>| #[trigger] kept(x) == isolated(x) by {
            lemma_ends(parsed, index@, normal_path(x));
        }
        lemma_same_filter(files.deep_view(), kept, isolated);
        assert(alone_view == files.deep_view().filter(isolated));
    }
    Analysis { missing_backlinks, orphans, broken_links, embed_count: gathered.embed_count }
}

proof fn lemma_link_source_listed(
    files: Seq<Seq<char>>,
    gathered: Seq<(Seq<char>, Seq<char>)>,
    links: Seq<(Seq<char>, Seq<char>)>,
    i: int,
)
    requires
        0 <= i < links.len(),
        keys::<(NotePath, NotePath)>(links).contains(keys::<(NotePath, NotePath)>(links)[i])
            ==> keys::<(NotePath, NotePath)>(gathered).contains(
            keys::<(NotePath, NotePath)>(links)[i],
        ),
    ensures
        keys::<NotePath>(files + link_sources(gathered)).contains(normal_path(links[i].0)),
{
    let id = keys::<(NotePath, NotePath)>(links)[i];
    assert(keys::<(NotePath, NotePath)>(links).contains(id));
    let j = choose|j: int|
        0 <= j < gathered.len() && keys::<(NotePath, NotePath)>(gathered)[j] == id;
    assert(keys::<NotePath>(files + link_sources(gathered))[files.len() + j] == normal_path(
        links[i].0,
    ));
}

/// A note is isolated just when it is at neither end of a link or an embed.
proof fn lemma_ends(parsed: Seq<NoteView>, index: Map<Seq<char>, Seq<char>>, x: Seq<char>)
    ensures
        is_isolated(parsed, index, x) <==> !is_end(
            keys::<(NotePath, NotePath)>(all_links(parsed, index)),
            x,
        ) && !is_end(keys::<(NotePath, NotePath)>(all_embeds(parsed, index)), x),
{
    let link_pairs = keys::<(NotePath, NotePath)>(all_links(parsed, index));
    let embed_pairs = keys::<(NotePath, NotePath)>(all_embeds(parsed, index));
    if is_end(link_pairs, x) {
        let k = choose|k: int|
            0 <= k < link_pairs.len() && ((#[trigger] link_pairs[k]).0 == x || link_pairs[k].1
                == x);
        let pair = link_pairs[k];
        lemma_all_links(parsed, index, pair);
        assert(link_pairs.contains(pair));
        assert(points_to(parsed, index, pair.0, pair.1));
        let other = if pair.0 == x {
            pair.1
        } else {
            pair.0
        };
        assert(touch(parsed, index, x, other));
    }
    if is_end(embed_pairs, x) {
        let k = choose|k: int|
            0 <= k < embed_pairs.len() && ((#[trigger] embed_pairs[k]).0 == x || embed_pairs[k].1
                == x);
        let pair = embed_pairs[k];
        lemma_all_embeds(parsed, index, pair);
        assert(embed_pairs.contains(pair));
        assert(points_to(parsed, index, pair.0, pair.1));
        let other = if pair.0 == x {
            pair.1
        } else {
            pair.0
        };
        assert(touch(parsed, index, x, other));
    }
    assert forall|other: Seq<char>| #[trigger] touch(parsed, index, x, other) implies is_end(
        link_pairs,
        x,
    ) || is_end(embed_pairs, x) by {
        let pair = if points_to(parsed, index, x, other) {
            (x, other)
        } else {
            (other, x)
        };
        lemma_all_links(parsed, index, pair);
        lemma_all_embeds(parsed, index, pair);
        if link_pairs.contains(pair) {
            let k = choose|k: int| 0 <= k < link_pairs.len() && link_pairs[k] == pair;
            assert(link_pairs[k].0 == x || link_pairs[k].1 == x);
        } else {
            let k = choose|k: int| 0 <= k < embed_pairs.len() && embed_pairs[k] == pair;
            assert(embed_pairs[k].0 == x || embed_pairs[k].1 == x);
        }
    }
}

proof fn lemma_same_filter<A>(s: Seq<A>, f: spec_fn(A) -> bool, g: spec_fn(A) -> bool)
    requires
        forall|x: A| #[trigger] f(x) == g(x),
    ensures
        s.filter(f) == s.filter(g),
    decreases s.len(),
{
    reveal(Seq::filter);
    if s.len() > 0 {
        lemma_same_filter(s.drop_last(), f, g);
        assert(f(s.last()) == g(s.last()));
    }
}

/// The number of embeds of all notes together, if it can be counted.
pub fn count_embeds(parsed_links: &[ParsedNote]) -> (out: Option<usize>)
    ensures
        match out {
            Some(count) => count == embed_total(parsed_links.deep_view()),
            None => embed_total(parsed_links.deep_view()) > usize::MAX,
        },
{
    let ghost parsed = parsed_links.deep_view();
    let mut count: usize = 0;
    let mut i: usize = 0;
    proof {
        assert(parsed.take(0) =~= Seq::<NoteView>::empty());
    }
    while i < parsed_links.len()
        invariant
            i <= parsed_links.len(),
            parsed == parsed_links.deep_view(),
            count == embed_total(parsed.take(i as int)),
        decreases parsed_links.len() - i,
    {
        proof {
            assert(parsed.take(i + 1).drop_last() =~= parsed.take(i as int));
            assert(parsed.take(i + 1).last() == parsed_links[i as int].deep_view());
            lemma_embed_total_grows(parsed, i + 1);
        }
        match count.checked_add(parsed_links[i].2.len()) {
            Some(sum) => {
                count = sum;
            },
            None => {
                return None;
            },
        }
        i += 1;
    }
    proof {
        assert(parsed.take(i as int) =~= parsed);
    }
    Some(count)
}

/// A backlink is missing in one direction only, and never from a note to itself.
pub proof fn law_missing_backlinks_are_one_way(
    parsed: Seq<NoteView>,
    index: Map<Seq<char>, Seq<char>>,
    source: Seq<char>,
    target: Seq<char>,
)
    requires
        misses_backlink(parsed, index, source, target),
    ensures
        source != target,
        !misses_backlink(parsed, index, target, source),
{
}

/// An orphan is at neither end of a missing backlink.
pub proof fn law_orphans_miss_no_backlinks(
    parsed: Seq<NoteView>,
    index: Map<Seq<char>, Seq<char>>,
    note: Seq<char>,
    other: Seq<char>,
)
    requires
        is_isolated(parsed, index, note),
    ensures
        !misses_backlink(parsed, index, note, other),
        !misses_backlink(parsed, index, other, note),
{
    assert(!touch(parsed, index, note, other));
}

/// Embeds count toward connectivity: neither the note that embeds another nor the one that is
/// embedded is an orphan.
pub proof fn law_embeds_connect(
    parsed: Seq<NoteView>,
    index: Map<Seq<char>, Seq<char>>,
    source: Seq<char>,
    target: Seq<char>,
)
    requires
        embeds(parsed, index, source, target),
    ensures
        !is_isolated(parsed, index, source),
        !is_isolated(parsed, index, target),
{
    assert(touch(parsed, index, source, target));
    assert(touch(parsed, index, target, source));
}

/// A name that a note or any other file of the vault has is never reported as broken.
pub proof fn law_known_names_are_not_broken(
    parsed: Seq<NoteView>,
    index: Map<Seq<char>, Seq<char>>,
    assets: Set<Seq<char>>,
    source: Seq<char>,
    name: Seq<char>,
)
    requires
        index.contains_key(name_key(name)) || assets.contains(name_key(name)),
    ensures
        !is_broken(parsed, index, assets, source, name),
{
}

/// Links find their way whatever the case of the letters in them.
pub proof fn law_case_of_links_does_not_matter(
    index: Map<Seq<char>, Seq<char>>,
    assets: Set<Seq<char>>,
    a: Seq<char>,
    b: Seq<char>,
)
    requires
        is_ascii_chars(a),
        is_ascii_chars(b),
        a.len() == b.len(),
        forall|i: int| 0 <= i < a.len() ==> ascii_lower(#[trigger] a[i]) == ascii_lower(b[i]),
    ensures
        resolved(index, a) == resolved(index, b),
        leads_nowhere(index, assets, a) == leads_nowhere(index, assets, b),
{
    law_ascii_case_is_ignored(a, b);
}

/// The same notes parsed in another order.
pub open spec fn same_notes(p: Seq<NoteView>, q: Seq<NoteView>) -> bool {
    p.to_multiset() == q.to_multiset()
}

proof fn lemma_relations_carry_over(
    p: Seq<NoteView>,
    q: Seq<NoteView>,
    index: Map<Seq<char>, Seq<char>>,
    assets: Set<Seq<char>>,
)
    requires
        same_notes(p, q),
    ensures
        forall|s: Seq<char>, t: Seq<char>| #[trigger]
            links_to(p, index, s, t) ==> links_to(q, index, s, t),
        forall|s: Seq<char>, t: Seq<char>| #[trigger]
            embeds(p, index, s, t) ==> embeds(q, index, s, t),
        forall|s: Seq<char>, n: Seq<char>| #[trigger]
            is_broken(p, index, assets, s, n) ==> is_broken(q, index, assets, s, n),
{
    broadcast use vstd::seq_lib::group_to_multiset_ensures;

    assert forall|i: int| 0 <= i < p.len() implies q.contains(#[trigger] p[i]) by {
        assert(p.contains(p[i]));
        assert(p.to_multiset().contains(p[i]));
        assert(q.to_multiset().contains(p[i]));
    }
    assert forall|s: Seq<char>, t: Seq<char>| #[trigger] links_to(p, index, s, t) implies links_to(
        q,
        index,
        s,
        t,
    ) by {
        let (i, j) = choose|i: int, j: int| #[trigger] is_link(p, index, s, t, i, j);
        let k = choose|k: int| 0 <= k < q.len() && q[k] == p[i];
        assert(is_link(q, index, s, t, k, j));
    }
    assert forall|s: Seq<char>, t: Seq<char>| #[trigger] embeds(p, index, s, t) implies embeds(
        q,
        index,
        s,
        t,
    ) by {
        let (i, j) = choose|i: int, j: int| #[trigger] is_embed(p, index, s, t, i, j);
        let k = choose|k: int| 0 <= k < q.len() && q[k] == p[i];
        assert(is_embed(q, index, s, t, k, j));
    }
    assert forall|s: Seq<char>, n: Seq<char>| #[trigger]
        is_broken(p, index, assets, s, n) implies is_broken(q, index, assets, s, n) by {
        let i = choose|i: int|
            0 <= i < p.len() && normal_path((#[trigger] p[i]).0) == s && (p[i].1.contains(n)
                || p[i].2.contains(n));
        let k = choose|k: int| 0 <= k < q.len() && q[k] == p[i];
        assert(normal_path(q[k].0) == s);
    }
}

proof fn lemma_embed_total_remove(p: Seq<NoteView>, i: int)
    requires
        0 <= i < p.len(),
    ensures
        embed_total(p) == embed_total(p.remove(i)) + p[i].2.len(),
    decreases p.len(),
{
    if i < p.len() - 1 {
        let shorter = p.drop_last();
        lemma_embed_total_remove(shorter, i);
        assert(p.remove(i).drop_last() =~= shorter.remove(i));
        assert(p.remove(i).last() == p.last());
    } else {
        assert(p.remove(i) =~= p.drop_last());
    }
}

proof fn lemma_embed_total_same(p: Seq<NoteView>, q: Seq<NoteView>)
    requires
        same_notes(p, q),
    ensures
        embed_total(p) == embed_total(q),
    decreases p.len(),
{
    broadcast use vstd::seq_lib::group_to_multiset_ensures;

    assert(p.len() == p.to_multiset().len());
    assert(q.len() == q.to_multiset().len());
    if p.len() > 0 {
        let last = p.len() - 1;
        assert(p.contains(p[last]));
        assert(p.to_multiset().contains(p[last]));
        assert(q.contains(p[last]));
        let k = choose|k: int| 0 <= k < q.len() && q[k] == p[last];
        lemma_embed_total_remove(p, last);
        lemma_embed_total_remove(q, k);
        vstd::seq_lib::to_multiset_remove(p, last);
        vstd::seq_lib::to_multiset_remove(q, k);
        lemma_embed_total_same(p.remove(last), q.remove(k));
    }
}

/// The analysis of a vault is determined by its notes, their names and what is in them, in
/// whatever order the notes were parsed. That order matters only to how paths are spelled of which
/// several spellings were given.
pub proof fn law_analysis_is_determined(
    a: Analysis,
    b: Analysis,
    files: Seq<Seq<char>>,
    p: Seq<NoteView>,
    q: Seq<NoteView>,
    index: Map<Seq<char>, Seq<char>>,
    assets: Set<Seq<char>>,
)
    requires
        is_analysis(a, files, p, index, assets),
        is_analysis(b, files, q, index, assets),
        same_notes(p, q),
    ensures
        keys::<(NotePath, NotePath)>(a.missing_backlinks.deep_view()) == keys::<
            (NotePath, NotePath),
        >(b.missing_backlinks.deep_view()),
        a.orphans.deep_view() == b.orphans.deep_view(),
        keys::<(NotePath, String)>(a.broken_links.deep_view()) == keys::<(NotePath, String)>(
            b.broken_links.deep_view(),
        ),
        a.embed_count == b.embed_count,
        p == q ==> a.missing_backlinks.deep_view() == b.missing_backlinks.deep_view(),
        p == q ==> a.broken_links.deep_view() == b.broken_links.deep_view(),
{
    let a_missing = a.missing_backlinks.deep_view();
    let b_missing = b.missing_backlinks.deep_view();
    let a_broken = a.broken_links.deep_view();
    let b_broken = b.broken_links.deep_view();
    lemma_relations_carry_over(p, q, index, assets);
    lemma_relations_carry_over(q, p, index, assets);
    assert forall|x: (Seq<char>, Seq<char>)|
        keys::<(NotePath, NotePath)>(a_missing).contains(x) <==> keys::<(NotePath, NotePath)>(
            b_missing,
        ).contains(x) by {
        assert(links_to(p, index, x.0, x.1) == links_to(q, index, x.0, x.1));
        assert(links_to(p, index, x.1, x.0) == links_to(q, index, x.1, x.0));
    }
    lemma_strictly_ascending_unique::<(NotePath, NotePath)>(
        keys::<(NotePath, NotePath)>(a_missing),
        keys::<(NotePath, NotePath)>(b_missing),
    );
    assert forall|x: (Seq<char>, Seq<char>)|
        keys::<(NotePath, String)>(a_broken).contains(x) <==> keys::<(NotePath, String)>(
            b_broken,
        ).contains(x) by {
        assert(is_broken(p, index, assets, x.0, x.1) == is_broken(q, index, assets, x.0, x.1));
    }
    lemma_strictly_ascending_unique::<(NotePath, String)>(
        keys::<(NotePath, String)>(a_broken),
        keys::<(NotePath, String)>(b_broken),
    );
    let f = |n: Seq<char>| is_isolated(p, index, normal_path(n));
    let g = |n: Seq<char>| is_isolated(q, index, normal_path(n));
    assert forall|n: Seq<char>| #[trigger] f(n) == g(n) by {
        let note = normal_path(n);
        assert forall|other: Seq<char>| #[trigger]
            touch(p, index, note, other) == touch(q, index, note, other) by {
            assert(links_to(p, index, note, other) == links_to(q, index, note, other));
            assert(links_to(p, index, other, note) == links_to(q, index, other, note));
            assert(embeds(p, index, note, other) == embeds(q, index, note, other));
            assert(embeds(p, index, other, note) == embeds(q, index, other, note));
        }
        if !f(n) {
            let other = choose|other: Seq<char>| #[trigger] touch(p, index, note, other);
            assert(touch(q, index, note, other));
        }
        if !g(n) {
            let other = choose|other: Seq<char>| #[trigger] touch(q, index, note, other);
            assert(touch(p, index, note, other));
        }
    }
    lemma_same_filter(files, f, g);
    lemma_ascending_unique::<NotePath>(a.orphans.deep_view(), b.orphans.deep_view());
    lemma_embed_total_same(p, q);
    if p == q {
        assert(a_missing.len() == keys::<(NotePath, NotePath)>(a_missing).len());
        assert(b_missing.len() == keys::<(NotePath, NotePath)>(b_missing).len());
        assert(a_missing =~= b_missing);
        assert(a_broken.len() == keys::<(NotePath, String)>(a_broken).len());
        assert(b_broken.len() == keys::<(NotePath, String)>(b_broken).len());
        assert(a_broken =~= b_broken);
    }
}

/// A link that is not answered is reported as a missing backlink, whatever is embedded where.
pub proof fn law_unanswered_links_are_reported(
    analysis: Analysis,
    files: Seq<Seq<char>>,
    parsed: Seq<NoteView>,
    index: Map<Seq<char>, Seq<char>>,
    assets: Set<Seq<char>>,
    i: int,
    j: int,
)
    requires
        is_analysis(analysis, files, parsed, index, assets),
        0 <= i < parsed.len(),
        0 <= j < parsed[i].1.len(),
        index.contains_key(name_key(parsed[i].1[j])),
        forall|m: int, n: int|
            0 <= m < parsed.len() && 0 <= n < parsed[m].1.len() && index.contains_key(
                name_key(#[trigger] parsed[m].1[n]),
            ) && normal_path(parsed[m].0) == normal_path(index[name_key(parsed[i].1[j])])
                ==> normal_path(index[name_key(parsed[m].1[n])]) != normal_path(parsed[i].0),
    ensures
        exists|k: int|
            0 <= k < analysis.missing_backlinks@.len() && normal_path(
                (#[trigger] analysis.missing_backlinks@[k]).0@,
            ) == normal_path(parsed[i].0) && normal_path(analysis.missing_backlinks@[k].1@)
                == normal_path(index[name_key(parsed[i].1[j])]),
{
    let source = normal_path(parsed[i].0);
    let target = normal_path(index[name_key(parsed[i].1[j])]);
    let missing = analysis.missing_backlinks.deep_view();
    assert(is_link(parsed, index, source, target, i, j));
    if links_to(parsed, index, target, source) {
        let (m, n) = choose|m: int, n: int| #[trigger]
            is_link(parsed, index, target, source, m, n);
        assert(index.contains_key(name_key(parsed[m].1[n])));
    }
    assert(misses_backlink(parsed, index, source, target));
    let missing_keys = keys::<(NotePath, NotePath)>(missing);
    assert(missing_keys.contains((source, target)));
    let k = choose|k: int| 0 <= k < missing_keys.len() && missing_keys[k] == (source, target);
    assert(missing[k] == (
        analysis.missing_backlinks@[k].0@,
        analysis.missing_backlinks@[k].1@,
    ));
}

/// What is reported as a missing backlink is a link that is not answered.
pub proof fn law_reported_links_are_unanswered(
    analysis: Analysis,
    files: Seq<Seq<char>>,
    parsed: Seq<NoteView>,
    index: Map<Seq<char>, Seq<char>>,
    assets: Set<Seq<char>>,
    k: int,
) -> (place: (int, int))
    requires
        is_analysis(analysis, files, parsed, index, assets),
        0 <= k < analysis.missing_backlinks@.len(),
    ensures
        ({
            let (i, j) = place;
            let (source, target) = (
                analysis.missing_backlinks@[k].0@,
                analysis.missing_backlinks@[k].1@,
            );
            &&& 0 <= i < parsed.len()
            &&& 0 <= j < parsed[i].1.len()
            &&& index.contains_key(name_key(parsed[i].1[j]))
            &&& normal_path(source) == normal_path(parsed[i].0)
            &&& normal_path(target) == normal_path(index[name_key(parsed[i].1[j])])
            &&& forall|m: int, n: int|
                0 <= m < parsed.len() && 0 <= n < parsed[m].1.len() && index.contains_key(
                    name_key(#[trigger] parsed[m].1[n]),
                ) && normal_path(parsed[m].0) == normal_path(target) ==> normal_path(
                    index[name_key(parsed[m].1[n])],
                ) != normal_path(source)
        }),
{
    let missing = analysis.missing_backlinks.deep_view();
    let missing_keys = keys::<(NotePath, NotePath)>(missing);
    let (source, target) = missing_keys[k];
    assert(missing[k] == (
        analysis.missing_backlinks@[k].0@,
        analysis.missing_backlinks@[k].1@,
    ));
    assert(missing_keys.contains(missing_keys[k]));
    assert(misses_backlink(parsed, index, source, target));
    let (i, j) = choose|i: int, j: int| #[trigger] is_link(parsed, index, source, target, i, j);
    assert forall|m: int, n: int|
        0 <= m < parsed.len() && 0 <= n < parsed[m].1.len() && index.contains_key(
            name_key(#[trigger] parsed[m].1[n]),
        ) && normal_path(parsed[m].0) == target implies normal_path(
        index[name_key(parsed[m].1[n])],
    ) != source by {
        assert(!is_link(parsed, index, target, source, m, n));
    }
    (i, j)
}

/// Missing backlinks depend on links alone: vaults with the same links miss the same ones, whatever
/// is embedded in their notes.
pub proof fn law_embeds_need_no_backlinks(
    a: Analysis,
    b: Analysis,
    a_files: Seq<Seq<char>>,
    b_files: Seq<Seq<char>>,
    p: Seq<NoteView>,
    q: Seq<NoteView>,
    index: Map<Seq<char>, Seq<char>>,
    a_assets: Set<Seq<char>>,
    b_assets: Set<Seq<char>>,
)
    requires
        is_analysis(a, a_files, p, index, a_assets),
        is_analysis(b, b_files, q, index, b_assets),
        p.len() == q.len(),
        forall|i: int|
            0 <= i < p.len() ==> (#[trigger] p[i]).0 == q[i].0 && p[i].1 == q[i].1,
    ensures
        a.missing_backlinks@.len() == b.missing_backlinks@.len(),
        forall|k: int|
            0 <= k < a.missing_backlinks@.len() ==> normal_path(
                (#[trigger] a.missing_backlinks@[k]).0@,
            ) == normal_path(b.missing_backlinks@[k].0@) && normal_path(
                a.missing_backlinks@[k].1@,
            ) == normal_path(b.missing_backlinks@[k].1@),
{
    let a_keys = keys::<(NotePath, NotePath)>(a.missing_backlinks.deep_view());
    let b_keys = keys::<(NotePath, NotePath)>(b.missing_backlinks.deep_view());
    assert forall|s: Seq<char>, t: Seq<char>| #[trigger]
        links_to(p, index, s, t) == links_to(q, index, s, t) by {
        if links_to(p, index, s, t) {
            let (i, j) = choose|i: int, j: int| #[trigger] is_link(p, index, s, t, i, j);
            assert(p[i].0 == q[i].0);
            assert(is_link(q, index, s, t, i, j));
        }
        if links_to(q, index, s, t) {
            let (i, j) = choose|i: int, j: int| #[trigger] is_link(q, index, s, t, i, j);
            assert(p[i].0 == q[i].0);
            assert(is_link(p, index, s, t, i, j));
        }
    }
    assert forall|x: (Seq<char>, Seq<char>)| a_keys.contains(x) <==> b_keys.contains(x) by {
        assert(links_to(p, index, x.0, x.1) == links_to(q, index, x.0, x.1));
        assert(links_to(p, index, x.1, x.0) == links_to(q, index, x.1, x.0));
    }
    lemma_strictly_ascending_unique::<(NotePath, NotePath)>(a_keys, b_keys);
    assert forall|k: int| 0 <= k < a.missing_backlinks@.len() implies normal_path(
        (#[trigger] a.missing_backlinks@[k]).0@,
    ) == normal_path(b.missing_backlinks@[k].0@) && normal_path(a.missing_backlinks@[k].1@)
        == normal_path(b.missing_backlinks@[k].1@) by {
        assert(a_keys[k] == b_keys[k]);
        assert(a.missing_backlinks.deep_view()[k] == (
            a.missing_backlinks@[k].0@,
            a.missing_backlinks@[k].1@,
        ));
        assert(b.missing_backlinks.deep_view()[k] == (
            b.missing_backlinks@[k].0@,
            b.missing_backlinks@[k].1@,
        ));
    }
    assert(a_keys.len() == a.missing_backlinks@.len());
    assert(b_keys.len() == b.missing_backlinks@.len());
}

/// A name among the links or embeds of a note that neither a note nor any other file has is
/// reported as broken for that note.
pub proof fn law_unknown_names_are_broken(
    analysis: Analysis,
    files: Seq<Seq<char>>,
    parsed: Seq<NoteView>,
    index: Map<Seq<char>, Seq<char>>,
    assets: Set<Seq<char>>,
    i: int,
    name: Seq<char>,
)
    requires
        is_analysis(analysis, files, parsed, index, assets),
        0 <= i < parsed.len(),
        parsed[i].1.contains(name) || parsed[i].2.contains(name),
        !index.contains_key(name_key(name)),
        !assets.contains(name_key(name)),
    ensures
        exists|k: int|
            0 <= k < analysis.broken_links@.len() && normal_path(
                (#[trigger] analysis.broken_links@[k]).0@,
            ) == normal_path(parsed[i].0) && analysis.broken_links@[k].1@ == name,
{
    let broken = analysis.broken_links.deep_view();
    let broken_keys = keys::<(NotePath, String)>(broken);
    let id = (normal_path(parsed[i].0), name);
    assert(is_broken(parsed, index, assets, id.0, id.1));
    assert(broken_keys.contains(id));
    let k = choose|k: int| 0 <= k < broken_keys.len() && broken_keys[k] == id;
    assert(broken[k] == (analysis.broken_links@[k].0@, analysis.broken_links@[k].1@));
}

/// What is reported as broken stands among the links or embeds of a note with that path, and
/// neither a note nor any other file has that name.
pub proof fn law_broken_links_lead_nowhere(
    analysis: Analysis,
    files: Seq<Seq<char>>,
    parsed: Seq<NoteView>,
    index: Map<Seq<char>, Seq<char>>,
    assets: Set<Seq<char>>,
    k: int,
) -> (i: int)
    requires
        is_analysis(analysis, files, parsed, index, assets),
        0 <= k < analysis.broken_links@.len(),
    ensures
        ({
            let name = analysis.broken_links@[k].1@;
            &&& 0 <= i < parsed.len()
            &&& parsed[i].1.contains(name) || parsed[i].2.contains(name)
            &&& !index.contains_key(name_key(name))
            &&& !assets.contains(name_key(name))
            &&& analysis.broken_links@[k].0@ == parsed[i].0
            &&& forall|m: int|
                0 <= m < i && normal_path((#[trigger] parsed[m]).0) == normal_path(parsed[i].0)
                    ==> !parsed[m].1.contains(name) && !parsed[m].2.contains(name)
        }),
{
    let broken = analysis.broken_links.deep_view();
    let broken_keys = keys::<(NotePath, String)>(broken);
    let id = broken_keys[k];
    assert(broken[k] == (analysis.broken_links@[k].0@, analysis.broken_links@[k].1@));
    assert(broken_keys.contains(id));
    assert(is_broken(parsed, index, assets, id.0, id.1));
    lemma_first_broken(parsed, index, assets, id)
}

/// The first place where a broken link stands.
proof fn lemma_first_broken(
    parsed: Seq<NoteView>,
    index: Map<Seq<char>, Seq<char>>,
    assets: Set<Seq<char>>,
    id: (Seq<char>, Seq<char>),
) -> (i: int)
    requires
        is_broken(parsed, index, assets, id.0, id.1),
    ensures
        0 <= i < parsed.len(),
        normal_path(parsed[i].0) == id.0,
        parsed[i].1.contains(id.1) || parsed[i].2.contains(id.1),
        forall|m: int|
            0 <= m < i && normal_path((#[trigger] parsed[m]).0) == id.0 ==> !parsed[m].1.contains(
                id.1,
            ) && !parsed[m].2.contains(id.1),
        with_key::<(NotePath, String)>(all_broken(parsed, index, assets), id).len() > 0,
        with_key::<(NotePath, String)>(all_broken(parsed, index, assets), id)[0].0 == parsed[i].0,
    decreases parsed.len(),
{
    let shorter = parsed.drop_last();
    let note = parsed.last();
    let before = all_broken(shorter, index, assets);
    let in_links = left_over(note.0, note.1, index, assets);
    let in_embeds = left_over(note.0, note.2, index, assets);
    lemma_with_key_concat::<(NotePath, String)>(before, in_links, id);
    lemma_with_key_concat::<(NotePath, String)>(before + in_links, in_embeds, id);
    lemma_with_key::<(NotePath, String)>(before, id);
    lemma_with_key::<(NotePath, String)>(in_links, id);
    lemma_with_key::<(NotePath, String)>(in_embeds, id);
    lemma_all_broken(shorter, index, assets, id);
    if is_broken(shorter, index, assets, id.0, id.1) {
        let i = lemma_first_broken(shorter, index, assets, id);
        assert(shorter[i] == parsed[i]);
        assert forall|m: int| 0 <= m < i && normal_path((#[trigger] parsed[m]).0) == id.0 implies !
        parsed[m].1.contains(id.1) && !parsed[m].2.contains(id.1) by {
            assert(shorter[m] == parsed[m]);
        }
        i
    } else {
        let last = parsed.len() - 1;
        let i = choose|i: int|
            0 <= i < parsed.len() && normal_path((#[trigger] parsed[i]).0) == id.0 && (
            parsed[i].1.contains(id.1) || parsed[i].2.contains(id.1));
        if i < last {
            assert(shorter[i] == parsed[i]);
        }
        assert forall|m: int| 0 <= m < last && normal_path((#[trigger] parsed[m]).0)
            == id.0 implies !parsed[m].1.contains(id.1) && !parsed[m].2.contains(id.1) by {
            assert(shorter[m] == parsed[m]);
        }
        lemma_left_over(note.0, note.1, index, assets, id);
        lemma_left_over(note.0, note.2, index, assets, id);
        lemma_left_over_source(note.0, note.1, index, assets);
        lemma_left_over_source(note.0, note.2, index, assets);
        let linked = with_key::<(NotePath, String)>(in_links, id);
        let embedded = with_key::<(NotePath, String)>(in_embeds, id);
        if linked.len() > 0 {
            assert(in_links.contains(linked[0]));
        } else {
            assert(in_embeds.contains(embedded[0]));
        }
        last
    }
}

proof fn lemma_left_over_source(
    source: Seq<char>,
    names: Seq<Seq<char>>,
    index: Map<Seq<char>, Seq<char>>,
    assets: Set<Seq<char>>,
)
    ensures
        forall|x: (Seq<char>, Seq<char>)| #[trigger]
            left_over(source, names, index, assets).contains(x) ==> x.0 == source,
    decreases names.len(),
{
    if names.len() > 0 {
        let before = left_over(source, names.drop_last(), index, assets);
        lemma_left_over_source(source, names.drop_last(), index, assets);
        assert forall|x: (Seq<char>, Seq<char>)| #[trigger]
            left_over(source, names, index, assets).contains(x) implies x.0 == source by {
            let all = left_over(source, names, index, assets);
            let k = choose|k: int| 0 <= k < all.len() && all[k] == x;
            if k < before.len() {
                assert(before.contains(before[k]));
            }
        }
    }
}

/// The notes at either end of a link or an embed that leads somewhere are no orphans.
pub proof fn law_linked_notes_are_no_orphans(
    analysis: Analysis,
    files: Seq<Seq<char>>,
    parsed: Seq<NoteView>,
    index: Map<Seq<char>, Seq<char>>,
    assets: Set<Seq<char>>,
    i: int,
    name: Seq<char>,
    k: int,
)
    requires
        is_analysis(analysis, files, parsed, index, assets),
        0 <= i < parsed.len(),
        parsed[i].1.contains(name) || parsed[i].2.contains(name),
        index.contains_key(name_key(name)),
        0 <= k < analysis.orphans@.len(),
    ensures
        !is_isolated(parsed, index, normal_path(parsed[i].0)),
        !is_isolated(parsed, index, normal_path(index[name_key(name)])),
        normal_path(analysis.orphans@[k]@) != normal_path(parsed[i].0),
        normal_path(analysis.orphans@[k]@) != normal_path(index[name_key(name)]),
{
    let source = normal_path(parsed[i].0);
    let target = normal_path(index[name_key(name)]);
    if parsed[i].1.contains(name) {
        let j = choose|j: int| 0 <= j < parsed[i].1.len() && parsed[i].1[j] == name;
        assert(is_link(parsed, index, source, target, i, j));
    } else {
        let j = choose|j: int| 0 <= j < parsed[i].2.len() && parsed[i].2[j] == name;
        assert(is_embed(parsed, index, source, target, i, j));
    }
    assert(touch(parsed, index, source, target));
    assert(touch(parsed, index, target, source));
    assert(analysis.orphans.deep_view()[k] == analysis.orphans@[k]@);
    lemma_orphans_are_isolated(analysis, files, parsed, index, assets, k);
}

proof fn lemma_orphans_are_isolated(
    analysis: Analysis,
    files: Seq<Seq<char>>,
    parsed: Seq<NoteView>,
    index: Map<Seq<char>, Seq<char>>,
    assets: Set<Seq<char>>,
    k: int,
)
    requires
        is_analysis(analysis, files, parsed, index, assets),
        0 <= k < analysis.orphans.deep_view().len(),
    ensures
        is_isolated(parsed, index, normal_path(analysis.orphans.deep_view()[k])),
        files.contains(analysis.orphans.deep_view()[k]),
{
    broadcast use vstd::seq_lib::group_to_multiset_ensures;

    let orphans = analysis.orphans.deep_view();
    let wanted = |f: Seq<char>| is_isolated(parsed, index, normal_path(f));
    let isolated = files.filter(wanted);
    law_sorting_keeps_all_values::<NotePath>(orphans, isolated);
    assert(orphans.contains(orphans[k]));
    assert(isolated.to_multiset().contains(orphans[k]));
    assert(isolated.contains(orphans[k]));
    let m = choose|m: int| 0 <= m < isolated.len() && isolated[m] == orphans[k];
    files.lemma_filter_pred(wanted, m);
    files.lemma_filter_contains_rev(wanted, orphans[k]);
}

/// A note that no link or embed stands in or leads to, of those that lead somewhere, is reported as
/// an orphan as often as it is among the files. Other notes are not reported.
pub proof fn law_unlinked_notes_are_orphans(
    analysis: Analysis,
    files: Seq<Seq<char>>,
    parsed: Seq<NoteView>,
    index: Map<Seq<char>, Seq<char>>,
    assets: Set<Seq<char>>,
    file: Seq<char>,
)
    requires
        is_analysis(analysis, files, parsed, index, assets),
    ensures
        analysis.orphans.deep_view().to_multiset().count(file) == if forall|i: int, name: Seq<char>|
            0 <= i < parsed.len() && index.contains_key(name_key(name)) && (
            (#[trigger] parsed[i]).1.contains(name) || parsed[i].2.contains(name)) ==> normal_path(
                parsed[i].0,
            ) != normal_path(file) && normal_path(index[#[trigger] name_key(name)]) != normal_path(
                file,
            ) {
            files.to_multiset().count(file)
        } else {
            0
        },
{
    let orphans = analysis.orphans.deep_view();
    let wanted = |f: Seq<char>| is_isolated(parsed, index, normal_path(f));
    let id = normal_path(file);
    law_sorting_keeps_all_values::<NotePath>(orphans, files.filter(wanted));
    lemma_filter_count(files, wanted, file);
    if forall|i: int, name: Seq<char>|
        0 <= i < parsed.len() && index.contains_key(name_key(name)) && (
        (#[trigger] parsed[i]).1.contains(name) || parsed[i].2.contains(name)) ==> normal_path(
            parsed[i].0,
        ) != id && normal_path(index[#[trigger] name_key(name)]) != id {
        assert forall|other: Seq<char>| !#[trigger] touch(parsed, index, id, other) by {
            if touch(parsed, index, id, other) {
                let (s, t) = if points_to(parsed, index, id, other) {
                    (id, other)
                } else {
                    (other, id)
                };
                if links_to(parsed, index, s, t) {
                    let (i, j) = choose|i: int, j: int| #[trigger]
                        is_link(parsed, index, s, t, i, j);
                    let name = parsed[i].1[j];
                    assert(parsed[i].1.contains(name));
                    assert(index.contains_key(name_key(name)));
                } else {
                    let (i, j) = choose|i: int, j: int| #[trigger]
                        is_embed(parsed, index, s, t, i, j);
                    let name = parsed[i].2[j];
                    assert(parsed[i].2.contains(name));
                    assert(index.contains_key(name_key(name)));
                }
            }
        }
        assert(wanted(file));
    } else {
        let (i, name) = choose|i: int, name: Seq<char>|
            0 <= i < parsed.len() && index.contains_key(name_key(name)) && (
            (#[trigger] parsed[i]).1.contains(name) || parsed[i].2.contains(name)) && !(normal_path(
                parsed[i].0,
            ) != id && normal_path(index[#[trigger] name_key(name)]) != id);
        let source = normal_path(parsed[i].0);
        let target = normal_path(index[name_key(name)]);
        if parsed[i].1.contains(name) {
            let j = choose|j: int| 0 <= j < parsed[i].1.len() && parsed[i].1[j] == name;
            assert(is_link(parsed, index, source, target, i, j));
        } else {
            let j = choose|j: int| 0 <= j < parsed[i].2.len() && parsed[i].2[j] == name;
            assert(is_embed(parsed, index, source, target, i, j));
        }
        assert(touch(parsed, index, source, target));
        assert(touch(parsed, index, target, source));
        assert(!wanted(file));
    }
}

proof fn lemma_filter_count<A>(s: Seq<A>, wanted: spec_fn(A) -> bool, x: A)
    ensures
        s.filter(wanted).to_multiset().count(x) == if wanted(x) {
            s.to_multiset().count(x)
        } else {
            0
        },
    decreases s.len(),
{
    broadcast use vstd::seq_lib::group_to_multiset_ensures;

    reveal(Seq::filter);
    if s.len() > 0 {
        lemma_filter_count(s.drop_last(), wanted, x);
        assert(s =~= s.drop_last().push(s.last()));
    }
}

/// One more note adds its embeds to the count and takes none away; without notes there are none.
pub proof fn law_each_embed_is_counted(
    a: Analysis,
    b: Analysis,
    a_files: Seq<Seq<char>>,
    b_files: Seq<Seq<char>>,
    parsed: Seq<NoteView>,
    note: NoteView,
    a_index: Map<Seq<char>, Seq<char>>,
    b_index: Map<Seq<char>, Seq<char>>,
    a_assets: Set<Seq<char>>,
    b_assets: Set<Seq<char>>,
)
    requires
        is_analysis(a, a_files, parsed, a_index, a_assets),
        is_analysis(b, b_files, parsed.push(note), b_index, b_assets),
    ensures
        b.embed_count == a.embed_count + note.2.len(),
        parsed.len() == 0 ==> a.embed_count == 0,
{
    assert(parsed.push(note).drop_last() =~= parsed);
}

/// The lists of an analysis are in order: pairs by the paths of their notes, then by the other
/// path or the name, and none twice; orphans by their paths.
pub proof fn law_lists_are_in_order(
    analysis: Analysis,
    files: Seq<Seq<char>>,
    parsed: Seq<NoteView>,
    index: Map<Seq<char>, Seq<char>>,
    assets: Set<Seq<char>>,
    k: int,
    l: int,
)
    requires
        is_analysis(analysis, files, parsed, index, assets),
        0 <= k < l,
    ensures
        l < analysis.missing_backlinks@.len() ==> {
            let (a, b) = (analysis.missing_backlinks@[k], analysis.missing_backlinks@[l]);
            path_before(normal_path(a.0@), normal_path(b.0@)) || (normal_path(a.0@) == normal_path(
                b.0@,
            ) && path_before(normal_path(a.1@), normal_path(b.1@)))
        },
        l < analysis.broken_links@.len() ==> {
            let (a, b) = (analysis.broken_links@[k], analysis.broken_links@[l]);
            path_before(normal_path(a.0@), normal_path(b.0@)) || (normal_path(a.0@) == normal_path(
                b.0@,
            ) && text_before(a.1@, b.1@))
        },
        l < analysis.orphans@.len() ==> !path_before(
            normal_path(analysis.orphans@[l]@),
            normal_path(analysis.orphans@[k]@),
        ),
{
    let missing = analysis.missing_backlinks.deep_view();
    let broken = analysis.broken_links.deep_view();
    let orphans = analysis.orphans.deep_view();
    if l < missing.len() {
        let all = keys::<(NotePath, NotePath)>(missing);
        assert(<(NotePath, NotePath)>::before(all[k], all[l]));
        assert(missing[k] == (
            analysis.missing_backlinks@[k].0@,
            analysis.missing_backlinks@[k].1@,
        ));
        assert(missing[l] == (
            analysis.missing_backlinks@[l].0@,
            analysis.missing_backlinks@[l].1@,
        ));
    }
    if l < broken.len() {
        let all = keys::<(NotePath, String)>(broken);
        assert(<(NotePath, String)>::before(all[k], all[l]));
        assert(broken[k] == (analysis.broken_links@[k].0@, analysis.broken_links@[k].1@));
        assert(broken[l] == (analysis.broken_links@[l].0@, analysis.broken_links@[l].1@));
    }
    if l < orphans.len() {
        let all = keys::<NotePath>(orphans);
        assert(!NotePath::before(all[l], all[k]));
    }
}

/// Orphans that are the same path stay in the order of the files, and so does their spelling.
pub proof fn law_orphans_keep_their_order(
    analysis: Analysis,
    files: Seq<Seq<char>>,
    parsed: Seq<NoteView>,
    index: Map<Seq<char>, Seq<char>>,
    assets: Set<Seq<char>>,
    path: Seq<char>,
)
    requires
        is_analysis(analysis, files, parsed, index, assets),
    ensures
        analysis.orphans.deep_view().filter(|f: Seq<char>| normal_path(f) == path) == files.filter(
            |f: Seq<char>| normal_path(f) == path && is_isolated(parsed, index, normal_path(f)),
        ),
{
    let orphans = analysis.orphans.deep_view();
    let here = |f: Seq<char>| normal_path(f) == path;
    let wanted = |f: Seq<char>| is_isolated(parsed, index, normal_path(f));
    let both = |f: Seq<char>| normal_path(f) == path && is_isolated(parsed, index, normal_path(f));
    lemma_with_key_is_filter(orphans, path);
    lemma_with_key_is_filter(files.filter(wanted), path);
    lemma_filter_twice(files, wanted, here, both);
}

proof fn lemma_with_key_is_filter(s: Seq<Seq<char>>, path: Seq<char>)
    ensures
        with_key::<NotePath>(s, path) == s.filter(|f: Seq<char>| normal_path(f) == path),
    decreases s.len(),
{
    reveal(Seq::filter);
    if s.len() > 0 {
        lemma_with_key_is_filter(s.drop_last(), path);
    }
}

proof fn lemma_filter_twice<A>(
    s: Seq<A>,
    f: spec_fn(A) -> bool,
    g: spec_fn(A) -> bool,
    both: spec_fn(A) -> bool,
)
    requires
        forall|x: A| #[trigger] both(x) == (f(x) && g(x)),
    ensures
        s.filter(f).filter(g) == s.filter(both),
    decreases s.len(),
{
    reveal(Seq::filter);
    if s.len() > 0 {
        let shorter = s.drop_last();
        lemma_filter_twice(shorter, f, g, both);
        assert(both(s.last()) == (f(s.last()) && g(s.last())));
        if f(s.last()) {
            assert(s.filter(f).drop_last() =~= shorter.filter(f));
        }
    }
}

/// The note that a missing backlink starts from is spelled as it is first among the files, where it
/// is one of them.
pub proof fn law_files_lend_their_spelling(
    analysis: Analysis,
    files: Seq<Seq<char>>,
    parsed: Seq<NoteView>,
    index: Map<Seq<char>, Seq<char>>,
    assets: Set<Seq<char>>,
    k: int,
    f: int,
)
    requires
        is_analysis(analysis, files, parsed, index, assets),
        0 <= k < analysis.missing_backlinks@.len(),
        0 <= f < files.len(),
        normal_path(files[f]) == normal_path(analysis.missing_backlinks@[k].0@),
        forall|g: int| 0 <= g < f ==> normal_path(#[trigger] files[g]) != normal_path(files[f]),
    ensures
        analysis.missing_backlinks@[k].0@ == files[f],
{
    let missing = analysis.missing_backlinks.deep_view();
    let paths = files + link_sources(all_links(parsed, index));
    assert(missing[k] == (
        analysis.missing_backlinks@[k].0@,
        analysis.missing_backlinks@[k].1@,
    ));
    assert(paths[f] == files[f]);
    assert forall|g: int| 0 <= g < f implies NotePath::key(#[trigger] paths[g]) != NotePath::key(
        paths[f],
    ) by {
        assert(paths[g] == files[g]);
    }
    lemma_first_with_key::<NotePath>(paths, f);
}

/// The other note of a missing backlink is spelled as the index has it.
pub proof fn law_the_index_lends_its_spelling(
    analysis: Analysis,
    files: Seq<Seq<char>>,
    parsed: Seq<NoteView>,
    index: Map<Seq<char>, Seq<char>>,
    assets: Set<Seq<char>>,
    k: int,
)
    requires
        is_analysis(analysis, files, parsed, index, assets),
        0 <= k < analysis.missing_backlinks@.len(),
    ensures
        exists|key: Seq<char>| #[trigger]
            index.contains_key(key) && index[key] == analysis.missing_backlinks@[k].1@,
{
    let missing = analysis.missing_backlinks.deep_view();
    let id = keys::<(NotePath, NotePath)>(missing)[k];
    let links = all_links(parsed, index);
    assert(missing[k] == (
        analysis.missing_backlinks@[k].0@,
        analysis.missing_backlinks@[k].1@,
    ));
    assert(keys::<(NotePath, NotePath)>(missing).contains(id));
    assert(misses_backlink(parsed, index, id.0, id.1));
    lemma_all_links(parsed, index, id);
    lemma_with_key::<(NotePath, NotePath)>(links, id);
    let link = with_key::<(NotePath, NotePath)>(links, id)[0];
    assert(links.contains(link));
    lemma_links_lead_to_the_index(parsed, index, link);
}

proof fn lemma_links_lead_to_the_index(
    parsed: Seq<NoteView>,
    index: Map<Seq<char>, Seq<char>>,
    link: (Seq<char>, Seq<char>),
)
    requires
        all_links(parsed, index).contains(link),
    ensures
        exists|key: Seq<char>| #[trigger] index.contains_key(key) && index[key] == link.1,
    decreases parsed.len(),
{
    if parsed.len() > 0 {
        let before = all_links(parsed.drop_last(), index);
        let here = followed(parsed.last().0, parsed.last().1, index);
        lemma_concat_contains(before, here, link);
        if before.contains(link) {
            lemma_links_lead_to_the_index(parsed.drop_last(), index, link);
        } else {
            lemma_followed_leads_to_the_index(parsed.last().0, parsed.last().1, index, link);
        }
    }
}

proof fn lemma_followed_leads_to_the_index(
    source: Seq<char>,
    names: Seq<Seq<char>>,
    index: Map<Seq<char>, Seq<char>>,
    link: (Seq<char>, Seq<char>),
)
    requires
        followed(source, names, index).contains(link),
    ensures
        exists|key: Seq<char>| #[trigger] index.contains_key(key) && index[key] == link.1,
    decreases names.len(),
{
    if names.len() > 0 {
        let before = followed(source, names.drop_last(), index);
        let all = followed(source, names, index);
        if before.contains(link) {
            lemma_followed_leads_to_the_index(source, names.drop_last(), index, link);
        } else {
            let k = choose|k: int| 0 <= k < all.len() && all[k] == link;
            if k < before.len() {
                assert(before[k] == link);
            }
            assert(index.contains_key(name_key(names.last())));
        }
    }
}

/// The other note of a missing backlink is spelled as the index has it for the name in the first
/// link from the one note to the other.
pub proof fn law_the_first_link_lends_its_spelling(
    analysis: Analysis,
    files: Seq<Seq<char>>,
    parsed: Seq<NoteView>,
    index: Map<Seq<char>, Seq<char>>,
    assets: Set<Seq<char>>,
    k: int,
    i: int,
    j: int,
)
    requires
        is_analysis(analysis, files, parsed, index, assets),
        0 <= k < analysis.missing_backlinks@.len(),
        0 <= i < parsed.len(),
        0 <= j < parsed[i].1.len(),
        normal_path(parsed[i].0) == normal_path(analysis.missing_backlinks@[k].0@),
        index.contains_key(name_key(parsed[i].1[j])),
        normal_path(index[name_key(parsed[i].1[j])]) == normal_path(
            analysis.missing_backlinks@[k].1@,
        ),
        forall|a: int, b: int|
            0 <= a <= i && 0 <= b < parsed[a].1.len() && (a < i || b < j) && normal_path(
                parsed[a].0,
            ) == normal_path(parsed[i].0) && index.contains_key(
                name_key(#[trigger] parsed[a].1[b]),
            ) ==> normal_path(index[name_key(parsed[a].1[b])]) != normal_path(
                index[name_key(parsed[i].1[j])],
            ),
    ensures
        analysis.missing_backlinks@[k].1@ == index[name_key(parsed[i].1[j])],
{
    let missing = analysis.missing_backlinks.deep_view();
    let id = (normal_path(parsed[i].0), normal_path(index[name_key(parsed[i].1[j])]));
    assert(missing[k] == (
        analysis.missing_backlinks@[k].0@,
        analysis.missing_backlinks@[k].1@,
    ));
    assert(keys::<(NotePath, NotePath)>(missing)[k] == id);
    assert forall|a: int, b: int|
        0 <= a <= i && 0 <= b < parsed[a].1.len() && (a < i || b < j) implies !#[trigger] is_link(
        parsed,
        index,
        id.0,
        id.1,
        a,
        b,
    ) by {
        assert(parsed[a].1[b] == parsed[a].1[b]);
    }
    lemma_first_link(parsed, index, id, i, j);
}

proof fn lemma_first_link(
    parsed: Seq<NoteView>,
    index: Map<Seq<char>, Seq<char>>,
    id: (Seq<char>, Seq<char>),
    i: int,
    j: int,
)
    requires
        is_link(parsed, index, id.0, id.1, i, j),
        forall|a: int, b: int|
            0 <= a <= i && 0 <= b < parsed[a].1.len() && (a < i || b < j) ==> !#[trigger] is_link(
                parsed,
                index,
                id.0,
                id.1,
                a,
                b,
            ),
    ensures
        with_key::<(NotePath, NotePath)>(all_links(parsed, index), id).len() > 0,
        with_key::<(NotePath, NotePath)>(all_links(parsed, index), id)[0].1
            == index[name_key(parsed[i].1[j])],
    decreases parsed.len(),
{
    let shorter = parsed.drop_last();
    let note = parsed.last();
    let before = all_links(shorter, index);
    let here = followed(note.0, note.1, index);
    lemma_with_key_concat::<(NotePath, NotePath)>(before, here, id);
    if i < shorter.len() {
        assert(is_link(shorter, index, id.0, id.1, i, j));
        assert forall|a: int, b: int|
            0 <= a <= i && 0 <= b < shorter[a].1.len() && (a < i || b < j) implies !#[trigger] is_link(
            shorter,
            index,
            id.0,
            id.1,
            a,
            b,
        ) by {
            assert(!is_link(parsed, index, id.0, id.1, a, b));
        }
        lemma_first_link(shorter, index, id, i, j);
    } else {
        lemma_all_links(shorter, index, id);
        lemma_with_key::<(NotePath, NotePath)>(before, id);
        if links_to(shorter, index, id.0, id.1) {
            let (a, b) = choose|a: int, b: int| #[trigger]
                is_link(shorter, index, id.0, id.1, a, b);
            assert(is_link(parsed, index, id.0, id.1, a, b));
        }
        assert forall|b: int| 0 <= b < j implies !leads_to(index, #[trigger] note.1[b], id.1) by {
            assert(!is_link(parsed, index, id.0, id.1, i, b));
        }
        lemma_first_followed(note.0, note.1, index, id, j);
    }
}

proof fn lemma_first_followed(
    source: Seq<char>,
    names: Seq<Seq<char>>,
    index: Map<Seq<char>, Seq<char>>,
    id: (Seq<char>, Seq<char>),
    j: int,
)
    requires
        0 <= j < names.len(),
        normal_path(source) == id.0,
        leads_to(index, names[j], id.1),
        forall|b: int| 0 <= b < j ==> !leads_to(index, #[trigger] names[b], id.1),
    ensures
        with_key::<(NotePath, NotePath)>(followed(source, names, index), id).len() > 0,
        with_key::<(NotePath, NotePath)>(followed(source, names, index), id)[0].1
            == index[name_key(names[j])],
    decreases names.len(),
{
    let shorter = names.drop_last();
    let before = followed(source, shorter, index);
    let all = followed(source, names, index);
    if all.len() > before.len() {
        assert(all.drop_last() =~= before);
    }
    if j < shorter.len() {
        assert(shorter[j] == names[j]);
        assert forall|b: int| 0 <= b < j implies !leads_to(index, #[trigger] shorter[b], id.1) by {
            assert(!leads_to(index, names[b], id.1));
        }
        lemma_first_followed(source, shorter, index, id, j);
    } else {
        lemma_followed(source, shorter, index, id);
        lemma_with_key::<(NotePath, NotePath)>(before, id);
        if exists|b: int| 0 <= b < shorter.len() && leads_to(index, #[trigger] shorter[b], id.1) {
            let b = choose|b: int|
                0 <= b < shorter.len() && leads_to(index, #[trigger] shorter[b], id.1);
            assert(!leads_to(index, names[b], id.1));
        }
        assert(names.last() == names[j]);
        assert(all.last() == (source, index[name_key(names[j])]));
    }
}

/// The note that a missing backlink starts from, where it is none of the files, is spelled as where
/// the first link that leads anywhere stands in it.
pub proof fn law_notes_outside_lend_their_own_spelling(
    analysis: Analysis,
    files: Seq<Seq<char>>,
    parsed: Seq<NoteView>,
    index: Map<Seq<char>, Seq<char>>,
    assets: Set<Seq<char>>,
    k: int,
    i: int,
    j: int,
)
    requires
        is_analysis(analysis, files, parsed, index, assets),
        0 <= k < analysis.missing_backlinks@.len(),
        forall|f: int|
            0 <= f < files.len() ==> normal_path(#[trigger] files[f]) != normal_path(
                analysis.missing_backlinks@[k].0@,
            ),
        0 <= i < parsed.len(),
        0 <= j < parsed[i].1.len(),
        normal_path(parsed[i].0) == normal_path(analysis.missing_backlinks@[k].0@),
        index.contains_key(name_key(parsed[i].1[j])),
        forall|a: int, b: int|
            0 <= a < i && 0 <= b < parsed[a].1.len() && normal_path(parsed[a].0) == normal_path(
                parsed[i].0,
            ) ==> !index.contains_key(name_key(#[trigger] parsed[a].1[b])),
    ensures
        analysis.missing_backlinks@[k].0@ == parsed[i].0,
{
    let missing = analysis.missing_backlinks.deep_view();
    let source = normal_path(parsed[i].0);
    let sources = link_sources(all_links(parsed, index));
    assert(missing[k] == (
        analysis.missing_backlinks@[k].0@,
        analysis.missing_backlinks@[k].1@,
    ));
    lemma_with_key_concat::<NotePath>(files, sources, source);
    lemma_with_key::<NotePath>(files, source);
    if keys::<NotePath>(files).contains(source) {
        let f = choose|f: int| 0 <= f < files.len() && keys::<NotePath>(files)[f] == source;
        assert(normal_path(files[f]) == source);
    }
    lemma_first_source(parsed, index, i, j);
}

proof fn lemma_first_source(
    parsed: Seq<NoteView>,
    index: Map<Seq<char>, Seq<char>>,
    i: int,
    j: int,
)
    requires
        0 <= i < parsed.len(),
        0 <= j < parsed[i].1.len(),
        index.contains_key(name_key(parsed[i].1[j])),
        forall|a: int, b: int|
            0 <= a < i && 0 <= b < parsed[a].1.len() && normal_path(parsed[a].0) == normal_path(
                parsed[i].0,
            ) ==> !index.contains_key(name_key(#[trigger] parsed[a].1[b])),
    ensures
        ({
            let with = with_key::<NotePath>(
                link_sources(all_links(parsed, index)),
                normal_path(parsed[i].0),
            );
            with.len() > 0 && with[0] == parsed[i].0
        }),
    decreases parsed.len(),
{
    let source = normal_path(parsed[i].0);
    let shorter = parsed.drop_last();
    let note = parsed.last();
    let before = all_links(shorter, index);
    let here = followed(note.0, note.1, index);
    assert(link_sources(before + here) =~= link_sources(before) + link_sources(here));
    lemma_with_key_concat::<NotePath>(link_sources(before), link_sources(here), source);
    if i < shorter.len() {
        assert(shorter[i] == parsed[i]);
        assert forall|a: int, b: int|
            0 <= a < i && 0 <= b < shorter[a].1.len() && normal_path(shorter[a].0) == normal_path(
                shorter[i].0,
            ) implies !index.contains_key(name_key(#[trigger] shorter[a].1[b])) by {
            assert(shorter[a].1[b] == parsed[a].1[b]);
        }
        lemma_first_source(shorter, index, i, j);
    } else {
        lemma_with_key::<NotePath>(link_sources(before), source);
        if keys::<NotePath>(link_sources(before)).contains(source) {
            let m = choose|m: int|
                0 <= m < before.len() && keys::<NotePath>(link_sources(before))[m] == source;
            let id = (source, normal_path(before[m].1));
            assert(keys::<(NotePath, NotePath)>(before)[m] == id);
            assert(keys::<(NotePath, NotePath)>(before).contains(id));
            lemma_all_links(shorter, index, id);
            let (a, b) = choose|a: int, b: int| #[trigger]
                is_link(shorter, index, id.0, id.1, a, b);
            assert(shorter[a].1[b] == parsed[a].1[b]);
        }
        lemma_followed_sources(note.0, note.1, index, j);
        let sources = link_sources(here);
        assert(sources[0] == note.0);
        lemma_first_with_key::<NotePath>(sources, 0);
    }
}

proof fn lemma_followed_sources(
    source: Seq<char>,
    names: Seq<Seq<char>>,
    index: Map<Seq<char>, Seq<char>>,
    j: int,
)
    requires
        0 <= j < names.len(),
        index.contains_key(name_key(names[j])),
    ensures
        followed(source, names, index).len() > 0,
        followed(source, names, index)[0].0 == source,
    decreases names.len(),
{
    let shorter = names.drop_last();
    if j < shorter.len() {
        assert(shorter[j] == names[j]);
        lemma_followed_sources(source, shorter, index, j);
    } else {
        lemma_all_from_source(source, shorter, index);
        let before = followed(source, shorter, index);
        assert(names.last() == names[j]);
        if before.len() > 0 {
            assert(before[0].0 == source);
        }
    }
}

proof fn lemma_all_from_source(
    source: Seq<char>,
    names: Seq<Seq<char>>,
    index: Map<Seq<char>, Seq<char>>,
)
    ensures
        forall|m: int|
            0 <= m < followed(source, names, index).len() ==> (#[trigger] followed(
                source,
                names,
                index,
            )[m]).0 == source,
    decreases names.len(),
{
    if names.len() > 0 {
        let before = followed(source, names.drop_last(), index);
        let all = followed(source, names, index);
        lemma_all_from_source(source, names.drop_last(), index);
        assert forall|m: int| 0 <= m < all.len() implies (#[trigger] all[m]).0 == source by {
            if m < before.len() {
                assert(all[m] == before[m]);
            }
        }
    }
}

} // verus!
