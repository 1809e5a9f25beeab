//! Paths of notes: how they are spelled, and which of them are the same.
use crate::order::Ranked;
use crate::text::{
    is_text_before, lemma_lexicographic_irreflexive, lemma_lexicographic_transitive,
    lemma_lexicographic_trichotomous, lemma_text_order, lexicographic, parts_ways,
    strict_total_order, text_before,
};
use vstd::prelude::*;

verus! {

/// The pieces of `text` between its slashes, in order: one more than it has slashes.
pub open spec fn segments(text: Seq<char>) -> Seq<Seq<char>>
    decreases text.len(),
{
    if text.len() == 0 {
        seq![Seq::<char>::empty()]
    } else {
        let before = segments(text.drop_last());
        if text.last() == '/' {
            before.push(Seq::<char>::empty())
        } else {
            before.drop_last().push(before.last().push(text.last()))
        }
    }
}

/// Pieces put together with a slash between each two.
pub open spec fn joined(pieces: Seq<Seq<char>>) -> Seq<char>
    decreases pieces.len(),
{
    if pieces.len() == 0 {
        Seq::<char>::empty()
    } else if pieces.len() == 1 {
        pieces[0]
    } else {
        joined(pieces.drop_last()) + seq!['/'] + pieces.last()
    }
}

/// Whether the segment at `position` counts as a component: the first one does, as the root
/// directory when it is empty; after it, empty segments and `.` do not.
pub open spec fn counts(position: int, segment: Seq<char>) -> bool {
    position == 0 || (segment.len() > 0 && segment != seq!['.'])
}

/// The segments that count as components.
pub open spec fn counting(pieces: Seq<Seq<char>>) -> Seq<Seq<char>>
    decreases pieces.len(),
{
    if pieces.len() == 0 {
        Seq::empty()
    } else {
        let before = counting(pieces.drop_last());
        if counts(pieces.len() - 1, pieces.last()) {
            before.push(pieces.last())
        } else {
            before
        }
    }
}

/// The components of a path. The root directory is the empty component, and can only come first.
pub open spec fn components(text: Seq<char>) -> Seq<Seq<char>> {
    if text.len() == 0 {
        Seq::empty()
    } else {
        counting(segments(text))
    }
}

/// A path written with these components.
pub open spec fn path_text(parts: Seq<Seq<char>>) -> Seq<char> {
    if parts == seq![Seq::<char>::empty()] {
        seq!['/']
    } else {
        joined(parts)
    }
}

/// The normal form of a path: its components and nothing else.
pub open spec fn normal_path(text: Seq<char>) -> Seq<char> {
    path_text(components(text))
}

/// There is no slash in `piece`.
pub open spec fn slash_free(piece: Seq<char>) -> bool {
    forall|i: int| 0 <= i < piece.len() ==> #[trigger] piece[i] != '/'
}

proof fn lemma_segments_nonempty(text: Seq<char>)
    ensures
        segments(text).len() > 0,
    decreases text.len(),
{
    if text.len() > 0 {
        lemma_segments_nonempty(text.drop_last());
    }
}

proof fn lemma_segments_slash_free(text: Seq<char>)
    ensures
        forall|i: int| 0 <= i < segments(text).len() ==> slash_free(#[trigger] segments(text)[i]),
    decreases text.len(),
{
    if text.len() > 0 {
        lemma_segments_slash_free(text.drop_last());
        lemma_segments_nonempty(text.drop_last());
        let before = segments(text.drop_last());
        assert(slash_free(before[before.len() - 1]));
    }
}

/// Splitting and joining again gives the text back.
pub proof fn lemma_joined_segments(text: Seq<char>)
    ensures
        joined(segments(text)) == text,
    decreases text.len(),
{
    if text.len() == 0 {
        assert(joined(segments(text)) =~= text);
    } else {
        let before = segments(text.drop_last());
        lemma_joined_segments(text.drop_last());
        lemma_segments_nonempty(text.drop_last());
        if text.last() == '/' {
            assert(segments(text).drop_last() =~= before);
            assert(joined(segments(text)) =~= text);
        } else {
            let last = before.last().push(text.last());
            assert(segments(text).drop_last() =~= before.drop_last());
            assert(segments(text).last() == last);
            assert(text.drop_last().push(text.last()) =~= text);
            if before.len() == 1 {
                assert(joined(segments(text)) =~= text);
            } else {
                let head = joined(before.drop_last()) + seq!['/'];
                assert(text.drop_last() == head + before.last());
                assert(joined(segments(text)) == head + last);
                assert(head + last =~= text);
            }
        }
    }
}

proof fn lemma_segments_append(head: Seq<char>, piece: Seq<char>)
    requires
        slash_free(piece),
    ensures
        segments(head + seq!['/'] + piece) == segments(head).push(piece),
    decreases piece.len(),
{
    let text = head + seq!['/'] + piece;
    lemma_segments_nonempty(head);
    if piece.len() == 0 {
        assert(piece =~= Seq::<char>::empty());
        assert(text.drop_last() =~= head);
        assert(text.last() == '/');
        assert(segments(text) =~= segments(head).push(piece));
    } else {
        let shorter = piece.drop_last();
        assert(slash_free(shorter)) by {
            assert forall|i: int| 0 <= i < shorter.len() implies #[trigger] shorter[i] != '/' by {
                assert(piece[i] != '/');
            }
        }
        lemma_segments_append(head, shorter);
        assert(text.drop_last() =~= head + seq!['/'] + shorter);
        assert(text.last() == piece[piece.len() - 1]);
        assert(shorter.push(piece.last()) =~= piece);
        assert(segments(text) =~= segments(head).push(piece));
    }
}

proof fn lemma_segments_single(piece: Seq<char>)
    requires
        slash_free(piece),
    ensures
        segments(piece) == seq![piece],
    decreases piece.len(),
{
    if piece.len() > 0 {
        let shorter = piece.drop_last();
        assert(slash_free(shorter)) by {
            assert forall|i: int| 0 <= i < shorter.len() implies #[trigger] shorter[i] != '/' by {
                assert(piece[i] != '/');
            }
        }
        lemma_segments_single(shorter);
        assert(piece[piece.len() - 1] != '/');
        assert(shorter.push(piece.last()) =~= piece);
        assert(segments(piece) =~= seq![piece]);
    } else {
        assert(piece =~= Seq::<char>::empty());
    }
}

/// Joining pieces without slashes and splitting again gives the pieces back.
pub proof fn lemma_segments_joined(pieces: Seq<Seq<char>>)
    requires
        pieces.len() > 0,
        forall|i: int| 0 <= i < pieces.len() ==> slash_free(#[trigger] pieces[i]),
    ensures
        segments(joined(pieces)) == pieces,
    decreases pieces.len(),
{
    if pieces.len() == 1 {
        lemma_segments_single(pieces[0]);
        assert(seq![pieces[0]] =~= pieces);
    } else {
        lemma_segments_joined(pieces.drop_last());
        lemma_segments_append(joined(pieces.drop_last()), pieces.last());
        assert(pieces.drop_last().push(pieces.last()) =~= pieces);
    }
}

/// What the components of a path are like: without slashes, and all but the first non-empty and
/// not `.`.
pub open spec fn proper_components(parts: Seq<Seq<char>>) -> bool {
    forall|i: int|
        0 <= i < parts.len() ==> slash_free(#[trigger] parts[i]) && (i == 0 || counts(i, parts[i]))
}

proof fn lemma_counting_proper(pieces: Seq<Seq<char>>)
    requires
        forall|i: int| 0 <= i < pieces.len() ==> slash_free(#[trigger] pieces[i]),
    ensures
        proper_components(counting(pieces)),
        pieces.len() > 0 ==> counting(pieces).len() > 0 && counting(pieces)[0] == pieces[0],
    decreases pieces.len(),
{
    if pieces.len() > 0 {
        lemma_counting_proper(pieces.drop_last());
        assert(slash_free(pieces[pieces.len() - 1]));
    }
}

proof fn lemma_counting_keeps(parts: Seq<Seq<char>>)
    requires
        proper_components(parts),
    ensures
        counting(parts) == parts,
    decreases parts.len(),
{
    if parts.len() > 0 {
        let shorter = parts.drop_last();
        assert(proper_components(shorter)) by {
            assert forall|i: int| 0 <= i < shorter.len() implies slash_free(
                #[trigger] shorter[i],
            ) && (i == 0 || counts(i, shorter[i])) by {
                assert(slash_free(parts[i]));
            }
        }
        lemma_counting_keeps(shorter);
        assert(slash_free(parts[parts.len() - 1]));
        assert(shorter.push(parts.last()) =~= parts);
    }
}

/// The components of any path are proper.
pub proof fn lemma_components_proper(text: Seq<char>)
    ensures
        proper_components(components(text)),
{
    lemma_segments_slash_free(text);
    if text.len() > 0 {
        lemma_counting_proper(segments(text));
    }
}

proof fn lemma_joined_nonempty(parts: Seq<Seq<char>>)
    requires
        proper_components(parts),
        parts.len() > 0,
        parts != seq![Seq::<char>::empty()],
    ensures
        joined(parts).len() > 0,
{
    if parts.len() == 1 {
        if parts[0].len() == 0 {
            assert(parts[0] =~= Seq::<char>::empty());
            assert(parts =~= seq![Seq::<char>::empty()]);
        }
    }
}

/// A path written with proper components has just these components.
pub proof fn lemma_components_path_text(parts: Seq<Seq<char>>)
    requires
        proper_components(parts),
    ensures
        components(path_text(parts)) == parts,
{
    if parts.len() == 0 {
        assert(parts != seq![Seq::<char>::empty()]);
        assert(components(path_text(parts)) =~= parts);
    } else if parts == seq![Seq::<char>::empty()] {
        let empty = Seq::<char>::empty();
        assert(slash_free(empty));
        lemma_segments_append(empty, empty);
        assert(empty + seq!['/'] + empty =~= seq!['/']);
        lemma_segments_single(empty);
        let both = seq![empty, empty];
        assert(segments(seq!['/']) =~= both);
        assert(both.drop_last() =~= seq![empty]);
        lemma_counting_keeps(seq![empty]);
        assert(counting(both) =~= seq![empty]);
    } else {
        lemma_joined_nonempty(parts);
        lemma_segments_joined(parts);
        lemma_counting_keeps(parts);
    }
}

/// The normal form has the components of the path, and is its own normal form.
pub proof fn lemma_normal_path(text: Seq<char>)
    ensures
        components(normal_path(text)) == components(text),
        normal_path(normal_path(text)) == normal_path(text),
{
    lemma_components_proper(text);
    lemma_components_path_text(components(text));
}

/// Where a segment stands among the kinds of components: the root directory, then `.`, then `..`,
/// then names.
pub open spec fn segment_rank(segment: Seq<char>) -> u8 {
    if segment.len() == 0 {
        0
    } else if segment == seq!['.'] {
        1
    } else if segment == seq!['.', '.'] {
        2
    } else {
        3
    }
}

/// The order of segments: by rank, and names by their text.
pub open spec fn segment_before(a: Seq<char>, b: Seq<char>) -> bool {
    segment_rank(a) < segment_rank(b) || (segment_rank(a) == segment_rank(b) && text_before(a, b))
}

/// The order of paths: segment by segment, not by their text. For paths in normal form that is
/// component by component.
pub open spec fn path_before(a: Seq<char>, b: Seq<char>) -> bool {
    lexicographic(
        segments(a),
        segments(b),
        |x: Seq<char>, y: Seq<char>| segment_before(x, y),
    )
}

proof fn lemma_segment_order()
    ensures
        strict_total_order(|x: Seq<char>, y: Seq<char>| segment_before(x, y)),
{
    lemma_text_order();
    let f = |x: Seq<char>, y: Seq<char>| text_before(x, y);
    let g = |x: Seq<char>, y: Seq<char>| segment_before(x, y);
    assert forall|x: Seq<char>| !#[trigger] g(x, x) by {
        assert(!f(x, x));
    }
    assert forall|x: Seq<char>, y: Seq<char>, z: Seq<char>| #[trigger]
        g(x, y) && #[trigger] g(y, z) implies g(x, z) by {
        if segment_rank(x) == segment_rank(y) && segment_rank(y) == segment_rank(z) {
            assert(f(x, y) && f(y, z));
            assert(f(x, z));
        }
    }
    assert forall|x: Seq<char>, y: Seq<char>| #[trigger] g(x, y) || x == y || g(y, x) by {
        assert(f(x, y) || x == y || f(y, x));
    }
}

/// One component of a path, with its rank.
#[derive(Debug)]
struct Segment {
    rank: u8,
    text: String,
}

/// The path of a note, spelled as it was given. Paths with the same normal form are the same path,
/// and paths are ordered by their normal forms.
#[derive(Debug)]
pub struct NotePath {
    spelling: String,
    text: String,
    pieces: Vec<Segment>,
}

spec fn piece_texts(pieces: Seq<Segment>) -> Seq<Seq<char>> {
    Seq::new(pieces.len(), |i: int| pieces[i].text@)
}

spec fn pieces_ranked(pieces: Seq<Segment>) -> bool {
    forall|i: int| 0 <= i < pieces.len() ==> (#[trigger] pieces[i]).rank == segment_rank(pieces[i].text@)
}

impl View for NotePath {
    type V = Seq<char>;

    closed spec fn view(&self) -> Seq<char> {
        self.spelling@
    }
}

impl DeepView for NotePath {
    type V = Seq<char>;

    open spec fn deep_view(&self) -> Seq<char> {
        self@
    }
}

/// The characters of `text`, one by one.
fn characters(text: &str) -> (out: Vec<char>)
    ensures
        out@ == text@,
{
    let mut out: Vec<char> = Vec::new();
    for c in it: text.chars()
        invariant
            out@ == text@.take(it.index()),
            it.seq() == text@,
    {
        proof {
            assert(text@.take(it.index() + 1) =~= text@.take(it.index()).push(c));
        }
        out.push(c);
    }
    proof {
        assert(text@.take(text@.len() as int) =~= text@);
    }
    out
}

/// The segment of `text` from character `start` to `end`, with its rank.
fn segment_of(text: &str, letters: &Vec<char>, start: usize, end: usize) -> (out: Segment)
    requires
        letters@ == text@,
        start <= end <= letters.len(),
    ensures
        out.text@ == text@.subrange(start as int, end as int),
        out.rank == segment_rank(out.text@),
{
    let ghost piece = text@.subrange(start as int, end as int);
    let rank: u8 = if end == start {
        0
    } else if end - start == 1 && letters[start] == '.' {
        1
    } else if end - start == 2 && letters[start] == '.' && letters[start + 1] == '.' {
        2
    } else {
        3
    };
    proof {
        if rank == 1 {
            assert(piece =~= seq!['.']);
        } else if rank == 2 {
            assert(piece =~= seq!['.', '.']);
        } else if rank == 3 {
            assert(piece[0] == letters[start as int]);
            if end - start == 2 {
                assert(piece[1] == letters[start + 1]);
            }
        }
    }
    Segment { rank, text: text.substring_char(start, end).to_owned() }
}

/// Adds a segment to those before it if it counts as a component.
fn add_segment(
    parts: &mut Vec<Segment>,
    segment: Segment,
    Ghost(before): Ghost<Seq<Seq<char>>>,
    first: bool,
)
    requires
        pieces_ranked(old(parts)@),
        segment.rank == segment_rank(segment.text@),
        piece_texts(old(parts)@) == counting(before),
        first == (before.len() == 0),
    ensures
        pieces_ranked(final(parts)@),
        piece_texts(final(parts)@) == counting(before.push(segment.text@)),
{
    let ghost text = segment.text@;
    let ghost old_parts = parts@;
    proof {
        assert(before.push(text).drop_last() =~= before);
        assert(segment.rank > 1 <==> text.len() > 0 && text != seq!['.']);
    }
    if first || segment.rank > 1 {
        parts.push(segment);
        proof {
            assert(piece_texts(parts@) =~= piece_texts(old_parts).push(text));
        }
    }
}

/// The components of a path.
fn components_of(text: &str) -> (parts: Vec<Segment>)
    ensures
        pieces_ranked(parts@),
        piece_texts(parts@) == components(text@),
{
    let letters = characters(text);
    let mut parts: Vec<Segment> = Vec::new();
    proof {
        assert(piece_texts(parts@) =~= Seq::<Seq<char>>::empty());
    }
    if letters.len() == 0 {
        return parts;
    }
    let mut start: usize = 0;
    let mut i: usize = 0;
    let ghost mut done: Seq<Seq<char>> = Seq::empty();
    proof {
        assert(text@.take(0) =~= Seq::<char>::empty());
        assert(text@.subrange(0, 0) =~= Seq::<char>::empty());
        assert(segments(text@.take(0)) =~= done.push(text@.subrange(0, 0)));
    }
    while i < letters.len()
        invariant
            letters@ == text@,
            start <= i <= letters.len(),
            segments(text@.take(i as int)) == done.push(text@.subrange(start as int, i as int)),
            start == 0 <==> done.len() == 0,
            pieces_ranked(parts@),
            piece_texts(parts@) == counting(done),
        decreases letters.len() - i,
    {
        proof {
            let next = text@.take(i + 1);
            let piece = text@.subrange(start as int, i as int);
            assert(next.drop_last() =~= text@.take(i as int));
            assert(next.last() == letters@[i as int]);
            if letters@[i as int] == '/' {
                assert(text@.subrange(i + 1, i + 1) =~= Seq::<char>::empty());
                assert(segments(next) =~= done.push(piece).push(text@.subrange(i + 1, i + 1)));
            } else {
                assert(done.push(piece).drop_last() =~= done);
                assert(piece.push(letters@[i as int]) =~= text@.subrange(start as int, i + 1));
                assert(segments(next) =~= done.push(text@.subrange(start as int, i + 1)));
            }
        }
        if letters[i] == '/' {
            let segment = segment_of(text, &letters, start, i);
            let ghost piece = segment.text@;
            add_segment(&mut parts, segment, Ghost(done), start == 0);
            proof {
                done = done.push(piece);
            }
            start = i + 1;
        }
        i += 1;
    }
    let segment = segment_of(text, &letters, start, i);
    add_segment(&mut parts, segment, Ghost(done), start == 0);
    proof {
        assert(text@.take(i as int) =~= text@);
    }
    parts
}

/// The components written out, with a slash between each two.
fn joined_text(parts: &Vec<Segment>) -> (out: String)
    ensures
        out@ == joined(piece_texts(parts@)),
{
    let ghost texts = piece_texts(parts@);
    let mut out = String::new();
    let mut i: usize = 0;
    proof {
        assert(texts.take(0) =~= Seq::<Seq<char>>::empty());
    }
    while i < parts.len()
        invariant
            texts == piece_texts(parts@),
            i <= parts.len(),
            out@ == joined(texts.take(i as int)),
        decreases parts.len() - i,
    {
        proof {
            assert(texts.take(i + 1).drop_last() =~= texts.take(i as int));
            assert(texts.take(i + 1).last() == parts@[i as int].text@);
            reveal_strlit("/");
            assert("/"@ =~= seq!['/']);
            if i == 0 {
                assert(out@ + parts@[0].text@ =~= parts@[0].text@);
            }
        }
        if i > 0 {
            out.append("/");
        }
        out.append(parts[i].text.as_str());
        i += 1;
    }
    proof {
        assert(texts.take(i as int) =~= texts);
    }
    out
}

fn empty_segment() -> (out: Segment)
    ensures
        out.text@ == Seq::<char>::empty(),
        out.rank == segment_rank(out.text@),
{
    Segment { rank: 0, text: String::new() }
}

impl NotePath {
    #[verifier::type_invariant]
    closed spec fn well_formed(self) -> bool {
        &&& self.text@ == normal_path(self.spelling@)
        &&& piece_texts(self.pieces@) == segments(self.text@)
        &&& pieces_ranked(self.pieces@)
    }

    /// The path that is spelled so.
    pub fn new(spelling: &str) -> (out: NotePath)
        ensures
            out@ == spelling@,
    {
        let mut pieces = components_of(spelling);
        let ghost parts = components(spelling@);
        proof {
            lemma_components_proper(spelling@);
        }
        if pieces.len() == 0 {
            pieces.push(empty_segment());
            let text = String::new();
            proof {
                assert(parts =~= Seq::<Seq<char>>::empty());
                assert(normal_path(spelling@) =~= text@);
                assert(piece_texts(pieces@) =~= segments(text@));
            }
            NotePath { spelling: spelling.to_owned(), text, pieces }
        } else if pieces.len() == 1 && pieces[0].rank == 0 {
            pieces.push(empty_segment());
            let text = "/".to_owned();
            proof {
                let empty = Seq::<char>::empty();
                reveal_strlit("/");
                assert(text@ =~= seq!['/']);
                assert(parts[0] =~= empty);
                assert(parts =~= seq![empty]);
                assert(normal_path(spelling@) == text@);
                assert(text@.drop_last() =~= empty);
                assert(segments(empty) =~= seq![empty]);
                assert(piece_texts(pieces@) =~= segments(text@));
            }
            NotePath { spelling: spelling.to_owned(), text, pieces }
        } else {
            let text = joined_text(&pieces);
            proof {
                if parts.len() == 1 {
                    assert(parts[0] == pieces@[0].text@);
                    if parts == seq![Seq::<char>::empty()] {
                        assert(parts[0] == Seq::<char>::empty());
                    }
                }
                assert(forall|i: int| 0 <= i < parts.len() ==> slash_free(#[trigger] parts[i]));
                lemma_segments_joined(parts);
            }
            NotePath { spelling: spelling.to_owned(), text, pieces }
        }
    }

    /// The path as it was given.
    pub fn spelling(&self) -> (out: &str)
        ensures
            out@ == self@,
    {
        self.spelling.as_str()
    }

    /// The normal form of the path: repeated and trailing slashes, and `.` anywhere but at the
    /// beginning, are dropped.
    pub fn text(&self) -> (out: &str)
        ensures
            out@ == normal_path(self@),
    {
        proof {
            use_type_invariant(self);
        }
        self.text.as_str()
    }
}

impl PartialEq for NotePath {
    fn eq(&self, other: &NotePath) -> (r: bool) {
        proof {
            use_type_invariant(self);
            use_type_invariant(other);
        }
        self.text == other.text
    }
}

impl vstd::std_specs::cmp::PartialEqSpecImpl for NotePath {
    open spec fn obeys_eq_spec() -> bool {
        true
    }

    open spec fn eq_spec(&self, other: &NotePath) -> bool {
        normal_path(self@) == normal_path(other@)
    }
}

impl Eq for NotePath {

}

impl Clone for NotePath {
    fn clone(&self) -> (out: NotePath)
        ensures
            out@ == self@,
    {
        proof {
            use_type_invariant(self);
        }
        let mut pieces: Vec<Segment> = Vec::new();
        let mut i: usize = 0;
        while i < self.pieces.len()
            invariant
                i <= self.pieces.len(),
                pieces_ranked(self.pieces@),
                pieces_ranked(pieces@),
                piece_texts(pieces@) == piece_texts(self.pieces@).take(i as int),
            decreases self.pieces.len() - i,
        {
            let ghost before = piece_texts(pieces@);
            assert(pieces@.len() == before.len());
            pieces.push(Segment { rank: self.pieces[i].rank, text: self.pieces[i].text.clone() });
            proof {
                assert(piece_texts(pieces@) =~= before.push(self.pieces@[i as int].text@));
                assert(piece_texts(self.pieces@).take(i + 1) =~= before.push(
                    self.pieces@[i as int].text@,
                ));
            }
            i += 1;
        }
        proof {
            assert(piece_texts(self.pieces@).take(i as int) =~= piece_texts(self.pieces@));
        }
        NotePath { spelling: self.spelling.clone(), text: self.text.clone(), pieces }
    }
}

impl Ranked for NotePath {
    type Key = Seq<char>;

    open spec fn key(v: Seq<char>) -> Seq<char> {
        normal_path(v)
    }

    open spec fn before(a: Seq<char>, b: Seq<char>) -> bool {
        path_before(a, b)
    }

    proof fn irreflexive(a: Seq<char>) {
        lemma_segment_order();
        lemma_lexicographic_irreflexive(
            segments(a),
            |x: Seq<char>, y: Seq<char>| segment_before(x, y),
        );
    }

    proof fn transitive(a: Seq<char>, b: Seq<char>, c: Seq<char>) {
        lemma_segment_order();
        lemma_lexicographic_transitive(
            segments(a),
            segments(b),
            segments(c),
            |x: Seq<char>, y: Seq<char>| segment_before(x, y),
        );
    }

    proof fn trichotomous(a: Seq<char>, b: Seq<char>) {
        lemma_segment_order();
        lemma_lexicographic_trichotomous(
            segments(a),
            segments(b),
            |x: Seq<char>, y: Seq<char>| segment_before(x, y),
        );
        lemma_joined_segments(a);
        lemma_joined_segments(b);
    }

    fn is_before(&self, other: &Self) -> (r: bool) {
        proof {
            use_type_invariant(self);
            use_type_invariant(other);
        }
        let ghost smaller = |x: Seq<char>, y: Seq<char>| segment_before(x, y);
        let ghost a = segments(normal_path(self@));
        let ghost b = segments(normal_path(other@));
        let mut i: usize = 0;
        while i < self.pieces.len() && i < other.pieces.len()
            invariant
                i <= self.pieces.len(),
                i <= other.pieces.len(),
                a == piece_texts(self.pieces@),
                b == piece_texts(other.pieces@),
                a == segments(normal_path(self.deep_view())),
                b == segments(normal_path(other.deep_view())),
                smaller == (|x: Seq<char>, y: Seq<char>| segment_before(x, y)),
                pieces_ranked(self.pieces@),
                pieces_ranked(other.pieces@),
                forall|j: int| 0 <= j < i ==> #[trigger] a[j] == b[j],
            decreases self.pieces.len() - i,
        {
            let mine = &self.pieces[i];
            let theirs = &other.pieces[i];
            proof {
                assert(a[i as int] == mine.text@);
                assert(b[i as int] == theirs.text@);
                lemma_segment_order();
                assert(smaller(a[i as int], b[i as int]) || a[i as int] == b[i as int] || smaller(
                    b[i as int],
                    a[i as int],
                ));
            }
            if mine.rank < theirs.rank || (mine.rank == theirs.rank && is_text_before(
                mine.text.as_str(),
                theirs.text.as_str(),
            )) {
                proof {
                    assert(smaller(a[i as int], b[i as int]));
                    assert(parts_ways(a, b, smaller, i as int));
                }
                return true;
            }
            if theirs.rank < mine.rank || is_text_before(
                theirs.text.as_str(),
                mine.text.as_str(),
            ) {
                proof {
                    assert(smaller(b[i as int], a[i as int]));
                    assert(a[i as int] != b[i as int]) by {
                        assert(!smaller(a[i as int], a[i as int]));
                    }
                    lemma_no_parting(a, b, smaller, i as int);
                }
                return false;
            }
            i += 1;
        }
        let r: bool = i == self.pieces.len() && i < other.pieces.len();
        proof {
            if r {
                assert(parts_ways(a, b, smaller, i as int));
            } else {
                lemma_segment_order();
                lemma_no_parting(a, b, smaller, i as int);
            }
        }
        r
    }
}

/// Where two sequences first differ, the order is decided.
proof fn lemma_no_parting(
    a: Seq<Seq<char>>,
    b: Seq<Seq<char>>,
    smaller: spec_fn(Seq<char>, Seq<char>) -> bool,
    at: int,
)
    requires
        strict_total_order(smaller),
        0 <= at <= a.len(),
        at <= b.len(),
        forall|j: int| 0 <= j < at ==> #[trigger] a[j] == b[j],
        at == b.len() || (at < a.len() && a[at] != b[at] && !smaller(a[at], b[at])),
    ensures
        !lexicographic(a, b, smaller),
{
    if lexicographic(a, b, smaller) {
        let k = choose|k: int| #[trigger] parts_ways(a, b, smaller, k);
        if k < at {
            assert(a[k] == b[k]);
            assert(!smaller(a[k], a[k]));
        } else if at < k {
            assert(a[at] == b[at]);
        }
    }
}

/// The name of the file that a path leads to: its last component, when that is a name.
pub open spec fn file_name(text: Seq<char>) -> Option<Seq<char>> {
    let parts = components(text);
    if parts.len() > 0 && segment_rank(parts.last()) == 3 {
        Some(parts.last())
    } else {
        None
    }
}

/// The position of the last dot of a name, or -1.
pub open spec fn last_dot(name: Seq<char>) -> int
    decreases name.len(),
{
    if name.len() == 0 {
        -1
    } else if name.last() == '.' {
        name.len() - 1
    } else {
        last_dot(name.drop_last())
    }
}

/// The name of a file without its extension: what stands before the last dot, unless that dot is
/// missing or comes first.
pub open spec fn file_stem(text: Seq<char>) -> Option<Seq<char>> {
    match file_name(text) {
        Some(name) => if last_dot(name) > 0 {
            Some(name.take(last_dot(name)))
        } else {
            Some(name)
        },
        None => None,
    }
}

/// `path` begins with `root`, component by component.
pub open spec fn lies_under(root: Seq<char>, path: Seq<char>) -> bool {
    let above = components(root);
    above.len() <= components(path).len() && components(path).take(above.len() as int) == above
}

/// What `trama::relativize` makes of a path under `root` that is not in normal form: what
/// `std::path::Path::strip_prefix` leaves of its spelling.
pub uninterp spec fn stripped(root: Seq<char>, path: Seq<char>) -> Seq<char>;

/// `path` as seen from `root`: what follows `root`, or all of `path` as it is spelled when it does
/// not lie under `root`.
pub open spec fn relative_path(root: Seq<char>, path: Seq<char>) -> Seq<char> {
    if !lies_under(root, path) {
        path
    } else if normal_path(path) == path {
        path_text(components(path).skip(components(root).len() as int))
    } else {
        stripped(root, path)
    }
}

/// `trama::relativize`: removes `root` from the beginning of `path` if `path` starts with the
/// components of `root`, and returns `path` as it is spelled if not. What is left has the other
/// components of `path`, and for a path in normal form just these, with slashes between them. How
/// what is left of any other path is spelled has a name only.
#[verifier::external_body]
fn relativize(root: &str, path: &str) -> (out: String)
    ensures
        !lies_under(root@, path@) ==> out@ == path@,
        lies_under(root@, path@) && normal_path(path@) == path@ ==> out@ == path_text(
            components(path@).skip(components(root@).len() as int),
        ),
        lies_under(root@, path@) && normal_path(path@) != path@ ==> out@ == stripped(
            root@,
            path@,
        ),
        lies_under(root@, path@) ==> components(out@) == components(path@).skip(
            components(root@).len() as int,
        ),
{
    trama::relativize(std::path::Path::new(root), std::path::Path::new(path))
}

/// A path in normal form is split at its slashes into its components, but for the empty path and
/// the root directory.
proof fn lemma_normal_segments(text: Seq<char>)
    requires
        normal_path(text) == text,
    ensures
        segments(text).len() > 0,
        components(text).len() == 0 ==> segment_rank(segments(text).last()) == 0,
        components(text) == seq![Seq::<char>::empty()] ==> segment_rank(segments(text).last()) == 0,
        components(text).len() > 0 && components(text) != seq![Seq::<char>::empty()]
            ==> segments(text) == components(text),
{
    let parts = components(text);
    lemma_components_proper(text);
    lemma_segments_nonempty(text);
    if parts.len() == 0 {
        assert(text =~= Seq::<char>::empty());
    } else if parts == seq![Seq::<char>::empty()] {
        assert(text == seq!['/']);
        assert(text.drop_last() =~= Seq::<char>::empty());
    } else {
        assert(forall|i: int| 0 <= i < parts.len() ==> slash_free(#[trigger] parts[i]));
        lemma_segments_joined(parts);
    }
}

impl NotePath {
    /// The path as seen from the directory `root`.
    pub fn relative_to(&self, root: &str) -> (out: String)
        ensures
            out@ == relative_path(root@, self@),
            lies_under(root@, self@) ==> components(out@) == components(self@).skip(
                components(root@).len() as int,
            ),
    {
        relativize(root, self.spelling.as_str())
    }

    /// The name of the file that the path leads to.
    pub fn file_name(&self) -> (out: Option<&str>)
        ensures
            match out {
                Some(name) => file_name(self@) == Some(name@),
                None => file_name(self@) is None,
            },
    {
        proof {
            use_type_invariant(self);
            let text = normal_path(self@);
            lemma_normal_path(self@);
            lemma_normal_segments(text);
            assert(segments(text).last() == self.pieces@[self.pieces@.len() - 1].text@);
            if components(self@) == seq![Seq::<char>::empty()] {
                assert(components(self@).last().len() == 0);
            }
        }
        let last = &self.pieces[self.pieces.len() - 1];
        if last.rank == 3 {
            Some(last.text.as_str())
        } else {
            None
        }
    }
}

proof fn lemma_shortest_paths_first(a: Seq<char>, b: Seq<char>)
    requires
        normal_path(a) == a,
        normal_path(b) == b,
        components(a).len() == 0 || components(a) == seq![Seq::<char>::empty()],
        a != b,
    ensures
        ({
            let smaller = |x: Seq<char>, y: Seq<char>| segment_before(x, y);
            let forth = components(a).len() == 0 || components(b).len() > 0;
            &&& path_before(a, b) == forth
            &&& lexicographic(components(a), components(b), smaller) == forth
        }),
{
    let smaller = |x: Seq<char>, y: Seq<char>| segment_before(x, y);
    let root = Seq::<char>::empty();
    let (ca, cb) = (components(a), components(b));
    let (sa, sb) = (segments(a), segments(b));
    lemma_segment_order();
    lemma_normal_segments(a);
    lemma_normal_segments(b);
    lemma_components_proper(b);
    assert(segments(root) =~= seq![root]);
    if ca.len() == 0 {
        assert(ca =~= Seq::<Seq<char>>::empty());
        assert(a =~= root);
        assert(cb.len() > 0) by {
            if cb.len() == 0 {
                assert(cb =~= Seq::<Seq<char>>::empty());
            }
        }
        assert(parts_ways(ca, cb, smaller, 0));
        assert(sa =~= seq![root]);
    } else {
        assert(a == seq!['/']);
        assert(a.drop_last() =~= root);
        assert(sa =~= seq![root, root]);
    }
    if cb.len() == 0 {
        assert(b =~= root);
        assert(sb =~= seq![root]);
        lemma_no_parting(ca, cb, smaller, 0);
        lemma_no_parting(sa, sb, smaller, 1);
    } else if cb == seq![root] {
        assert(b == seq!['/']);
        assert(b.drop_last() =~= root);
        assert(sb =~= seq![root, root]);
        assert(parts_ways(sa, sb, smaller, 1));
    } else {
        assert(sb == cb);
        if sb[0].len() == 0 {
            assert(sb[0] =~= root);
            assert(sb.len() > 1) by {
                if sb.len() == 1 {
                    assert(sb =~= seq![root]);
                }
            }
            assert(counts(1, sb[1]));
            assert(smaller(root, sb[1]));
            assert(parts_ways(sa, sb, smaller, 1));
            if ca.len() > 0 {
                assert(parts_ways(ca, cb, smaller, 1));
            }
        } else {
            assert(smaller(root, sb[0]));
            assert(parts_ways(sa, sb, smaller, 0));
            assert(parts_ways(ca, cb, smaller, 0));
        }
    }
}

/// Paths in normal form are ordered by their components.
pub proof fn law_paths_are_ordered_by_components(a: Seq<char>, b: Seq<char>)
    requires
        normal_path(a) == a,
        normal_path(b) == b,
    ensures
        path_before(a, b) == lexicographic(
            components(a),
            components(b),
            |x: Seq<char>, y: Seq<char>| segment_before(x, y),
        ),
{
    let smaller = |x: Seq<char>, y: Seq<char>| segment_before(x, y);
    let root = seq![Seq::<char>::empty()];
    lemma_segment_order();
    if a == b {
        lemma_lexicographic_irreflexive(segments(a), smaller);
        lemma_lexicographic_irreflexive(components(a), smaller);
    } else if components(a).len() == 0 || components(a) == root {
        lemma_shortest_paths_first(a, b);
    } else if components(b).len() == 0 || components(b) == root {
        lemma_shortest_paths_first(b, a);
        if path_before(a, b) {
            lemma_lexicographic_transitive(segments(a), segments(b), segments(a), smaller);
            lemma_lexicographic_irreflexive(segments(a), smaller);
        }
        if lexicographic(components(a), components(b), smaller) {
            lemma_lexicographic_transitive(components(a), components(b), components(a), smaller);
            lemma_lexicographic_irreflexive(components(a), smaller);
        }
    } else {
        lemma_normal_segments(a);
        lemma_normal_segments(b);
    }
}

proof fn lemma_segments_concat(a: Seq<char>, b: Seq<char>)
    ensures
        segments(a + seq!['/'] + b) == segments(a) + segments(b),
        segments(a).len() > 0,
    decreases b.len(),
{
    let text = a + seq!['/'] + b;
    lemma_segments_nonempty(a);
    lemma_segments_nonempty(b);
    if b.len() == 0 {
        assert(text.drop_last() =~= a);
        assert(text.last() == '/');
        assert(b =~= Seq::<char>::empty());
        assert(segments(text) =~= segments(a) + segments(b));
    } else {
        let shorter = b.drop_last();
        lemma_segments_concat(a, shorter);
        lemma_segments_nonempty(shorter);
        assert(text.drop_last() =~= a + seq!['/'] + shorter);
        assert(text.last() == b.last());
        assert(segments(text) =~= segments(a) + segments(b));
    }
}

proof fn lemma_counting_skips(p: Seq<Seq<char>>, e: Seq<char>, q: Seq<Seq<char>>)
    requires
        p.len() > 0,
        e.len() == 0 || e == seq!['.'],
    ensures
        counting(p + seq![e] + q) == counting(p + q),
    decreases q.len(),
{
    let long = p + seq![e] + q;
    let short = p + q;
    if q.len() == 0 {
        assert(long.drop_last() =~= short);
        assert(long.last() == e);
    } else {
        let r = q.drop_last();
        lemma_counting_skips(p, e, r);
        assert(long.drop_last() =~= p + seq![e] + r);
        assert(short.drop_last() =~= p + r);
        assert(long.last() == q.last() && short.last() == q.last());
    }
}

proof fn lemma_no_components()
    ensures
        segments(Seq::<char>::empty()) == seq![Seq::<char>::empty()],
        segments(seq!['.']) == seq![seq!['.']],
{
    lemma_segments_single(Seq::<char>::empty());
    lemma_segments_single(seq!['.']);
}

/// Repeated and trailing slashes, and `.` between slashes, do not make another path.
pub proof fn law_idle_slashes_and_dots_do_not_matter(a: Seq<char>, b: Seq<char>)
    requires
        a.len() > 0,
    ensures
        normal_path(a + seq!['/', '/'] + b) == normal_path(a + seq!['/'] + b),
        normal_path(a + seq!['/', '.', '/'] + b) == normal_path(a + seq!['/'] + b),
        normal_path(a + seq!['/']) == normal_path(a),
        normal_path(a + seq!['/', '.']) == normal_path(a),
{
    let none = Seq::<char>::empty();
    let dot = seq!['.'];
    lemma_no_components();
    lemma_segments_concat(a, b);
    assert(a + seq!['/', '/'] + b =~= (a + seq!['/'] + none) + seq!['/'] + b);
    lemma_segments_concat(a, none);
    lemma_segments_concat(a + seq!['/'] + none, b);
    lemma_counting_skips(segments(a), none, segments(b));
    assert(a + seq!['/', '.', '/'] + b =~= (a + seq!['/'] + dot) + seq!['/'] + b);
    lemma_segments_concat(a, dot);
    lemma_segments_concat(a + seq!['/'] + dot, b);
    lemma_counting_skips(segments(a), dot, segments(b));
    assert(a + seq!['/'] =~= a + seq!['/'] + none);
    assert(a + seq!['/', '.'] =~= a + seq!['/'] + dot);
    let no_more = Seq::<Seq<char>>::empty();
    lemma_counting_skips(segments(a), none, no_more);
    lemma_counting_skips(segments(a), dot, no_more);
    assert(segments(a) + no_more =~= segments(a));
    assert(segments(a) + seq![none] + no_more =~= segments(a) + seq![none]);
    assert(segments(a) + seq![dot] + no_more =~= segments(a) + seq![dot]);
}

/// A component that is a name.
pub open spec fn is_name(piece: Seq<char>) -> bool {
    piece.len() > 0 && !piece.contains('/') && piece != seq!['.'] && piece != seq!['.', '.']
}

proof fn lemma_names_count(p: Seq<Seq<char>>, piece: Seq<char>)
    requires
        p.len() > 0,
        piece.len() > 0,
        piece != seq!['.'],
    ensures
        counting(p + seq![piece]) == counting(p).push(piece),
{
    assert((p + seq![piece]).drop_last() =~= p);
}

/// What follows a slash is one more component, if it is a name: the name of the file. Without what
/// comes after its last dot, unless nothing comes before, it is the name that the file is found by.
pub proof fn law_the_last_name_is_the_file_name(
    dir: Seq<char>,
    stem: Seq<char>,
    extension: Seq<char>,
)
    requires
        dir.len() > 0,
        is_name(stem),
        !extension.contains('/'),
        !extension.contains('.'),
    ensures
        components(dir + seq!['/'] + stem) == components(dir).push(stem),
        file_name(dir + seq!['/'] + stem) == Some(stem),
        file_name(stem) == Some(stem),
        !stem.contains('.') ==> file_stem(dir + seq!['/'] + stem) == Some(stem),
        file_name(dir + seq!['/'] + (stem + seq!['.'] + extension)) == Some(
            stem + seq!['.'] + extension,
        ),
        file_stem(dir + seq!['/'] + (stem + seq!['.'] + extension)) == Some(stem),
{
    let name = stem + seq!['.'] + extension;
    assert(is_name(name)) by {
        if name.contains('/') {
            let i = choose|i: int| 0 <= i < name.len() && name[i] == '/';
            if i < stem.len() {
                assert(stem[i] == '/');
            } else if i > stem.len() {
                assert(extension[i - stem.len() - 1] == '/');
            }
        }
        if name == seq!['.'] {
            assert(name.len() == 1);
        }
        if name == seq!['.', '.'] {
            assert(stem[0] == name[0]);
            assert(stem =~= seq!['.']);
        }
    }
    lemma_one_more_name(dir, stem);
    lemma_one_more_name(dir, name);
    lemma_slash_free(stem);
    lemma_segments_single(stem);
    assert(seq![stem].drop_last() =~= Seq::<Seq<char>>::empty());
    assert(components(stem) =~= seq![stem]) by {
        assert(counting(seq![stem].drop_last()) =~= Seq::<Seq<char>>::empty());
    }
    if !stem.contains('.') {
        lemma_no_dot(stem);
    }
    lemma_dot_before(stem, extension);
    assert(name.take(stem.len() as int) =~= stem);
}

/// A name that has its only dot at the beginning has no extension. A path that ends with `..`, or
/// that is the root directory or the current one, leads to no file.
pub proof fn law_not_every_path_has_an_extension_or_a_name(dir: Seq<char>, rest: Seq<char>)
    requires
        dir.len() > 0,
        rest.len() > 0,
        !rest.contains('/'),
        !rest.contains('.'),
    ensures
        file_stem(dir + seq!['/'] + (seq!['.'] + rest)) == Some(seq!['.'] + rest),
        file_name(dir + seq!['/'] + seq!['.', '.']) is None,
        file_stem(dir + seq!['/'] + seq!['.', '.']) is None,
        file_name(seq!['/']) is None,
        file_name(seq!['.']) is None,
        file_name(Seq::empty()) is None,
{
    let name = seq!['.'] + rest;
    assert(name[1] == rest[0]);
    assert(is_name(name)) by {
        if name.contains('/') {
            let i = choose|i: int| 0 <= i < name.len() && name[i] == '/';
            assert(rest[i - 1] == '/');
        }
        if name == seq!['.', '.'] {
            assert(rest.contains(rest[0]));
        }
    }
    lemma_one_more_name(dir, name);
    lemma_dot_before(Seq::empty(), rest);
    assert(Seq::<char>::empty() + seq!['.'] + rest =~= name);
    let up = seq!['.', '.'];
    assert(slash_free(up));
    lemma_segments_nonempty(dir);
    lemma_segments_append(dir, up);
    lemma_names_count(segments(dir), up);
    assert(segments(dir).push(up) =~= segments(dir) + seq![up]);
    let root = seq![Seq::<char>::empty()];
    assert(proper_components(root));
    lemma_components_path_text(root);
    lemma_segments_single(seq!['.']);
    assert(seq![seq!['.']].drop_last() =~= Seq::<Seq<char>>::empty());
    assert(components(seq!['.']) =~= seq![seq!['.']]) by {
        assert(counting(seq![seq!['.']].drop_last()) =~= Seq::<Seq<char>>::empty());
    }
}

proof fn lemma_slash_free(piece: Seq<char>)
    requires
        !piece.contains('/'),
    ensures
        slash_free(piece),
{
    assert forall|i: int| 0 <= i < piece.len() implies #[trigger] piece[i] != '/' by {
        assert(piece.contains(piece[i]));
    }
}

proof fn lemma_one_more_name(dir: Seq<char>, name: Seq<char>)
    requires
        dir.len() > 0,
        is_name(name),
    ensures
        components(dir + seq!['/'] + name) == components(dir).push(name),
        file_name(dir + seq!['/'] + name) == Some(name),
{
    lemma_slash_free(name);
    lemma_segments_nonempty(dir);
    lemma_segments_append(dir, name);
    lemma_names_count(segments(dir), name);
    assert(segments(dir).push(name) =~= segments(dir) + seq![name]);
}

proof fn lemma_no_dot(name: Seq<char>)
    requires
        !name.contains('.'),
    ensures
        last_dot(name) == -1,
    decreases name.len(),
{
    if name.len() > 0 {
        assert(name.contains(name[name.len() - 1]));
        let shorter = name.drop_last();
        if shorter.contains('.') {
            let i = choose|i: int| 0 <= i < shorter.len() && shorter[i] == '.';
            assert(name[i] == '.');
        }
        lemma_no_dot(shorter);
    }
}

proof fn lemma_dot_before(stem: Seq<char>, extension: Seq<char>)
    requires
        !extension.contains('.'),
    ensures
        last_dot(stem + seq!['.'] + extension) == stem.len(),
    decreases extension.len(),
{
    let name = stem + seq!['.'] + extension;
    if extension.len() > 0 {
        let shorter = extension.drop_last();
        assert(extension.contains(extension[extension.len() - 1]));
        if shorter.contains('.') {
            let i = choose|i: int| 0 <= i < shorter.len() && shorter[i] == '.';
            assert(extension[i] == '.');
        }
        lemma_dot_before(stem, shorter);
        assert(name.drop_last() =~= stem + seq!['.'] + shorter);
        assert(name.last() == extension.last());
    }
}

/// A path in normal form that goes on after `root` with names is shown as those names, with slashes
/// between them; a path that does not lie under `root` is shown as it is spelled.
pub proof fn law_what_follows_the_root_is_shown(
    root: Seq<char>,
    names: Seq<Seq<char>>,
    other: Seq<char>,
)
    requires
        root.len() > 0,
        names.len() > 0,
        forall|i: int| 0 <= i < names.len() ==> is_name(#[trigger] names[i]),
        components(other).len() < components(root).len() || components(other).take(
            components(root).len() as int,
        ) != components(root),
    ensures
        relative_path(root, path_text(components(root) + names)) == joined(names),
        relative_path(root, other) == other,
{
    let above = components(root);
    let parts = above + names;
    lemma_components_proper(root);
    assert(proper_components(parts)) by {
        assert forall|i: int| 0 <= i < parts.len() implies slash_free(#[trigger] parts[i]) && (i
            == 0 || counts(i, parts[i])) by {
            if i < above.len() {
                assert(parts[i] == above[i]);
            } else {
                assert(parts[i] == names[i - above.len()]);
                lemma_slash_free(parts[i]);
            }
        }
    }
    lemma_components_path_text(parts);
    assert(normal_path(path_text(parts)) == path_text(parts));
    assert(parts.take(above.len() as int) =~= above);
    assert(parts.skip(above.len() as int) =~= names);
    assert(names != seq![Seq::<char>::empty()]) by {
        assert(is_name(names[0]));
    }
}

proof fn lemma_written_with_names(path: Seq<char>, name: Seq<char>)
    requires
        path.len() > 0,
        path.last() != '/',
        normal_path(path) == path,
        is_name(name),
    ensures
        components(path).len() > 0,
        components(path) != seq![Seq::<char>::empty()],
        components(path + seq!['/'] + name) == components(path).push(name),
        normal_path(path + seq!['/'] + name) == path + seq!['/'] + name,
{
    let parts = components(path);
    if parts == seq![Seq::<char>::empty()] {
        assert(path[0] == '/');
    }
    lemma_one_more_name(path, name);
    let more = parts.push(name);
    assert(more.drop_last() =~= parts);
    assert(more.len() >= 2);
    assert(more != seq![Seq::<char>::empty()]);
}

/// A name below a path in normal form gives another one. Seen from `root`, what lies right below
/// `root` is shown as its name, and what lies below another path under `root` as that path is
/// shown, a slash and its name.
pub proof fn law_paths_grow_by_a_name(root: Seq<char>, rest: Seq<char>, name: Seq<char>)
    requires
        root.len() > 0,
        root.last() != '/',
        normal_path(root) == root,
        rest.len() > 0,
        rest.last() != '/',
        normal_path(root + seq!['/'] + rest) == root + seq!['/'] + rest,
        is_name(name),
    ensures
        normal_path(root + seq!['/'] + name) == root + seq!['/'] + name,
        relative_path(root, root + seq!['/'] + name) == name,
        relative_path(root, root + seq!['/'] + rest + seq!['/'] + name) == relative_path(
            root,
            root + seq!['/'] + rest,
        ) + seq!['/'] + name,
{
    let dir = root + seq!['/'] + rest;
    let above = components(root);
    let parts = components(dir);
    let n = above.len() as int;
    assert(dir.last() == rest.last());
    lemma_written_with_names(root, name);
    lemma_written_with_names(dir, name);
    assert(above.push(name).take(n) =~= above);
    assert(above.push(name).skip(n) =~= seq![name]);
    assert(seq![name] != seq![Seq::<char>::empty()]) by {
        assert(seq![name][0] == name);
    }
    lemma_segments_concat(root, rest);
    lemma_segments_nonempty(rest);
    lemma_normal_segments(root);
    lemma_normal_segments(dir);
    assert(parts == above + segments(rest));
    assert(parts.take(n) =~= above);
    assert(parts.push(name).take(n) =~= above);
    let below = parts.skip(n);
    assert(parts.push(name).skip(n) =~= below.push(name));
    lemma_components_proper(dir);
    assert(counts(n, parts[n]));
    assert(below[0] == parts[n]);
    assert(below.push(name).drop_last() =~= below);
    assert(below.push(name).len() >= 2);
}

/// The order of paths in normal form: where their components first differ, names go by their text,
/// `..` comes before names, and a path comes before those that go on after it.
pub proof fn law_paths_are_ordered_by_the_first_difference(
    a: Seq<char>,
    b: Seq<char>,
    common: Seq<Seq<char>>,
    x: Seq<char>,
    y: Seq<char>,
    u: Seq<Seq<char>>,
    v: Seq<Seq<char>>,
)
    requires
        normal_path(a) == a,
        normal_path(b) == b,
        components(b) == common + seq![y] + v,
        is_name(y),
        components(a) == common || (components(a) == common + seq![x] + u && ((is_name(x)
            && text_before(x, y)) || x == seq!['.', '.'])),
    ensures
        path_before(a, b),
        !path_before(b, a),
        !path_before(a, a),
{
    let smaller = |p: Seq<char>, q: Seq<char>| segment_before(p, q);
    let k = common.len() as int;
    let (s, t) = (components(a), components(b));
    law_paths_are_ordered_by_components(a, b);
    law_paths_are_ordered_by_components(b, a);
    assert forall|i: int| 0 <= i < k implies #[trigger] s[i] == t[i] by {}
    if s.len() > k {
        assert(s[k] == x && t[k] == y);
        assert(segment_before(x, y)) by {
            if x == seq!['.', '.'] {
                assert(x[1] == '.');
                assert(x.len() == 2);
            }
        }
    }
    assert(parts_ways(s, t, smaller, k));
    lemma_segment_order();
    lemma_lexicographic_irreflexive(segments(a), smaller);
    if path_before(b, a) {
        lemma_lexicographic_transitive(segments(a), segments(b), segments(a), smaller);
    }
}

} // verus!
