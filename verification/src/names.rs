//! Looking notes up by name, whatever the case of its letters.
use crate::path::{file_stem, NotePath};
use vstd::hash_map::StringHashMap;
use vstd::hash_set::StringHashSet;
use vstd::prelude::*;
use vstd::utf8::is_ascii_chars;

verus! {

/// A letter of the ASCII alphabet in lower case; any other character as it is.
pub open spec fn ascii_lower(c: char) -> char {
    if 'A' <= c <= 'Z' {
        ((c as u32) + 32) as char
    } else {
        c
    }
}

/// What `unicase::UniCase::to_folded_case` makes of a text that is not all ASCII: the Unicode case
/// folding of its characters.
pub uninterp spec fn unicode_folded(text: Seq<char>) -> Seq<char>;

/// What names are compared by: two names are the same to a reader of the vault when their keys are
/// equal.
pub open spec fn name_key(name: Seq<char>) -> Seq<char> {
    if is_ascii_chars(name) {
        name.map_values(|c: char| ascii_lower(c))
    } else {
        unicode_folded(name)
    }
}

/// `unicase::UniCase::new` and `to_folded_case`: the case folding of a name. For an ASCII name this
/// is the name in lower case. Two values of `UniCase` are equal just when their foldings are.
#[verifier::external_body]
fn folded(name: &str) -> (out: String)
    ensures
        is_ascii_chars(name@) ==> out@ == name@.map_values(|c: char| ascii_lower(c)),
        !is_ascii_chars(name@) ==> out@ == unicode_folded(name@),
{
    unicase::UniCase::new(name).to_folded_case()
}

/// The key of a name.
pub fn key_of(name: &str) -> (out: String)
    ensures
        out@ == name_key(name@),
{
    folded(name)
}

/// The key under which a path can be found: that of its file name without the extension.
pub open spec fn stem_key(path: Seq<char>) -> Option<Seq<char>> {
    match file_stem(path) {
        Some(stem) => Some(name_key(stem)),
        None => None,
    }
}

/// Where each key leads: to the first of the files that can be found under it.
pub open spec fn stem_index(files: Seq<Seq<char>>) -> Map<Seq<char>, Seq<char>>
    decreases files.len(),
{
    if files.len() == 0 {
        Map::empty()
    } else {
        let before = stem_index(files.drop_last());
        match stem_key(files.last()) {
            Some(key) => if before.contains_key(key) {
                before
            } else {
                before.insert(key, files.last())
            },
            None => before,
        }
    }
}

/// `trama::build_file_index`: pairs of a stem and the path that it leads to, one for each key of
/// `stem_index`, in no particular order. A file whose key is taken already is left out, and a
/// warning goes to the standard error stream.
#[verifier::external_body]
fn indexed_stems(files: &Vec<&str>) -> (out: Vec<(String, String)>)
    ensures
        forall|i: int|
            0 <= i < out.len() ==> stem_index(files.deep_view()).contains_pair(
                name_key((#[trigger] out[i]).0@),
                out[i].1@,
            ),
        forall|key: Seq<char>| #[trigger]
            stem_index(files.deep_view()).contains_key(key) ==> exists|i: int|
                0 <= i < out.len() && name_key((#[trigger] out[i]).0@) == key,
{
    let paths: Vec<std::path::PathBuf> = files.iter().map(|file| file.into()).collect();
    trama::build_file_index(&paths)
        .into_iter()
        .map(|(stem, path)| (stem.into_inner(), path.to_string_lossy().into_owned()))
        .collect()
}

/// The notes of a vault by name.
pub struct FileIndex {
    entries: StringHashMap<NotePath>,
}

impl View for FileIndex {
    type V = Map<Seq<char>, Seq<char>>;

    closed spec fn view(&self) -> Map<Seq<char>, Seq<char>> {
        self.entries@.map_values(|p: NotePath| p@)
    }
}

impl FileIndex {
    /// The path of the note called `name`, in letters of either case.
    pub fn get(&self, name: &str) -> (out: Option<&NotePath>)
        ensures
            match out {
                Some(path) => self@.contains_pair(name_key(name@), path@),
                None => !self@.contains_key(name_key(name@)),
            },
    {
        let key = key_of(name);
        self.entries.get(key.as_str())
    }

    /// How many names lead to a note.
    pub fn len(&self) -> (out: usize)
        ensures
            out == self@.len(),
    {
        proof {
            assert(self@.dom() =~= self.entries@.dom());
        }
        self.entries.len()
    }
}

/// The index of the given notes. Where two of them have the same name, it leads to the first.
pub fn build_file_index(files: &[NotePath]) -> (out: FileIndex)
    ensures
        out@ == stem_index(files.deep_view()),
        forall|key: Seq<char>| #[trigger]
            out@.contains_key(key) ==> files.deep_view().contains(out@[key]),
{
    let texts = spellings(files);
    let stems = indexed_stems(&texts);
    let ghost wanted = stem_index(files.deep_view());
    let mut entries: StringHashMap<NotePath> = StringHashMap::new();
    let mut i: usize = 0;
    proof {
        lemma_stem_index_leads_to_files(files.deep_view());
    }
    while i < stems.len()
        invariant
            i <= stems.len(),
            wanted == stem_index(files.deep_view()),
            forall|j: int|
                0 <= j < stems.len() ==> wanted.contains_pair(
                    name_key((#[trigger] stems[j]).0@),
                    stems[j].1@,
                ),
            forall|key: Seq<char>| #[trigger]
                wanted.contains_key(key) ==> files.deep_view().contains(wanted[key]),
            forall|key: Seq<char>| #[trigger]
                entries@.contains_key(key) ==> wanted.contains_pair(key, entries@[key]@),
            forall|j: int|
                0 <= j < i ==> entries@.contains_key(name_key((#[trigger] stems[j]).0@)),
        decreases stems.len() - i,
    {
        let key = key_of(stems[i].0.as_str());
        let path = NotePath::new(stems[i].1.as_str());
        entries.insert(key, path);
        i += 1;
    }
    let out = FileIndex { entries };
    proof {
        assert forall|key: Seq<char>| wanted.contains_key(key) implies #[trigger]
            entries@.contains_key(key) by {
            let j = choose|j: int| 0 <= j < stems.len() && name_key((#[trigger] stems[j]).0@) == key;
            assert(name_key(stems[j].0@) == key);
        }
        assert(out@ =~= wanted);
    }
    out
}

/// The paths as they are spelled.
fn spellings(files: &[NotePath]) -> (out: Vec<&str>)
    ensures
        out.deep_view() == files.deep_view(),
{
    let mut out: Vec<&str> = Vec::new();
    let mut i: usize = 0;
    while i < files.len()
        invariant
            i <= files.len(),
            out.len() == i,
            forall|j: int| 0 <= j < i ==> (#[trigger] out[j])@ == files[j]@,
        decreases files.len() - i,
    {
        out.push(files[i].spelling());
        i += 1;
    }
    proof {
        assert(out.deep_view() =~= files.deep_view());
    }
    out
}

proof fn lemma_stem_index_leads_to_files(files: Seq<Seq<char>>)
    ensures
        forall|key: Seq<char>| #[trigger]
            stem_index(files).contains_key(key) ==> files.contains(stem_index(files)[key]),
    decreases files.len(),
{
    if files.len() > 0 {
        let before = files.drop_last();
        lemma_stem_index_leads_to_files(before);
        assert forall|key: Seq<char>| #[trigger]
            stem_index(files).contains_key(key) implies files.contains(stem_index(files)[key]) by {
            if stem_index(before).contains_key(key) {
                let path = stem_index(before)[key];
                let i = choose|i: int| 0 <= i < before.len() && before[i] == path;
                assert(files[i] == path);
            } else {
                assert(files[files.len() - 1] == stem_index(files)[key]);
            }
        }
    }
}

/// The names of all files of a vault, with and without their extensions.
pub struct KnownAssets {
    names: StringHashSet,
}

impl View for KnownAssets {
    type V = Set<Seq<char>>;

    closed spec fn view(&self) -> Set<Seq<char>> {
        self.names@
    }
}

impl KnownAssets {
    /// No names.
    pub fn new() -> (out: KnownAssets)
        ensures
            out@ == Set::<Seq<char>>::empty(),
    {
        KnownAssets { names: StringHashSet::new() }
    }

    /// Adds a name. Names that differ in the case of their letters alone count once.
    pub fn insert(&mut self, name: &str)
        ensures
            final(self)@ == old(self)@.insert(name_key(name@)),
    {
        let key = key_of(name);
        self.names.insert(key);
    }

    /// Whether there is a file of that name, in letters of either case.
    pub fn contains(&self, name: &str) -> (out: bool)
        ensures
            out == self@.contains(name_key(name@)),
    {
        let key = key_of(name);
        self.names.contains(key.as_str())
    }

    /// How many names there are.
    pub fn len(&self) -> (out: usize)
        ensures
            out == self@.len(),
    {
        self.names.len()
    }
}

/// Names in ASCII that differ in the case of their letters alone have the same key.
pub proof fn law_ascii_case_is_ignored(a: Seq<char>, b: Seq<char>)
    requires
        is_ascii_chars(a),
        is_ascii_chars(b),
        a.len() == b.len(),
        forall|i: int| 0 <= i < a.len() ==> ascii_lower(#[trigger] a[i]) == ascii_lower(b[i]),
    ensures
        name_key(a) == name_key(b),
{
    assert(name_key(a) =~= name_key(b));
}

/// A note can be found under the key of its name, and the first of its name is what is found.
pub proof fn law_first_of_a_name_is_found(files: Seq<Seq<char>>, i: int)
    requires
        0 <= i < files.len(),
        stem_key(files[i]) is Some,
        forall|j: int| 0 <= j < i ==> stem_key(#[trigger] files[j]) != stem_key(files[i]),
    ensures
        stem_index(files).contains_pair(stem_key(files[i])->0, files[i]),
    decreases files.len(),
{
    let before = files.drop_last();
    let key = stem_key(files[i])->0;
    if i < files.len() - 1 {
        assert(before[i] == files[i]);
        assert forall|j: int| 0 <= j < i implies stem_key(#[trigger] before[j]) != stem_key(
            before[i],
        ) by {
            assert(before[j] == files[j]);
        }
        law_first_of_a_name_is_found(before, i);
    } else {
        if stem_index(before).contains_key(key) {
            lemma_stem_index_keys(before);
            let j = choose|j: int| 0 <= j < before.len() && stem_key(#[trigger] before[j]) == Some(key);
            assert(stem_key(files[j]) != stem_key(files[i]));
        }
    }
}

proof fn lemma_stem_index_keys(files: Seq<Seq<char>>)
    ensures
        forall|key: Seq<char>| #[trigger]
            stem_index(files).contains_key(key) ==> exists|j: int|
                0 <= j < files.len() && stem_key(#[trigger] files[j]) == Some(key),
    decreases files.len(),
{
    if files.len() > 0 {
        let before = files.drop_last();
        lemma_stem_index_keys(before);
        assert forall|key: Seq<char>| #[trigger]
            stem_index(files).contains_key(key) implies exists|j: int|
            0 <= j < files.len() && stem_key(#[trigger] files[j]) == Some(key) by {
            if stem_index(before).contains_key(key) {
                let j = choose|j: int|
                    0 <= j < before.len() && stem_key(#[trigger] before[j]) == Some(key);
                assert(stem_key(files[j]) == Some(key));
            } else {
                assert(stem_key(files[files.len() - 1]) == Some(key));
            }
        }
    }
}

/// The key of an ASCII name is the name with `A` to `Z` in lower case and nothing else changed; that
/// of any other name is its case folding.
pub proof fn law_keys_change_letters_only(name: Seq<char>)
    ensures
        is_ascii_chars(name) ==> name_key(name).len() == name.len(),
        is_ascii_chars(name) ==> forall|i: int|
            0 <= i < name.len() ==> (if 'A' <= name[i] <= 'Z' {
                (#[trigger] name_key(name)[i]) as u32 == name[i] as u32 + 32
            } else {
                name_key(name)[i] == name[i]
            }),
        !is_ascii_chars(name) ==> name_key(name) == unicode_folded(name),
{
    if is_ascii_chars(name) {
        assert forall|i: int| 0 <= i < name.len() implies (if 'A' <= name[i] <= 'Z' {
            (#[trigger] name_key(name)[i]) as u32 == name[i] as u32 + 32
        } else {
            name_key(name)[i] == name[i]
        }) by {
            assert(name_key(name)[i] == ascii_lower(name[i]));
        }
    }
}

/// What is found under a key is a file whose name without the extension has that key, and the first
/// such file.
pub proof fn law_what_is_found_has_the_name(files: Seq<Seq<char>>, key: Seq<char>) -> (i: int)
    requires
        stem_index(files).contains_key(key),
    ensures
        0 <= i < files.len(),
        stem_index(files)[key] == files[i],
        file_stem(files[i]) is Some,
        name_key(file_stem(files[i])->0) == key,
        forall|j: int|
            0 <= j < i ==> !(file_stem(#[trigger] files[j]) is Some && name_key(
                file_stem(files[j])->0,
            ) == key),
    decreases files.len(),
{
    let before = files.drop_last();
    if stem_index(before).contains_key(key) {
        let i = law_what_is_found_has_the_name(before, key);
        assert(before[i] == files[i]);
        assert forall|j: int| 0 <= j < i implies !(file_stem(#[trigger] files[j]) is Some
            && name_key(file_stem(files[j])->0) == key) by {
            assert(before[j] == files[j]);
        }
        i
    } else {
        let last = files.len() - 1;
        assert forall|j: int| 0 <= j < last implies !(file_stem(#[trigger] files[j]) is Some
            && name_key(file_stem(files[j])->0) == key) by {
            assert(before[j] == files[j]);
            if file_stem(files[j]) is Some && name_key(file_stem(files[j])->0) == key {
                lemma_name_is_indexed(before, j);
            }
        }
        last
    }
}

proof fn lemma_name_is_indexed(files: Seq<Seq<char>>, j: int)
    requires
        0 <= j < files.len(),
        file_stem(files[j]) is Some,
    ensures
        stem_index(files).contains_key(name_key(file_stem(files[j])->0)),
    decreases files.len(),
{
    let before = files.drop_last();
    if j < before.len() {
        assert(before[j] == files[j]);
        lemma_name_is_indexed(before, j);
    }
}

/// Every file that has a name can be found under it, or under it another file of that name.
pub proof fn law_every_name_is_found(files: Seq<Seq<char>>, j: int)
    requires
        0 <= j < files.len(),
        file_stem(files[j]) is Some,
    ensures
        stem_index(files).contains_key(name_key(file_stem(files[j])->0)),
{
    lemma_name_is_indexed(files, j);
}

} // verus!
