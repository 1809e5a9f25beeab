//! Holds what the library believes of `trama`, `unicase` and `std::path` against them, on random
//! input. The functions here compute what the contracts say.
use nexis::path::NotePath;
use std::path::{Path, PathBuf};
use unicase::UniCase;

struct Random(u64);

impl Random {
    fn below(&mut self, bound: usize) -> usize {
        self.0 = self
            .0
            .wrapping_mul(6364136223846793005)
            .wrapping_add(1442695040888963407);
        ((self.0 >> 33) as usize) % bound
    }

    fn text(&mut self, pieces: &[&str], longest: usize) -> String {
        let count = self.below(longest + 1);
        (0..count).map(|_| pieces[self.below(pieces.len())]).collect()
    }
}

fn find_from(text: &[u8], pattern: &[u8], from: usize) -> Option<usize> {
    (from..text.len()).find(|at| text[*at..].starts_with(pattern))
}

fn bracketed(text: &[u8], open: &[u8], close: &[u8], from: usize) -> Option<(usize, usize)> {
    let start = find_from(text, open, from)?;
    let end = find_from(text, close, start + open.len())?;
    Some((start, end + close.len()))
}

fn fence(text: &[u8], from: usize) -> Option<(usize, usize)> {
    bracketed(text, b"```", b"```", from)
}

fn comment(text: &[u8], from: usize) -> Option<(usize, usize)> {
    bracketed(text, b"<!--", b"-->", from)
}

fn inline(text: &[u8], from: usize) -> Option<(usize, usize)> {
    (from..text.len()).find_map(|start| {
        let rest = text[start + 1..].iter();
        let end = start + 1 + rest.take_while(|b| **b != b'`' && **b != b'\n').count();
        let closed = text[start] == b'`' && text.get(end) == Some(&b'`');
        closed.then_some((start, end + 1))
    })
}

fn blanked(text: &[u8], region: fn(&[u8], usize) -> Option<(usize, usize)>) -> Vec<u8> {
    let mut out = text.to_vec();
    let mut from = 0;
    while let Some((start, end)) = region(text, from) {
        out[start..end].fill(b' ');
        from = end;
    }
    out
}

type Span = (usize, usize, bool, String, Option<String>);

fn string(bytes: &[u8]) -> String {
    String::from_utf8_lossy(bytes).into_owned()
}

fn link_at(text: &[u8], at: usize) -> Option<Span> {
    let embed = text[at] == b'!';
    let body = if embed { at + 3 } else { at + 2 };
    if body >= text.len() || &text[body - 2..body] != b"[[" || text[body] == b'|' {
        return None;
    }
    let close = find_from(text, b"]", body)?;
    if close == body || text.get(close + 1) != Some(&b']') {
        return None;
    }
    let bar = find_from(&text[..close], b"|", body);
    Some((
        at,
        close + 2,
        embed,
        string(&text[body..bar.unwrap_or(close)]),
        bar.map(|bar| string(&text[bar + 1..close])),
    ))
}

fn link_spans(text: &[u8]) -> Vec<Span> {
    let mut out = Vec::new();
    let mut at = 0;
    while at < text.len() {
        match link_at(text, at) {
            Some(span) => {
                at = span.1;
                out.push(span);
            }
            None => at += 1,
        }
    }
    out
}

fn white_space(c: char) -> bool {
    matches!(
        c as u32,
        0x9..=0xd | 0x20 | 0x85 | 0xa0 | 0x1680 | 0x2000..=0x200a | 0x2028 | 0x2029 | 0x202f | 0x205f | 0x3000
    )
}

fn target_name(target: &str) -> Option<String> {
    let before = |text: &str, mark: char| -> String {
        text.chars().take_while(|c| *c != mark).collect()
    };
    let path = before(&before(target.trim_matches(white_space), '#'), '^');
    let path = path.trim_matches(white_space);
    let start = path.rfind('/').map_or(0, |slash| slash + 1);
    let name = path[start..].trim_matches(white_space);
    if name.is_empty() {
        None
    } else {
        Some(name.to_string())
    }
}

#[test]
fn white_space_is_that_of_unicode() {
    for c in '\0'..=char::MAX {
        assert_eq!(white_space(c), c.is_whitespace(), "{c:?}");
    }
}

#[test]
fn regions_links_and_names_are_found_as_stated() {
    let pieces = [
        "`", "`", "```", "\n", "<!--", "-->", "<", "!", "-", ">", "[", "[[", "]]", "]", "|", "a",
        " ", "é", "#", "^", "/", "\u{2003}", "漢",
    ];
    let mut random = Random(12345);
    for round in 0..20000 {
        let some = if round % 3 == 0 { &pieces[9..18] } else { &pieces[..] };
        let text = random.text(some, 23);
        let bytes = text.as_bytes();
        let code = blanked(&blanked(bytes, fence), inline);
        assert_eq!(trama::strip_code_regions(&text).as_bytes(), &code[..], "{text:?}");
        assert_eq!(
            trama::strip_html_comments(&text).as_bytes(),
            &blanked(bytes, comment)[..],
            "{text:?}"
        );
        let found: Vec<Span> = trama::wikilink_regex()
            .captures_iter(&text)
            .map(|found| {
                let part = |i: usize| found.get(i).map(|part| part.as_str().to_string());
                let (start, end) = found.get(0).map_or((0, 0), |all| (all.start(), all.end()));
                let marker = part(1).unwrap_or_default();
                assert!(marker.is_empty() || marker == "!");
                (start, end, marker == "!", part(2).unwrap_or_default(), part(3))
            })
            .collect();
        assert_eq!(found, link_spans(bytes), "{text:?}");
        assert_eq!(trama::normalize_target(&text), target_name(&text), "{text:?}");
        let spans = link_spans(&blanked(&code, comment));
        let names = |embeds: bool| -> Vec<String> {
            let wanted = spans.iter().filter(|span| span.2 == embeds);
            wanted.filter_map(|span| target_name(&span.3)).collect()
        };
        assert_eq!(
            trama::extract_wikilinks(&text),
            (names(false), names(true)),
            "{text:?}"
        );
    }
}

#[test]
fn names_are_equal_when_their_foldings_are() {
    let pieces = ["a", "A", "k", "K", "\u{212a}", "ß", "ss", "S", "ſ", "İ", "Ü", "ü", "Σ", "ς"];
    let mut random = Random(7);
    for _ in 0..20000 {
        let (a, b) = (random.text(&pieces, 3), random.text(&pieces, 3));
        let folded = |text: &str| UniCase::new(text).to_folded_case();
        assert_eq!(
            UniCase::new(a.clone()) == UniCase::new(b.clone()),
            folded(&a) == folded(&b),
            "{a:?} {b:?}"
        );
        assert_eq!(folded(&a), nexis::names::key_of(&a));
    }
    for c in '\0'..='\x7f' {
        let lower = if c.is_ascii_uppercase() {
            ((c as u8) + 32) as char
        } else {
            c
        };
        assert_eq!(nexis::names::key_of(&c.to_string()), lower.to_string());
    }
}

fn components(text: &str) -> Vec<&str> {
    if text.is_empty() {
        return Vec::new();
    }
    text.split('/')
        .enumerate()
        .filter(|(i, piece)| *i == 0 || !(piece.is_empty() || *piece == "."))
        .map(|(_, piece)| piece)
        .collect()
}

fn path_text(parts: &[&str]) -> String {
    if parts == [""] {
        "/".to_string()
    } else {
        parts.join("/")
    }
}

fn file_stem(text: &str) -> Option<&str> {
    let parts = components(text);
    let name = *parts.last()?;
    if name.is_empty() || name == "." || name == ".." {
        return None;
    }
    match name.rfind('.') {
        Some(dot) if dot > 0 => Some(&name[..dot]),
        _ => Some(name),
    }
}

#[test]
fn paths_are_taken_apart_as_stated() {
    let pieces = ["/", "/", ".", ".", "a", "b", "é", "!", "-", "//", "B"];
    let mut random = Random(99);
    for _ in 0..50000 {
        let (a, b) = (random.text(&pieces, 7), random.text(&pieces, 7));
        let (p, q) = (NotePath::new(&a), NotePath::new(&b));
        assert_eq!(p.text(), path_text(&components(&a)));
        assert_eq!(Path::new(p.text()), Path::new(&a));
        assert_eq!(p == q, Path::new(&a) == Path::new(&b), "{a:?} {b:?}");
        assert_eq!(
            Path::new(&a).file_stem().and_then(|stem| stem.to_str()),
            file_stem(&a),
            "{a:?}"
        );
        let (above, parts) = (components(&a), components(q.text()));
        let seen = if parts.starts_with(&above) {
            path_text(&parts[above.len()..])
        } else {
            q.text().to_string()
        };
        assert_eq!(trama::relativize(Path::new(&a), Path::new(q.text())), seen);
        let left = trama::relativize(Path::new(&a), Path::new(&b));
        assert_eq!(q.relative_to(&a), left);
        if parts.starts_with(&above) {
            assert_eq!(components(&left), parts[above.len()..], "{a:?} {b:?}");
        } else {
            assert_eq!(left, b);
        }
    }
}

#[test]
fn the_first_file_of_a_name_is_indexed() {
    let pieces = ["/", "a", "A", "b", ".", ".md", "\u{212a}", "k", "é", "É"];
    let mut random = Random(4);
    for _ in 0..300 {
        let files: Vec<String> = (0..6).map(|_| random.text(&pieces, 4)).collect();
        let mut wanted: Vec<(String, String)> = Vec::new();
        for file in &files {
            if let Some(stem) = file_stem(file) {
                let key = nexis::names::key_of(stem);
                if wanted.iter().all(|(other, _)| *other != key) {
                    wanted.push((key, file.clone()));
                }
            }
        }
        let paths: Vec<PathBuf> = files.iter().map(PathBuf::from).collect();
        let mut found: Vec<(String, String)> = trama::build_file_index(&paths)
            .into_iter()
            .map(|(stem, path)| (nexis::names::key_of(&stem), path.to_string_lossy().into_owned()))
            .collect();
        wanted.sort();
        found.sort();
        assert_eq!(found, wanted);
    }
}
