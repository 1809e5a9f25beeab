use nexis::order::{holds, sorted, sorted_distinct, Ranked};
use nexis::path::NotePath;
use nexis::text::{decimal_text, is_text_before};
use std::path::{Path, PathBuf};

const PATHS: [&str; 18] = [
    "", "/", ".", "..", "a", "a/b", "a-b", "a/.", "./a", "/a", "/a//b/", "//a", "a/../b", "é",
    "a b/c.md", "/..", "...", "a/b.c",
];

#[test]
fn paths_are_brought_to_normal_form() {
    for text in PATHS {
        let by_std: PathBuf = Path::new(text).components().collect();
        assert_eq!(NotePath::new(text).text(), by_std.to_str().unwrap_or("?"));
    }
    assert_eq!(NotePath::new("//a/.//b/./").text(), "/a/b");
    assert_eq!(NotePath::new("././a").text(), "./a");
    assert_eq!(NotePath::new("//a/.//b/./").spelling(), "//a/.//b/./");
}

#[test]
fn paths_are_equal_and_ordered_by_components() {
    for a in PATHS {
        for b in PATHS {
            let (p, q) = (NotePath::new(a), NotePath::new(b));
            assert_eq!(p == q, Path::new(a) == Path::new(b), "{a:?} {b:?}");
            assert_eq!(p.is_before(&q), Path::new(a) < Path::new(b), "{a:?} {b:?}");
            assert_eq!(p.clone().spelling(), a);
        }
    }
}

#[test]
fn file_names_are_last_components() {
    for text in PATHS {
        let path = NotePath::new(text);
        let by_std = Path::new(text).file_name().and_then(|name| name.to_str());
        assert_eq!(path.file_name(), by_std, "{text:?}");
    }
    assert_eq!(NotePath::new("/v/a.md").file_name(), Some("a.md"));
    assert_eq!(NotePath::new("/v/..").file_name(), None);
}

#[test]
fn paths_are_seen_from_a_root() {
    let seen = |root: &str, path: &str| NotePath::new(path).relative_to(root);
    assert_eq!(seen("/v", "/v/a/b.md"), "a/b.md");
    assert_eq!(seen("/v//", "/v/a.md"), "a.md");
    assert_eq!(seen("/v", "/vault/a.md"), "/vault/a.md");
    assert_eq!(seen("/v", "/v"), "");
    assert_eq!(seen("", "a/b"), "a/b");
    assert_eq!(seen("/", "/a"), "a");
    assert_eq!(seen("a", "/a/b"), "/a/b");
    assert_eq!(seen("/vault", "/vault/a//b.md"), "a//b.md");
    assert_eq!(seen("/v", "/x//y.md"), "/x//y.md");
}

#[test]
fn text_is_ordered_by_its_bytes() {
    let words = ["", "a", "ab", "b", "Z", "é", "\u{10ffff}", "\u{ffff}"];
    for a in words {
        for b in words {
            assert_eq!(is_text_before(a, b), a < b);
        }
    }
}

#[test]
fn pairs_are_ordered_by_their_parts() {
    let pair = |a: &str, b: &str| (a.to_string(), b.to_string());
    assert!(pair("a", "z").is_before(&pair("b", "a")));
    assert!(pair("a", "a").is_before(&pair("a", "b")));
    assert!(!pair("a", "b").is_before(&pair("a", "b")));
    assert!(!pair("b", "a").is_before(&pair("a", "b")));
}

#[test]
fn sorting_keeps_or_drops_what_occurs_twice() {
    let words = |list: &[&str]| -> Vec<String> { list.iter().map(|w| w.to_string()).collect() };
    let items = ["c", "a", "b", "a", "d", "c"];
    assert_eq!(sorted(words(&items)), words(&["a", "a", "b", "c", "c", "d"]));
    assert_eq!(sorted_distinct(words(&items)), words(&["a", "b", "c", "d"]));
    assert!(sorted(words(&[])).is_empty());
    assert!(sorted_distinct(words(&[])).is_empty());
    let mut many: Vec<String> = (0..200u32).map(|i| format!("{}", i * 7919 % 101)).collect();
    let by_library = sorted(many.clone());
    many.sort();
    assert_eq!(by_library, many);
    many.dedup();
    assert_eq!(sorted_distinct(by_library), many);
}

#[test]
fn what_is_the_same_stays_in_order() {
    let paths = |list: &[&str]| -> Vec<NotePath> { list.iter().map(|p| NotePath::new(p)).collect() };
    let spelled = |list: &[NotePath]| -> Vec<String> {
        list.iter().map(|p| p.spelling().to_string()).collect()
    };
    let items = ["b", "a//c", "a/./c", "b/", "a", "a/c", "b//"];
    assert_eq!(
        spelled(&sorted(paths(&items))),
        ["a", "a//c", "a/./c", "a/c", "b", "b/", "b//"]
    );
    assert_eq!(spelled(&sorted_distinct(paths(&items))), ["a", "a//c", "b"]);
    assert!(holds(&paths(&["a", "a//c", "b"]), &NotePath::new("a/c/")));
}

#[test]
fn what_is_sorted_can_be_searched() {
    let words: Vec<String> = ["a", "c", "e", "g"].iter().map(|w| w.to_string()).collect();
    for (word, there) in [
        ("a", true),
        ("b", false),
        ("c", true),
        ("g", true),
        ("h", false),
        ("", false),
    ] {
        assert_eq!(holds(&words, &word.to_string()), there);
    }
    assert!(!holds(&Vec::<String>::new(), &"a".to_string()));
}

#[test]
fn numbers_are_written_in_decimal() {
    for n in [0u64, 7, 9, 10, 1234567890, u64::MAX] {
        assert_eq!(decimal_text(n), n.to_string());
    }
    assert_eq!(decimal_text(407), "407");
}
