use nexis::markup::{extract_wikilinks, name_of_target, note_wikilinks, Wikilink};

fn link(start: usize, end: usize, marker: &str, target: &str, alias: Option<&str>) -> Wikilink {
    Wikilink {
        start,
        end,
        marker: marker.to_string(),
        target: target.to_string(),
        alias: alias.map(|a| a.to_string()),
    }
}

#[test]
fn extract_wikilinks_basic_and_alias() {
    let text = "See [[target]] and [[another target|Alias Here]]";
    let (links, embeds) = extract_wikilinks(text);
    assert_eq!(links, vec!["target", "another target"]);
    assert!(embeds.is_empty());
}

#[test]
fn extract_wikilinks_ignores_code_regions() {
    let text = r#"
Outside [[Real]]

```md
[[InFence]]
```

`[[InInline]]`
"#;

    let (links, embeds) = extract_wikilinks(text);
    assert_eq!(links, vec!["Real"]);
    assert!(embeds.is_empty());
}

#[test]
fn extract_wikilinks_empty_text() {
    let (links, embeds) = extract_wikilinks("");
    assert!(links.is_empty());
    assert!(embeds.is_empty());
}

#[test]
fn extract_wikilinks_distinguishes_embeds() {
    let text = "See [[link]] and ![[embed]] here";
    let (links, embeds) = extract_wikilinks(text);
    assert_eq!(links, vec!["link"]);
    assert_eq!(embeds, vec!["embed"]);
}

#[test]
fn extract_wikilinks_ignores_html_comments() {
    let text = r#"
Outside [[Real]]
<!-- [[Hidden]] -->
<!--
![[HiddenEmbed]]
[[HiddenToo]]
-->
"#;

    let (links, embeds) = extract_wikilinks(text);
    assert_eq!(links, vec!["Real"]);
    assert!(embeds.is_empty());
}

#[test]
fn exclusions_skip_obsidian_components() {
    let path = std::path::Path::new("/vault/.obsidian/plugins/a.md");
    assert!(trama::should_skip_entry(path, &[]));
}

#[test]
fn places_are_those_of_the_note() {
    let text = "`[[x]]` é ![[A#b|c d]] <!-- [[y]] --> [[Z]]";
    assert_eq!(
        note_wikilinks(text),
        vec![
            link(11, 23, "!", "A#b", Some("c d")),
            link(39, 44, "", "Z", None),
        ]
    );
    assert_eq!(&text[11..23], "![[A#b|c d]]");
    assert_eq!(&text[39..44], "[[Z]]");
}

#[test]
fn fences_win_over_inline_code() {
    let text = "``` [[a]] ``` [[b]] ` [[c]] ` [[d]]";
    let (links, _) = extract_wikilinks(text);
    assert_eq!(links, vec!["b", "d"]);
}

#[test]
fn inline_code_ends_with_the_line() {
    let (links, _) = extract_wikilinks("a ` b\n[[c]] ` d [[e]]");
    assert_eq!(links, vec!["c", "e"]);
}

#[test]
fn an_open_fence_hides_nothing_by_itself() {
    let (links, _) = extract_wikilinks("``` [[a]]");
    assert_eq!(links, vec!["a"]);
}

#[test]
fn an_open_comment_hides_nothing() {
    let (links, _) = extract_wikilinks("<!-- [[a]]");
    assert_eq!(links, vec!["a"]);
}

#[test]
fn a_link_has_a_target_and_an_optional_alias() {
    assert_eq!(note_wikilinks("[[a|b|c]]"), vec![link(0, 9, "", "a", Some("b|c"))]);
    assert_eq!(note_wikilinks("[[a|]]"), vec![link(0, 6, "", "a", Some(""))]);
    assert_eq!(note_wikilinks("[[a]]"), vec![link(0, 5, "", "a", None)]);
    assert!(note_wikilinks("[[]]").is_empty());
    assert!(note_wikilinks("[[|b]]").is_empty());
    assert!(note_wikilinks("[[a]").is_empty());
    assert!(note_wikilinks("[[a]b]]").is_empty());
}

#[test]
fn links_may_hold_brackets_and_lines() {
    assert_eq!(note_wikilinks("[[[a]]"), vec![link(0, 6, "", "[a", None)]);
    assert_eq!(note_wikilinks("[[a\nb]]"), vec![link(0, 7, "", "a\nb", None)]);
    assert_eq!(note_wikilinks("!![[a]]"), vec![link(1, 7, "!", "a", None)]);
}

#[test]
fn written_links_are_read() {
    for target in ["a", "note with words", "é", "A/B#c^d", " [ "] {
        for alias in [None, Some(""), Some("x|y"), Some("ß")] {
            for marker in ["", "!"] {
                let tail = alias.map(|a| format!("|{a}")).unwrap_or_default();
                let text = format!("{marker}[[{target}{tail}]]");
                assert_eq!(
                    note_wikilinks(&text),
                    vec![link(0, text.len(), marker, target, alias)]
                );
            }
        }
    }
}

#[test]
fn names_drop_folders_anchors_and_blocks() {
    let name = |target: &str| name_of_target(target);
    assert_eq!(name("Note#Section"), Some("Note".to_string()));
    assert_eq!(name("Folder/Note"), Some("Note".to_string()));
    assert_eq!(name("  a/b / Note  ^block # x"), Some("Note".to_string()));
    assert_eq!(name("Note^block"), Some("Note".to_string()));
    assert_eq!(name("\u{3000}Note\u{a0}"), Some("Note".to_string()));
    assert_eq!(name("a#b^c/d"), Some("a".to_string()));
}

#[test]
fn some_targets_have_no_name() {
    assert_eq!(name_of_target(""), None);
    assert_eq!(name_of_target("   "), None);
    assert_eq!(name_of_target("#heading"), None);
    assert_eq!(name_of_target("folder/"), None);
    assert_eq!(name_of_target("^block"), None);
}

#[test]
fn links_without_a_name_are_not_listed() {
    let (links, embeds) = extract_wikilinks("[[#top]] [[a]] ![[ / ]] ![[b.png]]");
    assert_eq!(links, vec!["a"]);
    assert_eq!(embeds, vec!["b.png"]);
}
