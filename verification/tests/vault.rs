use nexis::graph::{analyze_graph, count_embeds, parse_note, Analysis, ParsedNote};
use nexis::names::{build_file_index, key_of, KnownAssets};
use nexis::path::NotePath;

fn pb(path: &str) -> NotePath {
    NotePath::new(path)
}

fn names(list: &[&str]) -> Vec<String> {
    list.iter().map(|name| name.to_string()).collect()
}

fn paths(list: &[NotePath]) -> Vec<&str> {
    list.iter().map(|path| path.text()).collect()
}

fn pairs(list: &[(NotePath, NotePath)]) -> Vec<(&str, &str)> {
    list.iter().map(|(a, b)| (a.text(), b.text())).collect()
}

fn broken(list: &[(NotePath, String)]) -> Vec<(&str, &str)> {
    list.iter().map(|(a, b)| (a.text(), b.as_str())).collect()
}

fn analysis_of(notes: &[(&str, &str)], assets: &[&str]) -> Analysis {
    let files: Vec<NotePath> = notes.iter().map(|(path, _)| pb(path)).collect();
    let parsed: Vec<ParsedNote> = notes
        .iter()
        .map(|(path, content)| parse_note(&pb(path), content))
        .collect();
    let mut known = KnownAssets::new();
    for asset in assets {
        known.insert(asset);
    }
    analyze_graph(&files, &parsed, &build_file_index(&files), &known)
}

#[test]
fn graph_construction_reports_all_categories() {
    let files = vec![
        pb("/vault/A.md"),
        pb("/vault/B.md"),
        pb("/vault/C.md"),
        pb("/vault/D.md"),
        pb("/vault/E.md"),
    ];

    let index = build_file_index(&files);

    let parsed_links = vec![
        (
            pb("/vault/A.md"),
            vec!["B".to_string(), "Missing".to_string()],
            vec![],
        ),
        (pb("/vault/B.md"), vec![], vec![]),
        (pb("/vault/C.md"), vec!["A".to_string()], vec![]),
        (pb("/vault/D.md"), vec![], vec![]),
        (pb("/vault/E.md"), vec![], vec![]),
    ];

    let known_assets = KnownAssets::new();
    let analysis = analyze_graph(&files, &parsed_links, &index, &known_assets);

    assert_eq!(analysis.missing_backlinks.len(), 2);
    assert!(analysis
        .missing_backlinks
        .contains(&(pb("/vault/A.md"), pb("/vault/B.md"))));
    assert!(analysis
        .missing_backlinks
        .contains(&(pb("/vault/C.md"), pb("/vault/A.md"))));

    assert_eq!(analysis.orphans, vec![pb("/vault/D.md"), pb("/vault/E.md")]);

    assert_eq!(analysis.broken_links.len(), 1);
    assert_eq!(
        analysis.broken_links[0],
        (pb("/vault/A.md"), "Missing".to_string())
    );
    assert_eq!(analysis.embed_count, 0);
}

#[test]
fn case_insensitive_matching_resolves_targets() {
    let files = vec![pb("/vault/capco.md"), pb("/vault/source.md")];
    let index = build_file_index(&files);

    let parsed_links = vec![(pb("/vault/source.md"), vec!["Capco".to_string()], vec![])];
    let known_assets = KnownAssets::new();
    let analysis = analyze_graph(&files, &parsed_links, &index, &known_assets);

    assert!(analysis.broken_links.is_empty());
    assert!(analysis
        .missing_backlinks
        .contains(&(pb("/vault/source.md"), pb("/vault/capco.md"))));
}

#[test]
fn build_file_index_warns_on_duplicate_stem() {
    let files = vec![
        pb("/vault/Capco/Bertie Haskins Profile.md"),
        pb("/vault/People/Bertie Haskins Profile.md"),
    ];
    let index = build_file_index(&files);

    assert_eq!(index.len(), 1);
    assert_eq!(
        index.get("Bertie Haskins Profile"),
        Some(&pb("/vault/Capco/Bertie Haskins Profile.md"))
    );
}

#[test]
fn backlinks_are_missing_in_one_direction() {
    let analysis = analysis_of(
        &[
            ("/v/a.md", "[[b]] [[c]] [[a]] [[c|again]]"),
            ("/v/b.md", "[[A]]"),
            ("/v/c.md", "[[b]]"),
        ],
        &[],
    );
    assert_eq!(
        pairs(&analysis.missing_backlinks),
        vec![("/v/a.md", "/v/c.md"), ("/v/c.md", "/v/b.md")]
    );
    assert!(analysis.orphans.is_empty());
    assert!(analysis.broken_links.is_empty());
}

#[test]
fn embeds_connect_but_need_no_backlink() {
    let analysis = analysis_of(
        &[
            ("/v/a.md", "![[b]] ![[b]] ![[picture.png]] ![[gone]]"),
            ("/v/b.md", ""),
            ("/v/c.md", ""),
        ],
        &["picture.png", "picture"],
    );
    assert!(analysis.missing_backlinks.is_empty());
    assert_eq!(paths(&analysis.orphans), vec!["/v/c.md"]);
    assert_eq!(broken(&analysis.broken_links), vec![("/v/a.md", "gone")]);
    assert_eq!(analysis.embed_count, 4);
}

#[test]
fn a_link_is_no_backlink_of_an_embed() {
    let analysis = analysis_of(&[("/v/a.md", "![[b]]"), ("/v/b.md", "[[a]]")], &[]);
    assert_eq!(
        pairs(&analysis.missing_backlinks),
        vec![("/v/b.md", "/v/a.md")]
    );
}

#[test]
fn a_note_that_links_to_itself_is_no_orphan() {
    let analysis = analysis_of(&[("/v/a.md", "[[a]]")], &[]);
    assert!(analysis.orphans.is_empty());
    assert!(analysis.missing_backlinks.is_empty());
}

#[test]
fn a_note_with_broken_links_alone_is_an_orphan() {
    let analysis = analysis_of(&[("/v/a.md", "[[gone]] [[photo.PNG]]")], &["photo.png"]);
    assert_eq!(paths(&analysis.orphans), vec!["/v/a.md"]);
    assert_eq!(broken(&analysis.broken_links), vec![("/v/a.md", "gone")]);
}

#[test]
fn broken_links_are_listed_once_and_in_order() {
    let analysis = analysis_of(
        &[
            ("/v/b.md", "[[z]] [[é]] [[Z]] [[z]] ![[z]]"),
            ("/v/a-b/c.md", "[[y]]"),
            ("/v/a/c.md", "[[x]]"),
        ],
        &[],
    );
    assert_eq!(
        broken(&analysis.broken_links),
        vec![
            ("/v/a/c.md", "x"),
            ("/v/a-b/c.md", "y"),
            ("/v/b.md", "Z"),
            ("/v/b.md", "z"),
            ("/v/b.md", "é"),
        ]
    );
    assert_eq!(
        paths(&analysis.orphans),
        vec!["/v/a/c.md", "/v/a-b/c.md", "/v/b.md"]
    );
}

#[test]
fn files_given_twice_are_reported_twice() {
    let files = vec![pb("/v/a.md"), pb("/v/b.md"), pb("/v/a.md")];
    let index = build_file_index(&files);
    let analysis = analyze_graph(&files, &[], &index, &KnownAssets::new());
    assert_eq!(
        paths(&analysis.orphans),
        vec!["/v/a.md", "/v/a.md", "/v/b.md"]
    );
}

#[test]
fn paths_are_spelled_as_they_were_first_given() {
    let files = vec![pb("/v//a.md"), pb("/v/b.md"), pb("/v/a.md"), pb("/v/./c.md"), pb("/v/c.md")];
    let index = build_file_index(&files);
    let parsed = vec![
        (pb("/v/a.md"), names(&["b", "gone"]), vec![]),
        (pb("/v//a.md"), names(&["gone", "lost"]), vec![]),
        (pb("/w//x.md"), names(&["A"]), vec![]),
        (pb("/w/x.md"), names(&["b"]), vec![]),
    ];
    let analysis = analyze_graph(&files, &parsed, &index, &KnownAssets::new());
    let spelled = |list: &[(NotePath, NotePath)]| -> Vec<(String, String)> {
        list.iter()
            .map(|(a, b)| (a.spelling().to_string(), b.spelling().to_string()))
            .collect()
    };
    let pair = |a: &str, b: &str| (a.to_string(), b.to_string());
    assert_eq!(
        spelled(&analysis.missing_backlinks),
        [
            pair("/v//a.md", "/v/b.md"),
            pair("/w//x.md", "/v//a.md"),
            pair("/w//x.md", "/v/b.md"),
        ]
    );
    let orphans: Vec<&str> = analysis.orphans.iter().map(|path| path.spelling()).collect();
    assert_eq!(orphans, ["/v/./c.md", "/v/c.md"]);
    let broken: Vec<(&str, &str)> = analysis
        .broken_links
        .iter()
        .map(|(path, name)| (path.spelling(), name.as_str()))
        .collect();
    assert_eq!(broken, [("/v/a.md", "gone"), ("/v//a.md", "lost")]);
}

#[test]
fn links_of_unlisted_notes_count() {
    let files = vec![pb("/v/a.md")];
    let index = build_file_index(&files);
    let parsed = vec![(pb("/other/x.md"), names(&["a", "gone"]), vec![])];
    let analysis = analyze_graph(&files, &parsed, &index, &KnownAssets::new());
    assert!(analysis.orphans.is_empty());
    assert_eq!(
        pairs(&analysis.missing_backlinks),
        vec![("/other/x.md", "/v/a.md")]
    );
    assert_eq!(
        broken(&analysis.broken_links),
        vec![("/other/x.md", "gone")]
    );
}

#[test]
fn the_order_of_parsing_does_not_matter() {
    let files = vec![pb("/v/a.md"), pb("/v/b.md"), pb("/v/c.md")];
    let index = build_file_index(&files);
    let notes = |order: [usize; 3]| -> Vec<ParsedNote> {
        let contents = ["[[b]] ![[x]]", "[[c]] [[a]]", "[[a]] [[gone]]"];
        order
            .iter()
            .map(|i| parse_note(&files[*i], contents[*i]))
            .collect()
    };
    let known = KnownAssets::new();
    let first = analyze_graph(&files, &notes([0, 1, 2]), &index, &known);
    for order in [[0, 2, 1], [1, 0, 2], [1, 2, 0], [2, 0, 1], [2, 1, 0]] {
        assert_eq!(analyze_graph(&files, &notes(order), &index, &known), first);
    }
    assert_eq!(
        pairs(&first.missing_backlinks),
        vec![("/v/b.md", "/v/c.md"), ("/v/c.md", "/v/a.md")]
    );
}

#[test]
fn embeds_are_counted() {
    let parsed = vec![
        (pb("a"), names(&["x"]), names(&["y", "z"])),
        (pb("b"), vec![], names(&["y"])),
    ];
    assert_eq!(count_embeds(&parsed), Some(3));
    assert_eq!(count_embeds(&[]), Some(0));
}

#[test]
fn notes_are_parsed_into_links_and_embeds() {
    let (path, links, embeds) = parse_note(&pb("/v/a.md"), "[[x/B#c]] ![[d|e]]");
    assert_eq!(path.text(), "/v/a.md");
    assert_eq!(links, vec!["B"]);
    assert_eq!(embeds, vec!["d"]);
}

#[test]
fn names_are_told_apart_by_their_case_folding() {
    assert_eq!(key_of("Capco Ü"), key_of("cAPCO ü"));
    assert_eq!(key_of("CAPCO"), "capco");
    assert_eq!(key_of("Maße"), key_of("MASSE"));
    assert_eq!(key_of("\u{212a}"), "k");
    assert_ne!(key_of("a"), key_of("b"));
    assert_eq!(key_of("[@Z`{"), "[@z`{");
}

#[test]
fn the_index_leads_to_the_first_of_a_name() {
    let files = vec![
        pb("/v/x/Note.md"),
        pb("/v/y/NOTE.md"),
        pb("/v/Ärger.md"),
        pb("/v/.hidden"),
        pb("/v/a.b.md"),
        pb("/"),
    ];
    let index = build_file_index(&files);
    assert_eq!(index.len(), 4);
    assert_eq!(index.get("note"), Some(&files[0]));
    assert_eq!(index.get("äRGER"), Some(&files[2]));
    assert_eq!(index.get(".Hidden"), Some(&files[3]));
    assert_eq!(index.get("a.b"), Some(&files[4]));
    assert_eq!(index.get("a"), None);
    assert_eq!(index.get("Note.md"), None);
}

#[test]
fn assets_count_once_whatever_their_case() {
    let mut assets = KnownAssets::new();
    assert_eq!(assets.len(), 0);
    assets.insert("Photo.png");
    assets.insert("photo.PNG");
    assets.insert("Photo");
    assert_eq!(assets.len(), 2);
    assert!(assets.contains("PHOTO"));
    assert!(assets.contains("PHOTO.png"));
    assert!(!assets.contains("png"));
}
