use nexis::graph::{analyze_graph, parse_note};
use nexis::names::{build_file_index, KnownAssets};
use nexis::path::NotePath;
use nexis::unlink::{planned, unlink_jobs, unlink_summary, UnlinkJob, Unlinked, UnlinkTotals};

fn pb(path: &str) -> NotePath {
    NotePath::new(path)
}

/// The text of a note after its links to the given names were turned into plain text, and their
/// number.
fn rewritten(content: &str, dead: &[&str]) -> (String, usize) {
    let broken: Vec<(NotePath, String)> = dead
        .iter()
        .map(|name| (pb("/v/note.md"), name.to_string()))
        .collect();
    let jobs = unlink_jobs(&broken);
    assert_eq!(jobs.len(), 1);
    let out = jobs[0].rewrite(content);
    (out.text, out.count)
}

/// Deals with one note whose content is `content`. `writable` says whether it can be written.
fn pass(
    totals: &mut UnlinkTotals,
    job: &UnlinkJob,
    content: &mut String,
    dry_run: bool,
    writable: bool,
) {
    if let Some(note) = planned(job, Some(content.as_str())) {
        let mut written = false;
        if let Some(text) = note.to_write(dry_run) {
            if writable {
                *content = text.to_string();
                written = true;
            }
        }
        assert!(totals.has_room(&note));
        totals.count_in(&note, dry_run, written);
    }
}

#[test]
fn unlink_broken_links_basic() {
    let path = pb("/tmp/nexis-test-unlink.md");
    let content = "See [[Dead Note]] and [[Dead Note|Alias]] and [[Live Note]].\n";

    let broken = vec![(path.clone(), "Dead Note".to_string())];
    let mut totals = UnlinkTotals::new();
    let mut result = content.to_string();
    for job in &unlink_jobs(&broken) {
        assert_eq!(job.source(), &path);
        pass(&mut totals, job, &mut result, false, true);
    }
    let (unlinked, changed) = (totals.links, totals.files);

    assert_eq!(unlinked, 2);
    assert_eq!(changed, 1);

    assert!(result.contains("Dead Note") && !result.contains("[[Dead Note]]"));
    assert!(result.contains("Alias") && !result.contains("[[Dead Note|Alias]]"));
    assert!(result.contains("[[Live Note]]"));
    assert_eq!(result, "See Dead Note and Alias and [[Live Note]].\n");
}

#[test]
fn only_dead_links_are_replaced() {
    assert_eq!(
        rewritten("a [[x]] ![[x]] [[y]] [[f/x#h|z]] b", &["x"]),
        ("a x ![[x]] [[y]] z b".to_string(), 2)
    );
}

#[test]
fn names_are_matched_to_the_letter() {
    assert_eq!(
        rewritten("[[Dead]] [[dead]]", &["dead"]),
        ("[[Dead]] dead".to_string(), 1)
    );
}

#[test]
fn code_and_comments_are_left_alone() {
    let content = "`[[x]]` <!-- [[x]] -->\n```\n[[x]]\n```\né [[x]] ü";
    assert_eq!(
        rewritten(content, &["x"]),
        (
            "`[[x]]` <!-- [[x]] -->\n```\n[[x]]\n```\né x ü".to_string(),
            1
        )
    );
}

#[test]
fn an_alias_is_kept_as_it_is() {
    assert_eq!(rewritten("[[x| A |b]]", &["x"]), (" A |b".to_string(), 1));
    assert_eq!(rewritten("[[x|]].", &["x"]), (".".to_string(), 1));
    assert_eq!(rewritten("[[ f/x ]].", &["x"]), ("x.".to_string(), 1));
}

#[test]
fn replacing_a_link_can_lay_open_another() {
    assert_eq!(
        rewritten("[[x|[[x]]]]", &["x"]),
        ("[[x]]".to_string(), 1)
    );
}

#[test]
fn nothing_dead_nothing_changes() {
    assert_eq!(
        rewritten("[[y]] ![[x]] `[[x]]`", &["x"]),
        ("[[y]] ![[x]] `[[x]]`".to_string(), 0)
    );
    assert_eq!(rewritten("", &["x"]), (String::new(), 0));
}

#[test]
fn several_names_in_one_note() {
    assert_eq!(
        rewritten("[[x]][[y]][[z]][[x|w]]", &["x", "z"]),
        ("x[[y]]zw".to_string(), 3)
    );
}

#[test]
fn each_note_is_dealt_with_once() {
    let broken = vec![
        (pb("/v/b.md"), "x".to_string()),
        (pb("/v/a.md"), "x".to_string()),
        (pb("/v/b.md"), "y".to_string()),
    ];
    let jobs = unlink_jobs(&broken);
    let sources: Vec<&str> = jobs.iter().map(|job| job.source().text()).collect();
    assert_eq!(sources, vec!["/v/b.md", "/v/a.md"]);
    assert_eq!(jobs[0].rewrite("[[x]] [[y]] [[z]]").text, "x y [[z]]");
    assert_eq!(jobs[1].rewrite("[[x]] [[y]] [[z]]").text, "x [[y]] [[z]]");
    assert!(unlink_jobs(&[]).is_empty());
}

#[test]
fn spellings_of_a_path_are_one_note() {
    let broken = vec![
        (pb("/v//a.md"), "x".to_string()),
        (pb("/v/a.md"), "y".to_string()),
    ];
    let jobs = unlink_jobs(&broken);
    assert_eq!(jobs.len(), 1);
    assert_eq!(jobs[0].source().spelling(), "/v//a.md");
    assert_eq!(jobs[0].rewrite("[[x]] [[y]] [[z]]").text, "x y [[z]]");
}

#[test]
fn code_inside_an_alias_is_blanked() {
    assert_eq!(rewritten("[[x|a `b` c]]", &["x"]).0, "a     c");
}

#[test]
fn unreadable_and_unchanged_notes_are_left_alone() {
    let jobs = unlink_jobs(&[(pb("/v/a.md"), "x".to_string())]);
    assert_eq!(planned(&jobs[0], None), None);
    assert_eq!(planned(&jobs[0], Some("![[x]] [[y]]")), None);
    assert_eq!(
        planned(&jobs[0], Some("[[x]] [[y]]")),
        Some(Unlinked {
            text: "x [[y]]".to_string(),
            count: 1,
        })
    );
}

#[test]
fn a_dry_run_counts_and_writes_nothing() {
    let jobs = unlink_jobs(&[(pb("/v/a.md"), "x".to_string())]);
    let mut totals = UnlinkTotals { links: 3, files: 1 };
    let mut content = "[[x]] [[x]]".to_string();
    pass(&mut totals, &jobs[0], &mut content, true, true);
    assert_eq!(content, "[[x]] [[x]]");
    assert_eq!(totals, UnlinkTotals { links: 5, files: 2 });
    pass(&mut totals, &jobs[0], &mut content, false, true);
    assert_eq!(content, "x x");
    assert_eq!(totals, UnlinkTotals { links: 7, files: 3 });
}

#[test]
fn a_note_that_cannot_be_written_does_not_count() {
    let jobs = unlink_jobs(&[(pb("/tmp/ro.md"), "Dead".to_string())]);
    let mut totals = UnlinkTotals::new();
    let mut content = "[[Dead]]".to_string();
    pass(&mut totals, &jobs[0], &mut content, false, false);
    assert_eq!(content, "[[Dead]]");
    assert_eq!(totals, UnlinkTotals { links: 0, files: 0 });
}

#[test]
fn a_second_pass_finds_nothing() {
    let broken = [(pb("/v/a.md"), "x".to_string()), (pb("/v/a.md"), "y".to_string())];
    let jobs = unlink_jobs(&broken);
    for text in [
        "[[x]]",
        "[[x|a!]][[z]] ![[x]] [[y|]][[x]]",
        "<[[x|!--]] [[z]] --> ![[y]] [ [[f/x#h| | ]] ]",
        "[[|[[x]] [[x][[y|b]]] [[z]",
        "a][[x|]]] b [[y]]",
        "[[z][[x|]]]",
    ] {
        let mut content = text.to_string();
        pass(&mut UnlinkTotals::new(), &jobs[0], &mut content, false, true);
        assert_ne!(content, text);
        let once = content.clone();
        let mut totals = UnlinkTotals::new();
        pass(&mut totals, &jobs[0], &mut content, false, true);
        assert_eq!(content, once);
        assert_eq!(totals, UnlinkTotals { links: 0, files: 0 });
    }
}

#[test]
fn what_is_taken_away_can_lay_open_a_link() {
    assert_eq!(rewritten("[[x][[D|]]]", &["D"]).0, "[[x]]");
    let once = rewritten("[[a<!-- b]] [[D|--]]> c]]", &["D"]).0;
    assert_eq!(once, "[[a<!-- b]] --> c]]");
    assert_eq!(rewritten(&once, &["a             c"]).1, 1);
}

#[test]
fn totals_say_whether_there_is_room() {
    let note = |count: usize| Unlinked {
        text: String::new(),
        count,
    };
    let links = UnlinkTotals {
        links: usize::MAX - 4,
        files: 0,
    };
    assert!(links.has_room(&note(4)));
    assert!(!links.has_room(&note(5)));
    let files = UnlinkTotals {
        links: 0,
        files: usize::MAX,
    };
    assert!(!files.has_room(&note(1)));
}

#[test]
fn what_the_analysis_calls_broken_is_unlinked() {
    let content = "[[b]] [[gone|away]] ![[gone]] [[photo.png]] [[Lost]]";
    let files = vec![pb("/v/a.md"), pb("/v/b.md")];
    let mut assets = KnownAssets::new();
    assets.insert("photo.png");
    let analysis = analyze_graph(
        &files,
        &[parse_note(&files[0], content)],
        &build_file_index(&files),
        &assets,
    );
    let jobs = unlink_jobs(&analysis.broken_links);
    assert_eq!(jobs.len(), 1);
    let out = jobs[0].rewrite(content);
    assert_eq!(out.text, "[[b]] away ![[gone]] [[photo.png]] Lost");
    assert_eq!(out.count, 2);
}

#[test]
fn the_summary_says_what_was_done() {
    let totals = UnlinkTotals {
        links: 12,
        files: 1,
    };
    assert_eq!(
        unlink_summary(&totals, false),
        "Unlinked 12 broken links across 1 files"
    );
    assert_eq!(
        unlink_summary(&totals, true),
        "Dry run: would unlink 12 broken links across 1 files"
    );
}
