use nexis::graph::Analysis;
use nexis::options::{chosen_format, should_show_all, Cli, OutputFormat};
use nexis::path::NotePath;
use nexis::text::{aligned_text, grouped_text, grouped_width};
use nexis::report::{
    build_json_report, exit_code, filter_orphans_for_report, human_report, BrokenLink,
    MissingBacklink, Report,
};

fn pb(path: &str) -> NotePath {
    NotePath::new(path)
}

fn cli() -> Cli {
    Cli {
        asymmetry: false,
        orphans: false,
        broken: false,
        details: false,
        orphan_days: None,
        format: OutputFormat::Human,
        json: false,
    }
}

fn sample() -> Analysis {
    Analysis {
        missing_backlinks: vec![(pb("/v/a.md"), pb("/v/x/b.md"))],
        orphans: vec![pb("/v/c.md"), pb("/w/d.md")],
        broken_links: vec![
            (pb("/v/a.md"), "gone".to_string()),
            (pb("/v/a.md"), "lost".to_string()),
        ],
        embed_count: 7,
    }
}

fn clean() -> Analysis {
    Analysis {
        missing_backlinks: vec![(pb("/v/a.md"), pb("/v/b.md"))],
        orphans: vec![],
        broken_links: vec![],
        embed_count: 0,
    }
}

const ASYMMETRIC: &str =
    "\n=== Asymmetric Links (1 pair) ===\n  a.md -> x/b.md (b.md does not link back)\n";
const ORPHANS: &str = "\n=== Orphans (2 notes) ===\n  c.md\n  /w/d.md\n";
const BROKEN: &str = "\n=== Broken Links (2 links) ===\n  a.md: [[gone]]\n  a.md: [[lost]]\n";

#[test]
fn by_default_there_are_counts_only() {
    assert_eq!(
        human_report("/v", 1234, &sample(), &cli(), 0, &[], false),
        "Vault: /v  (1,234 notes)\n\
         \u{20} Orphans        2   (--orphans to list)\n\
         \u{20} Broken links   2   (--broken to list)\n\
         \u{20} Embeds         7\n"
    );
}

#[test]
fn details_show_all_sections() {
    let options = Cli {
        details: true,
        ..cli()
    };
    let summary = "Vault: /v/  (4 notes)\n\
         \u{20} Orphans        2\n\
         \u{20} Broken links   2\n\
         \u{20} Embeds         7\n";
    assert_eq!(
        human_report("/v/", 4, &sample(), &options, 0, &[], false),
        format!("{summary}{ASYMMETRIC}{ORPHANS}{BROKEN}")
    );
}

#[test]
fn a_flag_shows_its_section_only() {
    let head = "Vault: /v  (4 notes)\n";
    let embeds = "  Embeds         7\n";
    let orphans = Cli {
        orphans: true,
        ..cli()
    };
    assert_eq!(
        human_report("/v", 4, &sample(), &orphans, 0, &[], false),
        format!(
            "{head}  Orphans        2\n  Broken links   2   (--broken to list)\n{embeds}{ORPHANS}"
        )
    );
    let broken = Cli {
        broken: true,
        ..cli()
    };
    assert_eq!(
        human_report("/v", 4, &sample(), &broken, 0, &[], false),
        format!(
            "{head}  Orphans        2   (--orphans to list)\n  Broken links   2\n{embeds}{BROKEN}"
        )
    );
    let asymmetry = Cli {
        asymmetry: true,
        ..cli()
    };
    assert_eq!(
        human_report("/v", 4, &sample(), &asymmetry, 0, &[], false),
        format!(
            "{head}  Orphans        2   (--orphans to list)\n  Broken links   2   (--broken to list)\n{embeds}  Asymmetric     1\n{ASYMMETRIC}"
        )
    );
}

/// A day in nanoseconds.
const DAY: i128 = 86_400_000_000_000;

#[test]
fn recent_orphans_can_be_picked() {
    let options = Cli {
        orphan_days: Some(30),
        ..cli()
    };
    let report = |options: &Cli, first: i128| {
        let modified = [Some(first), Some(70 * DAY)];
        human_report("/v", 4, &sample(), options, 100 * DAY, &modified, false)
    };
    assert!(report(&options, 70 * DAY - 1)
        .contains("  Orphans        1 (of 2 total)   (--orphans to list)\n"));
    let listed = Cli {
        orphans: true,
        ..options
    };
    let some = report(&listed, 70 * DAY - 1);
    assert!(some.contains("  Orphans        1 (of 2 total)\n"));
    assert!(some.ends_with("\n=== Orphans (\u{2264} 30d) (1 note) ===\n  /w/d.md\n"));
    assert!(report(&listed, 71 * DAY).contains("  Orphans        2\n"));
}

#[test]
fn the_counts_stand_in_a_column() {
    let orphan = || pb("/vault/A.md");
    let analysis = Analysis {
        missing_backlinks: vec![],
        orphans: (0..8113).map(|_| orphan()).collect(),
        broken_links: (0..3037).map(|i| (orphan(), format!("{i}"))).collect(),
        embed_count: 423,
    };
    assert_eq!(
        human_report("/path/to/vault", 11738, &analysis, &cli(), 0, &[], false),
        "Vault: /path/to/vault  (11,738 notes)\n\
         \u{20} Orphans        8,113   (--orphans to list)\n\
         \u{20} Broken links   3,037   (--broken to list)\n\
         \u{20} Embeds           423\n"
    );
    let asymmetry = Cli {
        asymmetry: true,
        ..cli()
    };
    let wide = Analysis {
        embed_count: 0,
        orphans: vec![],
        broken_links: vec![],
        missing_backlinks: (0..12).map(|_| (orphan(), orphan())).collect(),
    };
    assert!(
        human_report("/vault", 0, &wide, &asymmetry, 0, &[], false).starts_with(
            "Vault: /vault  (0 notes)\n\
             \u{20} Orphans         0   (--orphans to list)\n\
             \u{20} Broken links    0   (--broken to list)\n\
             \u{20} Embeds          0\n\
             \u{20} Asymmetric     12\n"
        )
    );
}

#[test]
fn numbers_are_written_in_groups() {
    for (n, text) in [
        (0, "0"),
        (7, "7"),
        (42, "42"),
        (999, "999"),
        (1000, "1,000"),
        (10_020, "10,020"),
        (1_000_001, "1,000,001"),
        (u64::MAX, "18,446,744,073,709,551,615"),
    ] {
        assert_eq!(grouped_text(n), text);
        assert_eq!(grouped_width(n), text.len() as u64);
        assert_eq!(aligned_text(n, 9), format!("{text:>9}"));
        assert_eq!(aligned_text(n, 0), text);
    }
}

#[test]
fn color_adds_nothing_else() {
    for flags in 0..16u32 {
        let options = Cli {
            asymmetry: flags & 1 > 0,
            orphans: flags & 2 > 0,
            broken: flags & 4 > 0,
            details: flags & 8 > 0,
            ..cli()
        };
        let report = |color: bool| human_report("/v", 4, &sample(), &options, 0, &[], color);
        let (colored, plain) = (report(true), report(false));
        assert!(!plain.contains('\u{1b}'));
        assert_eq!(
            colored.replace("\u{1b}[1;36m", "").replace("\u{1b}[0m", ""),
            plain
        );
        for line in colored.lines().filter(|line| line.contains('\u{1b}')) {
            assert!(line.starts_with("\u{1b}[1;36m=== "));
            assert!(line.ends_with(" ===\u{1b}[0m"));
        }
    }
}

#[test]
fn headings_have_color_on_a_terminal() {
    let options = Cli {
        broken: true,
        ..cli()
    };
    let report = human_report("/v", 4, &clean(), &options, 0, &[], true);
    assert!(report.ends_with("\n\n\u{1b}[1;36m=== Broken Links (0 links) ===\u{1b}[0m\n"));
}

#[test]
fn a_path_without_a_name_is_called_target() {
    let analysis = Analysis {
        missing_backlinks: vec![(pb("/v/a.md"), pb("/v/.."))],
        ..clean()
    };
    let options = Cli {
        asymmetry: true,
        ..cli()
    };
    let report = human_report("/v", 1, &analysis, &options, 0, &[], false);
    assert!(report.ends_with("  a.md -> .. (target does not link back)\n"));
}

#[test]
fn orphans_are_filtered_by_time() {
    let orphans = [pb("/a"), pb("/b"), pb("/c"), pb("/d"), pb("/e")];
    let times = [Some(5 * DAY), None, Some(5 * DAY - 1), Some(-7 * DAY)];
    let names = |days: Option<u64>, now: i128| -> Vec<String> {
        filter_orphans_for_report(&orphans, days, now, &times)
            .iter()
            .map(|path| path.text().to_string())
            .collect()
    };
    assert_eq!(names(None, 0), vec!["/a", "/b", "/c", "/d", "/e"]);
    assert_eq!(names(Some(1), 6 * DAY), vec!["/a"]);
    assert_eq!(names(Some(0), 5 * DAY), vec!["/a"]);
    assert_eq!(names(Some(13), 6 * DAY), vec!["/a", "/c", "/d"]);
    assert!(names(Some(1), 7 * DAY).is_empty());
}

#[test]
fn any_number_of_days_will_do() {
    let orphans = [pb("/v/a.md")];
    let kept = |now: i128, time: i128| {
        filter_orphans_for_report(&orphans, Some(u64::MAX), now, &[Some(time)]).len()
    };
    assert_eq!(kept(200_000_000_000_000, 1_000_000_000_000), 1);
    assert_eq!(kept(i128::MIN, i128::MIN), 1);
    assert_eq!(kept(i128::MAX, i128::MAX - (u64::MAX as i128) * DAY), 1);
    assert_eq!(kept(i128::MAX, i128::MAX - (u64::MAX as i128) * DAY - 1), 0);
}

#[test]
fn the_json_report_lists_everything() {
    assert_eq!(
        build_json_report("/v", 4, 9, &sample()),
        Report {
            vault: "/v".to_string(),
            total_files: 4,
            total_assets: 9,
            embed_count: 7,
            missing_backlinks: vec![MissingBacklink {
                source: "a.md".to_string(),
                target: "x/b.md".to_string(),
            }],
            orphans: vec!["c.md".to_string(), "/w/d.md".to_string()],
            broken_links: vec![
                BrokenLink {
                    source: "a.md".to_string(),
                    target: "gone".to_string(),
                },
                BrokenLink {
                    source: "a.md".to_string(),
                    target: "lost".to_string(),
                },
            ],
        }
    );
}

#[test]
fn paths_are_shown_as_they_are_spelled() {
    let analysis = Analysis {
        missing_backlinks: vec![(pb("/vault/a//b.md"), pb("/x//y.md"))],
        orphans: vec![pb("/vault//c.md")],
        broken_links: vec![(pb("/vault/a//b.md"), "z".to_string())],
        embed_count: 0,
    };
    let report = build_json_report("/vault", 1, 1, &analysis);
    assert_eq!(report.missing_backlinks[0].source, "a//b.md");
    assert_eq!(report.missing_backlinks[0].target, "/x//y.md");
    assert_eq!(report.orphans, ["c.md"]);
    let options = Cli {
        details: true,
        ..cli()
    };
    let text = human_report("/vault", 1, &analysis, &options, 0, &[], false);
    assert!(text.contains("  a//b.md -> /x//y.md (y.md does not link back)\n"));
    assert!(text.contains("  a//b.md: [[z]]\n"));
}

#[test]
fn exit_codes_tell_findings_from_errors() {
    assert_eq!(exit_code(Some(&clean())), 0);
    assert_eq!(exit_code(Some(&sample())), 1);
    assert_eq!(
        exit_code(Some(&Analysis {
            orphans: vec![pb("/v/a.md")],
            ..clean()
        })),
        1
    );
    assert_eq!(
        exit_code(Some(&Analysis {
            broken_links: vec![(pb("/v/a.md"), "x".to_string())],
            ..clean()
        })),
        1
    );
    assert_eq!(exit_code(None), 2);
}

#[test]
fn json_wins_over_the_format() {
    assert_eq!(chosen_format(&cli()), OutputFormat::Human);
    assert_eq!(
        chosen_format(&Cli {
            json: true,
            ..cli()
        }),
        OutputFormat::Json
    );
    assert_eq!(
        chosen_format(&Cli {
            format: OutputFormat::Json,
            ..cli()
        }),
        OutputFormat::Json
    );
}

#[test]
fn all_sections_unless_one_is_asked_for() {
    assert!(should_show_all(&cli()));
    assert!(should_show_all(&Cli {
        details: true,
        ..cli()
    }));
    assert!(!should_show_all(&Cli {
        asymmetry: true,
        ..cli()
    }));
    assert!(!should_show_all(&Cli {
        orphans: true,
        ..cli()
    }));
    assert!(!should_show_all(&Cli {
        broken: true,
        ..cli()
    }));
}
