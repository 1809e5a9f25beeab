//! The report on a vault, for people and for programs.
use crate::graph::{is_analysis, is_broken, is_isolated, Analysis, NoteView};
use crate::options::Cli;
use crate::order::{keys, lemma_with_key, with_key};
use crate::path::{file_name, normal_path, relative_path, NotePath};
use crate::text::{
    aligned_text, decimal, decimal_text, grouped, grouped_text, grouped_width, right_aligned,
};
use vstd::prelude::*;

verus! {

/// `trama::pluralize`: the singular for one thing, the plural for any other number.
pub assume_specification<'a>[ trama::pluralize ](
    count: usize,
    singular: &'a str,
    plural: &'a str,
) -> (out: &'a str)
    ensures
        out@ == (if count == 1 {
            singular@
        } else {
            plural@
        }),
;

/// The earliest time that lies within so many days before `now`. Times are in nanoseconds.
pub open spec fn days_before(now: i128, days: u64) -> int {
    now - days * 86_400_000_000_000
}

/// The note at position `i` was modified at a known time that is no more than so many days before
/// `now`.
pub open spec fn is_recent(now: i128, days: u64, modified: Seq<Option<i128>>, i: int) -> bool {
    &&& 0 <= i < modified.len()
    &&& modified[i] is Some
    &&& modified[i]->0 >= days_before(now, days)
}

/// The earliest time that lies within so many days before `now`, or the earliest there is.
fn earliest_recent(now: i128, days: u64) -> (out: i128)
    ensures
        out == if days_before(now, days) < i128::MIN {
            i128::MIN as int
        } else {
            days_before(now, days)
        },
{
    let span: i128 = (days as i128) * 86_400_000_000_000;
    if now >= i128::MIN + span {
        now - span
    } else {
        i128::MIN
    }
}

/// The orphans that are reported: all of them, or if a number of days is given those that are
/// recent.
pub open spec fn visible_orphans(
    orphans: Seq<Seq<char>>,
    orphan_days: Option<u64>,
    now: i128,
    modified: Seq<Option<i128>>,
) -> Seq<Seq<char>>
    decreases orphans.len(),
{
    if orphans.len() == 0 {
        Seq::empty()
    } else {
        let before = visible_orphans(orphans.drop_last(), orphan_days, now, modified);
        if orphan_days is None || is_recent(now, orphan_days->0, modified, orphans.len() - 1) {
            before.push(orphans.last())
        } else {
            before
        }
    }
}

/// Picks the orphans to be reported. `modified` holds, for each orphan, when it was last modified,
/// where that is known. Times are in nanoseconds, from whatever beginning.
pub fn filter_orphans_for_report<'a>(
    orphans: &'a [NotePath],
    orphan_days: Option<u64>,
    now: i128,
    modified: &[Option<i128>],
) -> (out: Vec<&'a NotePath>)
    ensures
        out.deep_view() == visible_orphans(orphans.deep_view(), orphan_days, now, modified@),
{
    let ghost all = orphans.deep_view();
    let mut out: Vec<&'a NotePath> = Vec::new();
    let mut i: usize = 0;
    proof {
        assert(all.take(0) =~= Seq::<Seq<char>>::empty());
        assert(out.deep_view() =~= Seq::<Seq<char>>::empty());
    }
    while i < orphans.len()
        invariant
            i <= orphans.len(),
            all == orphans.deep_view(),
            out.deep_view() == visible_orphans(all.take(i as int), orphan_days, now, modified@),
        decreases orphans.len() - i,
    {
        let ghost before = out.deep_view();
        proof {
            assert(all.take(i + 1).drop_last() =~= all.take(i as int));
            assert(all.take(i + 1).last() == orphans[i as int]@);
        }
        let visible: bool = match orphan_days {
            None => true,
            Some(days) => if i < modified.len() {
                match modified[i] {
                    Some(time) => time >= earliest_recent(now, days),
                    None => false,
                }
            } else {
                false
            },
        };
        if visible {
            out.push(&orphans[i]);
            proof {
                assert(out.deep_view() =~= before.push(orphans[i as int]@));
            }
        }
        i += 1;
    }
    proof {
        assert(all.take(i as int) =~= all);
    }
    out
}

/// The heading of a section, in bold cyan on a terminal.
pub open spec fn heading_text(
    title: Seq<char>,
    count: nat,
    singular: Seq<char>,
    plural: Seq<char>,
    use_color: bool,
) -> Seq<char> {
    let noun = if count == 1 {
        singular
    } else {
        plural
    };
    let text = "=== "@ + title + " ("@ + decimal(count) + " "@ + noun + ") ==="@;
    if use_color {
        "\x1b[1;36m"@ + text + "\x1b[0m"@
    } else {
        text
    }
}

fn heading(title: &str, count: usize, singular: &str, plural: &str, use_color: bool) -> (out: String)
    ensures
        out@ == heading_text(title@, count as nat, singular@, plural@, use_color),
{
    let noun = trama::pluralize(count, singular, plural);
    let mut text = "=== ".to_owned();
    text.append(title);
    text.append(" (");
    text.append(decimal_text(count as u64).as_str());
    text.append(" ");
    text.append(noun);
    text.append(") ===");
    if use_color {
        let mut colored = "\x1b[1;36m".to_owned();
        colored.append(text.as_str());
        colored.append("\x1b[0m");
        colored
    } else {
        text
    }
}

/// The first line: the vault and how many notes are in it.
pub open spec fn vault_line(vault_root: Seq<char>, total_files: nat) -> Seq<char> {
    "Vault: "@ + vault_root + "  ("@ + grouped(total_files) + " notes)\n"@
}

/// The line on orphans: how many are reported, of how many if not all, and how to see them.
pub open spec fn orphans_line(visible: nat, total: nat, width: nat, cli: Cli) -> Seq<char> {
    let of_total = if cli.orphan_days is Some && visible < total {
        " (of "@ + grouped(total) + " total)"@
    } else {
        ""@
    };
    let hint = if cli.details || cli.orphans {
        ""@
    } else {
        "   (--orphans to list)"@
    };
    "  Orphans        "@ + right_aligned(grouped(visible), width) + of_total + hint + "\n"@
}

/// The line on broken links: how many there are, and how to see them.
pub open spec fn broken_line(count: nat, width: nat, cli: Cli) -> Seq<char> {
    let hint = if cli.details || cli.broken {
        ""@
    } else {
        "   (--broken to list)"@
    };
    "  Broken links   "@ + right_aligned(grouped(count), width) + hint + "\n"@
}

/// The line on embeds.
pub open spec fn embeds_line(count: nat, width: nat) -> Seq<char> {
    "  Embeds         "@ + right_aligned(grouped(count), width) + "\n"@
}

/// The line on asymmetric links, if they were asked for.
pub open spec fn asymmetric_line(count: nat, width: nat, cli: Cli) -> Seq<char> {
    if cli.asymmetry {
        "  Asymmetric     "@ + right_aligned(grouped(count), width) + "\n"@
    } else {
        ""@
    }
}

/// The width of the column of counts, which is that of the widest count in it.
pub open spec fn count_width(analysis: Analysis, visible: nat, cli: Cli) -> nat {
    let first = wider(grouped(visible).len(), grouped(analysis.broken_links@.len()).len());
    let three = wider(first, grouped(analysis.embed_count as nat).len());
    if cli.asymmetry {
        wider(three, grouped(analysis.missing_backlinks@.len()).len())
    } else {
        three
    }
}

/// The greater of two widths.
pub open spec fn wider(a: nat, b: nat) -> nat {
    if a < b {
        b
    } else {
        a
    }
}

fn widest(a: u64, b: u64) -> (out: u64)
    ensures
        out == wider(a as nat, b as nat),
{
    if a < b {
        b
    } else {
        a
    }
}

fn column_width(analysis: &Analysis, visible: usize, cli: &Cli) -> (out: u64)
    ensures
        out == count_width(*analysis, visible as nat, *cli),
{
    let first: u64 = widest(
        grouped_width(visible as u64),
        grouped_width(analysis.broken_links.len() as u64),
    );
    let three: u64 = widest(first, grouped_width(analysis.embed_count as u64));
    if cli.asymmetry {
        widest(three, grouped_width(analysis.missing_backlinks.len() as u64))
    } else {
        three
    }
}

fn write_vault_line(vault_root: &str, total_files: usize) -> (out: String)
    ensures
        out@ == vault_line(vault_root@, total_files as nat),
{
    let mut out = "Vault: ".to_owned();
    out.append(vault_root);
    out.append("  (");
    out.append(grouped_text(total_files as u64).as_str());
    out.append(" notes)\n");
    out
}

fn write_orphans_line(visible: usize, total: usize, width: u64, cli: &Cli) -> (out: String)
    ensures
        out@ == orphans_line(visible as nat, total as nat, width as nat, *cli),
{
    let of_total = if cli.orphan_days.is_some() && visible < total {
        let mut note = " (of ".to_owned();
        note.append(grouped_text(total as u64).as_str());
        note.append(" total)");
        note
    } else {
        "".to_owned()
    };
    let hint = if cli.details || cli.orphans {
        ""
    } else {
        "   (--orphans to list)"
    };
    let mut out = "  Orphans        ".to_owned();
    out.append(aligned_text(visible as u64, width).as_str());
    out.append(of_total.as_str());
    out.append(hint);
    out.append("\n");
    out
}

fn write_broken_line(count: usize, width: u64, cli: &Cli) -> (out: String)
    ensures
        out@ == broken_line(count as nat, width as nat, *cli),
{
    let hint = if cli.details || cli.broken {
        ""
    } else {
        "   (--broken to list)"
    };
    let mut out = "  Broken links   ".to_owned();
    out.append(aligned_text(count as u64, width).as_str());
    out.append(hint);
    out.append("\n");
    out
}

fn write_embeds_line(count: usize, width: u64) -> (out: String)
    ensures
        out@ == embeds_line(count as nat, width as nat),
{
    let mut out = "  Embeds         ".to_owned();
    out.append(aligned_text(count as u64, width).as_str());
    out.append("\n");
    out
}

fn write_asymmetric_line(count: usize, width: u64, cli: &Cli) -> (out: String)
    ensures
        out@ == asymmetric_line(count as nat, width as nat, *cli),
{
    if cli.asymmetry {
        let mut out = "  Asymmetric     ".to_owned();
        out.append(aligned_text(count as u64, width).as_str());
        out.append("\n");
        out
    } else {
        "".to_owned()
    }
}

/// What a note is called in the list of asymmetric links.
pub open spec fn note_name(path: Seq<char>) -> Seq<char> {
    match file_name(path) {
        Some(name) => name,
        None => "target"@,
    }
}

/// The list of asymmetric links, a line for each.
pub open spec fn asymmetric_list(
    vault_root: Seq<char>,
    pairs: Seq<(Seq<char>, Seq<char>)>,
) -> Seq<char>
    decreases pairs.len(),
{
    if pairs.len() == 0 {
        Seq::empty()
    } else {
        let (source, target) = pairs.last();
        asymmetric_list(vault_root, pairs.drop_last()) + "  "@ + relative_path(vault_root, source)
            + " -> "@ + relative_path(vault_root, target) + " ("@ + note_name(target)
            + " does not link back)\n"@
    }
}

/// The list of orphans, a line for each.
pub open spec fn orphan_list(vault_root: Seq<char>, orphans: Seq<Seq<char>>) -> Seq<char>
    decreases orphans.len(),
{
    if orphans.len() == 0 {
        Seq::empty()
    } else {
        orphan_list(vault_root, orphans.drop_last()) + "  "@ + relative_path(
            vault_root,
            orphans.last(),
        ) + "\n"@
    }
}

/// The list of broken links, a line for each.
pub open spec fn broken_list(vault_root: Seq<char>, links: Seq<(Seq<char>, Seq<char>)>) -> Seq<char>
    decreases links.len(),
{
    if links.len() == 0 {
        Seq::empty()
    } else {
        let (source, target) = links.last();
        broken_list(vault_root, links.drop_last()) + "  "@ + relative_path(vault_root, source)
            + ": [["@ + target + "]]\n"@
    }
}

/// The section on asymmetric links, if it was asked for.
pub open spec fn asymmetric_section(
    vault_root: Seq<char>,
    pairs: Seq<(Seq<char>, Seq<char>)>,
    cli: Cli,
    use_color: bool,
) -> Seq<char> {
    if cli.details || cli.asymmetry {
        "\n"@ + heading_text("Asymmetric Links"@, pairs.len(), "pair"@, "pairs"@, use_color) + "\n"@
            + asymmetric_list(vault_root, pairs)
    } else {
        ""@
    }
}

/// The title of the section on orphans.
pub open spec fn orphans_title(orphan_days: Option<u64>) -> Seq<char> {
    match orphan_days {
        Some(days) => "Orphans (\u{2264} "@ + decimal(days as nat) + "d)"@,
        None => "Orphans"@,
    }
}

/// The section on orphans, if it was asked for.
pub open spec fn orphans_section(
    vault_root: Seq<char>,
    visible: Seq<Seq<char>>,
    cli: Cli,
    use_color: bool,
) -> Seq<char> {
    if cli.details || cli.orphans {
        "\n"@ + heading_text(
            orphans_title(cli.orphan_days),
            visible.len(),
            "note"@,
            "notes"@,
            use_color,
        ) + "\n"@ + orphan_list(vault_root, visible)
    } else {
        ""@
    }
}

/// The section on broken links, if it was asked for.
pub open spec fn broken_section(
    vault_root: Seq<char>,
    links: Seq<(Seq<char>, Seq<char>)>,
    cli: Cli,
    use_color: bool,
) -> Seq<char> {
    if cli.details || cli.broken {
        "\n"@ + heading_text("Broken Links"@, links.len(), "link"@, "links"@, use_color) + "\n"@
            + broken_list(vault_root, links)
    } else {
        ""@
    }
}

/// The counts that open the report, in a column.
pub open spec fn summary_text(
    vault_root: Seq<char>,
    total_files: nat,
    analysis: Analysis,
    visible: nat,
    cli: Cli,
) -> Seq<char> {
    let width = count_width(analysis, visible, cli);
    vault_line(vault_root, total_files) + orphans_line(
        visible,
        analysis.orphans@.len(),
        width,
        cli,
    ) + broken_line(analysis.broken_links@.len(), width, cli) + embeds_line(
        analysis.embed_count as nat,
        width,
    ) + asymmetric_line(analysis.missing_backlinks@.len(), width, cli)
}

/// The report for people: the counts, then the sections that were asked for.
pub open spec fn report_text(
    vault_root: Seq<char>,
    total_files: nat,
    analysis: Analysis,
    visible: Seq<Seq<char>>,
    cli: Cli,
    use_color: bool,
) -> Seq<char> {
    summary_text(vault_root, total_files, analysis, visible.len(), cli)
        + asymmetric_section(vault_root, analysis.missing_backlinks.deep_view(), cli, use_color)
        + orphans_section(vault_root, visible, cli, use_color) + broken_section(
        vault_root,
        analysis.broken_links.deep_view(),
        cli,
        use_color,
    )
}

fn write_asymmetric_section(
    vault_root: &str,
    pairs: &Vec<(NotePath, NotePath)>,
    cli: &Cli,
    use_color: bool,
) -> (out: String)
    ensures
        out@ == asymmetric_section(vault_root@, pairs.deep_view(), *cli, use_color),
{
    if !(cli.details || cli.asymmetry) {
        return "".to_owned();
    }
    let ghost all = pairs.deep_view();
    let mut out = "\n".to_owned();
    out.append(heading("Asymmetric Links", pairs.len(), "pair", "pairs", use_color).as_str());
    out.append("\n");
    let mut list = String::new();
    let mut i: usize = 0;
    proof {
        assert(all.take(0) =~= Seq::<(Seq<char>, Seq<char>)>::empty());
    }
    while i < pairs.len()
        invariant
            i <= pairs.len(),
            all == pairs.deep_view(),
            list@ == asymmetric_list(vault_root@, all.take(i as int)),
        decreases pairs.len() - i,
    {
        let source = &pairs[i].0;
        let target = &pairs[i].1;
        proof {
            assert(all.take(i + 1).drop_last() =~= all.take(i as int));
            assert(all.take(i + 1).last() == (source@, target@));
        }
        list.append("  ");
        list.append(source.relative_to(vault_root).as_str());
        list.append(" -> ");
        list.append(target.relative_to(vault_root).as_str());
        list.append(" (");
        match target.file_name() {
            Some(name) => {
                list.append(name);
            },
            None => {
                list.append("target");
            },
        }
        list.append(" does not link back)\n");
        i += 1;
    }
    proof {
        assert(all.take(i as int) =~= all);
    }
    out.append(list.as_str());
    out
}

fn write_orphans_section(
    vault_root: &str,
    visible: &Vec<&NotePath>,
    cli: &Cli,
    use_color: bool,
) -> (out: String)
    ensures
        out@ == orphans_section(vault_root@, visible.deep_view(), *cli, use_color),
{
    if !(cli.details || cli.orphans) {
        return "".to_owned();
    }
    let ghost all = visible.deep_view();
    let title = match cli.orphan_days {
        Some(days) => {
            let mut title = "Orphans (\u{2264} ".to_owned();
            title.append(decimal_text(days).as_str());
            title.append("d)");
            title
        },
        None => "Orphans".to_owned(),
    };
    let mut out = "\n".to_owned();
    out.append(heading(title.as_str(), visible.len(), "note", "notes", use_color).as_str());
    out.append("\n");
    let mut list = String::new();
    let mut i: usize = 0;
    proof {
        assert(all.take(0) =~= Seq::<Seq<char>>::empty());
    }
    while i < visible.len()
        invariant
            i <= visible.len(),
            all == visible.deep_view(),
            list@ == orphan_list(vault_root@, all.take(i as int)),
        decreases visible.len() - i,
    {
        proof {
            assert(all.take(i + 1).drop_last() =~= all.take(i as int));
            assert(all.take(i + 1).last() == visible[i as int]@);
        }
        list.append("  ");
        list.append(visible[i].relative_to(vault_root).as_str());
        list.append("\n");
        i += 1;
    }
    proof {
        assert(all.take(i as int) =~= all);
    }
    out.append(list.as_str());
    out
}

fn write_broken_section(
    vault_root: &str,
    links: &Vec<(NotePath, String)>,
    cli: &Cli,
    use_color: bool,
) -> (out: String)
    ensures
        out@ == broken_section(vault_root@, links.deep_view(), *cli, use_color),
{
    if !(cli.details || cli.broken) {
        return "".to_owned();
    }
    let ghost all = links.deep_view();
    let mut out = "\n".to_owned();
    out.append(heading("Broken Links", links.len(), "link", "links", use_color).as_str());
    out.append("\n");
    let mut list = String::new();
    let mut i: usize = 0;
    proof {
        assert(all.take(0) =~= Seq::<(Seq<char>, Seq<char>)>::empty());
    }
    while i < links.len()
        invariant
            i <= links.len(),
            all == links.deep_view(),
            list@ == broken_list(vault_root@, all.take(i as int)),
        decreases links.len() - i,
    {
        proof {
            assert(all.take(i + 1).drop_last() =~= all.take(i as int));
            assert(all.take(i + 1).last() == (links[i as int].0@, links[i as int].1@));
        }
        list.append("  ");
        list.append(links[i].0.relative_to(vault_root).as_str());
        list.append(": [[");
        list.append(links[i].1.as_str());
        list.append("]]\n");
        i += 1;
    }
    proof {
        assert(all.take(i as int) =~= all);
    }
    out.append(list.as_str());
    out
}

/// Writes the report for people. `now` and `modified` are as in `filter_orphans_for_report`.
pub fn human_report(
    vault_root: &str,
    total_files: usize,
    analysis: &Analysis,
    cli: &Cli,
    now: i128,
    modified: &[Option<i128>],
    use_color: bool,
) -> (out: String)
    ensures
        out@ == report_text(
            vault_root@,
            total_files as nat,
            *analysis,
            visible_orphans(
                analysis.orphans.deep_view(),
                cli.orphan_days,
                now,
                modified@,
            ),
            *cli,
            use_color,
        ),
{
    let orphans = analysis.orphans.as_slice();
    proof {
        assert(orphans.deep_view() =~= analysis.orphans.deep_view());
    }
    let visible = filter_orphans_for_report(orphans, cli.orphan_days, now, modified);
    let width: u64 = column_width(analysis, visible.len(), cli);
    let mut out = write_vault_line(vault_root, total_files);
    out.append(write_orphans_line(visible.len(), analysis.orphans.len(), width, cli).as_str());
    out.append(write_broken_line(analysis.broken_links.len(), width, cli).as_str());
    out.append(write_embeds_line(analysis.embed_count, width).as_str());
    out.append(write_asymmetric_line(analysis.missing_backlinks.len(), width, cli).as_str());
    out.append(
        write_asymmetric_section(
            vault_root,
            &analysis.missing_backlinks,
            cli,
            use_color,
        ).as_str(),
    );
    out.append(write_orphans_section(vault_root, &visible, cli, use_color).as_str());
    out.append(
        write_broken_section(vault_root, &analysis.broken_links, cli, use_color).as_str(),
    );
    out
}

/// A missing backlink, with paths as seen from the vault.
#[derive(Debug, PartialEq, Eq)]
pub struct MissingBacklink {
    pub source: String,
    pub target: String,
}

/// A broken link, with the path of its note as seen from the vault.
#[derive(Debug, PartialEq, Eq)]
pub struct BrokenLink {
    pub source: String,
    pub target: String,
}

/// The report for programs.
#[derive(Debug, PartialEq, Eq)]
pub struct Report {
    pub vault: String,
    pub total_files: usize,
    pub total_assets: usize,
    pub embed_count: usize,
    pub missing_backlinks: Vec<MissingBacklink>,
    pub orphans: Vec<String>,
    pub broken_links: Vec<BrokenLink>,
}

fn report_missing_backlinks(vault_root: &str, pairs: &Vec<(NotePath, NotePath)>) -> (out: Vec<
    MissingBacklink,
>)
    ensures
        out.len() == pairs.len(),
        forall|i: int|
            0 <= i < out.len() ==> {
                &&& (#[trigger] out[i]).source@ == relative_path(vault_root@, pairs[i].0@)
                &&& out[i].target@ == relative_path(vault_root@, pairs[i].1@)
            },
{
    let mut out: Vec<MissingBacklink> = Vec::new();
    let mut i: usize = 0;
    while i < pairs.len()
        invariant
            i <= pairs.len(),
            out.len() == i,
            forall|j: int|
                0 <= j < i ==> {
                    &&& (#[trigger] out[j]).source@ == relative_path(vault_root@, pairs[j].0@)
                    &&& out[j].target@ == relative_path(vault_root@, pairs[j].1@)
                },
        decreases pairs.len() - i,
    {
        out.push(
            MissingBacklink {
                source: pairs[i].0.relative_to(vault_root),
                target: pairs[i].1.relative_to(vault_root),
            },
        );
        i += 1;
    }
    out
}

fn report_orphans(vault_root: &str, orphans: &Vec<NotePath>) -> (out: Vec<String>)
    ensures
        out.len() == orphans.len(),
        forall|i: int|
            0 <= i < out.len() ==> (#[trigger] out[i])@ == relative_path(
                vault_root@,
                orphans[i]@,
            ),
{
    let mut out: Vec<String> = Vec::new();
    let mut i: usize = 0;
    while i < orphans.len()
        invariant
            i <= orphans.len(),
            out.len() == i,
            forall|j: int|
                0 <= j < i ==> (#[trigger] out[j])@ == relative_path(vault_root@, orphans[j]@),
        decreases orphans.len() - i,
    {
        out.push(orphans[i].relative_to(vault_root));
        i += 1;
    }
    out
}

fn report_broken_links(vault_root: &str, links: &Vec<(NotePath, String)>) -> (out: Vec<BrokenLink>)
    ensures
        out.len() == links.len(),
        forall|i: int|
            0 <= i < out.len() ==> {
                &&& (#[trigger] out[i]).source@ == relative_path(vault_root@, links[i].0@)
                &&& out[i].target@ == links[i].1@
            },
{
    let mut out: Vec<BrokenLink> = Vec::new();
    let mut i: usize = 0;
    while i < links.len()
        invariant
            i <= links.len(),
            out.len() == i,
            forall|j: int|
                0 <= j < i ==> {
                    &&& (#[trigger] out[j]).source@ == relative_path(vault_root@, links[j].0@)
                    &&& out[j].target@ == links[j].1@
                },
        decreases links.len() - i,
    {
        out.push(
            BrokenLink {
                source: links[i].0.relative_to(vault_root),
                target: links[i].1.clone(),
            },
        );
        i += 1;
    }
    out
}

/// Builds the report for programs. It lists everything, whatever sections were asked for.
pub fn build_json_report(
    vault_root: &str,
    total_files: usize,
    total_assets: usize,
    analysis: &Analysis,
) -> (out: Report)
    ensures
        out.vault@ == vault_root@,
        out.total_files == total_files,
        out.total_assets == total_assets,
        out.embed_count == analysis.embed_count,
        out.missing_backlinks.len() == analysis.missing_backlinks.len(),
        forall|i: int|
            0 <= i < out.missing_backlinks.len() ==> {
                let (source, target) = analysis.missing_backlinks[i];
                &&& (#[trigger] out.missing_backlinks[i]).source@ == relative_path(
                    vault_root@,
                    source@,
                )
                &&& out.missing_backlinks[i].target@ == relative_path(vault_root@, target@)
            },
        out.orphans.len() == analysis.orphans.len(),
        forall|i: int|
            0 <= i < out.orphans.len() ==> (#[trigger] out.orphans[i])@ == relative_path(
                vault_root@,
                analysis.orphans[i]@,
            ),
        out.broken_links.len() == analysis.broken_links.len(),
        forall|i: int|
            0 <= i < out.broken_links.len() ==> {
                let (source, target) = analysis.broken_links[i];
                &&& (#[trigger] out.broken_links[i]).source@ == relative_path(vault_root@, source@)
                &&& out.broken_links[i].target@ == target@
            },
{
    Report {
        vault: vault_root.to_owned(),
        total_files,
        total_assets,
        embed_count: analysis.embed_count,
        missing_backlinks: report_missing_backlinks(vault_root, &analysis.missing_backlinks),
        orphans: report_orphans(vault_root, &analysis.orphans),
        broken_links: report_broken_links(vault_root, &analysis.broken_links),
    }
}

/// There are orphans or broken links. Missing backlinks alone are no findings.
pub open spec fn has_findings(analysis: Analysis) -> bool {
    analysis.orphans@.len() > 0 || analysis.broken_links@.len() > 0
}

/// The exit code: 0 for a clean vault, 1 for one with findings, and 2 when there is nothing to
/// report because of a fatal error.
pub fn exit_code(analysis: Option<&Analysis>) -> (out: u8)
    ensures
        out == (match analysis {
            Some(analysis) => if has_findings(*analysis) {
                1u8
            } else {
                0u8
            },
            None => 2u8,
        }),
        out == 2 <==> analysis is None,
        out == 0 <==> analysis is Some && analysis->0.orphans@.len() == 0
            && analysis->0.broken_links@.len() == 0,
        out <= 2,
{
    match analysis {
        Some(analysis) => if analysis.orphans.len() > 0 || analysis.broken_links.len() > 0 {
            1
        } else {
            0
        },
        None => 2,
    }
}

/// There are findings just when some note is isolated or some name leads nowhere.
pub proof fn law_findings(
    analysis: Analysis,
    files: Seq<Seq<char>>,
    parsed: Seq<NoteView>,
    index: Map<Seq<char>, Seq<char>>,
    assets: Set<Seq<char>>,
)
    requires
        is_analysis(analysis, files, parsed, index, assets),
    ensures
        has_findings(analysis) <==> {
            ||| exists|file: Seq<char>| #[trigger]
                files.contains(file) && is_isolated(parsed, index, normal_path(file))
            ||| exists|source: Seq<char>, name: Seq<char>| #[trigger]
                is_broken(parsed, index, assets, source, name)
        },
{
    let orphans = analysis.orphans.deep_view();
    let broken = analysis.broken_links.deep_view();
    let broken_keys = keys::<(NotePath, String)>(broken);
    let isolated = |f: Seq<char>| is_isolated(parsed, index, normal_path(f));
    let kept = files.filter(isolated);
    if orphans.len() > 0 {
        let path = normal_path(orphans[0]);
        assert(keys::<NotePath>(orphans)[0] == path);
        lemma_with_key::<NotePath>(orphans, path);
        lemma_with_key::<NotePath>(kept, path);
        assert(with_key::<NotePath>(orphans, path) == with_key::<NotePath>(kept, path));
        let file = with_key::<NotePath>(kept, path)[0];
        let i = choose|i: int| 0 <= i < kept.len() && kept[i] == file;
        files.lemma_filter_pred(isolated, i);
        files.lemma_filter_contains_rev(isolated, file);
        assert(files.contains(file) && is_isolated(parsed, index, normal_path(file)));
    }
    if broken.len() > 0 {
        let pair = broken_keys[0];
        assert(broken_keys.contains(pair));
        assert(is_broken(parsed, index, assets, pair.0, pair.1));
    }
    if exists|file: Seq<char>| #[trigger]
        files.contains(file) && is_isolated(parsed, index, normal_path(file)) {
        let file = choose|file: Seq<char>| #[trigger]
            files.contains(file) && is_isolated(parsed, index, normal_path(file));
        let path = normal_path(file);
        let i = choose|i: int| 0 <= i < files.len() && files[i] == file;
        assert(isolated(files[i]));
        files.lemma_filter_contains(isolated, i);
        let k = choose|k: int| 0 <= k < kept.len() && kept[k] == file;
        assert(keys::<NotePath>(kept)[k] == path);
        lemma_with_key::<NotePath>(kept, path);
        lemma_with_key::<NotePath>(orphans, path);
        assert(with_key::<NotePath>(orphans, path) == with_key::<NotePath>(kept, path));
    }
    if exists|source: Seq<char>, name: Seq<char>| #[trigger]
        is_broken(parsed, index, assets, source, name) {
        let (source, name) = choose|source: Seq<char>, name: Seq<char>| #[trigger]
            is_broken(parsed, index, assets, source, name);
        assert(broken_keys.contains((source, name)));
    }
}

/// Without a number of days all orphans are reported.
pub proof fn law_all_orphans_are_visible_by_default(
    orphans: Seq<Seq<char>>,
    now: i128,
    modified: Seq<Option<i128>>,
)
    ensures
        visible_orphans(orphans, None, now, modified) == orphans,
    decreases orphans.len(),
{
    if orphans.len() > 0 {
        law_all_orphans_are_visible_by_default(orphans.drop_last(), now, modified);
        assert(orphans.drop_last().push(orphans.last()) =~= orphans);
    } else {
        assert(visible_orphans(orphans, None, now, modified) =~= orphans);
    }
}

/// With a number of days, an orphan is reported just when it is recent.
pub proof fn law_recent_orphans_are_visible(
    orphans: Seq<Seq<char>>,
    days: u64,
    now: i128,
    modified: Seq<Option<i128>>,
    orphan: Seq<char>,
)
    ensures
        visible_orphans(orphans, Some(days), now, modified).contains(orphan) <==> exists|i: int|
            0 <= i < orphans.len() && #[trigger] orphans[i] == orphan
                && is_recent(now, days, modified, i),
    decreases orphans.len(),
{
    if orphans.len() > 0 {
        let shorter = orphans.drop_last();
        let before = visible_orphans(shorter, Some(days), now, modified);
        let all = visible_orphans(orphans, Some(days), now, modified);
        law_recent_orphans_are_visible(shorter, days, now, modified, orphan);
        if all.contains(orphan) {
            let k = choose|k: int| 0 <= k < all.len() && all[k] == orphan;
            if k < before.len() {
                assert(before.contains(orphan));
                let i = choose|i: int|
                    0 <= i < shorter.len() && #[trigger] shorter[i] == orphan
                        && is_recent(now, days, modified, i);
                assert(orphans[i] == orphan);
            } else {
                assert(orphans[orphans.len() - 1] == orphan);
            }
        }
        if exists|i: int|
            0 <= i < orphans.len() && #[trigger] orphans[i] == orphan
                && is_recent(now, days, modified, i) {
            let i = choose|i: int|
                0 <= i < orphans.len() && #[trigger] orphans[i] == orphan
                    && is_recent(now, days, modified, i);
            if i < shorter.len() {
                assert(shorter[i] == orphan);
                let k = choose|k: int| 0 <= k < before.len() && before[k] == orphan;
                assert(all[k] == orphan);
            } else {
                assert(all[before.len() as int] == orphan);
            }
        }
    }
}

/// Unless a list is asked for, the report consists of counts only.
pub proof fn law_default_report_is_a_summary(
    vault_root: Seq<char>,
    total_files: nat,
    analysis: Analysis,
    visible: Seq<Seq<char>>,
    cli: Cli,
    use_color: bool,
)
    requires
        !cli.details,
        !cli.asymmetry,
        !cli.orphans,
        !cli.broken,
    ensures
        report_text(vault_root, total_files, analysis, visible, cli, use_color)
            == summary_text(vault_root, total_files, analysis, visible.len(), cli),
{
    reveal_strlit("");
    let summary = summary_text(
        vault_root,
        total_files,
        analysis,
        visible.len(),
        cli,
    );
    assert(summary + ""@ =~= summary);
}

/// A flag that asks for one list adds the section of that list and no other.
pub proof fn law_a_filter_flag_adds_its_section_only(
    vault_root: Seq<char>,
    total_files: nat,
    analysis: Analysis,
    visible: Seq<Seq<char>>,
    cli: Cli,
    use_color: bool,
)
    requires
        !cli.details,
    ensures
        ({
            let text = report_text(
                vault_root,
                total_files,
                        analysis,
                visible,
                cli,
                use_color,
            );
            let summary = summary_text(
                vault_root,
                total_files,
                        analysis,
                visible.len(),
                cli,
            );
            let missing = analysis.missing_backlinks.deep_view();
            let broken = analysis.broken_links.deep_view();
            &&& cli.asymmetry && !cli.orphans && !cli.broken ==> text == summary
                + asymmetric_section(vault_root, missing, cli, use_color)
            &&& cli.orphans && !cli.asymmetry && !cli.broken ==> text == summary + orphans_section(
                vault_root,
                visible,
                cli,
                use_color,
            )
            &&& cli.broken && !cli.asymmetry && !cli.orphans ==> text == summary + broken_section(
                vault_root,
                broken,
                cli,
                use_color,
            )
        }),
{
    reveal_strlit("");
    let none = ""@;
    let summary = summary_text(
        vault_root,
        total_files,
        analysis,
        visible.len(),
        cli,
    );
    let a = asymmetric_section(vault_root, analysis.missing_backlinks.deep_view(), cli, use_color);
    let o = orphans_section(vault_root, visible, cli, use_color);
    assert(none =~= Seq::<char>::empty());
    assert(summary + none =~= summary);
    assert(summary + a + none =~= summary + a);
    assert(summary + o + none =~= summary + o);
}

} // verus!
