//! What the report for people says, word by word.
use crate::graph::Analysis;
use crate::options::Cli;
use crate::path::{file_name, relative_path};
use crate::report::{
    asymmetric_list, broken_list, has_findings, heading_text, orphan_list, report_text,
    visible_orphans,
};
use crate::text::{decimal, grouped, right_aligned};
use vstd::prelude::*;

verus! {

/// Lines one after the other: the first `n` that `line` gives.
pub open spec fn stacked(n: nat, line: spec_fn(int) -> Seq<char>) -> Seq<char>
    decreases n,
{
    if n == 0 {
        Seq::empty()
    } else {
        stacked((n - 1) as nat, line) + line(n - 1)
    }
}

proof fn lemma_same_lines(n: nat, f: spec_fn(int) -> Seq<char>, g: spec_fn(int) -> Seq<char>)
    requires
        forall|i: int| 0 <= i < n ==> #[trigger] f(i) == g(i),
    ensures
        stacked(n, f) == stacked(n, g),
    decreases n,
{
    if n > 0 {
        lemma_same_lines((n - 1) as nat, f, g);
        assert(f(n - 1) == g(n - 1));
    }
}

/// One more pair, orphan or broken link adds its line at the end of its list, and changes nothing
/// before it. Without any there is nothing.
pub proof fn law_lists_grow_by_a_line(
    root: Seq<char>,
    pairs: Seq<(Seq<char>, Seq<char>)>,
    pair: (Seq<char>, Seq<char>),
    orphans: Seq<Seq<char>>,
    orphan: Seq<char>,
)
    ensures
        asymmetric_list(root, Seq::empty()) == Seq::<char>::empty(),
        asymmetric_list(root, pairs.push(pair)) == asymmetric_list(root, pairs) + ("  "@
            + relative_path(root, pair.0) + " -> "@ + relative_path(root, pair.1) + " ("@ + (
        match file_name(pair.1) {
            Some(name) => name,
            None => "target"@,
        }) + " does not link back)\n"@),
        orphan_list(root, Seq::empty()) == Seq::<char>::empty(),
        orphan_list(root, orphans.push(orphan)) == orphan_list(root, orphans) + ("  "@
            + relative_path(root, orphan) + "\n"@),
        broken_list(root, Seq::empty()) == Seq::<char>::empty(),
        broken_list(root, pairs.push(pair)) == broken_list(root, pairs) + ("  "@ + relative_path(
            root,
            pair.0,
        ) + ": [["@ + pair.1 + "]]\n"@),
{
    assert(pairs.push(pair).drop_last() =~= pairs);
    assert(orphans.push(orphan).drop_last() =~= orphans);
    let name = match file_name(pair.1) {
        Some(name) => name,
        None => "target"@,
    };
    assert(asymmetric_list(root, pairs.push(pair)) =~= asymmetric_list(root, pairs) + ("  "@
        + relative_path(root, pair.0) + " -> "@ + relative_path(root, pair.1) + " ("@ + name
        + " does not link back)\n"@));
    assert(orphan_list(root, orphans.push(orphan)) =~= orphan_list(root, orphans) + ("  "@
        + relative_path(root, orphan) + "\n"@));
    assert(broken_list(root, pairs.push(pair)) =~= broken_list(root, pairs) + ("  "@
        + relative_path(root, pair.0) + ": [["@ + pair.1 + "]]\n"@));
}

proof fn lemma_lists_are_stacked(
    root: Seq<char>,
    pairs: Seq<(Seq<char>, Seq<char>)>,
    orphans: Seq<Seq<char>>,
)
    ensures
        asymmetric_list(root, pairs) == stacked(
            pairs.len(),
            |i: int|
                "  "@ + relative_path(root, pairs[i].0) + " -> "@ + relative_path(root, pairs[i].1)
                    + " ("@ + (match file_name(pairs[i].1) {
                    Some(name) => name,
                    None => "target"@,
                }) + " does not link back)\n"@,
        ),
        orphan_list(root, orphans) == stacked(
            orphans.len(),
            |i: int| "  "@ + relative_path(root, orphans[i]) + "\n"@,
        ),
        broken_list(root, pairs) == stacked(
            pairs.len(),
            |i: int| "  "@ + relative_path(root, pairs[i].0) + ": [["@ + pairs[i].1 + "]]\n"@,
        ),
    decreases pairs.len() + orphans.len(),
{
    let a = |s: Seq<(Seq<char>, Seq<char>)>|
        |i: int|
            "  "@ + relative_path(root, s[i].0) + " -> "@ + relative_path(root, s[i].1) + " ("@ + (
            match file_name(s[i].1) {
                Some(name) => name,
                None => "target"@,
            }) + " does not link back)\n"@;
    let o = |s: Seq<Seq<char>>| |i: int| "  "@ + relative_path(root, s[i]) + "\n"@;
    let b = |s: Seq<(Seq<char>, Seq<char>)>|
        |i: int| "  "@ + relative_path(root, s[i].0) + ": [["@ + s[i].1 + "]]\n"@;
    if pairs.len() > 0 {
        let shorter = pairs.drop_last();
        lemma_lists_are_stacked(root, shorter, orphans);
        law_lists_grow_by_a_line(root, shorter, pairs.last(), orphans, root);
        assert(shorter.push(pairs.last()) =~= pairs);
        assert forall|i: int| 0 <= i < shorter.len() implies #[trigger] a(shorter)(i) == a(pairs)(
            i,
        ) by {}
        lemma_same_lines(shorter.len(), a(shorter), a(pairs));
        assert forall|i: int| 0 <= i < shorter.len() implies #[trigger] b(shorter)(i) == b(pairs)(
            i,
        ) by {}
        lemma_same_lines(shorter.len(), b(shorter), b(pairs));
    } else {
        assert(pairs =~= Seq::empty());
        law_lists_grow_by_a_line(root, pairs, (root, root), orphans, root);
        if orphans.len() > 0 {
            let shorter = orphans.drop_last();
            lemma_lists_are_stacked(root, pairs, shorter);
            law_lists_grow_by_a_line(root, pairs, (root, root), shorter, orphans.last());
            assert(shorter.push(orphans.last()) =~= orphans);
            assert forall|i: int| 0 <= i < shorter.len() implies #[trigger] o(shorter)(i) == o(
                orphans,
            )(i) by {}
            lemma_same_lines(shorter.len(), o(shorter), o(orphans));
        } else {
            assert(orphans =~= Seq::empty());
        }
    }
}

/// A heading gives its title and the number of things below it, and is wrapped in what switches
/// color on and off where there is color.
pub proof fn law_headings_count_what_follows(
    title: Seq<char>,
    count: nat,
    singular: Seq<char>,
    plural: Seq<char>,
)
    ensures
        heading_text(title, 1, singular, plural, false) == "=== "@ + title + " ("@ + decimal(1)
            + " "@ + singular + ") ==="@,
        count != 1 ==> heading_text(title, count, singular, plural, false) == "=== "@ + title
            + " ("@ + decimal(count) + " "@ + plural + ") ==="@,
        heading_text(title, count, singular, plural, true) == "\x1b[1;36m"@ + heading_text(
            title,
            count,
            singular,
            plural,
            false,
        ) + "\x1b[0m"@,
{
}

/// The report says this and nothing else: the vault with the number of its notes, the counts in a
/// column as wide as the widest of them, and below that the sections that were asked for, each with
/// a line for each thing in it.
pub proof fn law_the_report_word_by_word(
    vault_root: Seq<char>,
    total_files: nat,
    analysis: Analysis,
    visible: Seq<Seq<char>>,
    cli: Cli,
    use_color: bool,
)
    ensures
        ({
            let missing = analysis.missing_backlinks.deep_view();
            let broken = analysis.broken_links.deep_view();
            let o = grouped(visible.len());
            let b = grouped(broken.len());
            let e = grouped(analysis.embed_count as nat);
            let m = grouped(missing.len());
            let width = if cli.asymmetry && m.len() >= o.len() && m.len() >= b.len() && m.len()
                >= e.len() {
                m.len()
            } else if o.len() >= b.len() && o.len() >= e.len() {
                o.len()
            } else if b.len() >= e.len() {
                b.len()
            } else {
                e.len()
            };
            report_text(vault_root, total_files, analysis, visible, cli, use_color) == (
            "Vault: "@ + vault_root + "  ("@ + grouped(total_files) + " notes)\n"@) + (
            "  Orphans        "@ + right_aligned(o, width) + (if cli.orphan_days is Some
                && visible.len() < analysis.orphans@.len() {
                " (of "@ + grouped(analysis.orphans@.len()) + " total)"@
            } else {
                ""@
            }) + (if cli.details || cli.orphans {
                ""@
            } else {
                "   (--orphans to list)"@
            }) + "\n"@) + ("  Broken links   "@ + right_aligned(b, width) + (if cli.details
                || cli.broken {
                ""@
            } else {
                "   (--broken to list)"@
            }) + "\n"@) + ("  Embeds         "@ + right_aligned(e, width) + "\n"@) + (
            if cli.asymmetry {
                "  Asymmetric     "@ + right_aligned(m, width) + "\n"@
            } else {
                ""@
            }) + (if cli.details || cli.asymmetry {
                "\n"@ + heading_text(
                    "Asymmetric Links"@,
                    missing.len(),
                    "pair"@,
                    "pairs"@,
                    use_color,
                ) + "\n"@ + stacked(
                    missing.len(),
                    |i: int|
                        "  "@ + relative_path(vault_root, missing[i].0) + " -> "@ + relative_path(
                            vault_root,
                            missing[i].1,
                        ) + " ("@ + (match file_name(missing[i].1) {
                            Some(name) => name,
                            None => "target"@,
                        }) + " does not link back)\n"@,
                )
            } else {
                ""@
            }) + (if cli.details || cli.orphans {
                "\n"@ + heading_text(
                    match cli.orphan_days {
                        Some(days) => "Orphans (\u{2264} "@ + decimal(days as nat) + "d)"@,
                        None => "Orphans"@,
                    },
                    visible.len(),
                    "note"@,
                    "notes"@,
                    use_color,
                ) + "\n"@ + stacked(
                    visible.len(),
                    |i: int| "  "@ + relative_path(vault_root, visible[i]) + "\n"@,
                )
            } else {
                ""@
            }) + (if cli.details || cli.broken {
                "\n"@ + heading_text("Broken Links"@, broken.len(), "link"@, "links"@, use_color)
                    + "\n"@ + stacked(
                    broken.len(),
                    |i: int|
                        "  "@ + relative_path(vault_root, broken[i].0) + ": [["@ + broken[i].1
                            + "]]\n"@,
                )
            } else {
                ""@
            })
        }),
{
    lemma_lists_are_stacked(vault_root, analysis.missing_backlinks.deep_view(), visible);
    lemma_lists_are_stacked(vault_root, analysis.broken_links.deep_view(), visible);
}

/// One more orphan is shown after those before it if no number of days is given, or if its time is
/// known and lies no more than so many days of 24 hours before now, in nanoseconds. It changes
/// nothing for those before it.
pub proof fn law_orphans_are_shown_one_by_one(
    orphans: Seq<Seq<char>>,
    orphan: Seq<char>,
    days: u64,
    now: i128,
    modified: Seq<Option<i128>>,
)
    ensures
        ({
            let n = orphans.len() as int;
            let all = visible_orphans(orphans, None, now, modified);
            let some = visible_orphans(orphans, Some(days), now, modified);
            &&& visible_orphans(Seq::empty(), None, now, modified) == Seq::<Seq<char>>::empty()
            &&& visible_orphans(Seq::empty(), Some(days), now, modified) == Seq::<
                Seq<char>,
            >::empty()
            &&& visible_orphans(orphans.push(orphan), None, now, modified) == all.push(orphan)
            &&& visible_orphans(orphans.push(orphan), Some(days), now, modified) == if n
                < modified.len() && modified[n] is Some && now - modified[n]->0 <= days * (24 * 60
                * 60 * 1_000_000_000) {
                some.push(orphan)
            } else {
                some
            }
        }),
{
    assert(orphans.push(orphan).drop_last() =~= orphans);
}

/// There are findings just when there are orphans or broken links.
pub proof fn law_orphans_and_broken_links_are_findings(analysis: Analysis)
    ensures
        has_findings(analysis) <==> !(analysis.orphans@.len() == 0 && analysis.broken_links@.len()
            == 0),
{
}

} // verus!
