//! What color adds to the report for people.
use crate::graph::Analysis;
use crate::options::Cli;
use crate::path::{
    components, counting, joined, lies_under, normal_path, path_text, relative_path, segments,
};
use crate::report::{
    asymmetric_line, asymmetric_list, asymmetric_section, broken_line, broken_list, broken_section,
    count_width, embeds_line, heading_text, note_name, orphan_list, orphans_line, orphans_section,
    orphans_title, report_text, summary_text, vault_line,
};
use crate::text::{decimal, digit, grouped, last_three, right_aligned};
use vstd::prelude::*;

verus! {

/// What switches to bold cyan.
pub open spec fn color_on() -> Seq<char> {
    seq!['\x1b', '[', '1', ';', '3', '6', 'm']
}

/// What switches back.
pub open spec fn color_off() -> Seq<char> {
    seq!['\x1b', '[', '0', 'm']
}

/// `pattern` stands in `text` at `at`.
pub open spec fn found_at(text: Seq<char>, pattern: Seq<char>, at: int) -> bool {
    0 <= at && at + pattern.len() <= text.len() && text.subrange(at, at + pattern.len()) == pattern
}

/// `text` with everything that switches color deleted.
pub open spec fn without_color(text: Seq<char>) -> Seq<char>
    decreases text.len(),
{
    if text.len() == 0 {
        text
    } else if found_at(text, color_on(), 0) {
        without_color(text.skip(7))
    } else if found_at(text, color_off(), 0) {
        without_color(text.skip(4))
    } else {
        seq![text[0]] + without_color(text.skip(1))
    }
}

/// There is no escape character in `text`.
pub open spec fn escape_free(text: Seq<char>) -> bool {
    forall|i: int| 0 <= i < text.len() ==> #[trigger] text[i] != '\x1b'
}

/// Color is switched on at `at`, which is the beginning of a line that goes on with `=== `.
pub open spec fn opens_heading(text: Seq<char>, at: int) -> bool {
    &&& at > 0
    &&& text[at - 1] == '\n'
    &&& found_at(text, color_on(), at)
    &&& found_at(text, seq!['=', '=', '=', ' '], at + 7)
}

/// Color is switched off at `at`, after ` ===` and at the end of the line.
pub open spec fn closes_heading(text: Seq<char>, at: int) -> bool {
    &&& found_at(text, seq![' ', '=', '=', '='], at - 4)
    &&& found_at(text, color_off(), at)
    &&& at + 4 < text.len()
    &&& text[at + 4] == '\n'
}

/// Escape characters stand round headings only.
pub open spec fn colors_headings_only(text: Seq<char>) -> bool {
    forall|at: int|
        0 <= at < text.len() && #[trigger] text[at] == '\x1b' ==> opens_heading(text, at)
            || closes_heading(text, at)
}

/// `colored` is `plain` with color round its headings.
pub open spec fn is_colored(colored: Seq<char>, plain: Seq<char>) -> bool {
    &&& colors_headings_only(colored)
    &&& without_color(colored) == plain
    &&& escape_free(plain)
}

/// There is no escape character in a path, nor in what is shown of it. The latter follows from the
/// former for a path in normal form.
pub open spec fn shown_escape_free(root: Seq<char>, path: Seq<char>) -> bool {
    escape_free(path) && (normal_path(path) != path ==> escape_free(relative_path(root, path)))
}

/// Each escape character begins something that switches color.
spec fn whole(text: Seq<char>) -> bool {
    forall|at: int|
        0 <= at < text.len() && #[trigger] text[at] == '\x1b' ==> found_at(text, color_on(), at)
            || found_at(text, color_off(), at)
}

proof fn lemma_found_in_concat(a: Seq<char>, b: Seq<char>, pattern: Seq<char>, at: int)
    ensures
        found_at(a, pattern, at) ==> found_at(a + b, pattern, at),
        found_at(b, pattern, at) ==> found_at(a + b, pattern, a.len() + at),
{
    if found_at(a, pattern, at) {
        assert((a + b).subrange(at, at + pattern.len()) =~= a.subrange(at, at + pattern.len()));
    }
    if found_at(b, pattern, at) {
        assert((a + b).subrange(a.len() + at, a.len() + at + pattern.len()) =~= b.subrange(
            at,
            at + pattern.len(),
        ));
    }
}

proof fn lemma_whole_skip(text: Seq<char>, n: int)
    requires
        whole(text),
        0 <= n <= text.len(),
    ensures
        whole(text.skip(n)),
{
    let rest = text.skip(n);
    assert forall|at: int| 0 <= at < rest.len() && #[trigger] rest[at] == '\x1b' implies found_at(
        rest,
        color_on(),
        at,
    ) || found_at(rest, color_off(), at) by {
        assert(text[n + at] == '\x1b');
        if found_at(text, color_on(), n + at) {
            assert(rest.subrange(at, at + 7) =~= text.subrange(n + at, n + at + 7));
        } else {
            assert(rest.subrange(at, at + 4) =~= text.subrange(n + at, n + at + 4));
        }
    }
}

proof fn lemma_without_color_concat(a: Seq<char>, b: Seq<char>)
    requires
        whole(a),
    ensures
        without_color(a + b) == without_color(a) + without_color(b),
    decreases a.len(),
{
    let both = a + b;
    if a.len() == 0 {
        assert(both =~= b);
        assert(without_color(a) + without_color(b) =~= without_color(b));
    } else {
        lemma_found_in_concat(a, b, color_on(), 0);
        lemma_found_in_concat(a, b, color_off(), 0);
        assert(both[0] == a[0]);
        if a[0] == '\x1b' {
            if found_at(a, color_on(), 0) {
                lemma_whole_skip(a, 7);
                lemma_without_color_concat(a.skip(7), b);
                assert(both.skip(7) =~= a.skip(7) + b);
            } else {
                assert(found_at(a, color_off(), 0));
                assert(a.subrange(0, 4)[2] == '0');
                if found_at(both, color_on(), 0) {
                    assert(both.subrange(0, 7)[2] == '1');
                    assert(both[2] == a[2]);
                }
                lemma_whole_skip(a, 4);
                lemma_without_color_concat(a.skip(4), b);
                assert(both.skip(4) =~= a.skip(4) + b);
            }
        } else {
            lemma_no_escape_here(a);
            lemma_no_escape_here(both);
            lemma_whole_skip(a, 1);
            lemma_without_color_concat(a.skip(1), b);
            assert(both.skip(1) =~= a.skip(1) + b);
            assert(without_color(both) =~= without_color(a) + without_color(b));
        }
    }
}

proof fn lemma_no_escape_here(text: Seq<char>)
    requires
        text.len() > 0,
        text[0] != '\x1b',
    ensures
        !found_at(text, color_on(), 0),
        !found_at(text, color_off(), 0),
{
    if found_at(text, color_on(), 0) {
        assert(text.subrange(0, 7)[0] == color_on()[0]);
    }
    if found_at(text, color_off(), 0) {
        assert(text.subrange(0, 4)[0] == color_off()[0]);
    }
}

proof fn lemma_colored_concat(a: Seq<char>, p: Seq<char>, b: Seq<char>, q: Seq<char>)
    requires
        is_colored(a, p),
        is_colored(b, q),
    ensures
        is_colored(a + b, p + q),
{
    let both = a + b;
    assert(whole(a));
    lemma_without_color_concat(a, b);
    assert forall|at: int| 0 <= at < both.len() && #[trigger] both[at] == '\x1b' implies opens_heading(
        both,
        at,
    ) || closes_heading(both, at) by {
        let (part, k) = if at < a.len() {
            (a, at)
        } else {
            (b, at - a.len())
        };
        assert(part[k] == '\x1b');
        lemma_found_in_concat(a, b, color_on(), k);
        lemma_found_in_concat(a, b, color_off(), k);
        lemma_found_in_concat(a, b, seq!['=', '=', '=', ' '], k + 7);
        lemma_found_in_concat(a, b, seq![' ', '=', '=', '='], k - 4);
    }
    assert(escape_free(p + q));
}

proof fn lemma_plain(text: Seq<char>)
    requires
        escape_free(text),
    ensures
        is_colored(text, text),
    decreases text.len(),
{
    if text.len() > 0 {
        lemma_no_escape_here(text);
        assert forall|i: int| 0 <= i < text.skip(1).len() implies #[trigger] text.skip(1)[i]
            != '\x1b' by {
            assert(text[i + 1] != '\x1b');
        }
        lemma_plain(text.skip(1));
        assert(without_color(text) =~= text);
    }
}

proof fn lemma_line_colored(line: Seq<char>)
    requires
        escape_free(line),
        line.len() >= 8,
        line.take(4) == seq!['=', '=', '=', ' '],
        line.skip(line.len() - 4) == seq![' ', '=', '=', '='],
    ensures
        is_colored(
            seq!['\n'] + (color_on() + line + color_off()) + seq!['\n'],
            seq!['\n'] + line + seq!['\n'],
        ),
{
    let end = seq!['\n'];
    let text = end + (color_on() + line + color_off()) + end;
    let n = line.len() as int;
    assert forall|k: int| 0 <= k < n implies #[trigger] text[8 + k] == line[k] by {}
    assert forall|at: int| 0 <= at < text.len() && #[trigger] text[at] == '\x1b' implies opens_heading(
        text,
        at,
    ) || closes_heading(text, at) by {
        if 8 <= at < 8 + n {
            assert(text[at] == line[at - 8]);
        } else if at < 8 {
            assert(at == 1);
            assert(text.subrange(1, 8) =~= color_on());
            assert(text.subrange(8, 12) =~= line.take(4));
        } else {
            assert(at == 8 + n);
            assert(text.subrange(at, at + 4) =~= color_off());
            assert(text.subrange(at - 4, at) =~= line.skip(n - 4));
        }
    }
    let on_text = color_on() + line + color_off() + end;
    let off_text = color_off() + end;
    assert(text =~= end + on_text);
    assert(whole(end)) by {
        assert(end[0] == '\n');
    }
    lemma_without_color_concat(end, on_text);
    lemma_plain_char('\n');
    assert(on_text.subrange(0, 7) =~= color_on());
    assert(on_text.skip(7) =~= line + off_text);
    lemma_plain(line);
    lemma_without_color_concat(line, off_text);
    assert(off_text.subrange(0, 4) =~= color_off());
    assert(off_text.subrange(0, 4)[2] == '0');
    if found_at(off_text, color_on(), 0) {
        assert(off_text.subrange(0, 7)[2] == '1');
    }
    assert(off_text.skip(4) =~= end);
    assert(without_color(text) =~= end + line + end);
}

proof fn lemma_plain_char(c: char)
    requires
        c != '\x1b',
    ensures
        is_colored(seq![c], seq![c]),
{
    assert(escape_free(seq![c]));
    lemma_plain(seq![c]);
}

proof fn lemma_free_concat(a: Seq<char>, b: Seq<char>)
    requires
        escape_free(a),
        escape_free(b),
    ensures
        escape_free(a + b),
{
}

proof fn lemma_digit_free(n: nat)
    requires
        n < 10,
    ensures
        digit(n) != '\x1b',
{
    assert(n == 0 || n == 1 || n == 2 || n == 3 || n == 4 || n == 5 || n == 6 || n == 7 || n == 8
        || n == 9);
}

proof fn lemma_decimal_free(n: nat)
    ensures
        escape_free(decimal(n)),
    decreases n,
{
    if n < 10 {
        lemma_digit_free(n);
    } else {
        lemma_decimal_free(n / 10);
        lemma_digit_free(n % 10);
    }
}

proof fn lemma_grouped_free(n: nat, width: nat)
    ensures
        escape_free(grouped(n)),
        escape_free(right_aligned(grouped(n), width)),
    decreases n,
{
    if n < 1000 {
        lemma_decimal_free(n);
    } else {
        lemma_grouped_free(n / 1000, 0);
        lemma_digit_free(n / 100 % 10);
        lemma_digit_free(n / 10 % 10);
        lemma_digit_free(n % 10);
        assert(escape_free(last_three(n)));
        assert(escape_free(grouped(n / 1000) + seq![',']));
    }
}

spec fn all_free(pieces: Seq<Seq<char>>) -> bool {
    forall|i: int| 0 <= i < pieces.len() ==> escape_free(#[trigger] pieces[i])
}

proof fn lemma_segments_free(text: Seq<char>)
    requires
        escape_free(text),
    ensures
        segments(text).len() > 0,
        all_free(segments(text)),
    decreases text.len(),
{
    if text.len() > 0 {
        let before = segments(text.drop_last());
        assert(escape_free(text.drop_last())) by {
            assert forall|i: int| 0 <= i < text.drop_last().len() implies #[trigger] text.drop_last()[i]
                != '\x1b' by {
                assert(text[i] != '\x1b');
            }
        }
        lemma_segments_free(text.drop_last());
        assert(escape_free(before[before.len() - 1]));
        assert(text[text.len() - 1] != '\x1b');
    }
}

proof fn lemma_counting_free(pieces: Seq<Seq<char>>)
    requires
        all_free(pieces),
    ensures
        all_free(counting(pieces)),
    decreases pieces.len(),
{
    if pieces.len() > 0 {
        let shorter = pieces.drop_last();
        assert forall|i: int| 0 <= i < shorter.len() implies escape_free(#[trigger] shorter[i]) by {
            assert(escape_free(pieces[i]));
        }
        lemma_counting_free(shorter);
        assert(escape_free(pieces[pieces.len() - 1]));
    }
}

proof fn lemma_joined_free(pieces: Seq<Seq<char>>)
    requires
        all_free(pieces),
    ensures
        escape_free(joined(pieces)),
    decreases pieces.len(),
{
    if pieces.len() == 1 {
        assert(escape_free(pieces[0]));
    } else if pieces.len() > 1 {
        let shorter = pieces.drop_last();
        assert forall|i: int| 0 <= i < shorter.len() implies escape_free(#[trigger] shorter[i]) by {
            assert(escape_free(pieces[i]));
        }
        lemma_joined_free(shorter);
        assert(escape_free(pieces[pieces.len() - 1]));
        lemma_free_concat(joined(shorter), seq!['/']);
    }
}

proof fn lemma_path_free(root: Seq<char>, path: Seq<char>)
    requires
        shown_escape_free(root, path),
    ensures
        escape_free(relative_path(root, path)),
        escape_free(note_name(path)),
{
    lemma_segments_free(path);
    lemma_counting_free(segments(path));
    let parts = components(path);
    assert(all_free(parts));
    let rest = parts.skip(components(root).len() as int);
    if lies_under(root, path) {
        assert forall|i: int| 0 <= i < rest.len() implies escape_free(#[trigger] rest[i]) by {
            assert(escape_free(parts[components(root).len() + i]));
        }
        lemma_joined_free(rest);
        assert(escape_free(path_text(rest)));
    }
    if parts.len() > 0 {
        assert(escape_free(parts[parts.len() - 1]));
    }
    reveal_strlit("target");
}

proof fn lemma_asymmetric_list_free(root: Seq<char>, pairs: Seq<(Seq<char>, Seq<char>)>)
    requires
        forall|i: int|
            0 <= i < pairs.len() ==> shown_escape_free(root, (#[trigger] pairs[i]).0)
                && shown_escape_free(root, pairs[i].1),
    ensures
        escape_free(asymmetric_list(root, pairs)),
    decreases pairs.len(),
{
    if pairs.len() > 0 {
        let shorter = pairs.drop_last();
        assert forall|i: int| 0 <= i < shorter.len() implies shown_escape_free(
            root,
            (#[trigger] shorter[i]).0,
        ) && shown_escape_free(root, shorter[i].1) by {
            assert(shown_escape_free(root, pairs[i].0));
        }
        lemma_asymmetric_list_free(root, shorter);
        let (source, target) = pairs[pairs.len() - 1];
        assert(shown_escape_free(root, source));
        lemma_path_free(root, source);
        lemma_path_free(root, target);
        reveal_strlit("  ");
        reveal_strlit(" -> ");
        reveal_strlit(" (");
        reveal_strlit(" does not link back)\n");
    }
}

proof fn lemma_orphan_list_free(root: Seq<char>, orphans: Seq<Seq<char>>)
    requires
        forall|i: int|
            0 <= i < orphans.len() ==> shown_escape_free(root, #[trigger] orphans[i]),
    ensures
        escape_free(orphan_list(root, orphans)),
    decreases orphans.len(),
{
    if orphans.len() > 0 {
        let shorter = orphans.drop_last();
        assert forall|i: int| 0 <= i < shorter.len() implies shown_escape_free(
            root,
            #[trigger] shorter[i],
        ) by {
            assert(shown_escape_free(root, orphans[i]));
        }
        lemma_orphan_list_free(root, shorter);
        assert(shown_escape_free(root, orphans[orphans.len() - 1]));
        lemma_path_free(root, orphans.last());
        reveal_strlit("  ");
        reveal_strlit("\n");
    }
}

proof fn lemma_broken_list_free(root: Seq<char>, links: Seq<(Seq<char>, Seq<char>)>)
    requires
        forall|i: int|
            0 <= i < links.len() ==> shown_escape_free(root, (#[trigger] links[i]).0)
                && escape_free(links[i].1),
    ensures
        escape_free(broken_list(root, links)),
    decreases links.len(),
{
    if links.len() > 0 {
        let shorter = links.drop_last();
        assert forall|i: int| 0 <= i < shorter.len() implies shown_escape_free(
            root,
            (#[trigger] shorter[i]).0,
        ) && escape_free(shorter[i].1) by {
            assert(shown_escape_free(root, links[i].0));
        }
        lemma_broken_list_free(root, shorter);
        let (source, target) = links[links.len() - 1];
        assert(shown_escape_free(root, source) && escape_free(target));
        lemma_path_free(root, source);
        reveal_strlit("  ");
        reveal_strlit(": [[");
        reveal_strlit("]]\n");
    }
}

proof fn lemma_section_colored(
    title: Seq<char>,
    count: nat,
    singular: Seq<char>,
    plural: Seq<char>,
    list: Seq<char>,
)
    requires
        escape_free(title),
        escape_free(singular),
        escape_free(plural),
        escape_free(list),
    ensures
        is_colored(
            "\n"@ + heading_text(title, count, singular, plural, true) + "\n"@ + list,
            "\n"@ + heading_text(title, count, singular, plural, false) + "\n"@ + list,
        ),
{
    reveal_strlit("\n");
    reveal_strlit("=== ");
    reveal_strlit(" (");
    reveal_strlit(" ");
    reveal_strlit(") ===");
    reveal_strlit("\x1b[1;36m");
    reveal_strlit("\x1b[0m");
    lemma_decimal_free(count);
    let line = heading_text(title, count, singular, plural, false);
    assert(escape_free(line));
    assert(line.take(4) =~= seq!['=', '=', '=', ' ']);
    assert(line.skip(line.len() - 4) =~= seq![' ', '=', '=', '=']);
    assert("\n"@ =~= seq!['\n']);
    assert("\x1b[1;36m"@ =~= color_on());
    assert("\x1b[0m"@ =~= color_off());
    lemma_line_colored(line);
    lemma_plain(list);
    lemma_colored_concat(
        seq!['\n'] + (color_on() + line + color_off()) + seq!['\n'],
        seq!['\n'] + line + seq!['\n'],
        list,
        list,
    );
}

proof fn lemma_summary_free(
    vault_root: Seq<char>,
    total_files: nat,
    analysis: Analysis,
    visible: nat,
    cli: Cli,
)
    requires
        escape_free(vault_root),
    ensures
        escape_free(summary_text(vault_root, total_files, analysis, visible, cli)),
{
    let width = count_width(analysis, visible, cli);
    let orphans = analysis.orphans@.len();
    let broken = analysis.broken_links@.len();
    let missing = analysis.missing_backlinks@.len();
    reveal_strlit("Vault: ");
    reveal_strlit("  (");
    reveal_strlit(" notes)\n");
    reveal_strlit(" (of ");
    reveal_strlit(" total)");
    reveal_strlit("");
    reveal_strlit("   (--orphans to list)");
    reveal_strlit("  Orphans        ");
    reveal_strlit("\n");
    reveal_strlit("   (--broken to list)");
    reveal_strlit("  Broken links   ");
    reveal_strlit("  Embeds         ");
    reveal_strlit("  Asymmetric     ");
    lemma_grouped_free(total_files, width);
    lemma_grouped_free(visible, width);
    lemma_grouped_free(orphans, width);
    lemma_grouped_free(broken, width);
    lemma_grouped_free(analysis.embed_count as nat, width);
    lemma_grouped_free(missing, width);
    let a = vault_line(vault_root, total_files);
    let b = orphans_line(visible, orphans, width, cli);
    let c = broken_line(broken, width, cli);
    let d = embeds_line(analysis.embed_count as nat, width);
    let e = asymmetric_line(missing, width, cli);
    assert(escape_free(a));
    assert(escape_free(b));
    assert(escape_free(c));
    assert(escape_free(d));
    assert(escape_free(e));
    lemma_free_concat(a, b);
    lemma_free_concat(a + b, c);
    lemma_free_concat(a + b + c, d);
    lemma_free_concat(a + b + c + d, e);
}

/// The report with color is that without, but for what switches color on and off round whole
/// headings, and the report without color has no escape characters. Paths and links that hold
/// escape characters of their own are left out.
pub proof fn law_color_adds_nothing_else(
    vault_root: Seq<char>,
    total_files: nat,
    analysis: Analysis,
    visible: Seq<Seq<char>>,
    cli: Cli,
)
    requires
        escape_free(vault_root),
        forall|i: int|
            0 <= i < analysis.missing_backlinks.deep_view().len() ==> shown_escape_free(
                vault_root,
                (#[trigger] analysis.missing_backlinks.deep_view()[i]).0,
            ) && shown_escape_free(vault_root, analysis.missing_backlinks.deep_view()[i].1),
        forall|i: int|
            0 <= i < visible.len() ==> shown_escape_free(vault_root, #[trigger] visible[i]),
        forall|i: int|
            0 <= i < analysis.broken_links.deep_view().len() ==> shown_escape_free(
                vault_root,
                (#[trigger] analysis.broken_links.deep_view()[i]).0,
            ) && escape_free(analysis.broken_links.deep_view()[i].1),
    ensures
        is_colored(
            report_text(vault_root, total_files, analysis, visible, cli, true),
            report_text(vault_root, total_files, analysis, visible, cli, false),
        ),
{
    let missing = analysis.missing_backlinks.deep_view();
    let broken = analysis.broken_links.deep_view();
    let summary = summary_text(vault_root, total_files, analysis, visible.len(), cli);
    lemma_summary_free(vault_root, total_files, analysis, visible.len(), cli);
    lemma_plain(summary);
    reveal_strlit("");
    lemma_plain(""@);
    reveal_strlit("Asymmetric Links");
    reveal_strlit("pair");
    reveal_strlit("pairs");
    lemma_asymmetric_list_free(vault_root, missing);
    lemma_section_colored(
        "Asymmetric Links"@,
        missing.len(),
        "pair"@,
        "pairs"@,
        asymmetric_list(vault_root, missing),
    );
    let a = asymmetric_section(vault_root, missing, cli, true);
    let p = asymmetric_section(vault_root, missing, cli, false);
    assert(is_colored(a, p));
    reveal_strlit("Orphans (\u{2264} ");
    reveal_strlit("d)");
    reveal_strlit("Orphans");
    reveal_strlit("note");
    reveal_strlit("notes");
    if cli.orphan_days is Some {
        lemma_decimal_free(cli.orphan_days->0 as nat);
    }
    assert(escape_free(orphans_title(cli.orphan_days)));
    lemma_orphan_list_free(vault_root, visible);
    lemma_section_colored(
        orphans_title(cli.orphan_days),
        visible.len(),
        "note"@,
        "notes"@,
        orphan_list(vault_root, visible),
    );
    let b = orphans_section(vault_root, visible, cli, true);
    let q = orphans_section(vault_root, visible, cli, false);
    assert(is_colored(b, q));
    reveal_strlit("Broken Links");
    reveal_strlit("link");
    reveal_strlit("links");
    lemma_broken_list_free(vault_root, broken);
    lemma_section_colored(
        "Broken Links"@,
        broken.len(),
        "link"@,
        "links"@,
        broken_list(vault_root, broken),
    );
    let c = broken_section(vault_root, broken, cli, true);
    let r = broken_section(vault_root, broken, cli, false);
    assert(is_colored(c, r));
    lemma_colored_concat(summary, summary, a, p);
    lemma_colored_concat(summary + a, summary + p, b, q);
    lemma_colored_concat(summary + a + b, summary + p + q, c, r);
}

} // verus!
