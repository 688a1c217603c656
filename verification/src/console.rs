//! The texts the command line prints for its commands.
use vstd::prelude::*;
use crate::analyzer::{Backlink, BacklinkView, BrokenLinkView, KnowledgeReport, KnowledgeReportView, TagCountView};
use crate::insights::{HealthView, IssueView, KnowledgeHealth, LinkSuggestion, SuggestionView};
use crate::report::{extension_for, first_n, joined, lemma_joined_step, severity_text, ReportFormat};
use crate::sort::view_seq;
use crate::text::{decimal, push_decimal, push_decimal_wide, string_views};

verus! {

broadcast use vstd::string::group_string_axioms;

pub open spec fn stat_tag_f() -> spec_fn(TagCountView) -> Seq<char> {
    |t: TagCountView| "  #"@ + t.tag + " "@ + decimal(t.count as nat) + "\n"@
}

/// What `stats` prints: the counts of the report and of indexed terms, then the first eight
/// tags with their counts, where there are tags.
pub open spec fn stats_spec(r: KnowledgeReportView, terms: nat) -> Seq<char> {
    "Documents: "@ + decimal(r.total_documents as nat) + "\nInternal links: "@ + decimal(r.total_links as nat)
        + "\nIndexed terms: "@ + decimal(terms) + "\nBroken links: "@ + decimal(r.broken_links.len())
        + "\nOrphan documents: "@ + decimal(r.orphan_documents.len()) + "\n"@ + if r.tags.len() == 0 {
        seq![]
    } else {
        "Top tags:\n"@ + joined(first_n(r.tags, 8), stat_tag_f())
    }
}

/// The text of `stats` (see `stats_spec`).
pub fn stats_text(report: &KnowledgeReport, indexed_terms: usize) -> (r: String)
    ensures
        r@ == stats_spec(report@, indexed_terms as nat),
{
    let mut out = String::new();
    out.append("Documents: ");
    push_decimal(&mut out, report.total_documents);
    out.append("\nInternal links: ");
    push_decimal(&mut out, report.total_links);
    out.append("\nIndexed terms: ");
    push_decimal(&mut out, indexed_terms);
    out.append("\nBroken links: ");
    push_decimal(&mut out, report.broken_links.len());
    out.append("\nOrphan documents: ");
    push_decimal(&mut out, report.orphan_documents.len());
    out.append("\n");
    let ghost tv = report@.tags;
    if report.tags.len() > 0 {
        out.append("Top tags:\n");
        let n = if report.tags.len() < 8 { report.tags.len() } else { 8 };
        let ghost fv = first_n(tv, 8);
        let ghost base = out@;
        let mut i: usize = 0;
        while i < n
            invariant
                i <= n,
                n == fv.len(),
                n <= report.tags.len(),
                tv == report@.tags,
                fv == first_n(tv, 8),
                out@ == base + joined(fv.take(i as int), stat_tag_f()),
            decreases n - i,
        {
            let ghost o0 = out@;
            let t = &report.tags[i];
            out.append("  #");
            out.append(t.tag.as_str());
            out.append(" ");
            push_decimal(&mut out, t.count);
            out.append("\n");
            proof {
                lemma_joined_step(fv, stat_tag_f(), i as int);
                assert(fv[i as int] == t@);
                assert(out@ =~= o0 + stat_tag_f()(fv[i as int]));
            }
            i += 1;
        }
        assert(fv.take(n as int) =~= fv);
    }
    assert(out@ =~= stats_spec(report@, indexed_terms as nat));
    out
}

pub open spec fn link_line_f() -> spec_fn(BrokenLinkView) -> Seq<char> {
    |b: BrokenLinkView| "  "@ + b.source + ":"@ + decimal(b.line as nat) + " -> "@ + b.target + "\n"@
}

pub open spec fn path_line_f() -> spec_fn(Seq<char>) -> Seq<char> {
    |p: Seq<char>| "  "@ + p + "\n"@
}

/// What `links` prints: the broken links, then the orphan documents, each list after its
/// count.
pub open spec fn links_spec(r: KnowledgeReportView) -> Seq<char> {
    "Broken links: "@ + decimal(r.broken_links.len()) + "\n"@ + joined(r.broken_links, link_line_f())
        + "Orphan documents: "@ + decimal(r.orphan_documents.len()) + "\n"@ + joined(
        r.orphan_documents,
        path_line_f(),
    )
}

/// The text of `links` (see `links_spec`).
pub fn links_text(report: &KnowledgeReport) -> (r: String)
    ensures
        r@ == links_spec(report@),
{
    let mut out = String::new();
    out.append("Broken links: ");
    push_decimal(&mut out, report.broken_links.len());
    out.append("\n");
    let ghost lv = report@.broken_links;
    let ghost base = out@;
    let mut i: usize = 0;
    while i < report.broken_links.len()
        invariant
            i <= report.broken_links.len(),
            lv == report@.broken_links,
            out@ == base + joined(lv.take(i as int), link_line_f()),
        decreases report.broken_links.len() - i,
    {
        let ghost o0 = out@;
        let b = &report.broken_links[i];
        out.append("  ");
        out.append(b.source.as_str());
        out.append(":");
        push_decimal(&mut out, b.line);
        out.append(" -> ");
        out.append(b.target.as_str());
        out.append("\n");
        proof {
            lemma_joined_step(lv, link_line_f(), i as int);
            assert(lv[i as int] == b@);
            assert(out@ =~= o0 + link_line_f()(lv[i as int]));
        }
        i += 1;
    }
    assert(lv.take(report.broken_links.len() as int) =~= lv);
    out.append("Orphan documents: ");
    push_decimal(&mut out, report.orphan_documents.len());
    out.append("\n");
    let ghost pv = report@.orphan_documents;
    let ghost base2 = out@;
    let mut k: usize = 0;
    while k < report.orphan_documents.len()
        invariant
            k <= report.orphan_documents.len(),
            pv == report@.orphan_documents,
            out@ == base2 + joined(pv.take(k as int), path_line_f()),
        decreases report.orphan_documents.len() - k,
    {
        let ghost o0 = out@;
        out.append("  ");
        out.append(report.orphan_documents[k].as_str());
        out.append("\n");
        proof {
            lemma_joined_step(pv, path_line_f(), k as int);
            assert(pv[k as int] == report.orphan_documents@[k as int]@);
            assert(out@ =~= o0 + path_line_f()(pv[k as int]));
        }
        k += 1;
    }
    assert(pv.take(report.orphan_documents.len() as int) =~= pv);
    assert(out@ =~= links_spec(report@));
    out
}

pub open spec fn backlink_line_f() -> spec_fn(BacklinkView) -> Seq<char> {
    |b: BacklinkView| "  "@ + b.source + ":"@ + decimal(b.line as nat) + " "@ + b.text + "\n"@
}

/// What `backlinks` prints for a target and its backlinks.
pub open spec fn backlinks_spec(target: Seq<char>, bs: Seq<BacklinkView>) -> Seq<char> {
    if bs.len() == 0 {
        "No backlinks for "@ + target + "\n"@
    } else {
        "Backlinks for "@ + target + ":\n"@ + joined(bs, backlink_line_f())
    }
}

/// The text of `backlinks` (see `backlinks_spec`).
pub fn backlinks_text(target: &str, backlinks: &Vec<Backlink>) -> (r: String)
    ensures
        r@ == backlinks_spec(target@, view_seq(backlinks@)),
{
    let mut out = String::new();
    let ghost bv = view_seq(backlinks@);
    if backlinks.len() == 0 {
        out.append("No backlinks for ");
        out.append(target);
        out.append("\n");
        assert(out@ =~= backlinks_spec(target@, bv));
        return out;
    }
    out.append("Backlinks for ");
    out.append(target);
    out.append(":\n");
    let ghost base = out@;
    let mut i: usize = 0;
    while i < backlinks.len()
        invariant
            i <= backlinks.len(),
            bv == view_seq(backlinks@),
            out@ == base + joined(bv.take(i as int), backlink_line_f()),
        decreases backlinks.len() - i,
    {
        let ghost o0 = out@;
        let b = &backlinks[i];
        out.append("  ");
        out.append(b.source.as_str());
        out.append(":");
        push_decimal(&mut out, b.line);
        out.append(" ");
        out.append(b.text.as_str());
        out.append("\n");
        proof {
            lemma_joined_step(bv, backlink_line_f(), i as int);
            assert(bv[i as int] == b@);
            assert(out@ =~= o0 + backlink_line_f()(bv[i as int]));
        }
        i += 1;
    }
    assert(bv.take(backlinks.len() as int) =~= bv);
    assert(out@ =~= backlinks_spec(target@, bv));
    out
}

pub open spec fn reason_line_f() -> spec_fn(Seq<char>) -> Seq<char> {
    |r: Seq<char>| "   - "@ + r + "\n"@
}

/// One numbered suggestion; its score is written with one decimal.
pub open spec fn suggestion_entry(n: nat, x: SuggestionView) -> Seq<char> {
    decimal(n) + ". "@ + x.source + " -> "@ + x.target + " ("@ + decimal(x.score as nat) + ".0)\n"@ + joined(
        x.reasons,
        reason_line_f(),
    )
}

/// The numbered suggestions, from 1.
pub open spec fn suggestion_entries(s: Seq<SuggestionView>) -> Seq<char>
    decreases s.len(),
{
    if s.len() == 0 {
        seq![]
    } else {
        suggestion_entries(s.drop_last()) + suggestion_entry(s.len(), s.last())
    }
}

/// What `suggest-links` prints.
pub open spec fn suggestions_spec(s: Seq<SuggestionView>) -> Seq<char> {
    if s.len() == 0 {
        "No high-confidence missing links found.\n"@
    } else {
        "Suggested missing links:\n"@ + suggestion_entries(s)
    }
}

fn suggestion_entry_exec(n: usize, x: &LinkSuggestion) -> (r: String)
    ensures
        r@ == suggestion_entry(n as nat, x@),
{
    let mut out = String::new();
    push_decimal(&mut out, n);
    out.append(". ");
    out.append(x.source.as_str());
    out.append(" -> ");
    out.append(x.target.as_str());
    out.append(" (");
    push_decimal_wide(&mut out, x.score);
    out.append(".0)\n");
    let ghost rv = x@.reasons;
    let ghost base = out@;
    let mut i: usize = 0;
    while i < x.reasons.len()
        invariant
            i <= x.reasons.len(),
            rv == string_views(x.reasons@),
            out@ == base + joined(rv.take(i as int), reason_line_f()),
        decreases x.reasons.len() - i,
    {
        let ghost o0 = out@;
        out.append("   - ");
        out.append(x.reasons[i].as_str());
        out.append("\n");
        proof {
            lemma_joined_step(rv, reason_line_f(), i as int);
            assert(out@ =~= o0 + reason_line_f()(rv[i as int]));
        }
        i += 1;
    }
    assert(rv.take(x.reasons.len() as int) =~= rv);
    assert(out@ =~= suggestion_entry(n as nat, x@));
    out
}

/// The text of `suggest-links` (see `suggestions_spec`).
pub fn suggestions_text(suggestions: &[LinkSuggestion]) -> (r: String)
    ensures
        r@ == suggestions_spec(view_seq(suggestions@)),
{
    let mut out = String::new();
    let ghost sv = view_seq(suggestions@);
    if suggestions.len() == 0 {
        out.append("No high-confidence missing links found.\n");
        assert(out@ =~= suggestions_spec(sv));
        return out;
    }
    out.append("Suggested missing links:\n");
    let ghost base = out@;
    let mut i: usize = 0;
    assert(sv.take(0) =~= Seq::<SuggestionView>::empty());
    while i < suggestions.len()
        invariant
            i <= suggestions.len(),
            sv == view_seq(suggestions@),
            out@ == base + suggestion_entries(sv.take(i as int)),
        decreases suggestions.len() - i,
    {
        let ghost o0 = out@;
        let e = suggestion_entry_exec(i + 1, &suggestions[i]);
        out.append(e.as_str());
        proof {
            assert(sv.take(i + 1).drop_last() =~= sv.take(i as int));
            assert(sv.take(i + 1).last() == suggestions@[i as int]@);
            assert(out@ =~= o0 + suggestion_entry((i + 1) as nat, suggestions@[i as int]@));
        }
        i += 1;
    }
    assert(sv.take(suggestions.len() as int) =~= sv);
    assert(out@ =~= suggestions_spec(sv));
    out
}

pub open spec fn issue_lines_f() -> spec_fn(IssueView) -> Seq<char> {
    |i: IssueView|
        "["@ + severity_text(i.severity) + "] "@ + i.title + "\n  "@ + i.detail + "\n  action: "@ + i.action
            + "\n"@
}

/// What `doctor` prints: the score, then each issue or that there is none.
pub open spec fn doctor_spec(h: HealthView) -> Seq<char> {
    "Knowledge health score: "@ + decimal(h.score as nat) + "/100\n"@ + if h.issues.len() == 0 {
        "No major issues found.\n"@
    } else {
        joined(h.issues, issue_lines_f())
    }
}

/// The text of `doctor` (see `doctor_spec`).
pub fn doctor_text(health: &KnowledgeHealth) -> (r: String)
    ensures
        r@ == doctor_spec(health@),
{
    let mut out = String::new();
    out.append("Knowledge health score: ");
    push_decimal(&mut out, health.score as usize);
    out.append("/100\n");
    if health.issues.len() == 0 {
        out.append("No major issues found.\n");
        assert(out@ =~= doctor_spec(health@));
        return out;
    }
    let ghost iv = health@.issues;
    let ghost base = out@;
    let mut i: usize = 0;
    while i < health.issues.len()
        invariant
            i <= health.issues.len(),
            iv == view_seq(health.issues@),
            out@ == base + joined(iv.take(i as int), issue_lines_f()),
        decreases health.issues.len() - i,
    {
        let ghost o0 = out@;
        let issue = &health.issues[i];
        out.append("[");
        out.append(crate::cli::severity_label(issue.severity));
        out.append("] ");
        out.append(issue.title.as_str());
        out.append("\n  ");
        out.append(issue.detail.as_str());
        out.append("\n  action: ");
        out.append(issue.action.as_str());
        out.append("\n");
        proof {
            lemma_joined_step(iv, issue_lines_f(), i as int);
            assert(iv[i as int] == issue@);
            assert(out@ =~= o0 + issue_lines_f()(iv[i as int]));
        }
        i += 1;
    }
    assert(iv.take(health.issues.len() as int) =~= iv);
    assert(out@ =~= doctor_spec(health@));
    out
}

/// What `index` prints once the cache is written.
pub fn indexed_text(count: usize, cache: &str) -> (r: String)
    ensures
        r@ == "Indexed "@ + decimal(count as nat) + " Markdown files into "@ + cache@ + "\n"@,
{
    let mut out = String::new();
    out.append("Indexed ");
    push_decimal(&mut out, count);
    out.append(" Markdown files into ");
    out.append(cache);
    out.append("\n");
    out
}

/// What `report` prints once the report is written to a file.
pub fn written_text(format: ReportFormat, output: &str) -> (r: String)
    ensures
        r@ == "Wrote "@ + extension_for(format) + " report to "@ + output@ + "\n"@,
{
    let mut out = String::new();
    out.append("Wrote ");
    out.append(format.default_extension());
    out.append(" report to ");
    out.append(output);
    out.append("\n");
    out
}

} // verus!
