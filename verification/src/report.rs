//! Rendering a knowledge report as Markdown or as a standalone HTML page.
use vstd::prelude::*;
use crate::analyzer::{BrokenLinkView, KnowledgeReport, KnowledgeReportView, TagCountView};
use crate::insights::{HealthView, IssueView, KnowledgeHealth, LinkSuggestion, Severity, SuggestionView};
use crate::paths::{lemma_path_order, path_le, path_lt_exec};
use crate::sort::{lemma_stable_views, sort_by_order, stable_sort_of, view_seq, Order};
use crate::text::{ascii_lower, ascii_lower_chars, chars_eq, chars_of, decimal, push_char, push_decimal, push_decimal_wide};

verus! {

broadcast use vstd::string::group_string_axioms;

/// The two report formats.
#[derive(Clone, Copy, Debug, PartialEq, Eq, Structural)]
pub enum ReportFormat {
    Markdown,
    Html,
}

/// The format a name stands for, ignoring ASCII case: `md` or `markdown`, `html` or `htm`.
pub open spec fn format_named(name: Seq<char>) -> Option<ReportFormat> {
    let n = name.map_values(|c: char| ascii_lower(c));
    if n == "md"@ || n == "markdown"@ {
        Some(ReportFormat::Markdown)
    } else if n == "html"@ || n == "htm"@ {
        Some(ReportFormat::Html)
    } else {
        None
    }
}

/// The file extension of a format.
pub open spec fn extension_for(f: ReportFormat) -> Seq<char> {
    match f {
        ReportFormat::Markdown => "md"@,
        ReportFormat::Html => "html"@,
    }
}

fn is_named(lower: &Vec<char>, name: &str) -> (r: bool)
    ensures
        r == (lower@ == name@),
{
    chars_eq(lower.as_slice(), chars_of(name).as_slice())
}

impl ReportFormat {
    /// The format named `value` (see `format_named`).
    pub fn parse(value: &str) -> (r: Option<Self>)
        ensures
            r == format_named(value@),
    {
        let lower = ascii_lower_chars(chars_of(value).as_slice());
        assert(lower@ == value@.map_values(|c: char| ascii_lower(c)));
        if is_named(&lower, "md") || is_named(&lower, "markdown") {
            Some(ReportFormat::Markdown)
        } else if is_named(&lower, "html") || is_named(&lower, "htm") {
            Some(ReportFormat::Html)
        } else {
            None
        }
    }

    /// The file extension of the format: `md` or `html`.
    pub fn default_extension(self) -> (r: &'static str)
        ensures
            r@ == extension_for(self),
    {
        match self {
            ReportFormat::Markdown => "md",
            ReportFormat::Html => "html",
        }
    }
}

/// A format's extension names that format again.
pub proof fn lemma_parse_default_extension(f: ReportFormat)
    ensures
        format_named(extension_for(f)) == Some(f),
{
    reveal_strlit("md");
    reveal_strlit("markdown");
    reveal_strlit("html");
    reveal_strlit("htm");
    let e = extension_for(f);
    assert(e.map_values(|c: char| ascii_lower(c)) =~= e);
    if f == ReportFormat::Html {
        assert(e.len() != "md"@.len() && e.len() != "markdown"@.len());
    }
}

/// The text of a character in HTML.
pub open spec fn escape_char(c: char) -> Seq<char> {
    if c == '&' {
        "&amp;"@
    } else if c == '<' {
        "&lt;"@
    } else if c == '>' {
        "&gt;"@
    } else if c == '"' {
        "&quot;"@
    } else if c == '\'' {
        "&#39;"@
    } else {
        seq![c]
    }
}

/// A text in HTML: `&`, `<`, `>`, `"` and `'` as entities.
pub open spec fn escape_spec(s: Seq<char>) -> Seq<char>
    decreases s.len(),
{
    if s.len() == 0 {
        seq![]
    } else {
        escape_spec(s.drop_last()) + escape_char(s.last())
    }
}

/// A text for HTML (see `escape_spec`).
pub fn escape_html(value: &str) -> (r: String)
    ensures
        r@ == escape_spec(value@),
{
    let cs = chars_of(value);
    let mut out = String::new();
    let mut i: usize = 0;
    while i < cs.len()
        invariant
            i <= cs.len(),
            cs@ == value@,
            out@ == escape_spec(cs@.take(i as int)),
        decreases cs.len() - i,
    {
        let c = cs[i];
        if c == '&' {
            out.append("&amp;");
        } else if c == '<' {
            out.append("&lt;");
        } else if c == '>' {
            out.append("&gt;");
        } else if c == '"' {
            out.append("&quot;");
        } else if c == '\'' {
            out.append("&#39;");
        } else {
            push_char(&mut out, c);
        }
        assert(cs@.take(i + 1).drop_last() =~= cs@.take(i as int));
        assert(out@ =~= escape_spec(cs@.take(i + 1)));
        i += 1;
    }
    assert(cs@.take(cs.len() as int) =~= cs@);
    out
}

/// No escaped text holds `<`, `>`, `"` or `'`.
pub proof fn lemma_escape_has_no_markup(s: Seq<char>)
    ensures
        forall|i: int|
            0 <= i < escape_spec(s).len() ==> {
                let c = #[trigger] escape_spec(s)[i];
                c != '<' && c != '>' && c != '"' && c != '\''
            },
    decreases s.len(),
{
    reveal_strlit("&amp;");
    reveal_strlit("&lt;");
    reveal_strlit("&gt;");
    reveal_strlit("&quot;");
    reveal_strlit("&#39;");
    if s.len() > 0 {
        lemma_escape_has_no_markup(s.drop_last());
        let a = escape_spec(s.drop_last());
        let b = escape_char(s.last());
        assert forall|i: int| 0 <= i < escape_spec(s).len() implies {
            let c = #[trigger] escape_spec(s)[i];
            c != '<' && c != '>' && c != '"' && c != '\''
        } by {
            if i < a.len() {
                assert(escape_spec(s)[i] == a[i]);
            } else {
                assert(escape_spec(s)[i] == b[i - a.len()]);
            }
        }
    }
}

/// The name of a severity.
pub open spec fn severity_text(s: Severity) -> Seq<char> {
    match s {
        Severity::Critical => "critical"@,
        Severity::Warning => "warning"@,
        Severity::Info => "info"@,
    }
}

/// The name of a severity: `critical`, `warning` or `info`.
pub fn severity_name(severity: Severity) -> (r: &'static str)
    ensures
        r@ == severity_text(severity),
{
    match severity {
        Severity::Critical => "critical",
        Severity::Warning => "warning",
        Severity::Info => "info",
    }
}

/// The style sheet of the HTML report.
pub open spec fn css_text() -> Seq<char> {
    "body{font-family:system-ui,-apple-system,BlinkMacSystemFont,sans-serif;margin:0;background:#f8fafc;color:#111827}main{max-width:960px;margin:0 auto;padding:32px}section{margin:28px 0}h1,h2{line-height:1.2}.metrics{display:grid;grid-template-columns:repeat(auto-fit,minmax(150px,1fr));gap:12px}.metrics div{border:1px solid #d1d5db;background:white;padding:12px}.metrics dt{font-size:13px;color:#4b5563}.metrics dd{font-size:24px;font-weight:700;margin:4px 0 0}.score{font-size:22px}code,pre{background:#eef2ff}code{padding:2px 4px}pre{padding:16px;overflow:auto;border:1px solid #c7d2fe}li{margin:6px 0}"@
}

/// The style sheet of the HTML report.
pub fn report_css() -> (r: &'static str)
    ensures
        r@ == css_text(),
{
    "body{font-family:system-ui,-apple-system,BlinkMacSystemFont,sans-serif;margin:0;background:#f8fafc;color:#111827}main{max-width:960px;margin:0 auto;padding:32px}section{margin:28px 0}h1,h2{line-height:1.2}.metrics{display:grid;grid-template-columns:repeat(auto-fit,minmax(150px,1fr));gap:12px}.metrics div{border:1px solid #d1d5db;background:white;padding:12px}.metrics dt{font-size:13px;color:#4b5563}.metrics dd{font-size:24px;font-weight:700;margin:4px 0 0}.score{font-size:22px}code,pre{background:#eef2ff}code{padding:2px 4px}pre{padding:16px;overflow:auto;border:1px solid #c7d2fe}li{margin:6px 0}"
}

/// The first `n` elements of `s`, or all of them where there are fewer.
pub open spec fn first_n<A>(s: Seq<A>, n: int) -> Seq<A> {
    if s.len() <= n {
        s
    } else {
        s.take(n)
    }
}

/// The backlink groups as target paths with their numbers of backlinks.
pub open spec fn group_counts(g: Seq<(Seq<char>, Seq<crate::analyzer::BacklinkView>)>) -> Seq<(Seq<char>, nat)> {
    g.map_values(|e: (Seq<char>, Seq<crate::analyzer::BacklinkView>)| (e.0, e.1.len()))
}

/// Targets by number of backlinks, most first, then by path.
pub open spec fn entry_le(a: (Seq<char>, nat), b: (Seq<char>, nat)) -> bool {
    a.1 > b.1 || (a.1 == b.1 && path_le(a.0, b.0))
}

/// `es` is the backlink overview of `report`: its targets with their numbers of backlinks,
/// ordered by `entry_le` (and otherwise as the groups come).
pub open spec fn overview_of(r: KnowledgeReportView, es: Seq<(Seq<char>, nat)>) -> bool {
    stable_sort_of(es, group_counts(r.backlinks), entry_order())
}

/// `entry_le` as a relation.
pub open spec fn entry_order() -> spec_fn((Seq<char>, nat), (Seq<char>, nat)) -> bool {
    |a: (Seq<char>, nat), b: (Seq<char>, nat)| entry_le(a, b)
}

/// A target path with its number of backlinks.
pub struct OverviewEntry {
    pub target: String,
    pub count: usize,
}

impl View for OverviewEntry {
    type V = (Seq<char>, nat);

    open spec fn view(&self) -> (Seq<char>, nat) {
        (self.target@, self.count as nat)
    }
}

/// Overview entries in the order of `entry_le`.
pub struct EntryOrder;

impl Order<OverviewEntry> for EntryOrder {
    open spec fn le(a: &OverviewEntry, b: &OverviewEntry) -> bool {
        entry_le(a@, b@)
    }

    proof fn lemma_le_total(a: &OverviewEntry, b: &OverviewEntry) {
        lemma_path_order(a@.0, b@.0, b@.0);
    }

    proof fn lemma_le_trans(a: &OverviewEntry, b: &OverviewEntry, c: &OverviewEntry) {
        lemma_path_order(a@.0, b@.0, c@.0);
    }

    fn le_exec(a: &OverviewEntry, b: &OverviewEntry) -> (r: bool) {
        proof {
            lemma_path_order(a@.0, b@.0, b@.0);
        }
        if a.count != b.count {
            a.count > b.count
        } else {
            !path_lt_exec(b.target.as_str(), a.target.as_str())
        }
    }
}

/// The backlink overview of a report (see `overview_of`).
fn backlink_entries(report: &KnowledgeReport) -> (r: Vec<OverviewEntry>)
    ensures
        overview_of(report@, view_seq(r@)),
{
    let ghost g = report@.backlinks;
    let mut v: Vec<OverviewEntry> = Vec::new();
    let mut i: usize = 0;
    while i < report.backlinks.len()
        invariant
            i <= report.backlinks.len(),
            g == report@.backlinks,
            view_seq(v@) == group_counts(g).take(i as int),
        decreases report.backlinks.len() - i,
    {
        let ghost v0 = view_seq(v@);
        let e = OverviewEntry { target: report.backlinks[i].0.clone(), count: report.backlinks[i].1.len() };
        v.push(e);
        assert(g[i as int] == (report.backlinks@[i as int].0@, view_seq(report.backlinks@[i as int].1@)));
        assert(view_seq(v@) =~= v0.push(e@));
        assert(group_counts(g).take(i + 1) =~= group_counts(g).take(i as int).push(e@));
        i += 1;
    }
    assert(group_counts(g).take(report.backlinks.len() as int) =~= group_counts(g));
    let ghost unsorted = v@;
    let sorted = sort_by_order::<OverviewEntry, EntryOrder>(v);
    proof {
        lemma_stable_views::<OverviewEntry, EntryOrder>(sorted@, unsorted, entry_order());
    }
    sorted
}


/// The texts of the elements of `s` by `f`, one after another.
pub open spec fn joined<A>(s: Seq<A>, f: spec_fn(A) -> Seq<char>) -> Seq<char>
    decreases s.len(),
{
    if s.len() == 0 {
        seq![]
    } else {
        joined(s.drop_last(), f) + f(s.last())
    }
}

/// Joining one element more appends its text.
pub proof fn lemma_joined_step<A>(s: Seq<A>, f: spec_fn(A) -> Seq<char>, i: int)
    requires
        0 <= i < s.len(),
    ensures
        joined(s.take(i + 1), f) == joined(s.take(i), f) + f(s[i]),
{
    assert(s.take(i + 1).drop_last() =~= s.take(i));
}

/// The link graph of a report in Mermaid syntax (what `KnowledgeReport::to_mermaid` gives).
pub open spec fn mermaid_of(r: KnowledgeReportView) -> Seq<char> {
    crate::analyzer::mermaid_text(crate::sort::sorted_texts(crate::analyzer::all_edges(r.backlinks).to_set()))
}

/// The summary table of the Markdown report.
pub open spec fn md_summary(r: KnowledgeReportView, terms: nat) -> Seq<char> {
    "# mdseek Knowledge Report\n\n## Summary\n\n| Metric | Value |\n|---|---:|\n| Documents | "@ + decimal(
        r.total_documents as nat,
    ) + " |\n| Internal links | "@ + decimal(r.total_links as nat) + " |\n| Indexed terms | "@ + decimal(terms)
        + " |\n| Broken links | "@ + decimal(r.broken_links.len()) + " |\n| Orphan documents | "@ + decimal(
        r.orphan_documents.len(),
    ) + " |\n"@
}

/// One issue in the Markdown report.
pub open spec fn md_issue(i: IssueView) -> Seq<char> {
    "- **"@ + severity_text(i.severity) + "**: "@ + i.title + "\n  - Detail: "@ + i.detail + "\n  - Action: "@
        + i.action + "\n"@
}

pub open spec fn md_issue_f() -> spec_fn(IssueView) -> Seq<char> {
    |i: IssueView| md_issue(i)
}

/// The health section of the Markdown report, where there is a health check.
pub open spec fn md_health(h: Option<HealthView>) -> Seq<char> {
    match h {
        None => seq![],
        Some(h) => "\n## Knowledge Health\n\nScore: **"@ + decimal(h.score as nat) + "/100**\n"@ + if h.issues.len()
            == 0 {
            "\nNo major issues found.\n"@
        } else {
            "\n"@ + joined(h.issues, md_issue_f())
        },
    }
}

/// One reason of a suggestion in the Markdown report.
pub open spec fn md_reason_f() -> spec_fn(Seq<char>) -> Seq<char> {
    |r: Seq<char>| "  - "@ + r + "\n"@
}

/// One suggestion in the Markdown report; its score is written with one decimal.
pub open spec fn md_suggestion(x: SuggestionView) -> Seq<char> {
    "- `"@ + x.source + "` -> `"@ + x.target + "` ("@ + decimal(x.score as nat) + ".0)\n"@ + joined(
        x.reasons,
        md_reason_f(),
    )
}

pub open spec fn md_suggestion_f() -> spec_fn(SuggestionView) -> Seq<char> {
    |x: SuggestionView| md_suggestion(x)
}

/// The suggestions section of the Markdown report: the first ten suggestions.
pub open spec fn md_suggestions(s: Seq<SuggestionView>) -> Seq<char> {
    "\n## Suggested Missing Links\n\n"@ + if s.len() == 0 {
        "No high-confidence missing links found.\n"@
    } else {
        joined(first_n(s, 10), md_suggestion_f())
    }
}

pub open spec fn md_tag_f() -> spec_fn(TagCountView) -> Seq<char> {
    |t: TagCountView| "- `#"@ + t.tag + "`: "@ + decimal(t.count as nat) + "\n"@
}

/// The tags section of the Markdown report: the first twelve tags.
pub open spec fn md_tags(ts: Seq<TagCountView>) -> Seq<char> {
    "\n## Top Tags\n\n"@ + if ts.len() == 0 {
        "No tags found.\n"@
    } else {
        joined(first_n(ts, 12), md_tag_f())
    }
}

pub open spec fn md_broken_f() -> spec_fn(BrokenLinkView) -> Seq<char> {
    |l: BrokenLinkView| "- `"@ + l.source + "` line "@ + decimal(l.line as nat) + " -> `"@ + l.target + "`\n"@
}

/// The broken links section of the Markdown report.
pub open spec fn md_broken(ls: Seq<BrokenLinkView>) -> Seq<char> {
    "\n## Broken Links\n\n"@ + if ls.len() == 0 {
        "No broken internal links.\n"@
    } else {
        joined(ls, md_broken_f())
    }
}

pub open spec fn md_path_f() -> spec_fn(Seq<char>) -> Seq<char> {
    |p: Seq<char>| "- `"@ + p + "`\n"@
}

/// The orphans section of the Markdown report.
pub open spec fn md_orphans(ps: Seq<Seq<char>>) -> Seq<char> {
    "\n## Orphan Documents\n\n"@ + if ps.len() == 0 {
        "No orphan documents.\n"@
    } else {
        joined(ps, md_path_f())
    }
}

pub open spec fn md_entry_f() -> spec_fn((Seq<char>, nat)) -> Seq<char> {
    |e: (Seq<char>, nat)| "- `"@ + e.0 + "`: "@ + decimal(e.1) + "\n"@
}

/// The backlink overview section of the Markdown report: its first twelve entries.
pub open spec fn md_overview(es: Seq<(Seq<char>, nat)>) -> Seq<char> {
    "\n## Backlink Overview\n\n"@ + if es.len() == 0 {
        "No backlinks found.\n"@
    } else {
        joined(first_n(es, 12), md_entry_f())
    }
}

/// The Markdown report of `r` with `terms` indexed terms, an optional health check, link
/// suggestions and the backlink overview `es`.
pub open spec fn markdown_text(
    r: KnowledgeReportView,
    terms: nat,
    health: Option<HealthView>,
    suggestions: Seq<SuggestionView>,
    es: Seq<(Seq<char>, nat)>,
) -> Seq<char> {
    md_summary(r, terms) + md_health(health) + md_suggestions(suggestions) + md_tags(r.tags) + md_broken(
        r.broken_links,
    ) + md_orphans(r.orphan_documents) + md_overview(es) + "\n## Graph\n\n```mermaid\n"@ + mermaid_of(r)
        + "\n```\n"@
}

fn md_summary_exec(report: &KnowledgeReport, terms: usize) -> (r: String)
    ensures
        r@ == md_summary(report@, terms as nat),
{
    let mut out = String::new();
    out.append("# mdseek Knowledge Report\n\n## Summary\n\n| Metric | Value |\n|---|---:|\n| Documents | ");
    push_decimal(&mut out, report.total_documents);
    out.append(" |\n| Internal links | ");
    push_decimal(&mut out, report.total_links);
    out.append(" |\n| Indexed terms | ");
    push_decimal(&mut out, terms);
    out.append(" |\n| Broken links | ");
    push_decimal(&mut out, report.broken_links.len());
    out.append(" |\n| Orphan documents | ");
    push_decimal(&mut out, report.orphan_documents.len());
    out.append(" |\n");
    assert(out@ =~= md_summary(report@, terms as nat));
    out
}

fn md_health_exec(health: Option<&KnowledgeHealth>) -> (r: String)
    ensures
        r@ == md_health(match health {
            Some(h) => Some(h@),
            None => None,
        }),
{
    let mut out = String::new();
    match health {
        None => {
            assert(out@ =~= seq![]);
        },
        Some(h) => {
            out.append("\n## Knowledge Health\n\nScore: **");
            push_decimal(&mut out, h.score as usize);
            out.append("/100**\n");
            let ghost head = out@;
            if h.issues.len() == 0 {
                out.append("\nNo major issues found.\n");
            } else {
                out.append("\n");
                let ghost base = out@;
                let ghost iv = h@.issues;
                let mut i: usize = 0;
                while i < h.issues.len()
                    invariant
                        i <= h.issues.len(),
                        iv == view_seq(h.issues@),
                        out@ == base + joined(iv.take(i as int), md_issue_f()),
                    decreases h.issues.len() - i,
                {
                    let issue = &h.issues[i];
                    let ghost o0 = out@;
                    out.append("- **");
                    out.append(severity_name(issue.severity));
                    out.append("**: ");
                    out.append(issue.title.as_str());
                    out.append("\n  - Detail: ");
                    out.append(issue.detail.as_str());
                    out.append("\n  - Action: ");
                    out.append(issue.action.as_str());
                    out.append("\n");
                    proof {
                        lemma_joined_step(iv, md_issue_f(), i as int);
                        assert(iv[i as int] == issue@);
                        assert(out@ =~= o0 + md_issue(issue@));
                    }
                    i += 1;
                }
                assert(iv.take(h.issues.len() as int) =~= iv);
            }
            assert(out@ =~= md_health(Some(h@)));
        },
    }
    out
}

fn md_suggestion_exec(x: &LinkSuggestion) -> (r: String)
    ensures
        r@ == md_suggestion(x@),
{
    let mut out = String::new();
    out.append("- `");
    out.append(x.source.as_str());
    out.append("` -> `");
    out.append(x.target.as_str());
    out.append("` (");
    push_decimal_wide(&mut out, x.score);
    out.append(".0)\n");
    let ghost base = out@;
    let ghost rv = x@.reasons;
    let mut i: usize = 0;
    while i < x.reasons.len()
        invariant
            i <= x.reasons.len(),
            rv == crate::text::string_views(x.reasons@),
            out@ == base + joined(rv.take(i as int), md_reason_f()),
        decreases x.reasons.len() - i,
    {
        let ghost o0 = out@;
        out.append("  - ");
        out.append(x.reasons[i].as_str());
        out.append("\n");
        proof {
            lemma_joined_step(rv, md_reason_f(), i as int);
            assert(out@ =~= o0 + md_reason_f()(rv[i as int]));
        }
        i += 1;
    }
    assert(rv.take(x.reasons.len() as int) =~= rv);
    assert(out@ =~= md_suggestion(x@));
    out
}

fn md_suggestions_exec(suggestions: &[LinkSuggestion]) -> (r: String)
    ensures
        r@ == md_suggestions(view_seq(suggestions@)),
{
    let mut out = String::new();
    out.append("\n## Suggested Missing Links\n\n");
    let ghost sv = view_seq(suggestions@);
    if suggestions.len() == 0 {
        out.append("No high-confidence missing links found.\n");
        assert(out@ =~= md_suggestions(sv));
        return out;
    }
    let n = if suggestions.len() < 10 { suggestions.len() } else { 10 };
    let ghost fv = first_n(sv, 10);
    assert(fv.len() == n);
    let ghost base = out@;
    let mut i: usize = 0;
    while i < n
        invariant
            i <= n,
            n == fv.len(),
            n <= suggestions.len(),
            sv == view_seq(suggestions@),
            fv == first_n(sv, 10),
            out@ == base + joined(fv.take(i as int), md_suggestion_f()),
        decreases n - i,
    {
        let ghost o0 = out@;
        let line = md_suggestion_exec(&suggestions[i]);
        out.append(line.as_str());
        proof {
            lemma_joined_step(fv, md_suggestion_f(), i as int);
            assert(fv[i as int] == suggestions@[i as int]@);
            assert(out@ =~= o0 + md_suggestion_f()(fv[i as int]));
        }
        i += 1;
    }
    assert(fv.take(n as int) =~= fv);
    assert(out@ =~= md_suggestions(sv));
    out
}


fn md_tags_exec(report: &KnowledgeReport) -> (r: String)
    ensures
        r@ == md_tags(report@.tags),
{
    let mut out = String::new();
    out.append("\n## Top Tags\n\n");
    let ghost tv = report@.tags;
    if report.tags.len() == 0 {
        out.append("No tags found.\n");
        assert(out@ =~= md_tags(tv));
        return out;
    }
    let n = if report.tags.len() < 12 { report.tags.len() } else { 12 };
    let ghost fv = first_n(tv, 12);
    let ghost base = out@;
    let mut i: usize = 0;
    while i < n
        invariant
            i <= n,
            n == fv.len(),
            n <= report.tags.len(),
            tv == report@.tags,
            fv == first_n(tv, 12),
            out@ == base + joined(fv.take(i as int), md_tag_f()),
        decreases n - i,
    {
        let ghost o0 = out@;
        let t = &report.tags[i];
        out.append("- `#");
        out.append(t.tag.as_str());
        out.append("`: ");
        push_decimal(&mut out, t.count);
        out.append("\n");
        proof {
            lemma_joined_step(fv, md_tag_f(), i as int);
            assert(fv[i as int] == t@);
            assert(out@ =~= o0 + md_tag_f()(fv[i as int]));
        }
        i += 1;
    }
    assert(fv.take(n as int) =~= fv);
    assert(out@ =~= md_tags(tv));
    out
}

fn md_broken_exec(report: &KnowledgeReport) -> (r: String)
    ensures
        r@ == md_broken(report@.broken_links),
{
    let mut out = String::new();
    out.append("\n## Broken Links\n\n");
    let ghost lv = report@.broken_links;
    if report.broken_links.len() == 0 {
        out.append("No broken internal links.\n");
        assert(out@ =~= md_broken(lv));
        return out;
    }
    let ghost base = out@;
    let mut i: usize = 0;
    while i < report.broken_links.len()
        invariant
            i <= report.broken_links.len(),
            lv == report@.broken_links,
            out@ == base + joined(lv.take(i as int), md_broken_f()),
        decreases report.broken_links.len() - i,
    {
        let ghost o0 = out@;
        let l = &report.broken_links[i];
        out.append("- `");
        out.append(l.source.as_str());
        out.append("` line ");
        push_decimal(&mut out, l.line);
        out.append(" -> `");
        out.append(l.target.as_str());
        out.append("`\n");
        proof {
            lemma_joined_step(lv, md_broken_f(), i as int);
            assert(lv[i as int] == l@);
            assert(out@ =~= o0 + md_broken_f()(lv[i as int]));
        }
        i += 1;
    }
    assert(lv.take(report.broken_links.len() as int) =~= lv);
    assert(out@ =~= md_broken(lv));
    out
}

fn md_orphans_exec(report: &KnowledgeReport) -> (r: String)
    ensures
        r@ == md_orphans(report@.orphan_documents),
{
    let mut out = String::new();
    out.append("\n## Orphan Documents\n\n");
    let ghost pv = report@.orphan_documents;
    if report.orphan_documents.len() == 0 {
        out.append("No orphan documents.\n");
        assert(out@ =~= md_orphans(pv));
        return out;
    }
    let ghost base = out@;
    let mut i: usize = 0;
    while i < report.orphan_documents.len()
        invariant
            i <= report.orphan_documents.len(),
            pv == report@.orphan_documents,
            out@ == base + joined(pv.take(i as int), md_path_f()),
        decreases report.orphan_documents.len() - i,
    {
        let ghost o0 = out@;
        out.append("- `");
        out.append(report.orphan_documents[i].as_str());
        out.append("`\n");
        proof {
            lemma_joined_step(pv, md_path_f(), i as int);
            assert(pv[i as int] == report.orphan_documents@[i as int]@);
            assert(out@ =~= o0 + md_path_f()(pv[i as int]));
        }
        i += 1;
    }
    assert(pv.take(report.orphan_documents.len() as int) =~= pv);
    assert(out@ =~= md_orphans(pv));
    out
}

fn md_overview_exec(entries: &Vec<OverviewEntry>) -> (r: String)
    ensures
        r@ == md_overview(view_seq(entries@)),
{
    let mut out = String::new();
    out.append("\n## Backlink Overview\n\n");
    let ghost ev = view_seq(entries@);
    if entries.len() == 0 {
        out.append("No backlinks found.\n");
        assert(out@ =~= md_overview(ev));
        return out;
    }
    let n = if entries.len() < 12 { entries.len() } else { 12 };
    let ghost fv = first_n(ev, 12);
    let ghost base = out@;
    let mut i: usize = 0;
    while i < n
        invariant
            i <= n,
            n == fv.len(),
            n <= entries.len(),
            ev == view_seq(entries@),
            fv == first_n(ev, 12),
            out@ == base + joined(fv.take(i as int), md_entry_f()),
        decreases n - i,
    {
        let ghost o0 = out@;
        let e = &entries[i];
        out.append("- `");
        out.append(e.target.as_str());
        out.append("`: ");
        push_decimal(&mut out, e.count);
        out.append("\n");
        proof {
            lemma_joined_step(fv, md_entry_f(), i as int);
            assert(fv[i as int] == e@);
            assert(out@ =~= o0 + md_entry_f()(fv[i as int]));
        }
        i += 1;
    }
    assert(fv.take(n as int) =~= fv);
    assert(out@ =~= md_overview(ev));
    out
}


/// What a report may show besides the analysis: a health check and link suggestions.
#[derive(Clone, Copy, Debug)]
pub struct ReportExtras<'a> {
    pub health: Option<&'a KnowledgeHealth>,
    pub suggestions: &'a [LinkSuggestion],
}

impl<'a> ReportExtras<'a> {
    /// No health check and no suggestions.
    pub fn none() -> (r: Self)
        ensures
            r.health is None,
            r.suggestions@.len() == 0,
    {
        ReportExtras { health: None, suggestions: &[] }
    }
}

/// The health check of the extras, if any.
pub open spec fn extras_health(e: ReportExtras) -> Option<HealthView> {
    match e.health {
        Some(h) => Some(h@),
        None => None,
    }
}

/// The suggestions of the extras.
pub open spec fn extras_suggestions(e: ReportExtras) -> Seq<SuggestionView> {
    view_seq(e.suggestions@)
}

/// A way to render a knowledge report as text.
pub trait ReportRenderer {
    fn render(&self, report: &KnowledgeReport, indexed_terms: usize, extras: ReportExtras<'_>) -> String;
}

/// Renders reports as Markdown.
#[derive(Clone, Debug)]
pub struct MarkdownRenderer;

/// Renders reports as a standalone HTML page.
#[derive(Clone, Debug)]
pub struct HtmlRenderer;

impl ReportRenderer for MarkdownRenderer {
    /// The Markdown report (see `markdown_text`), with the backlink overview in the order of
    /// `entry_le`.
    fn render(&self, report: &KnowledgeReport, indexed_terms: usize, extras: ReportExtras<'_>) -> (r: String)
        ensures
            exists|es: Seq<(Seq<char>, nat)>|
                overview_of(report@, es) && r@ == markdown_text(
                    report@,
                    indexed_terms as nat,
                    extras_health(extras),
                    extras_suggestions(extras),
                    es,
                ),
    {
        let entries = backlink_entries(report);
        let mut out = md_summary_exec(report, indexed_terms);
        out.append(md_health_exec(extras.health).as_str());
        out.append(md_suggestions_exec(extras.suggestions).as_str());
        out.append(md_tags_exec(report).as_str());
        out.append(md_broken_exec(report).as_str());
        out.append(md_orphans_exec(report).as_str());
        out.append(md_overview_exec(&entries).as_str());
        out.append("\n## Graph\n\n```mermaid\n");
        out.append(report.to_mermaid().as_str());
        out.append("\n```\n");
        assert(out@ =~= markdown_text(
            report@,
            indexed_terms as nat,
            extras_health(extras),
            extras_suggestions(extras),
            view_seq(entries@),
        ));
        out
    }
}


/// The start of the HTML page, up to the summary metrics.
pub open spec fn html_head() -> Seq<char> {
    "<!doctype html>\n<html lang=\"en\">\n<head>\n  <meta charset=\"utf-8\">\n  <meta name=\"viewport\" content=\"width=device-width, initial-scale=1\">\n  <title>mdseek Knowledge Report</title>\n  <style>"@
        + css_text()
        + "</style>\n</head>\n<body>\n  <main>\n    <h1>mdseek Knowledge Report</h1>\n    <section>\n      <h2>Summary</h2>\n      <dl class=\"metrics\">\n"@
}

/// One metric of the HTML summary.
pub open spec fn html_metric(label: Seq<char>, value: nat) -> Seq<char> {
    "        <div><dt>"@ + escape_spec(label) + "</dt><dd>"@ + decimal(value) + "</dd></div>\n"@
}

/// The summary metrics of the HTML page.
pub open spec fn html_metrics(r: KnowledgeReportView, terms: nat) -> Seq<char> {
    html_metric("Documents"@, r.total_documents as nat) + html_metric("Internal links"@, r.total_links as nat)
        + html_metric("Indexed terms"@, terms) + html_metric("Broken links"@, r.broken_links.len())
        + html_metric("Orphan documents"@, r.orphan_documents.len()) + "      </dl>\n    </section>\n"@
}

pub open spec fn html_issue_f() -> spec_fn(IssueView) -> Seq<char> {
    |i: IssueView|
        "        <li><strong>"@ + escape_spec(severity_text(i.severity)) + "</strong>: "@ + escape_spec(i.title)
            + "<br><span>"@ + escape_spec(i.detail) + "</span><br><em>"@ + escape_spec(i.action)
            + "</em></li>\n"@
}

/// The health section of the HTML page, where there is a health check.
pub open spec fn html_health(h: Option<HealthView>) -> Seq<char> {
    match h {
        None => seq![],
        Some(h) => "    <section>\n      <h2>Knowledge Health</h2>\n      <p class=\"score\">Score: <strong>"@
            + decimal(h.score as nat) + "/100</strong></p>\n"@ + (if h.issues.len() == 0 {
            "      <p>No major issues found.</p>\n"@
        } else {
            "      <ul>\n"@ + joined(h.issues, html_issue_f()) + "      </ul>\n"@
        }) + "    </section>\n"@,
    }
}

pub open spec fn html_reason_f() -> spec_fn(Seq<char>) -> Seq<char> {
    |r: Seq<char>| "            <li>"@ + escape_spec(r) + "</li>\n"@
}

/// One suggestion in the HTML page; its score is written with one decimal.
pub open spec fn html_suggestion(x: SuggestionView) -> Seq<char> {
    "        <li><code>"@ + escape_spec(x.source) + "</code> -&gt; <code>"@ + escape_spec(x.target)
        + "</code> <strong>"@ + decimal(x.score as nat) + ".0</strong>\n          <ul>\n"@ + joined(
        x.reasons,
        html_reason_f(),
    ) + "          </ul>\n        </li>\n"@
}

pub open spec fn html_suggestion_f() -> spec_fn(SuggestionView) -> Seq<char> {
    |x: SuggestionView| html_suggestion(x)
}

/// The suggestions section of the HTML page: the first ten suggestions.
pub open spec fn html_suggestions(s: Seq<SuggestionView>) -> Seq<char> {
    "    <section>\n      <h2>Suggested Missing Links</h2>\n"@ + (if s.len() == 0 {
        "      <p>No high-confidence missing links found.</p>\n"@
    } else {
        "      <ol>\n"@ + joined(first_n(s, 10), html_suggestion_f()) + "      </ol>\n"@
    }) + "    </section>\n"@
}

pub open spec fn html_tag_f() -> spec_fn(TagCountView) -> Seq<char> {
    |t: TagCountView| "        <li><code>#"@ + escape_spec(t.tag) + "</code> "@ + decimal(t.count as nat) + "</li>\n"@
}

/// The tags section of the HTML page: the first twelve tags.
pub open spec fn html_tags(ts: Seq<TagCountView>) -> Seq<char> {
    "    <section>\n      <h2>Top Tags</h2>\n"@ + (if ts.len() == 0 {
        "      <p>No tags found.</p>\n"@
    } else {
        "      <ul>\n"@ + joined(first_n(ts, 12), html_tag_f()) + "      </ul>\n"@
    }) + "    </section>\n"@
}

pub open spec fn html_broken_f() -> spec_fn(BrokenLinkView) -> Seq<char> {
    |l: BrokenLinkView|
        "        <li><code>"@ + escape_spec(l.source) + "</code> line "@ + decimal(l.line as nat)
            + " -&gt; <code>"@ + escape_spec(l.target) + "</code></li>\n"@
}

/// The broken links section of the HTML page.
pub open spec fn html_broken(ls: Seq<BrokenLinkView>) -> Seq<char> {
    "    <section>\n      <h2>Broken Links</h2>\n"@ + (if ls.len() == 0 {
        "      <p>No broken internal links.</p>\n"@
    } else {
        "      <ul>\n"@ + joined(ls, html_broken_f()) + "      </ul>\n"@
    }) + "    </section>\n"@
}

pub open spec fn html_path_f() -> spec_fn(Seq<char>) -> Seq<char> {
    |p: Seq<char>| "        <li><code>"@ + escape_spec(p) + "</code></li>\n"@
}

/// The orphans section of the HTML page.
pub open spec fn html_orphans(ps: Seq<Seq<char>>) -> Seq<char> {
    "    <section>\n      <h2>Orphan Documents</h2>\n"@ + (if ps.len() == 0 {
        "      <p>No orphan documents.</p>\n"@
    } else {
        "      <ul>\n"@ + joined(ps, html_path_f()) + "      </ul>\n"@
    }) + "    </section>\n"@
}

pub open spec fn html_entry_f() -> spec_fn((Seq<char>, nat)) -> Seq<char> {
    |e: (Seq<char>, nat)| "        <li><code>"@ + escape_spec(e.0) + "</code> "@ + decimal(e.1) + "</li>\n"@
}

/// The backlink overview section of the HTML page: its first twelve entries.
pub open spec fn html_overview(es: Seq<(Seq<char>, nat)>) -> Seq<char> {
    "    <section>\n      <h2>Backlink Overview</h2>\n"@ + (if es.len() == 0 {
        "      <p>No backlinks found.</p>\n"@
    } else {
        "      <ol>\n"@ + joined(first_n(es, 12), html_entry_f()) + "      </ol>\n"@
    }) + "    </section>\n"@
}

/// The HTML report of `r` with `terms` indexed terms, an optional health check, link
/// suggestions and the backlink overview `es`; every text from the report is escaped.
pub open spec fn html_text(
    r: KnowledgeReportView,
    terms: nat,
    health: Option<HealthView>,
    suggestions: Seq<SuggestionView>,
    es: Seq<(Seq<char>, nat)>,
) -> Seq<char> {
    html_head() + html_metrics(r, terms) + html_health(health) + html_suggestions(suggestions) + html_tags(r.tags)
        + html_broken(r.broken_links) + html_orphans(r.orphan_documents) + html_overview(es)
        + "    <section>\n      <h2>Mermaid Graph</h2>\n      <pre><code>"@ + escape_spec(mermaid_of(r))
        + "</code></pre>\n    </section>\n  </main>\n</body>\n</html>\n"@
}

fn html_metric_exec(out: &mut String, label: &str, value: usize)
    ensures
        final(out)@ == old(out)@ + html_metric(label@, value as nat),
{
    out.append("        <div><dt>");
    out.append(escape_html(label).as_str());
    out.append("</dt><dd>");
    push_decimal(out, value);
    out.append("</dd></div>\n");
}

fn html_top_exec(report: &KnowledgeReport, terms: usize) -> (r: String)
    ensures
        r@ == html_head() + html_metrics(report@, terms as nat),
{
    let mut out = String::new();
    out.append(
        "<!doctype html>\n<html lang=\"en\">\n<head>\n  <meta charset=\"utf-8\">\n  <meta name=\"viewport\" content=\"width=device-width, initial-scale=1\">\n  <title>mdseek Knowledge Report</title>\n  <style>",
    );
    out.append(report_css());
    out.append(
        "</style>\n</head>\n<body>\n  <main>\n    <h1>mdseek Knowledge Report</h1>\n    <section>\n      <h2>Summary</h2>\n      <dl class=\"metrics\">\n",
    );
    html_metric_exec(&mut out, "Documents", report.total_documents);
    html_metric_exec(&mut out, "Internal links", report.total_links);
    html_metric_exec(&mut out, "Indexed terms", terms);
    html_metric_exec(&mut out, "Broken links", report.broken_links.len());
    html_metric_exec(&mut out, "Orphan documents", report.orphan_documents.len());
    out.append("      </dl>\n    </section>\n");
    assert(out@ =~= html_head() + html_metrics(report@, terms as nat));
    out
}

fn html_health_exec(health: Option<&KnowledgeHealth>) -> (r: String)
    ensures
        r@ == html_health(match health {
            Some(h) => Some(h@),
            None => None,
        }),
{
    let mut out = String::new();
    match health {
        None => {
            assert(out@ =~= seq![]);
        },
        Some(h) => {
            out.append("    <section>\n      <h2>Knowledge Health</h2>\n      <p class=\"score\">Score: <strong>");
            push_decimal(&mut out, h.score as usize);
            out.append("/100</strong></p>\n");
            if h.issues.len() == 0 {
                out.append("      <p>No major issues found.</p>\n");
            } else {
                out.append("      <ul>\n");
                let ghost base = out@;
                let ghost iv = h@.issues;
                let mut i: usize = 0;
                while i < h.issues.len()
                    invariant
                        i <= h.issues.len(),
                        iv == view_seq(h.issues@),
                        out@ == base + joined(iv.take(i as int), html_issue_f()),
                    decreases h.issues.len() - i,
                {
                    let issue = &h.issues[i];
                    let ghost o0 = out@;
                    out.append("        <li><strong>");
                    out.append(escape_html(severity_name(issue.severity)).as_str());
                    out.append("</strong>: ");
                    out.append(escape_html(issue.title.as_str()).as_str());
                    out.append("<br><span>");
                    out.append(escape_html(issue.detail.as_str()).as_str());
                    out.append("</span><br><em>");
                    out.append(escape_html(issue.action.as_str()).as_str());
                    out.append("</em></li>\n");
                    proof {
                        lemma_joined_step(iv, html_issue_f(), i as int);
                        assert(iv[i as int] == issue@);
                        assert(out@ =~= o0 + html_issue_f()(issue@));
                    }
                    i += 1;
                }
                assert(iv.take(h.issues.len() as int) =~= iv);
                out.append("      </ul>\n");
            }
            out.append("    </section>\n");
            assert(out@ =~= html_health(Some(h@)));
        },
    }
    out
}

fn html_suggestion_exec(x: &LinkSuggestion) -> (r: String)
    ensures
        r@ == html_suggestion(x@),
{
    let mut out = String::new();
    out.append("        <li><code>");
    out.append(escape_html(x.source.as_str()).as_str());
    out.append("</code> -&gt; <code>");
    out.append(escape_html(x.target.as_str()).as_str());
    out.append("</code> <strong>");
    push_decimal_wide(&mut out, x.score);
    out.append(".0</strong>\n          <ul>\n");
    let ghost base = out@;
    let ghost rv = x@.reasons;
    let mut i: usize = 0;
    while i < x.reasons.len()
        invariant
            i <= x.reasons.len(),
            rv == crate::text::string_views(x.reasons@),
            out@ == base + joined(rv.take(i as int), html_reason_f()),
        decreases x.reasons.len() - i,
    {
        let ghost o0 = out@;
        out.append("            <li>");
        out.append(escape_html(x.reasons[i].as_str()).as_str());
        out.append("</li>\n");
        proof {
            lemma_joined_step(rv, html_reason_f(), i as int);
            assert(out@ =~= o0 + html_reason_f()(rv[i as int]));
        }
        i += 1;
    }
    assert(rv.take(x.reasons.len() as int) =~= rv);
    out.append("          </ul>\n        </li>\n");
    assert(out@ =~= html_suggestion(x@));
    out
}

fn html_suggestions_exec(suggestions: &[LinkSuggestion]) -> (r: String)
    ensures
        r@ == html_suggestions(view_seq(suggestions@)),
{
    let mut out = String::new();
    out.append("    <section>\n      <h2>Suggested Missing Links</h2>\n");
    let ghost sv = view_seq(suggestions@);
    if suggestions.len() == 0 {
        out.append("      <p>No high-confidence missing links found.</p>\n");
    } else {
        out.append("      <ol>\n");
        let n = if suggestions.len() < 10 { suggestions.len() } else { 10 };
        let ghost fv = first_n(sv, 10);
        let ghost base = out@;
        let mut i: usize = 0;
        while i < n
            invariant
                i <= n,
                n == fv.len(),
                n <= suggestions.len(),
                sv == view_seq(suggestions@),
                fv == first_n(sv, 10),
                out@ == base + joined(fv.take(i as int), html_suggestion_f()),
            decreases n - i,
        {
            let ghost o0 = out@;
            let item = html_suggestion_exec(&suggestions[i]);
            out.append(item.as_str());
            proof {
                lemma_joined_step(fv, html_suggestion_f(), i as int);
                assert(fv[i as int] == suggestions@[i as int]@);
                assert(out@ =~= o0 + html_suggestion_f()(fv[i as int]));
            }
            i += 1;
        }
        assert(fv.take(n as int) =~= fv);
        out.append("      </ol>\n");
    }
    out.append("    </section>\n");
    assert(out@ =~= html_suggestions(sv));
    out
}

fn html_tags_exec(report: &KnowledgeReport) -> (r: String)
    ensures
        r@ == html_tags(report@.tags),
{
    let mut out = String::new();
    out.append("    <section>\n      <h2>Top Tags</h2>\n");
    let ghost tv = report@.tags;
    if report.tags.len() == 0 {
        out.append("      <p>No tags found.</p>\n");
    } else {
        out.append("      <ul>\n");
        let n = if report.tags.len() < 12 { report.tags.len() } else { 12 };
        let ghost fv = first_n(tv, 12);
        let ghost base = out@;
        let mut i: usize = 0;
        while i < n
            invariant
                i <= n,
                n == fv.len(),
                n <= report.tags.len(),
                tv == report@.tags,
                fv == first_n(tv, 12),
                out@ == base + joined(fv.take(i as int), html_tag_f()),
            decreases n - i,
        {
            let ghost o0 = out@;
            let t = &report.tags[i];
            out.append("        <li><code>#");
            out.append(escape_html(t.tag.as_str()).as_str());
            out.append("</code> ");
            push_decimal(&mut out, t.count);
            out.append("</li>\n");
            proof {
                lemma_joined_step(fv, html_tag_f(), i as int);
                assert(fv[i as int] == t@);
                assert(out@ =~= o0 + html_tag_f()(fv[i as int]));
            }
            i += 1;
        }
        assert(fv.take(n as int) =~= fv);
        out.append("      </ul>\n");
    }
    out.append("    </section>\n");
    assert(out@ =~= html_tags(tv));
    out
}

fn html_broken_exec(report: &KnowledgeReport) -> (r: String)
    ensures
        r@ == html_broken(report@.broken_links),
{
    let mut out = String::new();
    out.append("    <section>\n      <h2>Broken Links</h2>\n");
    let ghost lv = report@.broken_links;
    if report.broken_links.len() == 0 {
        out.append("      <p>No broken internal links.</p>\n");
    } else {
        out.append("      <ul>\n");
        let ghost base = out@;
        let mut i: usize = 0;
        while i < report.broken_links.len()
            invariant
                i <= report.broken_links.len(),
                lv == report@.broken_links,
                out@ == base + joined(lv.take(i as int), html_broken_f()),
            decreases report.broken_links.len() - i,
        {
            let ghost o0 = out@;
            let l = &report.broken_links[i];
            out.append("        <li><code>");
            out.append(escape_html(l.source.as_str()).as_str());
            out.append("</code> line ");
            push_decimal(&mut out, l.line);
            out.append(" -&gt; <code>");
            out.append(escape_html(l.target.as_str()).as_str());
            out.append("</code></li>\n");
            proof {
                lemma_joined_step(lv, html_broken_f(), i as int);
                assert(lv[i as int] == l@);
                assert(out@ =~= o0 + html_broken_f()(lv[i as int]));
            }
            i += 1;
        }
        assert(lv.take(report.broken_links.len() as int) =~= lv);
        out.append("      </ul>\n");
    }
    out.append("    </section>\n");
    assert(out@ =~= html_broken(lv));
    out
}

fn html_orphans_exec(report: &KnowledgeReport) -> (r: String)
    ensures
        r@ == html_orphans(report@.orphan_documents),
{
    let mut out = String::new();
    out.append("    <section>\n      <h2>Orphan Documents</h2>\n");
    let ghost pv = report@.orphan_documents;
    if report.orphan_documents.len() == 0 {
        out.append("      <p>No orphan documents.</p>\n");
    } else {
        out.append("      <ul>\n");
        let ghost base = out@;
        let mut i: usize = 0;
        while i < report.orphan_documents.len()
            invariant
                i <= report.orphan_documents.len(),
                pv == report@.orphan_documents,
                out@ == base + joined(pv.take(i as int), html_path_f()),
            decreases report.orphan_documents.len() - i,
        {
            let ghost o0 = out@;
            out.append("        <li><code>");
            out.append(escape_html(report.orphan_documents[i].as_str()).as_str());
            out.append("</code></li>\n");
            proof {
                lemma_joined_step(pv, html_path_f(), i as int);
                assert(pv[i as int] == report.orphan_documents@[i as int]@);
                assert(out@ =~= o0 + html_path_f()(pv[i as int]));
            }
            i += 1;
        }
        assert(pv.take(report.orphan_documents.len() as int) =~= pv);
        out.append("      </ul>\n");
    }
    out.append("    </section>\n");
    assert(out@ =~= html_orphans(pv));
    out
}

fn html_overview_exec(entries: &Vec<OverviewEntry>) -> (r: String)
    ensures
        r@ == html_overview(view_seq(entries@)),
{
    let mut out = String::new();
    out.append("    <section>\n      <h2>Backlink Overview</h2>\n");
    let ghost ev = view_seq(entries@);
    if entries.len() == 0 {
        out.append("      <p>No backlinks found.</p>\n");
    } else {
        out.append("      <ol>\n");
        let n = if entries.len() < 12 { entries.len() } else { 12 };
        let ghost fv = first_n(ev, 12);
        let ghost base = out@;
        let mut i: usize = 0;
        while i < n
            invariant
                i <= n,
                n == fv.len(),
                n <= entries.len(),
                ev == view_seq(entries@),
                fv == first_n(ev, 12),
                out@ == base + joined(fv.take(i as int), html_entry_f()),
            decreases n - i,
        {
            let ghost o0 = out@;
            let e = &entries[i];
            out.append("        <li><code>");
            out.append(escape_html(e.target.as_str()).as_str());
            out.append("</code> ");
            push_decimal(&mut out, e.count);
            out.append("</li>\n");
            proof {
                lemma_joined_step(fv, html_entry_f(), i as int);
                assert(fv[i as int] == e@);
                assert(out@ =~= o0 + html_entry_f()(fv[i as int]));
            }
            i += 1;
        }
        assert(fv.take(n as int) =~= fv);
        out.append("      </ol>\n");
    }
    out.append("    </section>\n");
    assert(out@ =~= html_overview(ev));
    out
}

impl ReportRenderer for HtmlRenderer {
    /// The HTML report (see `html_text`), with the backlink overview in the order of
    /// `entry_le`.
    fn render(&self, report: &KnowledgeReport, indexed_terms: usize, extras: ReportExtras<'_>) -> (r: String)
        ensures
            exists|es: Seq<(Seq<char>, nat)>|
                overview_of(report@, es) && r@ == html_text(
                    report@,
                    indexed_terms as nat,
                    extras_health(extras),
                    extras_suggestions(extras),
                    es,
                ),
    {
        let entries = backlink_entries(report);
        let mut out = html_top_exec(report, indexed_terms);
        out.append(html_health_exec(extras.health).as_str());
        out.append(html_suggestions_exec(extras.suggestions).as_str());
        out.append(html_tags_exec(report).as_str());
        out.append(html_broken_exec(report).as_str());
        out.append(html_orphans_exec(report).as_str());
        out.append(html_overview_exec(&entries).as_str());
        out.append("    <section>\n      <h2>Mermaid Graph</h2>\n      <pre><code>");
        out.append(escape_html(report.to_mermaid().as_str()).as_str());
        out.append("</code></pre>\n    </section>\n  </main>\n</body>\n</html>\n");
        assert(out@ =~= html_text(
            report@,
            indexed_terms as nat,
            extras_health(extras),
            extras_suggestions(extras),
            view_seq(entries@),
        ));
        out
    }
}

/// The report in the given format, without extras (see `render_report_with_extras`).
pub fn render_report(report: &KnowledgeReport, indexed_terms: usize, format: ReportFormat) -> (r: String)
    ensures
        exists|es: Seq<(Seq<char>, nat)>|
            overview_of(report@, es) && r@ == match format {
                ReportFormat::Markdown => markdown_text(report@, indexed_terms as nat, None, seq![], es),
                ReportFormat::Html => html_text(report@, indexed_terms as nat, None, seq![], es),
            },
{
    let extras = ReportExtras::none();
    assert(extras_suggestions(extras) =~= Seq::<SuggestionView>::empty());
    render_report_with_extras(report, indexed_terms, format, extras)
}

/// The report in the given format: `markdown_text` or `html_text`.
pub fn render_report_with_extras(
    report: &KnowledgeReport,
    indexed_terms: usize,
    format: ReportFormat,
    extras: ReportExtras<'_>,
) -> (r: String)
    ensures
        exists|es: Seq<(Seq<char>, nat)>|
            overview_of(report@, es) && r@ == match format {
                ReportFormat::Markdown => markdown_text(
                    report@,
                    indexed_terms as nat,
                    extras_health(extras),
                    extras_suggestions(extras),
                    es,
                ),
                ReportFormat::Html => html_text(
                    report@,
                    indexed_terms as nat,
                    extras_health(extras),
                    extras_suggestions(extras),
                    es,
                ),
            },
{
    match format {
        ReportFormat::Markdown => MarkdownRenderer.render(report, indexed_terms, extras),
        ReportFormat::Html => HtmlRenderer.render(report, indexed_terms, extras),
    }
}


/// `x` occurs in `t`.
pub open spec fn text_has(t: Seq<char>, x: Seq<char>) -> bool {
    exists|a: Seq<char>, b: Seq<char>| t == a + x + b
}

/// The text of each element occurs in the joined text.
pub proof fn lemma_joined_has<A>(s: Seq<A>, f: spec_fn(A) -> Seq<char>, i: int)
    requires
        0 <= i < s.len(),
    ensures
        text_has(joined(s, f), f(s[i])),
    decreases s.len(),
{
    let init = s.drop_last();
    if i == s.len() - 1 {
        assert(joined(s, f) == joined(init, f) + f(s[i]) + Seq::<char>::empty());
    } else {
        assert(init[i] == s[i]);
        lemma_joined_has(init, f, i);
        let x = f(s[i]);
        let t = joined(init, f);
        let (a, b) = choose|a: Seq<char>, b: Seq<char>| t == a + x + b;
        assert(joined(s, f) =~= a + x + (b + f(s.last())));
    }
}

proof fn lemma_has_self(x: Seq<char>)
    ensures
        text_has(x, x),
{
    assert(x =~= Seq::<char>::empty() + x + Seq::<char>::empty());
}

proof fn lemma_has_left(a: Seq<char>, b: Seq<char>, x: Seq<char>)
    requires
        text_has(a, x),
    ensures
        text_has(a + b, x),
{
    let (p, q) = choose|p: Seq<char>, q: Seq<char>| a == p + x + q;
    assert(a + b =~= p + x + (q + b));
}

proof fn lemma_has_right(a: Seq<char>, b: Seq<char>, x: Seq<char>)
    requires
        text_has(b, x),
    ensures
        text_has(a + b, x),
{
    let (p, q) = choose|p: Seq<char>, q: Seq<char>| b == p + x + q;
    assert(a + b =~= (a + p) + x + q);
}

proof fn lemma_prefix_extend(a: Seq<char>, b: Seq<char>, pre: Seq<char>)
    requires
        exists|r: Seq<char>| a == pre + r,
    ensures
        exists|r: Seq<char>| a + b == pre + r,
{
    let r = choose|r: Seq<char>| a == pre + r;
    assert(a + b =~= pre + (r + b));
}

proof fn lemma_html_head_doctype()
    ensures
        exists|r: Seq<char>| html_head() == "<!doctype html>\n"@ + r,
{
    reveal_strlit("<!doctype html>\n<html lang=\"en\">\n<head>\n  <meta charset=\"utf-8\">\n  <meta name=\"viewport\" content=\"width=device-width, initial-scale=1\">\n  <title>mdseek Knowledge Report</title>\n  <style>");
    reveal_strlit("<!doctype html>\n");
    let lit1 = "<!doctype html>\n<html lang=\"en\">\n<head>\n  <meta charset=\"utf-8\">\n  <meta name=\"viewport\" content=\"width=device-width, initial-scale=1\">\n  <title>mdseek Knowledge Report</title>\n  <style>"@;
    assert(lit1 =~= "<!doctype html>\n"@ + lit1.skip(16));
    let rest = lit1.skip(16) + css_text()
        + "</style>\n</head>\n<body>\n  <main>\n    <h1>mdseek Knowledge Report</h1>\n    <section>\n      <h2>Summary</h2>\n      <dl class=\"metrics\">\n"@;
    assert(html_head() =~= "<!doctype html>\n"@ + rest);
}

proof fn lemma_page_end_closes()
    ensures
        exists|a: Seq<char>| "</code></pre>\n    </section>\n  </main>\n</body>\n</html>\n"@ == a + "</html>\n"@,
{
    reveal_strlit("</code></pre>\n    </section>\n  </main>\n</body>\n</html>\n");
    reveal_strlit("</html>\n");
    let e = "</code></pre>\n    </section>\n  </main>\n</body>\n</html>\n"@;
    assert(e =~= e.take(e.len() - 8) + "</html>\n"@);
}

/// What occurs in the metrics or in the broken links section occurs in the page.
proof fn lemma_in_page(
    r: KnowledgeReportView,
    terms: nat,
    health: Option<HealthView>,
    suggestions: Seq<SuggestionView>,
    es: Seq<(Seq<char>, nat)>,
    x: Seq<char>,
)
    requires
        text_has(html_metrics(r, terms), x) || text_has(html_broken(r.broken_links), x),
    ensures
        text_has(html_text(r, terms, health, suggestions, es), x),
{
    let p1 = html_head() + html_metrics(r, terms);
    if text_has(html_metrics(r, terms), x) {
        lemma_has_right(html_head(), html_metrics(r, terms), x);
    }
    let p2 = p1 + html_health(health);
    let p3 = p2 + html_suggestions(suggestions);
    let p4 = p3 + html_tags(r.tags);
    let p5 = p4 + html_broken(r.broken_links);
    if text_has(html_metrics(r, terms), x) {
        lemma_has_left(p1, html_health(health), x);
        lemma_has_left(p2, html_suggestions(suggestions), x);
        lemma_has_left(p3, html_tags(r.tags), x);
        lemma_has_left(p4, html_broken(r.broken_links), x);
    } else {
        lemma_has_right(p4, html_broken(r.broken_links), x);
    }
    let p6 = p5 + html_orphans(r.orphan_documents);
    let p7 = p6 + html_overview(es);
    let p8 = p7 + "    <section>\n      <h2>Mermaid Graph</h2>\n      <pre><code>"@;
    let p9 = p8 + escape_spec(mermaid_of(r));
    lemma_has_left(p5, html_orphans(r.orphan_documents), x);
    lemma_has_left(p6, html_overview(es), x);
    lemma_has_left(p7, "    <section>\n      <h2>Mermaid Graph</h2>\n      <pre><code>"@, x);
    lemma_has_left(p8, escape_spec(mermaid_of(r)), x);
    lemma_has_left(p9, "</code></pre>\n    </section>\n  </main>\n</body>\n</html>\n"@, x);
}

/// The HTML report is a whole page: it starts with the doctype line and ends with the closing
/// `</html>` line, and it holds the five summary metrics (documents, internal links, indexed
/// terms, broken links, orphan documents) and a line for each broken link.
pub proof fn lemma_html_page(
    r: KnowledgeReportView,
    terms: nat,
    health: Option<HealthView>,
    suggestions: Seq<SuggestionView>,
    es: Seq<(Seq<char>, nat)>,
)
    ensures
        exists|b: Seq<char>| html_text(r, terms, health, suggestions, es) == "<!doctype html>\n"@ + b,
        exists|a: Seq<char>| html_text(r, terms, health, suggestions, es) == a + "</html>\n"@,
        text_has(html_text(r, terms, health, suggestions, es), html_metric("Documents"@, r.total_documents as nat)),
        text_has(html_text(r, terms, health, suggestions, es), html_metric("Internal links"@, r.total_links as nat)),
        text_has(html_text(r, terms, health, suggestions, es), html_metric("Indexed terms"@, terms)),
        text_has(html_text(r, terms, health, suggestions, es), html_metric("Broken links"@, r.broken_links.len())),
        text_has(
            html_text(r, terms, health, suggestions, es),
            html_metric("Orphan documents"@, r.orphan_documents.len()),
        ),
        forall|i: int|
            0 <= i < r.broken_links.len() ==> text_has(
                html_text(r, terms, health, suggestions, es),
                html_broken_f()(#[trigger] r.broken_links[i]),
            ),
{
    let doct = "<!doctype html>\n"@;
    // the start
    lemma_html_head_doctype();
    let p1 = html_head() + html_metrics(r, terms);
    let p2 = p1 + html_health(health);
    let p3 = p2 + html_suggestions(suggestions);
    let p4 = p3 + html_tags(r.tags);
    let p5 = p4 + html_broken(r.broken_links);
    let p6 = p5 + html_orphans(r.orphan_documents);
    let p7 = p6 + html_overview(es);
    let p8 = p7 + "    <section>\n      <h2>Mermaid Graph</h2>\n      <pre><code>"@;
    let p9 = p8 + escape_spec(mermaid_of(r));
    let endl = "</code></pre>\n    </section>\n  </main>\n</body>\n</html>\n"@;
    lemma_prefix_extend(html_head(), html_metrics(r, terms), doct);
    lemma_prefix_extend(p1, html_health(health), doct);
    lemma_prefix_extend(p2, html_suggestions(suggestions), doct);
    lemma_prefix_extend(p3, html_tags(r.tags), doct);
    lemma_prefix_extend(p4, html_broken(r.broken_links), doct);
    lemma_prefix_extend(p5, html_orphans(r.orphan_documents), doct);
    lemma_prefix_extend(p6, html_overview(es), doct);
    lemma_prefix_extend(p7, "    <section>\n      <h2>Mermaid Graph</h2>\n      <pre><code>"@, doct);
    lemma_prefix_extend(p8, escape_spec(mermaid_of(r)), doct);
    lemma_prefix_extend(p9, endl, doct);
    assert(html_text(r, terms, health, suggestions, es) == p9 + endl);
    // the end
    lemma_page_end_closes();
    let a0 = choose|a: Seq<char>| endl == a + "</html>\n"@;
    assert(p9 + endl =~= (p9 + a0) + "</html>\n"@);
    // the metrics
    let m1 = html_metric("Documents"@, r.total_documents as nat);
    let m2 = html_metric("Internal links"@, r.total_links as nat);
    let m3 = html_metric("Indexed terms"@, terms);
    let m4 = html_metric("Broken links"@, r.broken_links.len());
    let m5 = html_metric("Orphan documents"@, r.orphan_documents.len());
    let mt = "      </dl>\n    </section>\n"@;
    assert(html_metrics(r, terms) == m1 + m2 + m3 + m4 + m5 + mt);
    lemma_has_self(m1);
    lemma_has_left(m1, m2, m1);
    lemma_has_left(m1 + m2, m3, m1);
    lemma_has_left(m1 + m2 + m3, m4, m1);
    lemma_has_left(m1 + m2 + m3 + m4, m5, m1);
    lemma_has_left(m1 + m2 + m3 + m4 + m5, mt, m1);
    lemma_in_page(r, terms, health, suggestions, es, m1);
    lemma_has_self(m2);
    lemma_has_right(m1, m2, m2);
    lemma_has_left(m1 + m2, m3, m2);
    lemma_has_left(m1 + m2 + m3, m4, m2);
    lemma_has_left(m1 + m2 + m3 + m4, m5, m2);
    lemma_has_left(m1 + m2 + m3 + m4 + m5, mt, m2);
    lemma_in_page(r, terms, health, suggestions, es, m2);
    lemma_has_self(m3);
    lemma_has_right(m1 + m2, m3, m3);
    lemma_has_left(m1 + m2 + m3, m4, m3);
    lemma_has_left(m1 + m2 + m3 + m4, m5, m3);
    lemma_has_left(m1 + m2 + m3 + m4 + m5, mt, m3);
    lemma_in_page(r, terms, health, suggestions, es, m3);
    lemma_has_self(m4);
    lemma_has_right(m1 + m2 + m3, m4, m4);
    lemma_has_left(m1 + m2 + m3 + m4, m5, m4);
    lemma_has_left(m1 + m2 + m3 + m4 + m5, mt, m4);
    lemma_in_page(r, terms, health, suggestions, es, m4);
    lemma_has_self(m5);
    lemma_has_right(m1 + m2 + m3 + m4, m5, m5);
    lemma_has_left(m1 + m2 + m3 + m4 + m5, mt, m5);
    lemma_in_page(r, terms, health, suggestions, es, m5);
    // the broken links
    assert forall|i: int| 0 <= i < r.broken_links.len() implies text_has(
        html_text(r, terms, health, suggestions, es),
        html_broken_f()(#[trigger] r.broken_links[i]),
    ) by {
        let ls = r.broken_links;
        let x = html_broken_f()(ls[i]);
        lemma_joined_has(ls, html_broken_f(), i);
        let pre = "    <section>\n      <h2>Broken Links</h2>\n"@ + "      <ul>\n"@;
        assert(html_broken(ls) == pre + joined(ls, html_broken_f()) + ("      </ul>\n"@ + "    </section>\n"@)) by {
            assert(ls.len() > 0);
        }
        lemma_has_right(pre, joined(ls, html_broken_f()), x);
        lemma_has_left(pre + joined(ls, html_broken_f()), "      </ul>\n"@ + "    </section>\n"@, x);
        lemma_in_page(r, terms, health, suggestions, es, x);
    }
}

} // verus!
