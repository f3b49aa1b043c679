//! Reports as HTML.
use vstd::prelude::*;
use vstd::string::*;
use crate::chars;
use crate::report::delta::{Delta, SupplyChainDelta};
use crate::report::{
    DepReport, DependencyReport, Link, LinkRef, PluginReport, Section, UpgradeReport, dep_reports,
    links, sections,
};

verus! {

/// How a character is written in HTML.
pub open spec fn entity(c: char) -> Seq<char> {
    if c == '&' {
        "&amp;"@
    } else if c == '<' {
        "&lt;"@
    } else if c == '>' {
        "&gt;"@
    } else if c == '"' {
        "&quot;"@
    } else {
        seq![c]
    }
}

/// How a text is written in HTML.
pub open spec fn escaped(s: Seq<char>) -> Seq<char>
    decreases s.len(),
{
    if s.len() == 0 {
        seq![]
    } else {
        escaped(s.drop_last()) + entity(s.last())
    }
}

pub fn escape_html(input: &str) -> (r: String)
    ensures
        r@ == escaped(input@),
{
    let mut out: String = String::new();
    for c in it: input.chars()
        invariant
            it.seq() == input@,
            out@ == escaped(input@.take(it.index() as int)),
    {
        let ghost i = it.index() as int;
        let ghost sofar = out@;
        assert(input@.take(i + 1).drop_last() =~= input@.take(i));
        assert(input@.take(i + 1).last() == c);
        if c == '&' {
            out.append("&amp;");
        } else if c == '<' {
            out.append("&lt;");
        } else if c == '>' {
            out.append("&gt;");
        } else if c == '"' {
            out.append("&quot;");
        } else {
            out.push(c);
            assert(out@ =~= sofar + seq![c]);
        }
    }
    assert(input@.take(input@.len() as int) =~= input@);
    out
}

/// What is escaped can neither open nor close a tag, nor end an attribute.
pub proof fn law_escaped_is_inert(s: Seq<char>)
    ensures
        forall|i: int|
            0 <= i < escaped(s).len() ==> #[trigger] escaped(s)[i] != '<' && escaped(s)[i] != '>'
                && escaped(s)[i] != '"',
    decreases s.len(),
{
    reveal_strlit("&amp;");
    reveal_strlit("&lt;");
    reveal_strlit("&gt;");
    reveal_strlit("&quot;");
    if s.len() > 0 {
        law_escaped_is_inert(s.drop_last());
        let before = escaped(s.drop_last());
        assert forall|i: int| 0 <= i < escaped(s).len() implies #[trigger] escaped(s)[i] != '<'
            && escaped(s)[i] != '>' && escaped(s)[i] != '"' by {
            if i < before.len() {
                assert(escaped(s)[i] == before[i]);
            } else {
                assert(escaped(s)[i] == entity(s.last())[i - before.len()]);
            }
        }
    }
}

/// The items one after another, escaped, each with something before and behind
/// it.
pub open spec fn each_escaped(
    front: Seq<char>,
    items: Seq<Seq<char>>,
    back: Seq<char>,
) -> Seq<char>
    decreases items.len(),
{
    if items.len() == 0 {
        seq![]
    } else {
        each_escaped(front, items.drop_last(), back) + (front + escaped(items.last()) + back)
    }
}

fn write_each_escaped(out: &mut String, front: &str, items: &Vec<String>, back: &str)
    ensures
        final(out)@ == old(out)@ + each_escaped(front@, chars::views(items@), back@),
{
    let ghost first = out@;
    let ghost all = chars::views(items@);
    assert(out@ =~= first + each_escaped(front@, all.take(0), back@));
    for i in 0..items.len()
        invariant
            all == chars::views(items@),
            out@ == first + each_escaped(front@, all.take(i as int), back@),
    {
        let ghost sofar = each_escaped(front@, all.take(i as int), back@);
        assert(all.take(i + 1).drop_last() =~= all.take(i as int));
        assert(all.take(i + 1).last() == items@[i as int]@);
        out.append(front);
        out.append(escape_html(items[i].as_str()).as_str());
        out.append(back);
        assert(out@ =~= first + (sofar + (front@ + escaped(items@[i as int]@) + back@)));
    }
    assert(all.take(all.len() as int) =~= all);
}

/// The findings on a dependency, as HTML.
pub open spec fn html_findings(findings: Seq<Seq<char>>) -> Seq<char> {
    if findings.len() == 0 {
        seq![]
    } else {
        "<strong>Security findings</strong><ul>"@ + each_escaped("<li>"@, findings, "</li>"@)
            + "</ul>"@
    }
}

pub fn write_html_findings(out: &mut String, findings: &Vec<String>)
    ensures
        final(out)@ == old(out)@ + html_findings(chars::views(findings@)),
{
    let ghost first = out@;
    if findings.len() > 0 {
        out.append("<strong>Security findings</strong><ul>");
        write_each_escaped(out, "<li>", findings, "</li>");
        out.append("</ul>");
    }
    assert(out@ =~= first + html_findings(chars::views(findings@)));
}

/// A link, as an item of an HTML list.
pub open spec fn html_link(link: Link) -> Seq<char> {
    "<li><a href=\""@ + escaped(link.url)
        + "\" target=\"_blank\" rel=\"noopener noreferrer\">"@ + escaped(link.label)
        + "</a></li>"@
}

pub open spec fn html_link_items(items: Seq<Link>) -> Seq<char>
    decreases items.len(),
{
    if items.len() == 0 {
        seq![]
    } else {
        html_link_items(items.drop_last()) + html_link(items.last())
    }
}

/// A group of links, as HTML.
pub open spec fn html_links(title: Seq<char>, items: Seq<Link>) -> Seq<char> {
    if items.len() == 0 {
        seq![]
    } else {
        "<strong>"@ + escaped(title) + "</strong><ul>"@ + html_link_items(items) + "</ul>"@
    }
}

fn write_html_link(out: &mut String, link: &LinkRef)
    ensures
        final(out)@ == old(out)@ + html_link(link@),
{
    let mut part: String = "<li><a href=\"".to_owned();
    part.append(escape_html(link.url.as_str()).as_str());
    part.append("\" target=\"_blank\" rel=\"noopener noreferrer\">");
    part.append(escape_html(link.label.as_str()).as_str());
    part.append("</a></li>");
    out.append(part.as_str());
}

pub fn write_html_links(out: &mut String, title: &str, items: &Vec<LinkRef>)
    ensures
        final(out)@ == old(out)@ + html_links(title@, links(items@)),
{
    let ghost first = out@;
    let ghost all = links(items@);
    if items.len() > 0 {
        out.append("<strong>");
        out.append(escape_html(title).as_str());
        out.append("</strong><ul>");
        let ghost head = out@;
        assert(out@ =~= head + html_link_items(all.take(0)));
        for i in 0..items.len()
            invariant
                all == links(items@),
                out@ == head + html_link_items(all.take(i as int)),
        {
            let ghost sofar = html_link_items(all.take(i as int));
            assert(all.take(i + 1).drop_last() =~= all.take(i as int));
            assert(all.take(i + 1).last() == items@[i as int]@);
            write_html_link(out, &items[i]);
            assert(out@ =~= head + (sofar + html_link(items@[i as int]@)));
        }
        assert(all.take(all.len() as int) =~= all);
        out.append("</ul>");
    }
    assert(out@ =~= first + html_links(title@, all));
}

/// A delta, as HTML.
pub open spec fn html_delta(delta: Delta) -> Seq<char> {
    "<strong>Supply-chain delta</strong><ul>"@ + (match delta.note {
        Some(note) => "<li>"@ + escaped(note) + "</li>"@,
        None => if delta.is_silent() {
            "<li>No transitive dependency changes detected</li>"@
        } else {
            each_escaped("<li>Added: "@, delta.added, "</li>"@) + each_escaped(
                "<li>Removed: "@,
                delta.removed,
                "</li>"@,
            ) + each_escaped("<li>Changed: "@, delta.changed, "</li>"@)
        },
    }) + "</ul>"@
}

pub fn write_html_supply_chain(out: &mut String, delta: &SupplyChainDelta)
    ensures
        final(out)@ == old(out)@ + html_delta(delta@),
{
    let ghost first = out@;
    out.append("<strong>Supply-chain delta</strong><ul>");
    if let Some(note) = &delta.note {
        out.append("<li>");
        out.append(escape_html(note.as_str()).as_str());
        out.append("</li>");
    } else if delta.added.len() == 0 && delta.removed.len() == 0 && delta.changed.len() == 0 {
        out.append("<li>No transitive dependency changes detected</li>");
    } else {
        write_each_escaped(out, "<li>Added: ", &delta.added, "</li>");
        write_each_escaped(out, "<li>Removed: ", &delta.removed, "</li>");
        write_each_escaped(out, "<li>Changed: ", &delta.changed, "</li>");
    }
    out.append("</ul>");
    assert(out@ =~= first + html_delta(delta@));
}

/// What is said of a dependency, as HTML.
pub open spec fn html_dependency(dep: DepReport) -> Seq<char> {
    "<article><h3>"@ + escaped(dep.name) + "</h3><p><code>"@ + escaped(dep.current)
        + "</code> &rarr; <code>"@ + escaped(dep.latest) + "</code> <span class=\"pill\">"@
        + escaped(dep.impact) + "</span></p>"@ + html_links("Diff links"@, dep.diff) + html_links(
        "Changelog links"@,
        dep.changelog,
    ) + html_links("Security links"@, dep.security) + html_findings(dep.findings) + html_delta(
        dep.supply_chain,
    ) + "</article>"@
}

pub open spec fn html_dependencies(items: Seq<DepReport>) -> Seq<char>
    decreases items.len(),
{
    if items.len() == 0 {
        seq![]
    } else {
        html_dependencies(items.drop_last()) + html_dependency(items.last())
    }
}

/// A section of a report, as HTML.
pub open spec fn html_section(section: Section) -> Seq<char> {
    "<h2>"@ + escaped(section.plugin) + "</h2>"@ + html_tree_findings(section.findings)
        + html_dependencies(section.dependencies)
}

/// The findings on a whole dependency tree, as HTML.
pub open spec fn html_tree_findings(findings: Seq<Seq<char>>) -> Seq<char> {
    if findings.len() == 0 {
        seq![]
    } else {
        "<article><h3>Security findings (full dependency tree)</h3><ul>"@ + each_escaped(
            "<li>"@,
            findings,
            "</li>"@,
        ) + "</ul></article>"@
    }
}

pub open spec fn html_sections(items: Seq<Section>) -> Seq<char>
    decreases items.len(),
{
    if items.len() == 0 {
        seq![]
    } else {
        html_sections(items.drop_last()) + html_section(items.last())
    }
}

/// What stands before the time of a report.
pub open spec fn html_head() -> Seq<char> {
    "<!DOCTYPE html><html><head><meta charset=\"utf-8\"><meta name=\"viewport\" content=\"width=device-width,initial-scale=1\"><title>ruckup upgrade report</title><style>body{font-family:Georgia,serif;margin:0;background:linear-gradient(180deg,#f8f5ef,#e9edf4);color:#111;}main{max-width:960px;margin:0 auto;padding:2rem 1rem;}h1{font-size:2rem;margin:.2rem 0 1rem;}h2{margin-top:2rem;border-bottom:1px solid #bbb;padding-bottom:.35rem;}article{background:#fff;border-radius:12px;padding:1rem 1.2rem;margin:1rem 0;box-shadow:0 6px 18px rgba(0,0,0,.08);}small{color:#555;}ul{margin:.35rem 0 .75rem 1.25rem;}li{margin:.15rem 0;}code{background:#f0f2f6;padding:.1rem .3rem;border-radius:4px;}a{color:#0f4c81;text-decoration:none;}a:hover{text-decoration:underline;} .pill{display:inline-block;padding:.1rem .55rem;border-radius:999px;background:#113f67;color:#fff;font-size:.85rem;}</style></head><body><main><h1>ruckup upgrade intelligence report</h1>"@
}

/// A report, as HTML.
pub open spec fn html_report(generated_at: Seq<char>, plugins: Seq<Section>) -> Seq<char> {
    html_head() + "<small>Generated at: "@ + escaped(generated_at) + "</small>"@ + (
    if plugins.len() == 0 {
        "<p>No upgrade candidates found.</p>"@
    } else {
        html_sections(plugins)
    }) + "</main></body></html>"@
}

fn write_html_dependency(out: &mut String, dep: &DependencyReport)
    ensures
        final(out)@ == old(out)@ + html_dependency(dep@),
{
    let mut part: String = "<article><h3>".to_owned();
    part.append(escape_html(dep.name.as_str()).as_str());
    part.append("</h3><p><code>");
    part.append(escape_html(dep.current_version.as_str()).as_str());
    part.append("</code> &rarr; <code>");
    part.append(escape_html(dep.latest_version.as_str()).as_str());
    part.append("</code> <span class=\"pill\">");
    part.append(escape_html(dep.semver_impact.as_str()).as_str());
    part.append("</span></p>");
    write_html_links(&mut part, "Diff links", &dep.diff_links);
    write_html_links(&mut part, "Changelog links", &dep.changelog_links);
    write_html_links(&mut part, "Security links", &dep.security_links);
    write_html_findings(&mut part, &dep.security_findings);
    write_html_supply_chain(&mut part, &dep.supply_chain);
    part.append("</article>");
    out.append(part.as_str());
}

fn write_html_tree_findings(out: &mut String, findings: &Vec<String>)
    ensures
        final(out)@ == old(out)@ + html_tree_findings(chars::views(findings@)),
{
    if findings.len() > 0 {
        let mut part: String =
            "<article><h3>Security findings (full dependency tree)</h3><ul>".to_owned();
        write_each_escaped(&mut part, "<li>", findings, "</li>");
        part.append("</ul></article>");
        out.append(part.as_str());
    } else {
        assert(out@ =~= out@ + html_tree_findings(chars::views(findings@)));
    }
}

fn write_html_dependencies(out: &mut String, items: &Vec<DependencyReport>)
    ensures
        final(out)@ == old(out)@ + html_dependencies(dep_reports(items@)),
{
    let ghost head = out@;
    let ghost all = dep_reports(items@);
    assert(out@ =~= head + html_dependencies(all.take(0)));
    for i in 0..items.len()
        invariant
            all == dep_reports(items@),
            out@ == head + html_dependencies(all.take(i as int)),
    {
        let ghost sofar = html_dependencies(all.take(i as int));
        assert(all.take(i + 1).drop_last() =~= all.take(i as int));
        assert(all.take(i + 1).last() == items@[i as int]@);
        write_html_dependency(out, &items[i]);
        assert(out@ =~= head + (sofar + html_dependency(items@[i as int]@)));
    }
    assert(all.take(all.len() as int) =~= all);
}

fn write_html_section(out: &mut String, section: &PluginReport)
    ensures
        final(out)@ == old(out)@ + html_section(section@),
{
    let mut part: String = "<h2>".to_owned();
    part.append(escape_html(section.plugin.as_str()).as_str());
    part.append("</h2>");
    write_html_tree_findings(&mut part, &section.security_findings);
    write_html_dependencies(&mut part, &section.dependencies);
    out.append(part.as_str());
}

pub fn render_html(report: &UpgradeReport) -> (r: String)
    ensures
        r@ == html_report(report.generated_at_utc@, sections(report.plugins@)),
{
    let mut out: String = "<!DOCTYPE html><html><head><meta charset=\"utf-8\"><meta name=\"viewport\" content=\"width=device-width,initial-scale=1\"><title>ruckup upgrade report</title><style>body{font-family:Georgia,serif;margin:0;background:linear-gradient(180deg,#f8f5ef,#e9edf4);color:#111;}main{max-width:960px;margin:0 auto;padding:2rem 1rem;}h1{font-size:2rem;margin:.2rem 0 1rem;}h2{margin-top:2rem;border-bottom:1px solid #bbb;padding-bottom:.35rem;}article{background:#fff;border-radius:12px;padding:1rem 1.2rem;margin:1rem 0;box-shadow:0 6px 18px rgba(0,0,0,.08);}small{color:#555;}ul{margin:.35rem 0 .75rem 1.25rem;}li{margin:.15rem 0;}code{background:#f0f2f6;padding:.1rem .3rem;border-radius:4px;}a{color:#0f4c81;text-decoration:none;}a:hover{text-decoration:underline;} .pill{display:inline-block;padding:.1rem .55rem;border-radius:999px;background:#113f67;color:#fff;font-size:.85rem;}</style></head><body><main><h1>ruckup upgrade intelligence report</h1>".to_owned();
    out.append("<small>Generated at: ");
    out.append(escape_html(report.generated_at_utc.as_str()).as_str());
    out.append("</small>");
    let ghost head = out@;
    let ghost all = sections(report.plugins@);
    if report.plugins.len() == 0 {
        out.append("<p>No upgrade candidates found.</p>");
    } else {
        assert(out@ =~= head + html_sections(all.take(0)));
        for i in 0..report.plugins.len()
            invariant
                all == sections(report.plugins@),
                out@ == head + html_sections(all.take(i as int)),
        {
            let ghost sofar = html_sections(all.take(i as int));
            assert(all.take(i + 1).drop_last() =~= all.take(i as int));
            assert(all.take(i + 1).last() == report.plugins@[i as int]@);
            write_html_section(&mut out, &report.plugins[i]);
            assert(out@ =~= head + (sofar + html_section(report.plugins@[i as int]@)));
        }
        assert(all.take(all.len() as int) =~= all);
    }
    out.append("</main></body></html>");
    out
}

/// Each character is escaped by itself: the four with a meaning of their own as their
/// names, the others as they are.
pub proof fn law_escaped_one_by_one(a: Seq<char>, b: Seq<char>, c: char)
    ensures
        escaped(a + b) == escaped(a) + escaped(b),
        escaped(seq!['&']) == "&amp;"@,
        escaped(seq!['<']) == "&lt;"@,
        escaped(seq!['>']) == "&gt;"@,
        escaped(seq!['"']) == "&quot;"@,
        c != '&' && c != '<' && c != '>' && c != '"' ==> escaped(seq![c]) == seq![c],
    decreases b.len(),
{
    lemma_escaped_char('&');
    lemma_escaped_char('<');
    lemma_escaped_char('>');
    lemma_escaped_char('"');
    lemma_escaped_char(c);
    if b.len() == 0 {
        assert(a + b =~= a);
        assert(escaped(a) + escaped(b) =~= escaped(a));
    } else {
        law_escaped_one_by_one(a, b.drop_last(), c);
        assert((a + b).drop_last() =~= a + b.drop_last());
        assert(escaped(a + b) =~= escaped(a) + escaped(b));
    }
}

proof fn lemma_escaped_char(c: char)
    ensures
        escaped(seq![c]) == entity(c),
{
    assert(seq![c].drop_last() =~= seq![]);
    assert(escaped(seq![]) =~= seq![]);
    assert(escaped(seq![c]) =~= entity(c));
}

} // verus!
