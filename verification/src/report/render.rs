//! Reports as text, Markdown and HTML.
use vstd::prelude::*;
use vstd::string::*;
use crate::chars;
use crate::report::delta::{Delta, SupplyChainDelta};
use crate::report::{
    DepReport, DependencyReport, Link, LinkRef, PluginReport, Section, UpgradeReport, dep_reports,
    links, sections,
};
use crate::text;

verus! {

/// The items one after another, each with something before and behind it.
pub open spec fn each(front: Seq<char>, items: Seq<Seq<char>>, back: Seq<char>) -> Seq<char>
    decreases items.len(),
{
    if items.len() == 0 {
        seq![]
    } else {
        each(front, items.drop_last(), back) + (front + items.last() + back)
    }
}

fn write_each(out: &mut String, front: &str, items: &Vec<String>, back: &str)
    ensures
        final(out)@ == old(out)@ + each(front@, chars::views(items@), back@),
{
    let ghost first = out@;
    let ghost all = chars::views(items@);
    assert(out@ =~= first + each(front@, all.take(0), back@));
    for i in 0..items.len()
        invariant
            all == chars::views(items@),
            out@ == first + each(front@, all.take(i as int), back@),
    {
        let ghost sofar = each(front@, all.take(i as int), back@);
        assert(all.take(i + 1).drop_last() =~= all.take(i as int));
        assert(all.take(i + 1).last() == items@[i as int]@);
        out.append(front);
        out.append(items[i].as_str());
        out.append(back);
        assert(out@ =~= first + (sofar + (front@ + items@[i as int]@ + back@)));
    }
    assert(all.take(all.len() as int) =~= all);
}

/// The links one after another: each one's label and address, with something
/// before, between and behind them.
pub open spec fn each_link(
    front: Seq<char>,
    items: Seq<Link>,
    middle: Seq<char>,
    back: Seq<char>,
) -> Seq<char>
    decreases items.len(),
{
    if items.len() == 0 {
        seq![]
    } else {
        each_link(front, items.drop_last(), middle, back) + (front + items.last().label + middle
            + items.last().url + back)
    }
}

fn write_each_link(out: &mut String, front: &str, items: &Vec<LinkRef>, middle: &str, back: &str)
    ensures
        final(out)@ == old(out)@ + each_link(front@, links(items@), middle@, back@),
{
    let ghost first = out@;
    let ghost all = links(items@);
    assert(out@ =~= first + each_link(front@, all.take(0), middle@, back@));
    for i in 0..items.len()
        invariant
            all == links(items@),
            out@ == first + each_link(front@, all.take(i as int), middle@, back@),
    {
        let ghost sofar = each_link(front@, all.take(i as int), middle@, back@);
        assert(all.take(i + 1).drop_last() =~= all.take(i as int));
        assert(all.take(i + 1).last() == items@[i as int]@);
        out.append(front);
        out.append(items[i].label.as_str());
        out.append(middle);
        out.append(items[i].url.as_str());
        out.append(back);
        assert(out@ =~= first + (sofar + (front@ + items@[i as int]@.label + middle@
            + items@[i as int]@.url + back@)));
    }
    assert(all.take(all.len() as int) =~= all);
}

/// The findings on a dependency, as text.
pub open spec fn text_findings(findings: Seq<Seq<char>>) -> Seq<char> {
    if findings.len() == 0 {
        seq![]
    } else {
        "  Security findings:\n"@ + each("    - "@, findings, "\n"@)
    }
}

pub fn write_text_findings(out: &mut String, findings: &Vec<String>)
    ensures
        final(out)@ == old(out)@ + text_findings(chars::views(findings@)),
{
    let ghost first = out@;
    if findings.len() > 0 {
        out.append("  Security findings:\n");
        write_each(out, "    - ", findings, "\n");
    }
    assert(out@ =~= first + text_findings(chars::views(findings@)));
}

/// A group of links, as text.
pub open spec fn text_links(title: Seq<char>, items: Seq<Link>) -> Seq<char> {
    if items.len() == 0 {
        seq![]
    } else {
        "  "@ + title + " links:\n"@ + each_link("    - "@, items, ": "@, "\n"@)
    }
}

pub fn write_text_link_group(out: &mut String, title: &str, items: &Vec<LinkRef>)
    ensures
        final(out)@ == old(out)@ + text_links(title@, links(items@)),
{
    let ghost first = out@;
    if items.len() > 0 {
        out.append("  ");
        out.append(title);
        out.append(" links:\n");
        write_each_link(out, "    - ", items, ": ", "\n");
    }
    assert(out@ =~= first + text_links(title@, links(items@)));
}

/// A delta, as text.
pub open spec fn text_delta(delta: Delta) -> Seq<char> {
    "  Supply chain:\n"@ + match delta.note {
        Some(note) => "    - "@ + note + "\n"@,
        None => if delta.is_silent() {
            "    - no transitive dependency changes detected\n"@
        } else {
            each("    - added: "@, delta.added, "\n"@) + each(
                "    - removed: "@,
                delta.removed,
                "\n"@,
            ) + each("    - changed: "@, delta.changed, "\n"@)
        },
    }
}

pub fn write_supply_chain_text(out: &mut String, delta: &SupplyChainDelta)
    ensures
        final(out)@ == old(out)@ + text_delta(delta@),
{
    let ghost first = out@;
    out.append("  Supply chain:\n");
    if let Some(note) = &delta.note {
        out.append("    - ");
        out.append(note.as_str());
        out.append("\n");
    } else if delta.added.len() == 0 && delta.removed.len() == 0 && delta.changed.len() == 0 {
        out.append("    - no transitive dependency changes detected\n");
    } else {
        write_each(out, "    - added: ", &delta.added, "\n");
        write_each(out, "    - removed: ", &delta.removed, "\n");
        write_each(out, "    - changed: ", &delta.changed, "\n");
    }
    assert(out@ =~= first + text_delta(delta@));
}

/// What is said of a dependency, as text.
pub open spec fn text_dependency(dep: DepReport) -> Seq<char> {
    "- "@ + dep.name + ": "@ + dep.current + " -> "@ + dep.latest + " ("@ + dep.impact + ")\n"@
        + text_links("Diff"@, dep.diff) + text_links("Changelog"@, dep.changelog) + text_links(
        "Security"@,
        dep.security,
    ) + text_findings(dep.findings) + text_delta(dep.supply_chain) + "\n"@
}

pub open spec fn text_dependencies(items: Seq<DepReport>) -> Seq<char>
    decreases items.len(),
{
    if items.len() == 0 {
        seq![]
    } else {
        text_dependencies(items.drop_last()) + text_dependency(items.last())
    }
}

/// A section of a report, as text.
pub open spec fn text_section(section: Section) -> Seq<char> {
    "== "@ + section.plugin + " ==\n"@ + text_tree_findings(section.findings) + text_dependencies(
        section.dependencies,
    )
}

/// The findings on a whole dependency tree, as text.
pub open spec fn text_tree_findings(findings: Seq<Seq<char>>) -> Seq<char> {
    if findings.len() == 0 {
        seq![]
    } else {
        "  Security findings (full dependency tree):\n"@ + each("    - "@, findings, "\n"@)
    }
}

pub open spec fn text_sections(items: Seq<Section>) -> Seq<char>
    decreases items.len(),
{
    if items.len() == 0 {
        seq![]
    } else {
        text_sections(items.drop_last()) + text_section(items.last())
    }
}

/// A report, as text.
pub open spec fn text_report(generated_at: Seq<char>, plugins: Seq<Section>) -> Seq<char> {
    "ruckup upgrade intelligence report\ngenerated at: "@ + generated_at + "\n\n"@ + (if plugins.len()
        == 0 {
        "No upgrade candidates found.\n"@
    } else {
        text_sections(plugins)
    })
}

fn write_text_dependency(out: &mut String, dep: &DependencyReport)
    ensures
        final(out)@ == old(out)@ + text_dependency(dep@),
{
    let mut part: String = "- ".to_owned();
    part.append(dep.name.as_str());
    part.append(": ");
    part.append(dep.current_version.as_str());
    part.append(" -> ");
    part.append(dep.latest_version.as_str());
    part.append(" (");
    part.append(dep.semver_impact.as_str());
    part.append(")\n");
    write_text_link_group(&mut part, "Diff", &dep.diff_links);
    write_text_link_group(&mut part, "Changelog", &dep.changelog_links);
    write_text_link_group(&mut part, "Security", &dep.security_links);
    write_text_findings(&mut part, &dep.security_findings);
    write_supply_chain_text(&mut part, &dep.supply_chain);
    part.append("\n");
    out.append(part.as_str());
}

fn write_text_tree_findings(out: &mut String, findings: &Vec<String>)
    ensures
        final(out)@ == old(out)@ + text_tree_findings(chars::views(findings@)),
{
    if findings.len() > 0 {
        let mut part: String = "  Security findings (full dependency tree):\n".to_owned();
        write_each(&mut part, "    - ", findings, "\n");
        out.append(part.as_str());
    } else {
        assert(out@ =~= out@ + text_tree_findings(chars::views(findings@)));
    }
}

fn write_text_dependencies(out: &mut String, items: &Vec<DependencyReport>)
    ensures
        final(out)@ == old(out)@ + text_dependencies(dep_reports(items@)),
{
    let ghost head = out@;
    let ghost all = dep_reports(items@);
    assert(out@ =~= head + text_dependencies(all.take(0)));
    for i in 0..items.len()
        invariant
            all == dep_reports(items@),
            out@ == head + text_dependencies(all.take(i as int)),
    {
        let ghost sofar = text_dependencies(all.take(i as int));
        assert(all.take(i + 1).drop_last() =~= all.take(i as int));
        assert(all.take(i + 1).last() == items@[i as int]@);
        write_text_dependency(out, &items[i]);
        assert(out@ =~= head + (sofar + text_dependency(items@[i as int]@)));
    }
    assert(all.take(all.len() as int) =~= all);
}

fn write_text_section(out: &mut String, section: &PluginReport)
    ensures
        final(out)@ == old(out)@ + text_section(section@),
{
    let mut part: String = "== ".to_owned();
    part.append(section.plugin.as_str());
    part.append(" ==\n");
    write_text_tree_findings(&mut part, &section.security_findings);
    write_text_dependencies(&mut part, &section.dependencies);
    out.append(part.as_str());
}

pub fn render_text(report: &UpgradeReport) -> (r: String)
    ensures
        r@ == text_report(report.generated_at_utc@, sections(report.plugins@)),
{
    let mut out: String = "ruckup upgrade intelligence report\ngenerated at: ".to_owned();
    out.append(report.generated_at_utc.as_str());
    out.append("\n\n");
    if report.plugins.len() == 0 {
        out.append("No upgrade candidates found.\n");
        return out;
    }
    let ghost head = out@;
    let ghost all = sections(report.plugins@);
    assert(out@ =~= head + text_sections(all.take(0)));
    for i in 0..report.plugins.len()
        invariant
            all == sections(report.plugins@),
            out@ == head + text_sections(all.take(i as int)),
    {
        let ghost sofar = text_sections(all.take(i as int));
        assert(all.take(i + 1).drop_last() =~= all.take(i as int));
        assert(all.take(i + 1).last() == report.plugins@[i as int]@);
        write_text_section(&mut out, &report.plugins[i]);
        assert(out@ =~= head + (sofar + text_section(report.plugins@[i as int]@)));
    }
    assert(all.take(all.len() as int) =~= all);
    out
}

/// The findings on a dependency, as Markdown.
pub open spec fn markdown_findings(findings: Seq<Seq<char>>) -> Seq<char> {
    if findings.len() == 0 {
        seq![]
    } else {
        "\n- Security findings:\n"@ + each("  - "@, findings, "\n"@)
    }
}

pub fn write_markdown_findings(out: &mut String, findings: &Vec<String>)
    ensures
        final(out)@ == old(out)@ + markdown_findings(chars::views(findings@)),
{
    let ghost first = out@;
    if findings.len() > 0 {
        out.append("\n- Security findings:\n");
        write_each(out, "  - ", findings, "\n");
    }
    assert(out@ =~= first + markdown_findings(chars::views(findings@)));
}

/// A group of links, as Markdown.
pub open spec fn markdown_links(title: Seq<char>, items: Seq<Link>) -> Seq<char> {
    if items.len() == 0 {
        seq![]
    } else {
        "\n- "@ + title + ":\n"@ + each_link("  - ["@, items, "]("@, ")\n"@)
    }
}

pub fn write_markdown_links(out: &mut String, title: &str, items: &Vec<LinkRef>)
    ensures
        final(out)@ == old(out)@ + markdown_links(title@, links(items@)),
{
    let ghost first = out@;
    if items.len() > 0 {
        out.append("\n- ");
        out.append(title);
        out.append(":\n");
        write_each_link(out, "  - [", items, "](", ")\n");
    }
    assert(out@ =~= first + markdown_links(title@, links(items@)));
}

/// A delta, as Markdown.
pub open spec fn markdown_delta(delta: Delta) -> Seq<char> {
    "\n- Supply-chain delta:\n"@ + match delta.note {
        Some(note) => "  - "@ + note + "\n"@,
        None => if delta.is_silent() {
            "  - No transitive dependency changes detected\n"@
        } else {
            each("  - Added: "@, delta.added, "\n"@) + each(
                "  - Removed: "@,
                delta.removed,
                "\n"@,
            ) + each("  - Changed: "@, delta.changed, "\n"@)
        },
    }
}

pub fn write_markdown_supply_chain(out: &mut String, delta: &SupplyChainDelta)
    ensures
        final(out)@ == old(out)@ + markdown_delta(delta@),
{
    let ghost first = out@;
    out.append("\n- Supply-chain delta:\n");
    if let Some(note) = &delta.note {
        out.append("  - ");
        out.append(note.as_str());
        out.append("\n");
    } else if delta.added.len() == 0 && delta.removed.len() == 0 && delta.changed.len() == 0 {
        out.append("  - No transitive dependency changes detected\n");
    } else {
        write_each(out, "  - Added: ", &delta.added, "\n");
        write_each(out, "  - Removed: ", &delta.removed, "\n");
        write_each(out, "  - Changed: ", &delta.changed, "\n");
    }
    assert(out@ =~= first + markdown_delta(delta@));
}

/// What is said of a dependency, as Markdown.
pub open spec fn markdown_dependency(dep: DepReport) -> Seq<char> {
    "### "@ + dep.name + "\n\n- Current: `"@ + dep.current + "`\n- Latest: `"@ + dep.latest
        + "`\n- Semver impact: **"@ + dep.impact + "**\n"@ + markdown_links(
        "Diff links"@,
        dep.diff,
    ) + markdown_links("Changelog links"@, dep.changelog) + markdown_links(
        "Security links"@,
        dep.security,
    ) + markdown_findings(dep.findings) + markdown_delta(dep.supply_chain) + "\n"@
}

pub open spec fn markdown_dependencies(items: Seq<DepReport>) -> Seq<char>
    decreases items.len(),
{
    if items.len() == 0 {
        seq![]
    } else {
        markdown_dependencies(items.drop_last()) + markdown_dependency(items.last())
    }
}

/// A section of a report, as Markdown.
pub open spec fn markdown_section(section: Section) -> Seq<char> {
    "## "@ + section.plugin + "\n\n"@ + markdown_tree_findings(section.findings) + markdown_dependencies(
        section.dependencies,
    )
}

/// The findings on a whole dependency tree, as Markdown.
pub open spec fn markdown_tree_findings(findings: Seq<Seq<char>>) -> Seq<char> {
    if findings.len() == 0 {
        seq![]
    } else {
        "- Security findings (full dependency tree):\n"@ + each("  - "@, findings, "\n"@) + "\n"@
    }
}

pub open spec fn markdown_sections(items: Seq<Section>) -> Seq<char>
    decreases items.len(),
{
    if items.len() == 0 {
        seq![]
    } else {
        markdown_sections(items.drop_last()) + markdown_section(items.last())
    }
}

/// A report, as Markdown.
pub open spec fn markdown_report(generated_at: Seq<char>, plugins: Seq<Section>) -> Seq<char> {
    "# ruckup Upgrade Intelligence Report\n\nGenerated at: "@ + generated_at + "\n\n"@ + (
    if plugins.len() == 0 {
        "No upgrade candidates found.\n"@
    } else {
        markdown_sections(plugins)
    })
}

fn write_markdown_dependency(out: &mut String, dep: &DependencyReport)
    ensures
        final(out)@ == old(out)@ + markdown_dependency(dep@),
{
    let mut part: String = "### ".to_owned();
    part.append(dep.name.as_str());
    part.append("\n\n- Current: `");
    part.append(dep.current_version.as_str());
    part.append("`\n- Latest: `");
    part.append(dep.latest_version.as_str());
    part.append("`\n- Semver impact: **");
    part.append(dep.semver_impact.as_str());
    part.append("**\n");
    write_markdown_links(&mut part, "Diff links", &dep.diff_links);
    write_markdown_links(&mut part, "Changelog links", &dep.changelog_links);
    write_markdown_links(&mut part, "Security links", &dep.security_links);
    write_markdown_findings(&mut part, &dep.security_findings);
    write_markdown_supply_chain(&mut part, &dep.supply_chain);
    part.append("\n");
    out.append(part.as_str());
}

fn write_markdown_tree_findings(out: &mut String, findings: &Vec<String>)
    ensures
        final(out)@ == old(out)@ + markdown_tree_findings(chars::views(findings@)),
{
    if findings.len() > 0 {
        let mut part: String = "- Security findings (full dependency tree):\n".to_owned();
        write_each(&mut part, "  - ", findings, "\n");
        part.append("\n");
        out.append(part.as_str());
    } else {
        assert(out@ =~= out@ + markdown_tree_findings(chars::views(findings@)));
    }
}

fn write_markdown_dependencies(out: &mut String, items: &Vec<DependencyReport>)
    ensures
        final(out)@ == old(out)@ + markdown_dependencies(dep_reports(items@)),
{
    let ghost head = out@;
    let ghost all = dep_reports(items@);
    assert(out@ =~= head + markdown_dependencies(all.take(0)));
    for i in 0..items.len()
        invariant
            all == dep_reports(items@),
            out@ == head + markdown_dependencies(all.take(i as int)),
    {
        let ghost sofar = markdown_dependencies(all.take(i as int));
        assert(all.take(i + 1).drop_last() =~= all.take(i as int));
        assert(all.take(i + 1).last() == items@[i as int]@);
        write_markdown_dependency(out, &items[i]);
        assert(out@ =~= head + (sofar + markdown_dependency(items@[i as int]@)));
    }
    assert(all.take(all.len() as int) =~= all);
}

fn write_markdown_section(out: &mut String, section: &PluginReport)
    ensures
        final(out)@ == old(out)@ + markdown_section(section@),
{
    let mut part: String = "## ".to_owned();
    part.append(section.plugin.as_str());
    part.append("\n\n");
    write_markdown_tree_findings(&mut part, &section.security_findings);
    write_markdown_dependencies(&mut part, &section.dependencies);
    out.append(part.as_str());
}

pub fn render_markdown(report: &UpgradeReport) -> (r: String)
    ensures
        r@ == markdown_report(report.generated_at_utc@, sections(report.plugins@)),
{
    let mut out: String = "# ruckup Upgrade Intelligence Report\n\nGenerated at: ".to_owned();
    out.append(report.generated_at_utc.as_str());
    out.append("\n\n");
    if report.plugins.len() == 0 {
        out.append("No upgrade candidates found.\n");
        return out;
    }
    let ghost head = out@;
    let ghost all = sections(report.plugins@);
    assert(out@ =~= head + markdown_sections(all.take(0)));
    for i in 0..report.plugins.len()
        invariant
            all == sections(report.plugins@),
            out@ == head + markdown_sections(all.take(i as int)),
    {
        let ghost sofar = markdown_sections(all.take(i as int));
        assert(all.take(i + 1).drop_last() =~= all.take(i as int));
        assert(all.take(i + 1).last() == report.plugins@[i as int]@);
        write_markdown_section(&mut out, &report.plugins[i]);
        assert(out@ =~= head + (sofar + markdown_section(report.plugins@[i as int]@)));
    }
    assert(all.take(all.len() as int) =~= all);
    out
}

} // verus!
