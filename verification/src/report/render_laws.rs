//! What the reports hold.
use vstd::prelude::*;
use vstd::string::*;
use crate::chars;
use crate::report::delta::Delta;
use crate::report::html::{
    each_escaped, escaped, html_delta, html_dependencies, html_dependency, html_findings,
    html_head, html_link, html_link_items, html_links, html_report, html_section, html_sections,
    html_tree_findings,
};
use crate::report::render::{
    each, each_link, markdown_delta, markdown_dependencies, markdown_dependency,
    markdown_findings, markdown_links, markdown_report, markdown_section, markdown_sections,
    markdown_tree_findings, text_delta, text_dependencies, text_dependency, text_findings,
    text_links, text_report, text_section, text_sections, text_tree_findings,
};
use crate::report::{DepReport, Link, Section};

verus! {

proof fn lemma_each(front: Seq<char>, items: Seq<Seq<char>>, back: Seq<char>, k: int)
    requires
        0 <= k < items.len(),
    ensures
        chars::has(each(front, items, back), front + items[k] + back),
        chars::has(each_escaped(front, items, back), front + escaped(items[k]) + back),
    decreases items.len(),
{
    let init = items.drop_last();
    let none = Seq::<char>::empty();
    let a = each(front, init, back);
    let b = front + items.last() + back;
    let c = each_escaped(front, init, back);
    let d = front + escaped(items.last()) + back;
    if k < init.len() {
        lemma_each(front, init, back, k);
        chars::lemma_has_within(none, a, b, front + items[k] + back);
        chars::lemma_has_within(none, c, d, front + escaped(items[k]) + back);
        assert(none + a + b =~= a + b);
        assert(none + c + d =~= c + d);
    } else {
        chars::lemma_has_itself(b);
        chars::lemma_has_itself(d);
        chars::lemma_has_within(a, b, none, b);
        chars::lemma_has_within(c, d, none, d);
        assert(a + b + none =~= a + b);
        assert(c + d + none =~= c + d);
    }
}

proof fn lemma_each_link(
    front: Seq<char>,
    items: Seq<Link>,
    middle: Seq<char>,
    back: Seq<char>,
    k: int,
)
    requires
        0 <= k < items.len(),
    ensures
        chars::has(
            each_link(front, items, middle, back),
            front + items[k].label + middle + items[k].url + back,
        ),
    decreases items.len(),
{
    let init = items.drop_last();
    let none = Seq::<char>::empty();
    let a = each_link(front, init, middle, back);
    let b = front + items.last().label + middle + items.last().url + back;
    if k < init.len() {
        lemma_each_link(front, init, middle, back, k);
        chars::lemma_has_within(none, a, b, front + items[k].label + middle + items[k].url + back);
        assert(none + a + b =~= a + b);
    } else {
        chars::lemma_has_itself(b);
        chars::lemma_has_within(a, b, none, b);
        assert(a + b + none =~= a + b);
    }
}

proof fn lemma_html_links(items: Seq<Link>, k: int)
    requires
        0 <= k < items.len(),
    ensures
        chars::has(html_link_items(items), html_link(items[k])),
    decreases items.len(),
{
    let init = items.drop_last();
    let none = Seq::<char>::empty();
    let a = html_link_items(init);
    let b = html_link(items.last());
    if k < init.len() {
        lemma_html_links(init, k);
        chars::lemma_has_within(none, a, b, html_link(items[k]));
        assert(none + a + b =~= a + b);
    } else {
        chars::lemma_has_itself(b);
        chars::lemma_has_within(a, b, none, b);
        assert(a + b + none =~= a + b);
    }
}

proof fn lemma_text_dependencies(items: Seq<DepReport>, j: int, piece: Seq<char>)
    requires
        0 <= j < items.len(),
        chars::has(text_dependency(items[j]), piece),
    ensures
        chars::has(text_dependencies(items), piece),
    decreases items.len(),
{
    let front = items.drop_last();
    let before = text_dependencies(front);
    let last = text_dependency(items.last());
    let none = Seq::<char>::empty();
    if j < front.len() {
        assert(front[j] == items[j]);
        lemma_text_dependencies(front, j, piece);
        chars::lemma_has_within(none, before, last, piece);
        assert(none + before + last =~= before + last);
    } else {
        chars::lemma_has_within(before, last, none, piece);
        assert(before + last + none =~= before + last);
    }
}

proof fn lemma_text_sections(plugins: Seq<Section>, i: int, piece: Seq<char>)
    requires
        0 <= i < plugins.len(),
        chars::has(text_section(plugins[i]), piece),
    ensures
        chars::has(text_sections(plugins), piece),
    decreases plugins.len(),
{
    let front = plugins.drop_last();
    let before = text_sections(front);
    let last = text_section(plugins.last());
    let none = Seq::<char>::empty();
    if i < front.len() {
        assert(front[i] == plugins[i]);
        lemma_text_sections(front, i, piece);
        chars::lemma_has_within(none, before, last, piece);
        assert(none + before + last =~= before + last);
    } else {
        chars::lemma_has_within(before, last, none, piece);
        assert(before + last + none =~= before + last);
    }
}

proof fn lemma_markdown_dependencies(items: Seq<DepReport>, j: int, piece: Seq<char>)
    requires
        0 <= j < items.len(),
        chars::has(markdown_dependency(items[j]), piece),
    ensures
        chars::has(markdown_dependencies(items), piece),
    decreases items.len(),
{
    let front = items.drop_last();
    let before = markdown_dependencies(front);
    let last = markdown_dependency(items.last());
    let none = Seq::<char>::empty();
    if j < front.len() {
        assert(front[j] == items[j]);
        lemma_markdown_dependencies(front, j, piece);
        chars::lemma_has_within(none, before, last, piece);
        assert(none + before + last =~= before + last);
    } else {
        chars::lemma_has_within(before, last, none, piece);
        assert(before + last + none =~= before + last);
    }
}

proof fn lemma_markdown_sections(plugins: Seq<Section>, i: int, piece: Seq<char>)
    requires
        0 <= i < plugins.len(),
        chars::has(markdown_section(plugins[i]), piece),
    ensures
        chars::has(markdown_sections(plugins), piece),
    decreases plugins.len(),
{
    let front = plugins.drop_last();
    let before = markdown_sections(front);
    let last = markdown_section(plugins.last());
    let none = Seq::<char>::empty();
    if i < front.len() {
        assert(front[i] == plugins[i]);
        lemma_markdown_sections(front, i, piece);
        chars::lemma_has_within(none, before, last, piece);
        assert(none + before + last =~= before + last);
    } else {
        chars::lemma_has_within(before, last, none, piece);
        assert(before + last + none =~= before + last);
    }
}

proof fn lemma_html_dependencies(items: Seq<DepReport>, j: int, piece: Seq<char>)
    requires
        0 <= j < items.len(),
        chars::has(html_dependency(items[j]), piece),
    ensures
        chars::has(html_dependencies(items), piece),
    decreases items.len(),
{
    let front = items.drop_last();
    let before = html_dependencies(front);
    let last = html_dependency(items.last());
    let none = Seq::<char>::empty();
    if j < front.len() {
        assert(front[j] == items[j]);
        lemma_html_dependencies(front, j, piece);
        chars::lemma_has_within(none, before, last, piece);
        assert(none + before + last =~= before + last);
    } else {
        chars::lemma_has_within(before, last, none, piece);
        assert(before + last + none =~= before + last);
    }
}

proof fn lemma_html_sections(plugins: Seq<Section>, i: int, piece: Seq<char>)
    requires
        0 <= i < plugins.len(),
        chars::has(html_section(plugins[i]), piece),
    ensures
        chars::has(html_sections(plugins), piece),
    decreases plugins.len(),
{
    let front = plugins.drop_last();
    let before = html_sections(front);
    let last = html_section(plugins.last());
    let none = Seq::<char>::empty();
    if i < front.len() {
        assert(front[i] == plugins[i]);
        lemma_html_sections(front, i, piece);
        chars::lemma_has_within(none, before, last, piece);
        assert(none + before + last =~= before + last);
    } else {
        chars::lemma_has_within(before, last, none, piece);
        assert(before + last + none =~= before + last);
    }
}

/// What is written of a dependency stands in the report.
proof fn lemma_text_holds(
    generated_at: Seq<char>,
    plugins: Seq<Section>,
    i: int,
    j: int,
    piece: Seq<char>,
)
    requires
        0 <= i < plugins.len(),
        0 <= j < plugins[i].dependencies.len(),
        chars::has(text_dependency(plugins[i].dependencies[j]), piece),
    ensures
        chars::has(text_report(generated_at, plugins), piece),
{
    let section = plugins[i];
    let none = Seq::<char>::empty();
    lemma_text_dependencies(section.dependencies, j, piece);
    let front = "== "@ + section.plugin + " ==\n"@ + text_tree_findings(section.findings);
    let inner = text_dependencies(section.dependencies);
    chars::lemma_has_within(front, inner, none, piece);
    assert(front + inner + none =~= text_section(section));
    lemma_text_in_report(generated_at, plugins, i, piece);
}

/// What is written of a manifest stands in the report.
proof fn lemma_text_in_report(
    generated_at: Seq<char>,
    plugins: Seq<Section>,
    i: int,
    piece: Seq<char>,
)
    requires
        0 <= i < plugins.len(),
        chars::has(text_section(plugins[i]), piece),
    ensures
        chars::has(text_report(generated_at, plugins), piece),
{
    let none = Seq::<char>::empty();
    lemma_text_sections(plugins, i, piece);
    let all = text_sections(plugins);
    let head = "ruckup upgrade intelligence report\ngenerated at: "@ + generated_at + "\n\n"@;
    chars::lemma_has_within(head, all, none, piece);
    assert(head + all + none =~= text_report(generated_at, plugins));
}

/// What is written of a dependency stands in the report.
proof fn lemma_markdown_holds(
    generated_at: Seq<char>,
    plugins: Seq<Section>,
    i: int,
    j: int,
    piece: Seq<char>,
)
    requires
        0 <= i < plugins.len(),
        0 <= j < plugins[i].dependencies.len(),
        chars::has(markdown_dependency(plugins[i].dependencies[j]), piece),
    ensures
        chars::has(markdown_report(generated_at, plugins), piece),
{
    let section = plugins[i];
    let none = Seq::<char>::empty();
    lemma_markdown_dependencies(section.dependencies, j, piece);
    let front = "## "@ + section.plugin + "\n\n"@ + markdown_tree_findings(section.findings);
    let inner = markdown_dependencies(section.dependencies);
    chars::lemma_has_within(front, inner, none, piece);
    assert(front + inner + none =~= markdown_section(section));
    lemma_markdown_in_report(generated_at, plugins, i, piece);
}

/// What is written of a manifest stands in the report.
proof fn lemma_markdown_in_report(
    generated_at: Seq<char>,
    plugins: Seq<Section>,
    i: int,
    piece: Seq<char>,
)
    requires
        0 <= i < plugins.len(),
        chars::has(markdown_section(plugins[i]), piece),
    ensures
        chars::has(markdown_report(generated_at, plugins), piece),
{
    let none = Seq::<char>::empty();
    lemma_markdown_sections(plugins, i, piece);
    let all = markdown_sections(plugins);
    let head = "# ruckup Upgrade Intelligence Report\n\nGenerated at: "@ + generated_at + "\n\n"@;
    chars::lemma_has_within(head, all, none, piece);
    assert(head + all + none =~= markdown_report(generated_at, plugins));
}

/// What is written of a dependency stands in the report.
proof fn lemma_html_holds(
    generated_at: Seq<char>,
    plugins: Seq<Section>,
    i: int,
    j: int,
    piece: Seq<char>,
)
    requires
        0 <= i < plugins.len(),
        0 <= j < plugins[i].dependencies.len(),
        chars::has(html_dependency(plugins[i].dependencies[j]), piece),
    ensures
        chars::has(html_report(generated_at, plugins), piece),
{
    let section = plugins[i];
    let none = Seq::<char>::empty();
    lemma_html_dependencies(section.dependencies, j, piece);
    let front = "<h2>"@ + escaped(section.plugin) + "</h2>"@ + html_tree_findings(section.findings);
    let inner = html_dependencies(section.dependencies);
    chars::lemma_has_within(front, inner, none, piece);
    assert(front + inner + none =~= html_section(section));
    lemma_html_in_report(generated_at, plugins, i, piece);
}

/// What is written of a manifest stands in the report.
proof fn lemma_html_in_report(
    generated_at: Seq<char>,
    plugins: Seq<Section>,
    i: int,
    piece: Seq<char>,
)
    requires
        0 <= i < plugins.len(),
        chars::has(html_section(plugins[i]), piece),
    ensures
        chars::has(html_report(generated_at, plugins), piece),
{
    let none = Seq::<char>::empty();
    lemma_html_sections(plugins, i, piece);
    let all = html_sections(plugins);
    let head = html_head() + "<small>Generated at: "@ + escaped(generated_at) + "</small>"@;
    let end = "</main></body></html>"@;
    chars::lemma_has_within(head, all, end, piece);
    assert(head + all + end =~= html_report(generated_at, plugins));
}

/// What stands in one of the parts stands in the whole.
proof fn lemma_one_of(
    a: Seq<char>,
    b: Seq<char>,
    c: Seq<char>,
    d: Seq<char>,
    e: Seq<char>,
    f: Seq<char>,
    g: Seq<char>,
    p: Seq<char>,
)
    requires
        chars::has(a, p) || chars::has(b, p) || chars::has(c, p) || chars::has(d, p) || chars::has(
            e,
            p,
        ) || chars::has(f, p),
    ensures
        chars::has(a + b + c + d + e + f + g, p),
{
    let none = Seq::<char>::empty();
    if chars::has(a, p) {
        chars::lemma_has_within(none, a, b, p);
        assert(none + a + b =~= a + b);
    } else if chars::has(b, p) {
        chars::lemma_has_within(a, b, none, p);
        assert(a + b + none =~= a + b);
    }
    if chars::has(a + b, p) {
        chars::lemma_has_within(none, a + b, c, p);
        assert(none + (a + b) + c =~= a + b + c);
    } else if chars::has(c, p) {
        chars::lemma_has_within(a + b, c, none, p);
        assert(a + b + c + none =~= a + b + c);
    }
    let abc = a + b + c;
    if chars::has(abc, p) {
        chars::lemma_has_within(none, abc, d, p);
        assert(none + abc + d =~= abc + d);
    } else if chars::has(d, p) {
        chars::lemma_has_within(abc, d, none, p);
        assert(abc + d + none =~= abc + d);
    }
    let abcd = abc + d;
    if chars::has(abcd, p) {
        chars::lemma_has_within(none, abcd, e, p);
        assert(none + abcd + e =~= abcd + e);
    } else if chars::has(e, p) {
        chars::lemma_has_within(abcd, e, none, p);
        assert(abcd + e + none =~= abcd + e);
    }
    let abcde = abcd + e;
    if chars::has(abcde, p) {
        chars::lemma_has_within(none, abcde, f + g, p);
        assert(none + abcde + (f + g) =~= abcde + f + g);
    } else {
        chars::lemma_has_within(abcde, f, g, p);
    }
}

/// What stands in the second part stands in the two together, and in three.
proof fn lemma_second(a: Seq<char>, b: Seq<char>, c: Seq<char>, p: Seq<char>)
    requires
        chars::has(b, p),
    ensures
        chars::has(a + b, p),
        chars::has(b + c, p),
        chars::has(a + b + c, p),
{
    let none = Seq::<char>::empty();
    chars::lemma_has_within(a, b, none, p);
    assert(a + b + none =~= a + b);
    chars::lemma_has_within(none, b, c, p);
    assert(none + b + c =~= b + c);
    chars::lemma_has_within(a, b, c, p);
}

proof fn lemma_text_delta(delta: Delta, k: int)
    ensures
        delta.note is Some ==> chars::has(text_delta(delta), "    - "@ + delta.note->0 + "\n"@),
        delta.note is None && 0 <= k < delta.added.len() ==> chars::has(
            text_delta(delta),
            "    - added: "@ + delta.added[k] + "\n"@,
        ),
        delta.note is None && 0 <= k < delta.removed.len() ==> chars::has(
            text_delta(delta),
            "    - removed: "@ + delta.removed[k] + "\n"@,
        ),
        delta.note is None && 0 <= k < delta.changed.len() ==> chars::has(
            text_delta(delta),
            "    - changed: "@ + delta.changed[k] + "\n"@,
        ),
{
    let front = "  Supply chain:\n"@;
    let back = Seq::<char>::empty();
    let none = Seq::<char>::empty();
    if let Some(note) = delta.note {
        let piece = "    - "@ + note + "\n"@;
        chars::lemma_has_itself(piece);
        lemma_second(front, piece, back, piece);
    } else if !delta.is_silent() {
        let a = each("    - added: "@, delta.added, "\n"@);
        let b = each("    - removed: "@, delta.removed, "\n"@);
        let c = each("    - changed: "@, delta.changed, "\n"@);
        let all = a + b + c;
        if 0 <= k < delta.added.len() {
            let piece = "    - added: "@ + delta.added[k] + "\n"@;
            lemma_each("    - added: "@, delta.added, "\n"@, k);
            chars::lemma_has_within(none, a, b + c, piece);
            assert(none + a + (b + c) =~= all);
            lemma_second(front, all, back, piece);
        }
        if 0 <= k < delta.removed.len() {
            let piece = "    - removed: "@ + delta.removed[k] + "\n"@;
            lemma_each("    - removed: "@, delta.removed, "\n"@, k);
            chars::lemma_has_within(a, b, c, piece);
            assert(a + b + (c) =~= all);
            lemma_second(front, all, back, piece);
        }
        if 0 <= k < delta.changed.len() {
            let piece = "    - changed: "@ + delta.changed[k] + "\n"@;
            lemma_each("    - changed: "@, delta.changed, "\n"@, k);
            chars::lemma_has_within(a + b, c, none, piece);
            assert(a + b + c + (none) =~= all);
            lemma_second(front, all, back, piece);
        }
    }
}

/// Every dependency is in the report: its versions and what the change is called, and each
/// link, finding and change of what it depends on.
pub proof fn law_text_report(generated_at: Seq<char>, plugins: Seq<Section>, i: int, j: int, k: int)
    requires
        0 <= i < plugins.len(),
        0 <= j < plugins[i].dependencies.len(),
    ensures
        ({
            let dep = plugins[i].dependencies[j];
            let r = text_report(generated_at, plugins);
            &&& chars::has(
                r,
                "- "@ + dep.name + ": "@ + dep.current + " -> "@ + dep.latest + " ("@ + dep.impact + ")\n"@,
            )
            &&& 0 <= k < dep.diff.len() ==> chars::has(
                r,
                "    - "@ + dep.diff[k].label + ": "@ + dep.diff[k].url + "\n"@,
            )
            &&& 0 <= k < dep.changelog.len() ==> chars::has(
                r,
                "    - "@ + dep.changelog[k].label + ": "@ + dep.changelog[k].url + "\n"@,
            )
            &&& 0 <= k < dep.security.len() ==> chars::has(
                r,
                "    - "@ + dep.security[k].label + ": "@ + dep.security[k].url + "\n"@,
            )
            &&& 0 <= k < dep.findings.len() ==> chars::has(r, "    - "@ + dep.findings[k] + "\n"@)
            &&& dep.supply_chain.note is Some ==> chars::has(
                r,
                "    - "@ + dep.supply_chain.note->0 + "\n"@,
            )
            &&& dep.supply_chain.note is None && 0 <= k < dep.supply_chain.added.len() ==> chars::has(
                r,
                "    - added: "@ + dep.supply_chain.added[k] + "\n"@,
            )
            &&& dep.supply_chain.note is None && 0 <= k < dep.supply_chain.removed.len() ==> chars::has(
                r,
                "    - removed: "@ + dep.supply_chain.removed[k] + "\n"@,
            )
            &&& dep.supply_chain.note is None && 0 <= k < dep.supply_chain.changed.len() ==> chars::has(
                r,
                "    - changed: "@ + dep.supply_chain.changed[k] + "\n"@,
            )
        }),
{
    let dep = plugins[i].dependencies[j];
    let head = "- "@ + dep.name + ": "@ + dep.current + " -> "@ + dep.latest + " ("@ + dep.impact + ")\n"@;
    let diff = text_links("Diff"@, dep.diff);
    let changelog = text_links("Changelog"@, dep.changelog);
    let security = text_links("Security"@, dep.security);
    let findings = text_findings(dep.findings);
    let delta = text_delta(dep.supply_chain);
    let end = "\n"@;
    let all = text_dependency(dep);
    assert(all == head + diff + changelog + security + findings + delta + end);
    chars::lemma_has_itself(head);
    lemma_one_of(head, diff, changelog, security, findings, delta, end, head);
    lemma_text_holds(generated_at, plugins, i, j, head);
    if 0 <= k < dep.diff.len() {
        let piece = "    - "@ + dep.diff[k].label + ": "@ + dep.diff[k].url + "\n"@;
        lemma_text_link("Diff"@, dep.diff, k);
        lemma_one_of(head, diff, changelog, security, findings, delta, end, piece);
        lemma_text_holds(generated_at, plugins, i, j, piece);
    }
    if 0 <= k < dep.changelog.len() {
        let piece = "    - "@ + dep.changelog[k].label + ": "@ + dep.changelog[k].url + "\n"@;
        lemma_text_link("Changelog"@, dep.changelog, k);
        lemma_one_of(head, diff, changelog, security, findings, delta, end, piece);
        lemma_text_holds(generated_at, plugins, i, j, piece);
    }
    if 0 <= k < dep.security.len() {
        let piece = "    - "@ + dep.security[k].label + ": "@ + dep.security[k].url + "\n"@;
        lemma_text_link("Security"@, dep.security, k);
        lemma_one_of(head, diff, changelog, security, findings, delta, end, piece);
        lemma_text_holds(generated_at, plugins, i, j, piece);
    }
    if 0 <= k < dep.findings.len() {
        let piece = "    - "@ + dep.findings[k] + "\n"@;
        lemma_text_finding(dep.findings, k);
        lemma_one_of(head, diff, changelog, security, findings, delta, end, piece);
        lemma_text_holds(generated_at, plugins, i, j, piece);
    }
    lemma_text_delta(dep.supply_chain, k);
    if dep.supply_chain.note is Some {
        let piece = "    - "@ + dep.supply_chain.note->0 + "\n"@;
        lemma_one_of(head, diff, changelog, security, findings, delta, end, piece);
        lemma_text_holds(generated_at, plugins, i, j, piece);
    } else {
        if 0 <= k < dep.supply_chain.added.len() {
            let piece = "    - added: "@ + dep.supply_chain.added[k] + "\n"@;
            lemma_one_of(head, diff, changelog, security, findings, delta, end, piece);
            lemma_text_holds(generated_at, plugins, i, j, piece);
        }
        if 0 <= k < dep.supply_chain.removed.len() {
            let piece = "    - removed: "@ + dep.supply_chain.removed[k] + "\n"@;
            lemma_one_of(head, diff, changelog, security, findings, delta, end, piece);
            lemma_text_holds(generated_at, plugins, i, j, piece);
        }
        if 0 <= k < dep.supply_chain.changed.len() {
            let piece = "    - changed: "@ + dep.supply_chain.changed[k] + "\n"@;
            lemma_one_of(head, diff, changelog, security, findings, delta, end, piece);
            lemma_text_holds(generated_at, plugins, i, j, piece);
        }
    }
}

proof fn lemma_text_link(title: Seq<char>, items: Seq<Link>, k: int)
    requires
        0 <= k < items.len(),
    ensures
        chars::has(text_links(title, items), "    - "@ + items[k].label + ": "@ + items[k].url + "\n"@),
{
    let piece = "    - "@ + items[k].label + ": "@ + items[k].url + "\n"@;
    let front = "  "@ + title + " links:\n"@;
    let back = Seq::<char>::empty();
    lemma_each_link("    - "@, items, ": "@, "\n"@, k);
    lemma_second(front, each_link("    - "@, items, ": "@, "\n"@), back, piece);
}

proof fn lemma_text_finding(items: Seq<Seq<char>>, k: int)
    requires
        0 <= k < items.len(),
    ensures
        chars::has(text_findings(items), "    - "@ + items[k] + "\n"@),
        chars::has(text_tree_findings(items), "    - "@ + items[k] + "\n"@),
{
    let piece = "    - "@ + items[k] + "\n"@;
    lemma_each("    - "@, items, "\n"@, k);
    lemma_second("  Security findings:\n"@, each("    - "@, items, "\n"@), Seq::<char>::empty(), piece);
    lemma_second("  Security findings (full dependency tree):\n"@, each("    - "@, items, "\n"@), Seq::<char>::empty(), piece);
}

/// Every manifest has its section in the report, with what was found in its whole tree.
pub proof fn law_text_sections(generated_at: Seq<char>, plugins: Seq<Section>, i: int, k: int)
    requires
        0 <= i < plugins.len(),
    ensures
        chars::has(text_report(generated_at, plugins), "== "@ + plugins[i].plugin + " ==\n"@),
        0 <= k < plugins[i].findings.len() ==> chars::has(
            text_report(generated_at, plugins),
            "    - "@ + plugins[i].findings[k] + "\n"@,
        ),
{
    let section = plugins[i];
    let none = Seq::<char>::empty();
    let head = "== "@ + section.plugin + " ==\n"@;
    let tree = text_tree_findings(section.findings);
    let inner = text_dependencies(section.dependencies);
    assert(text_section(section) == head + tree + inner);
    chars::lemma_has_itself(head);
    chars::lemma_has_within(none, head, tree + inner, head);
    assert(none + head + (tree + inner) =~= head + tree + inner);
    lemma_text_in_report(generated_at, plugins, i, head);
    if 0 <= k < section.findings.len() {
        let piece = "    - "@ + section.findings[k] + "\n"@;
        lemma_text_finding(section.findings, k);
        chars::lemma_has_within(head, tree, inner, piece);
        lemma_text_in_report(generated_at, plugins, i, piece);
    }
}

proof fn lemma_markdown_delta(delta: Delta, k: int)
    ensures
        delta.note is Some ==> chars::has(markdown_delta(delta), "  - "@ + delta.note->0 + "\n"@),
        delta.note is None && 0 <= k < delta.added.len() ==> chars::has(
            markdown_delta(delta),
            "  - Added: "@ + delta.added[k] + "\n"@,
        ),
        delta.note is None && 0 <= k < delta.removed.len() ==> chars::has(
            markdown_delta(delta),
            "  - Removed: "@ + delta.removed[k] + "\n"@,
        ),
        delta.note is None && 0 <= k < delta.changed.len() ==> chars::has(
            markdown_delta(delta),
            "  - Changed: "@ + delta.changed[k] + "\n"@,
        ),
{
    let front = "\n- Supply-chain delta:\n"@;
    let back = Seq::<char>::empty();
    let none = Seq::<char>::empty();
    if let Some(note) = delta.note {
        let piece = "  - "@ + note + "\n"@;
        chars::lemma_has_itself(piece);
        lemma_second(front, piece, back, piece);
    } else if !delta.is_silent() {
        let a = each("  - Added: "@, delta.added, "\n"@);
        let b = each("  - Removed: "@, delta.removed, "\n"@);
        let c = each("  - Changed: "@, delta.changed, "\n"@);
        let all = a + b + c;
        if 0 <= k < delta.added.len() {
            let piece = "  - Added: "@ + delta.added[k] + "\n"@;
            lemma_each("  - Added: "@, delta.added, "\n"@, k);
            chars::lemma_has_within(none, a, b + c, piece);
            assert(none + a + (b + c) =~= all);
            lemma_second(front, all, back, piece);
        }
        if 0 <= k < delta.removed.len() {
            let piece = "  - Removed: "@ + delta.removed[k] + "\n"@;
            lemma_each("  - Removed: "@, delta.removed, "\n"@, k);
            chars::lemma_has_within(a, b, c, piece);
            assert(a + b + (c) =~= all);
            lemma_second(front, all, back, piece);
        }
        if 0 <= k < delta.changed.len() {
            let piece = "  - Changed: "@ + delta.changed[k] + "\n"@;
            lemma_each("  - Changed: "@, delta.changed, "\n"@, k);
            chars::lemma_has_within(a + b, c, none, piece);
            assert(a + b + c + (none) =~= all);
            lemma_second(front, all, back, piece);
        }
    }
}

/// Every dependency is in the report: its versions and what the change is called, and each
/// link, finding and change of what it depends on.
pub proof fn law_markdown_report(generated_at: Seq<char>, plugins: Seq<Section>, i: int, j: int, k: int)
    requires
        0 <= i < plugins.len(),
        0 <= j < plugins[i].dependencies.len(),
    ensures
        ({
            let dep = plugins[i].dependencies[j];
            let r = markdown_report(generated_at, plugins);
            &&& chars::has(
                r,
                "### "@ + dep.name + "\n\n- Current: `"@ + dep.current + "`\n- Latest: `"@ + dep.latest + "`\n- Semver impact: **"@ + dep.impact + "**\n"@,
            )
            &&& 0 <= k < dep.diff.len() ==> chars::has(
                r,
                "  - ["@ + dep.diff[k].label + "]("@ + dep.diff[k].url + ")\n"@,
            )
            &&& 0 <= k < dep.changelog.len() ==> chars::has(
                r,
                "  - ["@ + dep.changelog[k].label + "]("@ + dep.changelog[k].url + ")\n"@,
            )
            &&& 0 <= k < dep.security.len() ==> chars::has(
                r,
                "  - ["@ + dep.security[k].label + "]("@ + dep.security[k].url + ")\n"@,
            )
            &&& 0 <= k < dep.findings.len() ==> chars::has(r, "  - "@ + dep.findings[k] + "\n"@)
            &&& dep.supply_chain.note is Some ==> chars::has(
                r,
                "  - "@ + dep.supply_chain.note->0 + "\n"@,
            )
            &&& dep.supply_chain.note is None && 0 <= k < dep.supply_chain.added.len() ==> chars::has(
                r,
                "  - Added: "@ + dep.supply_chain.added[k] + "\n"@,
            )
            &&& dep.supply_chain.note is None && 0 <= k < dep.supply_chain.removed.len() ==> chars::has(
                r,
                "  - Removed: "@ + dep.supply_chain.removed[k] + "\n"@,
            )
            &&& dep.supply_chain.note is None && 0 <= k < dep.supply_chain.changed.len() ==> chars::has(
                r,
                "  - Changed: "@ + dep.supply_chain.changed[k] + "\n"@,
            )
        }),
{
    let dep = plugins[i].dependencies[j];
    let head = "### "@ + dep.name + "\n\n- Current: `"@ + dep.current + "`\n- Latest: `"@ + dep.latest + "`\n- Semver impact: **"@ + dep.impact + "**\n"@;
    let diff = markdown_links("Diff links"@, dep.diff);
    let changelog = markdown_links("Changelog links"@, dep.changelog);
    let security = markdown_links("Security links"@, dep.security);
    let findings = markdown_findings(dep.findings);
    let delta = markdown_delta(dep.supply_chain);
    let end = "\n"@;
    let all = markdown_dependency(dep);
    assert(all == head + diff + changelog + security + findings + delta + end);
    chars::lemma_has_itself(head);
    lemma_one_of(head, diff, changelog, security, findings, delta, end, head);
    lemma_markdown_holds(generated_at, plugins, i, j, head);
    if 0 <= k < dep.diff.len() {
        let piece = "  - ["@ + dep.diff[k].label + "]("@ + dep.diff[k].url + ")\n"@;
        lemma_markdown_link("Diff links"@, dep.diff, k);
        lemma_one_of(head, diff, changelog, security, findings, delta, end, piece);
        lemma_markdown_holds(generated_at, plugins, i, j, piece);
    }
    if 0 <= k < dep.changelog.len() {
        let piece = "  - ["@ + dep.changelog[k].label + "]("@ + dep.changelog[k].url + ")\n"@;
        lemma_markdown_link("Changelog links"@, dep.changelog, k);
        lemma_one_of(head, diff, changelog, security, findings, delta, end, piece);
        lemma_markdown_holds(generated_at, plugins, i, j, piece);
    }
    if 0 <= k < dep.security.len() {
        let piece = "  - ["@ + dep.security[k].label + "]("@ + dep.security[k].url + ")\n"@;
        lemma_markdown_link("Security links"@, dep.security, k);
        lemma_one_of(head, diff, changelog, security, findings, delta, end, piece);
        lemma_markdown_holds(generated_at, plugins, i, j, piece);
    }
    if 0 <= k < dep.findings.len() {
        let piece = "  - "@ + dep.findings[k] + "\n"@;
        lemma_markdown_finding(dep.findings, k);
        lemma_one_of(head, diff, changelog, security, findings, delta, end, piece);
        lemma_markdown_holds(generated_at, plugins, i, j, piece);
    }
    lemma_markdown_delta(dep.supply_chain, k);
    if dep.supply_chain.note is Some {
        let piece = "  - "@ + dep.supply_chain.note->0 + "\n"@;
        lemma_one_of(head, diff, changelog, security, findings, delta, end, piece);
        lemma_markdown_holds(generated_at, plugins, i, j, piece);
    } else {
        if 0 <= k < dep.supply_chain.added.len() {
            let piece = "  - Added: "@ + dep.supply_chain.added[k] + "\n"@;
            lemma_one_of(head, diff, changelog, security, findings, delta, end, piece);
            lemma_markdown_holds(generated_at, plugins, i, j, piece);
        }
        if 0 <= k < dep.supply_chain.removed.len() {
            let piece = "  - Removed: "@ + dep.supply_chain.removed[k] + "\n"@;
            lemma_one_of(head, diff, changelog, security, findings, delta, end, piece);
            lemma_markdown_holds(generated_at, plugins, i, j, piece);
        }
        if 0 <= k < dep.supply_chain.changed.len() {
            let piece = "  - Changed: "@ + dep.supply_chain.changed[k] + "\n"@;
            lemma_one_of(head, diff, changelog, security, findings, delta, end, piece);
            lemma_markdown_holds(generated_at, plugins, i, j, piece);
        }
    }
}

proof fn lemma_markdown_link(title: Seq<char>, items: Seq<Link>, k: int)
    requires
        0 <= k < items.len(),
    ensures
        chars::has(markdown_links(title, items), "  - ["@ + items[k].label + "]("@ + items[k].url + ")\n"@),
{
    let piece = "  - ["@ + items[k].label + "]("@ + items[k].url + ")\n"@;
    let front = "\n- "@ + title + ":\n"@;
    let back = Seq::<char>::empty();
    lemma_each_link("  - ["@, items, "]("@, ")\n"@, k);
    lemma_second(front, each_link("  - ["@, items, "]("@, ")\n"@), back, piece);
}

proof fn lemma_markdown_finding(items: Seq<Seq<char>>, k: int)
    requires
        0 <= k < items.len(),
    ensures
        chars::has(markdown_findings(items), "  - "@ + items[k] + "\n"@),
        chars::has(markdown_tree_findings(items), "  - "@ + items[k] + "\n"@),
{
    let piece = "  - "@ + items[k] + "\n"@;
    lemma_each("  - "@, items, "\n"@, k);
    lemma_second("\n- Security findings:\n"@, each("  - "@, items, "\n"@), Seq::<char>::empty(), piece);
    lemma_second("- Security findings (full dependency tree):\n"@, each("  - "@, items, "\n"@), "\n"@, piece);
}

/// Every manifest has its section in the report, with what was found in its whole tree.
pub proof fn law_markdown_sections(generated_at: Seq<char>, plugins: Seq<Section>, i: int, k: int)
    requires
        0 <= i < plugins.len(),
    ensures
        chars::has(markdown_report(generated_at, plugins), "## "@ + plugins[i].plugin + "\n\n"@),
        0 <= k < plugins[i].findings.len() ==> chars::has(
            markdown_report(generated_at, plugins),
            "  - "@ + plugins[i].findings[k] + "\n"@,
        ),
{
    let section = plugins[i];
    let none = Seq::<char>::empty();
    let head = "## "@ + section.plugin + "\n\n"@;
    let tree = markdown_tree_findings(section.findings);
    let inner = markdown_dependencies(section.dependencies);
    assert(markdown_section(section) == head + tree + inner);
    chars::lemma_has_itself(head);
    chars::lemma_has_within(none, head, tree + inner, head);
    assert(none + head + (tree + inner) =~= head + tree + inner);
    lemma_markdown_in_report(generated_at, plugins, i, head);
    if 0 <= k < section.findings.len() {
        let piece = "  - "@ + section.findings[k] + "\n"@;
        lemma_markdown_finding(section.findings, k);
        chars::lemma_has_within(head, tree, inner, piece);
        lemma_markdown_in_report(generated_at, plugins, i, piece);
    }
}

proof fn lemma_html_delta(delta: Delta, k: int)
    ensures
        delta.note is Some ==> chars::has(html_delta(delta), "<li>"@ + escaped(delta.note->0) + "</li>"@),
        delta.note is None && 0 <= k < delta.added.len() ==> chars::has(
            html_delta(delta),
            "<li>Added: "@ + escaped(delta.added[k]) + "</li>"@,
        ),
        delta.note is None && 0 <= k < delta.removed.len() ==> chars::has(
            html_delta(delta),
            "<li>Removed: "@ + escaped(delta.removed[k]) + "</li>"@,
        ),
        delta.note is None && 0 <= k < delta.changed.len() ==> chars::has(
            html_delta(delta),
            "<li>Changed: "@ + escaped(delta.changed[k]) + "</li>"@,
        ),
{
    let front = "<strong>Supply-chain delta</strong><ul>"@;
    let back = "</ul>"@;
    let none = Seq::<char>::empty();
    if let Some(note) = delta.note {
        let piece = "<li>"@ + escaped(note) + "</li>"@;
        chars::lemma_has_itself(piece);
        lemma_second(front, piece, back, piece);
    } else if !delta.is_silent() {
        let a = each_escaped("<li>Added: "@, delta.added, "</li>"@);
        let b = each_escaped("<li>Removed: "@, delta.removed, "</li>"@);
        let c = each_escaped("<li>Changed: "@, delta.changed, "</li>"@);
        let all = a + b + c;
        if 0 <= k < delta.added.len() {
            let piece = "<li>Added: "@ + escaped(delta.added[k]) + "</li>"@;
            lemma_each("<li>Added: "@, delta.added, "</li>"@, k);
            chars::lemma_has_within(none, a, b + c, piece);
            assert(none + a + (b + c) =~= all);
            lemma_second(front, all, back, piece);
        }
        if 0 <= k < delta.removed.len() {
            let piece = "<li>Removed: "@ + escaped(delta.removed[k]) + "</li>"@;
            lemma_each("<li>Removed: "@, delta.removed, "</li>"@, k);
            chars::lemma_has_within(a, b, c, piece);
            assert(a + b + (c) =~= all);
            lemma_second(front, all, back, piece);
        }
        if 0 <= k < delta.changed.len() {
            let piece = "<li>Changed: "@ + escaped(delta.changed[k]) + "</li>"@;
            lemma_each("<li>Changed: "@, delta.changed, "</li>"@, k);
            chars::lemma_has_within(a + b, c, none, piece);
            assert(a + b + c + (none) =~= all);
            lemma_second(front, all, back, piece);
        }
    }
}

/// Every dependency is in the report: its versions and what the change is called, and each
/// link, finding and change of what it depends on.
pub proof fn law_html_report(generated_at: Seq<char>, plugins: Seq<Section>, i: int, j: int, k: int)
    requires
        0 <= i < plugins.len(),
        0 <= j < plugins[i].dependencies.len(),
    ensures
        ({
            let dep = plugins[i].dependencies[j];
            let r = html_report(generated_at, plugins);
            &&& chars::has(
                r,
                "<article><h3>"@ + escaped(dep.name) + "</h3><p><code>"@ + escaped(dep.current) + "</code> &rarr; <code>"@ + escaped(dep.latest) + "</code> <span class=\"pill\">"@ + escaped(dep.impact) + "</span></p>"@,
            )
            &&& 0 <= k < dep.diff.len() ==> chars::has(
                r,
                "<li><a href=\""@ + escaped(dep.diff[k].url) + "\" target=\"_blank\" rel=\"noopener noreferrer\">"@ + escaped(dep.diff[k].label) + "</a></li>"@,
            )
            &&& 0 <= k < dep.changelog.len() ==> chars::has(
                r,
                "<li><a href=\""@ + escaped(dep.changelog[k].url) + "\" target=\"_blank\" rel=\"noopener noreferrer\">"@ + escaped(dep.changelog[k].label) + "</a></li>"@,
            )
            &&& 0 <= k < dep.security.len() ==> chars::has(
                r,
                "<li><a href=\""@ + escaped(dep.security[k].url) + "\" target=\"_blank\" rel=\"noopener noreferrer\">"@ + escaped(dep.security[k].label) + "</a></li>"@,
            )
            &&& 0 <= k < dep.findings.len() ==> chars::has(r, "<li>"@ + escaped(dep.findings[k]) + "</li>"@)
            &&& dep.supply_chain.note is Some ==> chars::has(
                r,
                "<li>"@ + escaped(dep.supply_chain.note->0) + "</li>"@,
            )
            &&& dep.supply_chain.note is None && 0 <= k < dep.supply_chain.added.len() ==> chars::has(
                r,
                "<li>Added: "@ + escaped(dep.supply_chain.added[k]) + "</li>"@,
            )
            &&& dep.supply_chain.note is None && 0 <= k < dep.supply_chain.removed.len() ==> chars::has(
                r,
                "<li>Removed: "@ + escaped(dep.supply_chain.removed[k]) + "</li>"@,
            )
            &&& dep.supply_chain.note is None && 0 <= k < dep.supply_chain.changed.len() ==> chars::has(
                r,
                "<li>Changed: "@ + escaped(dep.supply_chain.changed[k]) + "</li>"@,
            )
        }),
{
    let dep = plugins[i].dependencies[j];
    let head = "<article><h3>"@ + escaped(dep.name) + "</h3><p><code>"@ + escaped(dep.current) + "</code> &rarr; <code>"@ + escaped(dep.latest) + "</code> <span class=\"pill\">"@ + escaped(dep.impact) + "</span></p>"@;
    let diff = html_links("Diff links"@, dep.diff);
    let changelog = html_links("Changelog links"@, dep.changelog);
    let security = html_links("Security links"@, dep.security);
    let findings = html_findings(dep.findings);
    let delta = html_delta(dep.supply_chain);
    let end = "</article>"@;
    let all = html_dependency(dep);
    assert(all == head + diff + changelog + security + findings + delta + end);
    chars::lemma_has_itself(head);
    lemma_one_of(head, diff, changelog, security, findings, delta, end, head);
    lemma_html_holds(generated_at, plugins, i, j, head);
    if 0 <= k < dep.diff.len() {
        let piece = "<li><a href=\""@ + escaped(dep.diff[k].url) + "\" target=\"_blank\" rel=\"noopener noreferrer\">"@ + escaped(dep.diff[k].label) + "</a></li>"@;
        lemma_html_link("Diff links"@, dep.diff, k);
        lemma_one_of(head, diff, changelog, security, findings, delta, end, piece);
        lemma_html_holds(generated_at, plugins, i, j, piece);
    }
    if 0 <= k < dep.changelog.len() {
        let piece = "<li><a href=\""@ + escaped(dep.changelog[k].url) + "\" target=\"_blank\" rel=\"noopener noreferrer\">"@ + escaped(dep.changelog[k].label) + "</a></li>"@;
        lemma_html_link("Changelog links"@, dep.changelog, k);
        lemma_one_of(head, diff, changelog, security, findings, delta, end, piece);
        lemma_html_holds(generated_at, plugins, i, j, piece);
    }
    if 0 <= k < dep.security.len() {
        let piece = "<li><a href=\""@ + escaped(dep.security[k].url) + "\" target=\"_blank\" rel=\"noopener noreferrer\">"@ + escaped(dep.security[k].label) + "</a></li>"@;
        lemma_html_link("Security links"@, dep.security, k);
        lemma_one_of(head, diff, changelog, security, findings, delta, end, piece);
        lemma_html_holds(generated_at, plugins, i, j, piece);
    }
    if 0 <= k < dep.findings.len() {
        let piece = "<li>"@ + escaped(dep.findings[k]) + "</li>"@;
        lemma_html_finding(dep.findings, k);
        lemma_one_of(head, diff, changelog, security, findings, delta, end, piece);
        lemma_html_holds(generated_at, plugins, i, j, piece);
    }
    lemma_html_delta(dep.supply_chain, k);
    if dep.supply_chain.note is Some {
        let piece = "<li>"@ + escaped(dep.supply_chain.note->0) + "</li>"@;
        lemma_one_of(head, diff, changelog, security, findings, delta, end, piece);
        lemma_html_holds(generated_at, plugins, i, j, piece);
    } else {
        if 0 <= k < dep.supply_chain.added.len() {
            let piece = "<li>Added: "@ + escaped(dep.supply_chain.added[k]) + "</li>"@;
            lemma_one_of(head, diff, changelog, security, findings, delta, end, piece);
            lemma_html_holds(generated_at, plugins, i, j, piece);
        }
        if 0 <= k < dep.supply_chain.removed.len() {
            let piece = "<li>Removed: "@ + escaped(dep.supply_chain.removed[k]) + "</li>"@;
            lemma_one_of(head, diff, changelog, security, findings, delta, end, piece);
            lemma_html_holds(generated_at, plugins, i, j, piece);
        }
        if 0 <= k < dep.supply_chain.changed.len() {
            let piece = "<li>Changed: "@ + escaped(dep.supply_chain.changed[k]) + "</li>"@;
            lemma_one_of(head, diff, changelog, security, findings, delta, end, piece);
            lemma_html_holds(generated_at, plugins, i, j, piece);
        }
    }
}

proof fn lemma_html_link(title: Seq<char>, items: Seq<Link>, k: int)
    requires
        0 <= k < items.len(),
    ensures
        chars::has(html_links(title, items), "<li><a href=\""@ + escaped(items[k].url) + "\" target=\"_blank\" rel=\"noopener noreferrer\">"@ + escaped(items[k].label) + "</a></li>"@),
{
    let piece = "<li><a href=\""@ + escaped(items[k].url) + "\" target=\"_blank\" rel=\"noopener noreferrer\">"@ + escaped(items[k].label) + "</a></li>"@;
    let front = "<strong>"@ + escaped(title) + "</strong><ul>"@;
    let back = "</ul>"@;
    lemma_html_links(items, k);
    lemma_second(front, html_link_items(items), back, piece);
}

proof fn lemma_html_finding(items: Seq<Seq<char>>, k: int)
    requires
        0 <= k < items.len(),
    ensures
        chars::has(html_findings(items), "<li>"@ + escaped(items[k]) + "</li>"@),
        chars::has(html_tree_findings(items), "<li>"@ + escaped(items[k]) + "</li>"@),
{
    let piece = "<li>"@ + escaped(items[k]) + "</li>"@;
    lemma_each("<li>"@, items, "</li>"@, k);
    lemma_second("<strong>Security findings</strong><ul>"@, each_escaped("<li>"@, items, "</li>"@), "</ul>"@, piece);
    lemma_second("<article><h3>Security findings (full dependency tree)</h3><ul>"@, each_escaped("<li>"@, items, "</li>"@), "</ul></article>"@, piece);
}

/// Every manifest has its section in the report, with what was found in its whole tree.
pub proof fn law_html_sections(generated_at: Seq<char>, plugins: Seq<Section>, i: int, k: int)
    requires
        0 <= i < plugins.len(),
    ensures
        chars::has(html_report(generated_at, plugins), "<h2>"@ + escaped(plugins[i].plugin) + "</h2>"@),
        0 <= k < plugins[i].findings.len() ==> chars::has(
            html_report(generated_at, plugins),
            "<li>"@ + escaped(plugins[i].findings[k]) + "</li>"@,
        ),
{
    let section = plugins[i];
    let none = Seq::<char>::empty();
    let head = "<h2>"@ + escaped(section.plugin) + "</h2>"@;
    let tree = html_tree_findings(section.findings);
    let inner = html_dependencies(section.dependencies);
    assert(html_section(section) == head + tree + inner);
    chars::lemma_has_itself(head);
    chars::lemma_has_within(none, head, tree + inner, head);
    assert(none + head + (tree + inner) =~= head + tree + inner);
    lemma_html_in_report(generated_at, plugins, i, head);
    if 0 <= k < section.findings.len() {
        let piece = "<li>"@ + escaped(section.findings[k]) + "</li>"@;
        lemma_html_finding(section.findings, k);
        chars::lemma_has_within(head, tree, inner, piece);
        lemma_html_in_report(generated_at, plugins, i, piece);
    }
}

/// The report says when it was made, and that there is nothing to report where there
/// is not.
pub proof fn law_text_frame(generated_at: Seq<char>, plugins: Seq<Section>)
    ensures
        chars::has(text_report(generated_at, plugins), generated_at),
        plugins.len() == 0 ==> chars::has(text_report(generated_at, plugins), "No upgrade candidates found.\n"@),
{
    let head = "ruckup upgrade intelligence report\ngenerated at: "@;
    let all = text_report(generated_at, plugins);
    let rest = all.skip((head + generated_at).len() as int);
    chars::lemma_has_itself(generated_at);
    assert(all =~= head + generated_at + rest);
    chars::lemma_has_within(head, generated_at, rest, generated_at);
    if plugins.len() == 0 {
        let note = "No upgrade candidates found.\n"@;
        let front = head + generated_at + "\n\n"@;
        let end = Seq::<char>::empty();
        chars::lemma_has_itself(note);
        chars::lemma_has_within(front, note, end, note);
        assert(all =~= front + note + end);
    }
}

/// The report says when it was made, and that there is nothing to report where there
/// is not.
pub proof fn law_markdown_frame(generated_at: Seq<char>, plugins: Seq<Section>)
    ensures
        chars::has(markdown_report(generated_at, plugins), generated_at),
        plugins.len() == 0 ==> chars::has(markdown_report(generated_at, plugins), "No upgrade candidates found.\n"@),
{
    let head = "# ruckup Upgrade Intelligence Report\n\nGenerated at: "@;
    let all = markdown_report(generated_at, plugins);
    let rest = all.skip((head + generated_at).len() as int);
    chars::lemma_has_itself(generated_at);
    assert(all =~= head + generated_at + rest);
    chars::lemma_has_within(head, generated_at, rest, generated_at);
    if plugins.len() == 0 {
        let note = "No upgrade candidates found.\n"@;
        let front = head + generated_at + "\n\n"@;
        let end = Seq::<char>::empty();
        chars::lemma_has_itself(note);
        chars::lemma_has_within(front, note, end, note);
        assert(all =~= front + note + end);
    }
}

/// The report says when it was made, and that there is nothing to report where there
/// is not.
pub proof fn law_html_frame(generated_at: Seq<char>, plugins: Seq<Section>)
    ensures
        chars::has(html_report(generated_at, plugins), escaped(generated_at)),
        plugins.len() == 0 ==> chars::has(html_report(generated_at, plugins), "<p>No upgrade candidates found.</p>"@),
{
    let head = html_head() + "<small>Generated at: "@;
    let all = html_report(generated_at, plugins);
    let rest = all.skip((head + escaped(generated_at)).len() as int);
    chars::lemma_has_itself(escaped(generated_at));
    assert(all =~= head + escaped(generated_at) + rest);
    chars::lemma_has_within(head, escaped(generated_at), rest, escaped(generated_at));
    if plugins.len() == 0 {
        let note = "<p>No upgrade candidates found.</p>"@;
        let front = head + escaped(generated_at) + "</small>"@;
        let end = "</main></body></html>"@;
        chars::lemma_has_itself(note);
        chars::lemma_has_within(front, note, end, note);
        assert(all =~= front + note + end);
    }
}

} // verus!
