//! Upgrade reports.
use vstd::prelude::*;
use crate::chars;
use crate::cli::ReportFormatArg;
use self::delta::{Delta, SupplyChainDelta};

pub mod analysis;
pub mod archived;
pub mod delta;
pub mod html;
pub mod links;
pub mod links_laws;
pub mod output;
pub mod pages;
pub mod render;
pub mod render_laws;

verus! {

#[derive(Clone, Copy, Debug, PartialEq, Eq, Structural)]
pub enum ReportFormat {
    Text,
    Markdown,
    Html,
    Pdf,
}

impl ReportFormat {
    pub open spec fn ext_text(self) -> Seq<char> {
        match self {
            ReportFormat::Text => "txt"@,
            ReportFormat::Markdown => "md"@,
            ReportFormat::Html => "html"@,
            ReportFormat::Pdf => "pdf"@,
        }
    }

    pub open spec fn default_text(self) -> Seq<char> {
        match self {
            ReportFormat::Text => "ruckup-report.txt"@,
            ReportFormat::Markdown => "ruckup-report.md"@,
            ReportFormat::Html => "ruckup-report.html"@,
            ReportFormat::Pdf => "ruckup-report.pdf"@,
        }
    }

    /// The extension of a report's file.
    pub fn ext(&self) -> (r: &'static str)
        ensures
            r@ == self.ext_text(),
    {
        match self {
            ReportFormat::Text => "txt",
            ReportFormat::Markdown => "md",
            ReportFormat::Html => "html",
            ReportFormat::Pdf => "pdf",
        }
    }

    /// The name of a report's file in a directory.
    pub fn default_name(&self) -> (r: &'static str)
        ensures
            r@ == self.default_text(),
    {
        match self {
            ReportFormat::Text => "ruckup-report.txt",
            ReportFormat::Markdown => "ruckup-report.md",
            ReportFormat::Html => "ruckup-report.html",
            ReportFormat::Pdf => "ruckup-report.pdf",
        }
    }
}

/// The format that an argument asks for.
pub open spec fn format_of(value: ReportFormatArg) -> ReportFormat {
    match value {
        ReportFormatArg::Text => ReportFormat::Text,
        ReportFormatArg::Markdown => ReportFormat::Markdown,
        ReportFormatArg::Html => ReportFormat::Html,
        ReportFormatArg::Pdf => ReportFormat::Pdf,
    }
}

pub fn map_report_format(value: &ReportFormatArg) -> (r: ReportFormat)
    ensures
        r == format_of(*value),
{
    match value {
        ReportFormatArg::Text => ReportFormat::Text,
        ReportFormatArg::Markdown => ReportFormat::Markdown,
        ReportFormatArg::Html => ReportFormat::Html,
        ReportFormatArg::Pdf => ReportFormat::Pdf,
    }
}

#[derive(Clone, Debug)]
pub struct LinkRef {
    pub label: String,
    pub url: String,
}

/// What a `LinkRef` says.
pub struct Link {
    pub label: Seq<char>,
    pub url: Seq<char>,
}

impl View for LinkRef {
    type V = Link;

    open spec fn view(&self) -> Link {
        Link { label: self.label@, url: self.url@ }
    }
}

pub open spec fn links(items: Seq<LinkRef>) -> Seq<Link> {
    items.map_values(|l: LinkRef| l@)
}

#[derive(Clone, Debug)]
pub struct DependencyReport {
    pub name: String,
    pub current_version: String,
    pub latest_version: String,
    pub semver_impact: String,
    pub diff_links: Vec<LinkRef>,
    pub changelog_links: Vec<LinkRef>,
    pub security_links: Vec<LinkRef>,
    pub security_findings: Vec<String>,
    pub supply_chain: SupplyChainDelta,
}

/// What a `DependencyReport` says.
#[verifier::ext_equal]
pub struct DepReport {
    pub name: Seq<char>,
    pub current: Seq<char>,
    pub latest: Seq<char>,
    pub impact: Seq<char>,
    pub diff: Seq<Link>,
    pub changelog: Seq<Link>,
    pub security: Seq<Link>,
    pub findings: Seq<Seq<char>>,
    pub supply_chain: Delta,
}

impl View for DependencyReport {
    type V = DepReport;

    open spec fn view(&self) -> DepReport {
        DepReport {
            name: self.name@,
            current: self.current_version@,
            latest: self.latest_version@,
            impact: self.semver_impact@,
            diff: links(self.diff_links@),
            changelog: links(self.changelog_links@),
            security: links(self.security_links@),
            findings: chars::views(self.security_findings@),
            supply_chain: self.supply_chain@,
        }
    }
}

pub open spec fn dep_reports(items: Seq<DependencyReport>) -> Seq<DepReport> {
    items.map_values(|d: DependencyReport| d@)
}

#[derive(Clone, Debug)]
pub struct PluginReport {
    pub plugin: String,
    pub security_findings: Vec<String>,
    pub dependencies: Vec<DependencyReport>,
}

/// What a `PluginReport` says.
pub struct Section {
    pub plugin: Seq<char>,
    pub findings: Seq<Seq<char>>,
    pub dependencies: Seq<DepReport>,
}

impl View for PluginReport {
    type V = Section;

    open spec fn view(&self) -> Section {
        Section {
            plugin: self.plugin@,
            findings: chars::views(self.security_findings@),
            dependencies: dep_reports(self.dependencies@),
        }
    }
}

pub open spec fn sections(items: Seq<PluginReport>) -> Seq<Section> {
    items.map_values(|p: PluginReport| p@)
}

#[derive(Clone, Debug)]
pub struct UpgradeReport {
    pub generated_at_utc: String,
    pub plugins: Vec<PluginReport>,
}

/// A report is named after the program, with the extension of its format, and no two
/// formats share an extension.
pub proof fn law_names(a: ReportFormat, b: ReportFormat)
    ensures
        a.default_text() == "ruckup-report."@ + a.ext_text(),
        a.ext_text() == b.ext_text() ==> a == b,
{
    reveal_strlit("ruckup-report.");
    reveal_strlit("ruckup-report.txt");
    reveal_strlit("ruckup-report.md");
    reveal_strlit("ruckup-report.html");
    reveal_strlit("ruckup-report.pdf");
    reveal_strlit("txt");
    reveal_strlit("md");
    reveal_strlit("html");
    reveal_strlit("pdf");
    assert("ruckup-report.txt"@ =~= "ruckup-report."@ + "txt"@);
    assert("ruckup-report.md"@ =~= "ruckup-report."@ + "md"@);
    assert("ruckup-report.html"@ =~= "ruckup-report."@ + "html"@);
    assert("ruckup-report.pdf"@ =~= "ruckup-report."@ + "pdf"@);
    assert("txt"@[0] == 't');
    assert("pdf"@[0] == 'p');
    assert("md"@.len() == 2);
    assert("html"@.len() == 4);
}

} // verus!
