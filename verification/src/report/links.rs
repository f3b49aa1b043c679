//! Versions and repository addresses in reports.
use vstd::prelude::*;
use vstd::string::*;
use crate::chars;
use crate::ranges;
use crate::text;
use crate::tree::{Node, Tree, child};

verus! {

/// A character that a version can start with.
pub open spec fn no_start() -> spec_fn(char) -> bool {
    |c: char| !(chars::is_digit(c) || c == 'v')
}

/// A character of a version.
pub open spec fn in_version() -> spec_fn(char) -> bool {
    |c: char| chars::is_alnum(c) || c == '.' || c == '-' || c == '+'
}

/// The version in a specifier: from the first digit or `v` on, as far as the
/// characters of versions go.
pub open spec fn version_core(spec: Seq<char>) -> Option<Seq<char>> {
    let n = chars::leading(spec, no_start()) as int;
    if n < spec.len() {
        Some(chars::take_while(spec.skip(n), in_version()))
    } else {
        None
    }
}

pub fn extract_version_core(spec: &str) -> (r: Option<String>)
    ensures
        chars::opt(r) == version_core(spec@),
{
    let outside = |c: char| -> (b: bool)
        ensures
            b == !(chars::is_digit(c) || c == 'v'),
    {
        !(text::is_digit(c) || c == 'v')
    };
    let n: usize = text::leading(spec, outside, Ghost(no_start()));
    if n < spec.unicode_len() {
        let tail: &str = text::skip(spec, n);
        let inside = |c: char| -> (b: bool)
            ensures
                b == (chars::is_alnum(c) || c == '.' || c == '-' || c == '+'),
        {
            text::is_alnum(c) || c == '.' || c == '-' || c == '+'
        };
        let len: usize = text::leading(tail, inside, Ghost(in_version()));
        Some(text::take(tail, len).to_owned())
    } else {
        None
    }
}

/// What an upgrade between two versions means, by the first number that grows.
pub open spec fn impact(current: Option<(u64, u64, u64)>, latest: Option<(u64, u64, u64)>) -> Seq<
    char,
> {
    match (current, latest) {
        (Some((major, minor, patch)), Some((new_major, new_minor, new_patch))) => {
            if new_major > major {
                "breaking"@
            } else if new_minor > minor {
                "feature"@
            } else if new_patch > patch {
                "bugfix"@
            } else {
                "version-change"@
            }
        },
        _ => "version-change"@,
    }
}

/// What an upgrade between two versions means, given their numbers.
pub fn impact_of(current: Option<(u64, u64, u64)>, latest: Option<(u64, u64, u64)>) -> (r:
    &'static str)
    ensures
        r@ == impact(current, latest),
{
    match (current, latest) {
        (Some((major, minor, patch)), Some((new_major, new_minor, new_patch))) => {
            if new_major > major {
                "breaking"
            } else if new_minor > minor {
                "feature"
            } else if new_patch > patch {
                "bugfix"
            } else {
                "version-change"
            }
        },
        _ => "version-change",
    }
}

/// The numbers of the version in a specifier.
pub open spec fn core_numbers(core: Seq<char>) -> Option<(u64, u64, u64)> {
    ranges::semver_numbers(chars::trim_start_char(core, 'v'))
}

/// What an upgrade between two specifiers means.
pub open spec fn semver_change(current: Seq<char>, latest: Seq<char>) -> Seq<char> {
    match (version_core(current), version_core(latest)) {
        (Some(a), Some(b)) => impact(core_numbers(a), core_numbers(b)),
        _ => "unknown"@,
    }
}

pub fn classify_semver_change(current: &str, latest: &str) -> (r: String)
    ensures
        r@ == semver_change(current@, latest@),
{
    match (extract_version_core(current), extract_version_core(latest)) {
        (Some(a), Some(b)) => impact_of(
            ranges::semver_parse(text::trim_start_char(a.as_str(), 'v')),
            ranges::semver_parse(text::trim_start_char(b.as_str(), 'v')),
        ).to_owned(),
        _ => "unknown".to_owned(),
    }
}

/// An upgrade from a version to itself is no more than a change of version.
pub proof fn law_same_version_is_no_upgrade(numbers: Option<(u64, u64, u64)>)
    ensures
        impact(numbers, numbers) == "version-change"@,
{
}

pub fn trim_trailing_slash(value: &str) -> (r: &str)
    ensures
        r@ == chars::trim_end_char(value@, '/'),
{
    text::trim_end_char(value, '/')
}

/// A repository's path without the suffix and the slashes at its end.
pub open spec fn repo_path(s: Seq<char>) -> Seq<char> {
    chars::trim_end_char(chars::trim_end_text(s, ".git"@), '/')
}

/// The web address of a GitHub repository, where the given address is one of the
/// forms that GitHub's repositories have.
pub open spec fn web_address(raw: Seq<char>) -> Option<Seq<char>> {
    let url = chars::trim(raw);
    let web = "https://github.com/"@;
    if chars::starts_with(url, web) {
        Some(repo_path(url))
    } else {
        match chars::strip_prefix(url, "git+https://github.com/"@) {
            Some(rest) => Some(web + repo_path(rest)),
            None => match chars::strip_prefix(url, "git://github.com/"@) {
                Some(rest) => Some(web + repo_path(rest)),
                None => match chars::strip_prefix(url, "git@github.com:"@) {
                    Some(rest) => Some(web + repo_path(rest)),
                    None => None,
                },
            },
        }
    }
}

fn on_web(rest: &str) -> (r: String)
    ensures
        r@ == "https://github.com/"@ + repo_path(rest@),
{
    let mut out: String = "https://github.com/".to_owned();
    out.append(text::trim_end_char(text::trim_end_text(rest, ".git"), '/'));
    out
}

pub fn normalize_repo_url(raw: &str) -> (r: Option<String>)
    ensures
        chars::opt(r) == web_address(raw@),
{
    let url: &str = text::trim(raw);
    if text::starts_with(url, "https://github.com/") {
        return Some(text::trim_end_char(text::trim_end_text(url, ".git"), '/').to_owned());
    }
    if let Some(rest) = text::strip_prefix(url, "git+https://github.com/") {
        return Some(on_web(rest));
    }
    if let Some(rest) = text::strip_prefix(url, "git://github.com/") {
        return Some(on_web(rest));
    }
    if let Some(rest) = text::strip_prefix(url, "git@github.com:") {
        return Some(on_web(rest));
    }
    None
}

/// The owner and the name of a repository on GitHub.
pub open spec fn owner_name(url: Seq<char>) -> Option<(Seq<char>, Seq<char>)> {
    match chars::strip_prefix(url, "https://github.com/"@) {
        Some(path) => match chars::after(path, '/') {
            Some(rest) => Some((chars::before(path, '/'), chars::before(rest, '/'))),
            None => None,
        },
        None => None,
    }
}

pub fn github_repo_owner_name(repo_url: &str) -> (r: Option<(String, String)>)
    ensures
        match r {
            Some(p) => owner_name(repo_url@) == Some(chars::pair(p)),
            None => owner_name(repo_url@) is None,
        },
{
    match text::strip_prefix(repo_url, "https://github.com/") {
        Some(path) => match text::after(path, '/') {
            Some(rest) => Some(
                (text::before(path, '/').to_owned(), text::before(rest, '/').to_owned()),
            ),
            None => None,
        },
        None => None,
    }
}

/// Where GitHub describes a repository, where the address is that of one: an
/// owner and a name, and nothing else.
pub open spec fn repo_endpoint_text(url: Seq<char>) -> Option<Seq<char>> {
    match chars::strip_prefix(url, "https://github.com/"@) {
        Some(rest) => {
            let path = chars::trim_end_char(rest, '/');
            match chars::after(path, '/') {
                Some(name) => if name.contains('/') {
                    None
                } else {
                    Some(
                        "https://api.github.com/repos/"@ + chars::before(path, '/') + "/"@ + name,
                    )
                },
                None => None,
            }
        },
        None => None,
    }
}

pub fn repo_endpoint(repo_url: &str) -> (r: Option<String>)
    ensures
        chars::opt(r) == repo_endpoint_text(repo_url@),
{
    match text::strip_prefix(repo_url, "https://github.com/") {
        Some(rest) => {
            let path: &str = text::trim_end_char(rest, '/');
            match text::after(path, '/') {
                Some(name) => {
                    if text::has_char(name, '/') {
                        return None;
                    }
                    let mut out: String = "https://api.github.com/repos/".to_owned();
                    out.append(text::before(path, '/'));
                    out.append("/");
                    out.append(name);
                    Some(out)
                },
                None => None,
            }
        },
        None => None,
    }
}

/// `s` holds a digit.
pub open spec fn has_digit(s: Seq<char>) -> bool {
    chars::leading(s, chars::not_digit()) < s.len()
}

fn digit_in(s: &str) -> (r: bool)
    ensures
        r == has_digit(s@),
{
    let test = |c: char| -> (b: bool)
        ensures
            b == !chars::is_digit(c),
    {
        !text::is_digit(c)
    };
    text::leading(s, test, Ghost(chars::not_digit())) < s.unicode_len()
}

/// The names that a version's tag or branch may have: the version itself, without
/// and with a `v` in front, and as a release.
pub open spec fn ref_names(value: Seq<char>) -> Seq<Seq<char>> {
    let bare = chars::trim_start_char(value, 'v');
    let own = if value.len() == 0 {
        seq![]
    } else {
        seq![value]
    };
    let without = if value.len() > 0 && bare != value {
        seq![bare]
    } else {
        seq![]
    };
    let with = if value.len() > 0 && value[0] != 'v' && has_digit(value) {
        seq!["v"@ + value]
    } else {
        seq![]
    };
    let release = if value.len() > 0 && has_digit(bare) {
        seq!["release-"@ + bare, "release/"@ + bare]
    } else {
        seq![]
    };
    own + without + with + release
}

/// The names that the tag or branch of the version in a specifier may have.
pub open spec fn ref_candidates(version: Seq<char>) -> Seq<Seq<char>> {
    let core = match version_core(version) {
        Some(core) => ref_names(core),
        None => seq![],
    };
    chars::distinct(ref_names(chars::trim(version)) + core)
}

fn joined(a: &str, b: &str) -> (r: String)
    ensures
        r@ == a@ + b@,
{
    let mut out: String = a.to_owned();
    out.append(b);
    out
}

fn push_ref_names(out: &mut Vec<String>, value: &str)
    ensures
        chars::views(final(out)@) == chars::views(old(out)@) + ref_names(value@),
{
    let ghost first = chars::views(out@);
    if value.is_empty() {
        assert(chars::views(out@) =~= first + ref_names(value@));
        return ;
    }
    let bare: &str = text::trim_start_char(value, 'v');
    out.push(value.to_owned());
    if !text::eq(bare, value) {
        out.push(bare.to_owned());
    }
    if !text::starts_with_char(value, 'v') && digit_in(value) {
        out.push(joined("v", value));
    }
    if digit_in(bare) {
        out.push(joined("release-", bare));
        out.push(joined("release/", bare));
    }
    assert(chars::views(out@) =~= first + ref_names(value@));
}

pub fn github_ref_candidates(version: &str) -> (r: Vec<String>)
    ensures
        chars::views(r@) == ref_candidates(version@),
{
    let mut out: Vec<String> = Vec::new();
    push_ref_names(&mut out, text::trim(version));
    let ghost sofar = chars::views(out@);
    if let Some(core) = extract_version_core(version) {
        push_ref_names(&mut out, core.as_str());
    }
    proof {
        let core = match version_core(version@) {
            Some(core) => ref_names(core),
            None => seq![],
        };
        assert(sofar =~= ref_names(chars::trim(version@)));
        assert(chars::views(out@) =~= sofar + core);
    }
    text::distinct(&out)
}

/// No name is tried twice.
pub proof fn law_candidates_are_distinct(version: Seq<char>)
    ensures
        ref_candidates(version).no_duplicates(),
{
    let core = match version_core(version) {
        Some(core) => ref_names(core),
        None => seq![],
    };
    chars::lemma_distinct(ref_names(chars::trim(version)) + core);
}

/// A kind of reference.
#[derive(Debug, Clone, Copy, PartialEq, Eq, Structural)]
pub enum RefKind {
    Tags,
    Heads,
}

impl RefKind {
    pub open spec fn name(self) -> Seq<char> {
        match self {
            RefKind::Tags => "tags"@,
            RefKind::Heads => "heads"@,
        }
    }

    pub fn as_str(&self) -> (r: &'static str)
        ensures
            r@ == self.name(),
    {
        match self {
            RefKind::Tags => "tags",
            RefKind::Heads => "heads",
        }
    }
}

/// The references of the given kind to look for.
pub open spec fn queries_of(kind: RefKind, candidates: Seq<Seq<char>>) -> Seq<
    (RefKind, Seq<char>),
> {
    candidates.map_values(|c: Seq<char>| (kind, c))
}

pub open spec fn queries(items: Seq<(RefKind, String)>) -> Seq<(RefKind, Seq<char>)> {
    items.map_values(|q: (RefKind, String)| (q.0, q.1@))
}

/// The references to look for, in order: all tags, then all branches.
pub fn ref_queries(version: &str) -> (r: Vec<(RefKind, String)>)
    ensures
        queries(r@) == queries_of(RefKind::Tags, ref_candidates(version@)) + queries_of(
            RefKind::Heads,
            ref_candidates(version@),
        ),
{
    let candidates: Vec<String> = github_ref_candidates(version);
    let ghost all = chars::views(candidates@);
    let mut out: Vec<(RefKind, String)> = Vec::new();
    for i in 0..candidates.len()
        invariant
            all == chars::views(candidates@),
            queries(out@) == queries_of(RefKind::Tags, all.take(i as int)),
    {
        let ghost sofar = out@;
        out.push((RefKind::Tags, candidates[i].clone()));
        assert(queries(out@) =~= queries(sofar).push((RefKind::Tags, all[i as int])));
        assert(queries_of(RefKind::Tags, all.take(i + 1)) =~= queries_of(
            RefKind::Tags,
            all.take(i as int),
        ).push((RefKind::Tags, all[i as int])));
    }
    assert(all.take(all.len() as int) =~= all);
    let ghost tags = queries(out@);
    assert(tags =~= tags + queries_of(RefKind::Heads, all.take(0)));
    for i in 0..candidates.len()
        invariant
            all == chars::views(candidates@),
            queries(out@) == tags + queries_of(RefKind::Heads, all.take(i as int)),
    {
        let ghost sofar = out@;
        out.push((RefKind::Heads, candidates[i].clone()));
        assert(queries(out@) =~= queries(sofar).push((RefKind::Heads, all[i as int])));
        assert(queries_of(RefKind::Heads, all.take(i + 1)) =~= queries_of(
            RefKind::Heads,
            all.take(i as int),
        ).push((RefKind::Heads, all[i as int])));
        assert(queries(out@) =~= tags + queries_of(RefKind::Heads, all.take(i + 1)));
    }
    out
}

/// Where GitHub lists the references that start like the candidate.
pub fn matching_refs_url(owner: &str, repo: &str, kind: RefKind, candidate: &str) -> (r: String)
    ensures
        r@ == "https://api.github.com/repos/"@ + owner@ + "/"@ + repo@ + "/git/matching-refs/"@
            + kind.name() + "/"@ + chars::replace(candidate@, '/', "%2F"@),
{
    let mut out: String = "https://api.github.com/repos/".to_owned();
    out.append(owner);
    out.append("/");
    out.append(repo);
    out.append("/git/matching-refs/");
    out.append(kind.as_str());
    out.append("/");
    out.append(text::replace(candidate, '/', "%2F").as_str());
    out
}

/// The candidate is among the references that GitHub listed.
pub fn is_listed(refs: &Vec<String>, kind: RefKind, candidate: &str) -> (r: bool)
    ensures
        r == chars::views(refs@).contains("refs/"@ + kind.name() + "/"@ + candidate@),
{
    let mut full: String = "refs/".to_owned();
    full.append(kind.as_str());
    full.append("/");
    full.append(candidate);
    text::contains(refs, full.as_str())
}

/// The address of a comparison of two references.
pub open spec fn compare_text(repo: Seq<char>, a: Seq<char>, b: Seq<char>) -> Seq<char> {
    repo + "/compare/"@ + a + "..."@ + b
}

/// Where the changes between two versions can be seen: between the references
/// that were found for both, else between the versions themselves.
pub open spec fn compare_link(
    repo_url: Seq<char>,
    current: Seq<char>,
    latest: Seq<char>,
    current_ref: Option<Seq<char>>,
    latest_ref: Option<Seq<char>>,
) -> Option<Seq<char>> {
    match web_address(repo_url) {
        Some(repo) => if owner_name(repo) is None {
            None
        } else {
            match (current_ref, latest_ref) {
                (Some(a), Some(b)) => Some(compare_text(repo, a, b)),
                _ => match (version_core(current), version_core(latest)) {
                    (Some(a), Some(b)) => Some(compare_text(repo, a, b)),
                    _ => None,
                },
            }
        },
        None => None,
    }
}

fn write_compare(repo: &str, a: &str, b: &str) -> (r: String)
    ensures
        r@ == compare_text(repo@, a@, b@),
{
    let mut out: String = repo.to_owned();
    out.append("/compare/");
    out.append(a);
    out.append("...");
    out.append(b);
    out
}

pub fn github_compare_link(
    repo_url: &str,
    current: &str,
    latest: &str,
    current_ref: &Option<String>,
    latest_ref: &Option<String>,
) -> (r: Option<String>)
    ensures
        chars::opt(r) == compare_link(
            repo_url@,
            current@,
            latest@,
            chars::opt(*current_ref),
            chars::opt(*latest_ref),
        ),
{
    let repo: String = match normalize_repo_url(repo_url) {
        Some(repo) => repo,
        None => {
            return None;
        },
    };
    if github_repo_owner_name(repo.as_str()).is_none() {
        return None;
    }
    match (current_ref, latest_ref) {
        (Some(a), Some(b)) => Some(write_compare(repo.as_str(), a.as_str(), b.as_str())),
        _ => match (extract_version_core(current), extract_version_core(latest)) {
            (Some(a), Some(b)) => Some(write_compare(repo.as_str(), a.as_str(), b.as_str())),
            _ => None,
        },
    }
}

/// The repository that a package of npm names: a text, or the `url` of a table.
pub open spec fn npm_repo(t: Tree) -> Option<Seq<char>> {
    match t {
        Tree::Text(url) => Some(url),
        _ => match child(t, "url"@) {
            Some(Tree::Text(url)) => Some(url),
            _ => None,
        },
    }
}

pub fn parse_npm_repo(value: &Node) -> (r: Option<String>)
    ensures
        chars::opt(r) == npm_repo(value@),
{
    match value.as_text() {
        Some(url) => Some(url.to_owned()),
        None => match value.get("url") {
            Some(node) => match node.as_text() {
                Some(url) => Some(url.to_owned()),
                None => None,
            },
            None => None,
        },
    }
}

/// One of the words occurs in the key, in any case.
pub open spec fn mentions(key: Seq<char>, a: Seq<char>, b: Seq<char>, c: Seq<char>) -> bool {
    let word = chars::lower(key);
    chars::has(word, a) || chars::has(word, b) || chars::has(word, c)
}

/// The address of the first entry whose key mentions one of the words.
pub open spec fn first_mention(
    urls: Seq<(Seq<char>, Seq<char>)>,
    a: Seq<char>,
    b: Seq<char>,
    c: Seq<char>,
) -> Option<Seq<char>>
    decreases urls.len(),
{
    if urls.len() == 0 {
        None
    } else if mentions(urls[0].0, a, b, c) {
        Some(urls[0].1)
    } else {
        first_mention(urls.skip(1), a, b, c)
    }
}

fn find_mention(urls: &Vec<(String, String)>, a: &str, b: &str, c: &str) -> (r: Option<String>)
    ensures
        chars::opt(r) == first_mention(chars::pairs(urls@), a@, b@, c@),
{
    let ghost all = chars::pairs(urls@);
    assert(all.skip(0) =~= all);
    let mut i: usize = 0;
    while i < urls.len()
        invariant
            i <= urls.len(),
            all == chars::pairs(urls@),
            first_mention(all, a@, b@, c@) == first_mention(all.skip(i as int), a@, b@, c@),
        decreases urls.len() - i,
    {
        assert(all.skip(i as int)[0] == chars::pair(urls@[i as int]));
        let word: String = text::lower(urls[i].0.as_str());
        let word: &str = word.as_str();
        if text::has(word, a) || text::has(word, b) || text::has(word, c) {
            return Some(urls[i].1.clone());
        }
        assert(all.skip(i as int).skip(1) =~= all.skip(i + 1));
        i = i + 1;
    }
    None
}

/// The address of the repository, or of the home page.
pub open spec fn repository_of(
    urls: Seq<(Seq<char>, Seq<char>)>,
    home_page: Option<Seq<char>>,
) -> Option<Seq<char>> {
    match first_mention(urls, "source"@, "repository"@, "github"@) {
        Some(url) => Some(url),
        None => home_page,
    }
}

/// The address of the changelog.
pub open spec fn changelog_of(urls: Seq<(Seq<char>, Seq<char>)>) -> Option<Seq<char>> {
    first_mention(urls, "changelog"@, "release"@, "news"@)
}

/// The repository of a Python project: the first of its addresses that is called
/// one, else its home page.
pub fn python_repository(urls: &Vec<(String, String)>, home_page: Option<String>) -> (r: Option<
    String,
>)
    ensures
        chars::opt(r) == repository_of(chars::pairs(urls@), chars::opt(home_page)),
{
    match find_mention(urls, "source", "repository", "github") {
        Some(url) => Some(url),
        None => home_page,
    }
}

/// The changelog of a Python project: the first of its addresses that is called
/// one.
pub fn python_changelog(urls: &Vec<(String, String)>) -> (r: Option<String>)
    ensures
        chars::opt(r) == changelog_of(chars::pairs(urls@)),
{
    find_mention(urls, "changelog", "release", "news")
}

/// The first of the three numbers that is greater tells what an upgrade means,
/// whatever the numbers behind it are.
pub proof fn law_first_greater_number_decides(a: (u64, u64, u64), b: (u64, u64, u64))
    ensures
        b.0 > a.0 ==> impact(Some(a), Some(b)) == "breaking"@,
        b.0 <= a.0 && b.1 > a.1 ==> impact(Some(a), Some(b)) == "feature"@,
        b.0 <= a.0 && b.1 <= a.1 && b.2 > a.2 ==> impact(Some(a), Some(b)) == "bugfix"@,
        b.0 <= a.0 && b.1 <= a.1 && b.2 <= a.2 ==> impact(Some(a), Some(b)) == "version-change"@,
        impact(None, Some(b)) == "version-change"@,
        impact(Some(a), None) == "version-change"@,
        impact(None, None) == "version-change"@,
{
}

} // verus!
