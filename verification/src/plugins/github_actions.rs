//! Actions that GitHub workflows use.
use vstd::prelude::*;
use vstd::string::*;
use crate::chars;
use crate::plugin::{Dep, DepType, Dependency, Dir, Directory, Plugin, deps};
use crate::text;
use crate::version;

verus! {

/// A branch that is followed as it moves.
pub open spec fn moving(name: Seq<char>) -> bool {
    name == "main"@ || name == "master"@ || name == "stable"@ || name == "beta"@ || name
        == "nightly"@
}

fn is_moving(name: &str) -> (r: bool)
    ensures
        r == moving(name@),
{
    text::eq(name, "main") || text::eq(name, "master") || text::eq(name, "stable") || text::eq(
        name,
        "beta",
    ) || text::eq(name, "nightly")
}

/// The parts of a version in front of `s`, after any number of `v`s.
pub open spec fn prefix_parts(s: Seq<char>) -> Option<Seq<u64>> {
    version::dotted(chars::take_while(chars::trim_start_char(s, 'v'), version::digit_or_dot()))
}

pub fn version_prefix(value: &str) -> (r: Option<Vec<u64>>)
    ensures
        version::parts_of(r) == prefix_parts(value@),
{
    let s: &str = text::trim_start_char(value, 'v');
    let test = |c: char| -> (b: bool)
        ensures
            b == (chars::is_digit(c) || c == '.'),
    {
        text::is_digit(c) || c == '.'
    };
    let n: usize = text::leading(s, test, Ghost(version::digit_or_dot()));
    version::parse_dotted(text::take(s, n))
}

/// `short` is the start of `long`.
pub open spec fn is_start(short: Seq<u64>, long: Seq<u64>) -> bool {
    short.len() <= long.len() && long.take(short.len() as int) == short
}

/// A workflow that follows `current` already runs `latest`: the two are the same,
/// `current` is a branch, or the version in its last component is the start of
/// the latest version.
pub open spec fn follows(current: Seq<char>, latest: Seq<char>) -> bool {
    ||| current == latest
    ||| moving(current)
    ||| match (prefix_parts(chars::after_last(current, '/')), prefix_parts(latest)) {
        (Some(short), Some(long)) => is_start(short, long),
        _ => false,
    }
}

pub fn action_ref_matches(current: &str, latest: &str) -> (r: bool)
    ensures
        r == follows(current@, latest@),
{
    if text::eq(current, latest) || is_moving(current) {
        return true;
    }
    let short: Vec<u64> = match version_prefix(text::after_last(current, '/')) {
        Some(parts) => parts,
        None => {
            return false;
        },
    };
    let long: Vec<u64> = match version_prefix(latest) {
        Some(parts) => parts,
        None => {
            return false;
        },
    };
    if short.len() > long.len() {
        return false;
    }
    for i in 0..short.len()
        invariant
            short.len() <= long.len(),
            forall|j: int| 0 <= j < i ==> short@[j] == long@[j],
            follows(current@, latest@) == is_start(short@, long@),
    {
        if short[i] != long[i] {
            assert(long@.take(short@.len() as int)[i as int] != short@[i as int]);
            return false;
        }
    }
    assert(long@.take(short@.len() as int) =~= short@);
    true
}

/// The reference to write in place of `current`, where one is to be written.
pub open spec fn replacement(current: Seq<char>, latest: Seq<char>) -> Option<Seq<char>> {
    if current == latest || moving(current) || (chars::after_last(current, '/') != current
        && follows(current, latest)) {
        None
    } else {
        Some(latest)
    }
}

pub fn replacement_ref(current: &str, latest: &str) -> (r: Option<String>)
    ensures
        chars::opt(r) == replacement(current@, latest@),
{
    if text::eq(current, latest) || is_moving(current) {
        return None;
    }
    let suffix: &str = text::after_last(current, '/');
    if !text::eq(suffix, current) && action_ref_matches(current, latest) {
        return None;
    }
    Some(latest.to_owned())
}

/// The name and the reference of an action in the value of a `uses:` key.
pub open spec fn action(value: Seq<char>) -> Option<(Seq<char>, Seq<char>)> {
    if chars::starts_with(value, "./"@) || chars::starts_with(value, "docker://"@)
        || chars::starts_with(value, "${{"@) {
        None
    } else {
        match chars::before_last(value, '@') {
            Some(name) => {
                let reference = chars::after_last(value, '@');
                if name.contains('/') && reference.len() > 0 {
                    Some((name, reference))
                } else {
                    None
                }
            },
            None => None,
        }
    }
}

pub open spec fn pair_of(r: Option<(String, String)>) -> Option<(Seq<char>, Seq<char>)> {
    match r {
        Some(p) => Some(chars::pair(p)),
        None => None,
    }
}

fn parse_action(value: &str) -> (r: Option<(String, String)>)
    ensures
        pair_of(r) == action(value@),
{
    if text::starts_with(value, "./") || text::starts_with(value, "docker://") || text::starts_with(
        value,
        "${{",
    ) {
        return None;
    }
    match text::before_last(value, '@') {
        Some(name) => {
            let reference: &str = text::after_last(value, '@');
            if text::has_char(name, '/') && !reference.is_empty() {
                Some((name.to_owned(), reference.to_owned()))
            } else {
                None
            }
        },
        None => None,
    }
}

/// The action of a line that starts with `uses:`: its value is the first word
/// after that, without quotes around it.
pub open spec fn uses(line: Seq<char>) -> Option<(Seq<char>, Seq<char>)> {
    match chars::strip_prefix(chars::trim_start(line), "uses:"@) {
        Some(rest) => {
            let words = chars::words(rest);
            if words.len() == 0 {
                None
            } else {
                action(chars::trim_char(chars::trim_char(words[0], '"'), '\''))
            }
        },
        None => None,
    }
}

pub fn parse_uses_value(line: &str) -> (r: Option<(String, String)>)
    ensures
        pair_of(r) == uses(line@),
{
    match text::strip_prefix(text::trim_start(line), "uses:") {
        Some(rest) => {
            let words: Vec<&str> = text::words(rest);
            assert(chars::words(rest@) =~= chars::strs(words@));
            if words.len() == 0 {
                return None;
            }
            parse_action(text::trim_char(text::trim_char(words[0], '"'), '\''))
        },
        None => None,
    }
}

/// The repository of an action: the first two components of its name.
pub open spec fn repo_of(name: Seq<char>) -> Option<Seq<char>> {
    match chars::after(name, '/') {
        Some(rest) => Some(chars::before(name, '/') + "/"@ + chars::before(rest, '/')),
        None => None,
    }
}

pub fn action_repo(name: &str) -> (r: Option<&str>)
    ensures
        match r {
            Some(s) => repo_of(name@) == Some(s@),
            None => repo_of(name@) is None,
        },
{
    match text::after(name, '/') {
        Some(rest) => {
            let owner: usize = text::index_of(name, '/');
            let repo: usize = text::index_of(rest, '/');
            let len: usize = name.unicode_len();
            proof {
                chars::lemma_leading(name@, chars::is_not('/'));
                reveal_strlit("/");
                assert(name@.take(owner + 1 + repo) =~= chars::before(name@, '/') + "/"@
                    + chars::before(rest@, '/'));
            }
            assert(owner + 1 + repo <= len);
            Some(text::take(name, owner + 1 + repo))
        },
        None => None,
    }
}

/// The file is a workflow.
pub open spec fn workflow_name(name: Seq<char>) -> bool {
    chars::extension(name) == Some("yml"@) || chars::extension(name) == Some("yaml"@)
}

pub fn is_workflow_name(name: &str) -> (r: bool)
    ensures
        r == workflow_name(name@),
{
    match text::extension(name) {
        Some(ext) => text::eq(ext, "yml") || text::eq(ext, "yaml"),
        None => false,
    }
}

pub open spec fn is_workflow() -> spec_fn(Seq<char>) -> bool {
    |name: Seq<char>| workflow_name(name)
}

/// The workflows among the entries of a directory, in order.
pub open spec fn workflows_of(names: Seq<Seq<char>>) -> Seq<Seq<char>> {
    chars::sort(names.filter(is_workflow()))
}

pub fn workflow_files(names: &Vec<String>) -> (r: Vec<String>)
    ensures
        chars::views(r@) == workflows_of(chars::views(names@)),
{
    text::sort(text::keep(names, is_workflow_name, Ghost(is_workflow())))
}

/// Looks after the workflows of a repository.
#[derive(Debug, Clone, Copy)]
pub struct GithubActionsPlugin;

impl GithubActionsPlugin {
    pub fn new() -> (r: Self)
        ensures
            r == GithubActionsPlugin,
    {
        GithubActionsPlugin
    }
}

impl Plugin for GithubActionsPlugin {
    open spec fn name_text(&self) -> Seq<char> {
        "github-actions"@
    }

    open spec fn file_text(&self) -> Seq<char> {
        ".github/workflows"@
    }

    open spec fn detected(&self, dir: Dir) -> bool {
        exists|i: int| 0 <= i < dir.workflows.len() && workflow_name(#[trigger] dir.workflows[i])
    }

    open spec fn display_text(&self, dir: Dir) -> Seq<char> {
        "GitHub Actions (.github/workflows)"@
    }

    fn name(&self) -> (r: &'static str) {
        "github-actions"
    }

    fn file_name(&self) -> (r: &'static str) {
        ".github/workflows"
    }

    fn detect(&self, dir: &Directory) -> (r: bool) {
        for i in 0..dir.workflows.len()
            invariant
                forall|j: int| 0 <= j < i ==> !workflow_name(#[trigger] dir@.workflows[j]),
        {
            if is_workflow_name(dir.workflows[i].as_str()) {
                assert(workflow_name(dir@.workflows[i as int]));
                return true;
            }
        }
        false
    }

    fn display_name(&self, dir: &Directory) -> (r: String) {
        "GitHub Actions (.github/workflows)".to_owned()
    }
}

/// The dependency is on the given action at the given reference.
pub open spec fn is_on(dep: Dep, uses: (Seq<char>, Seq<char>)) -> bool {
    dep.name == uses.0 && dep.current == uses.1
}

/// `sofar`, and the actions of the lines that are not in it yet.
pub open spec fn collected(sofar: Seq<Dep>, lines: Seq<Seq<char>>) -> Seq<Dep>
    decreases lines.len(),
{
    if lines.len() == 0 {
        sofar
    } else {
        let before = collected(sofar, lines.drop_last());
        match uses(lines.last()) {
            Some(u) => if exists|i: int| 0 <= i < before.len() && is_on(#[trigger] before[i], u) {
                before
            } else {
                before.push(Dep::fresh(u.0, u.1, DepType::Build))
            },
            None => before,
        }
    }
}

/// The actions that the workflows use, each name and reference once.
pub open spec fn listed(contents: Seq<Seq<char>>) -> Seq<Dep>
    decreases contents.len(),
{
    if contents.len() == 0 {
        seq![]
    } else {
        collected(listed(contents.drop_last()), chars::lines(contents.last()))
    }
}

fn is_listed(items: &Vec<Dependency>, name: &str, reference: &str) -> (r: bool)
    ensures
        r == exists|i: int|
            0 <= i < deps(items@).len() && is_on(#[trigger] deps(items@)[i], (name@, reference@)),
{
    for i in 0..items.len()
        invariant
            forall|j: int| 0 <= j < i ==> !is_on(#[trigger] deps(items@)[j], (name@, reference@)),
    {
        if text::eq(items[i].name.as_str(), name) && text::eq(
            items[i].current_version.as_str(),
            reference,
        ) {
            assert(is_on(deps(items@)[i as int], (name@, reference@)));
            return true;
        }
    }
    false
}

fn collect(items: &mut Vec<Dependency>, content: &str)
    ensures
        deps(final(items)@) == collected(deps(old(items)@), chars::lines(content@)),
{
    let lines: Vec<&str> = text::lines(content);
    let ghost all = chars::strs(lines@);
    let ghost first = deps(items@);
    for i in 0..lines.len()
        invariant
            all == chars::strs(lines@),
            deps(items@) == collected(first, all.take(i as int)),
    {
        assert(all.take(i + 1).drop_last() =~= all.take(i as int));
        assert(all.take(i + 1).last() == lines@[i as int]@);
        let ghost sofar = items@;
        if let Some((name, reference)) = parse_uses_value(lines[i]) {
            if !is_listed(items, name.as_str(), reference.as_str()) {
                let dep: Dependency = Dependency::new(name, reference, DepType::Build);
                items.push(dep);
                assert(deps(items@) =~= deps(sofar).push(dep@));
            }
        }
    }
    assert(all.take(all.len() as int) =~= all);
}

/// The actions that the workflows of the given contents use.
pub fn list_dependencies(contents: &Vec<String>) -> (r: Vec<Dependency>)
    ensures
        deps(r@) == listed(chars::views(contents@)),
{
    let mut out: Vec<Dependency> = Vec::new();
    let ghost all = chars::views(contents@);
    assert(deps(out@) =~= seq![]);
    for i in 0..contents.len()
        invariant
            all == chars::views(contents@),
            deps(out@) == listed(all.take(i as int)),
    {
        assert(all.take(i + 1).drop_last() =~= all.take(i as int));
        assert(all.take(i + 1).last() == contents@[i as int]@);
        collect(&mut out, contents[i].as_str());
    }
    assert(all.take(all.len() as int) =~= all);
    out
}

/// No two of the dependencies are on the same action at the same reference.
pub open spec fn no_repeats(items: Seq<Dep>) -> bool {
    forall|i: int, j: int|
        0 <= i < j < items.len() ==> !is_on(
            #[trigger] items[j],
            ((#[trigger] items[i]).name, items[i].current),
        )
}

/// However often workflows use an action at one reference, it is listed once.
pub proof fn law_listed_once(contents: Seq<Seq<char>>)
    ensures
        no_repeats(listed(contents)),
    decreases contents.len(),
{
    if contents.len() > 0 {
        law_listed_once(contents.drop_last());
        lemma_collected_once(listed(contents.drop_last()), chars::lines(contents.last()));
    }
}

proof fn lemma_collected_once(sofar: Seq<Dep>, lines: Seq<Seq<char>>)
    requires
        no_repeats(sofar),
    ensures
        no_repeats(collected(sofar, lines)),
    decreases lines.len(),
{
    if lines.len() > 0 {
        lemma_collected_once(sofar, lines.drop_last());
    }
}

/// What was learnt of an action's repository from GitHub, where it answered with
/// a success.
pub enum Answer {
    Release(Option<String>),
    Tags(Option<Vec<String>>),
}

/// What to do next to learn an action's latest version.
pub enum Step {
    /// Ask for the tags of the repository.
    AskTags,
    /// Ask git for the tags of the remote.
    AskGit,
    /// This is the latest version.
    Done(String),
}

/// The version that an answer gives: the latest release, or the first tag.
pub open spec fn answered(answer: Answer) -> Option<Seq<char>> {
    match answer {
        Answer::Release(Some(tag)) => Some(tag@),
        Answer::Tags(Some(tags)) => if tags@.len() > 0 {
            Some(tags@[0]@)
        } else {
            None
        },
        _ => None,
    }
}

/// The latest release counts, then the first tag; else git is asked.
pub fn next_step(answer: Answer) -> (r: Step)
    ensures
        match answered(answer) {
            Some(tag) => r matches Step::Done(s) && s@ == tag,
            None => if answer is Release {
                r is AskTags
            } else {
                r is AskGit
            },
        },
{
    match answer {
        Answer::Release(Some(tag)) => Step::Done(tag),
        Answer::Release(None) => Step::AskTags,
        Answer::Tags(Some(tags)) => {
            if tags.len() > 0 {
                Step::Done(tags[0].clone())
            } else {
                Step::AskGit
            }
        },
        Answer::Tags(None) => Step::AskGit,
    }
}

/// Where a repository can be asked for its tags with git.
pub fn remote_url(repo: &str) -> (r: String)
    ensures
        r@ == "https://github.com/"@ + repo@,
{
    let mut out: String = "https://github.com/".to_owned();
    out.append(repo);
    out
}

/// Where the latest release of a repository is.
pub fn release_url(repo: &str) -> (r: String)
    ensures
        r@ == "https://api.github.com/repos/"@ + repo@ + "/releases/latest"@,
{
    let mut out: String = "https://api.github.com/repos/".to_owned();
    out.append(repo);
    out.append("/releases/latest");
    out
}

/// Where the newest tag of a repository is.
pub fn tag_url(repo: &str) -> (r: String)
    ensures
        r@ == "https://api.github.com/repos/"@ + repo@ + "/tags?per_page=1"@,
{
    let mut out: String = "https://api.github.com/repos/".to_owned();
    out.append(repo);
    out.append("/tags?per_page=1");
    out
}

/// Why git's answer named no tag.
#[derive(Debug, Clone, Copy, PartialEq, Eq, Structural)]
pub enum TagError {
    NoTags,
    Unreadable,
}

impl TagError {
    pub fn message(&self) -> (r: &'static str)
        ensures
            r@ == match self {
                TagError::NoTags => "no published tags found"@,
                TagError::Unreadable => "failed to parse tag output"@,
            },
    {
        match self {
            TagError::NoTags => "no published tags found",
            TagError::Unreadable => "failed to parse tag output",
        }
    }
}

/// The first of the lines that is not blank.
pub open spec fn first_line(lines: Seq<Seq<char>>) -> Option<Seq<char>>
    decreases lines.len(),
{
    if lines.len() == 0 {
        None
    } else if chars::trim(lines[0]).len() > 0 {
        Some(lines[0])
    } else {
        first_line(lines.skip(1))
    }
}

/// The tag in a line of `git ls-remote`: what follows `refs/tags/` in its second
/// word.
pub open spec fn remote_tag(line: Seq<char>) -> Option<Seq<char>> {
    let words = chars::words(line);
    if words.len() > 1 {
        chars::strip_prefix(words[1], "refs/tags/"@)
    } else {
        None
    }
}

fn parse_remote_tag(line: &str) -> (r: Option<String>)
    ensures
        chars::opt(r) == remote_tag(line@),
{
    let words: Vec<&str> = text::words(line);
    assert(chars::words(line@) =~= chars::strs(words@));
    if words.len() > 1 {
        match text::strip_prefix(words[1], "refs/tags/") {
            Some(tag) => Some(tag.to_owned()),
            None => None,
        }
    } else {
        None
    }
}

/// The newest tag in the output of `git ls-remote`, which lists the newest first.
pub fn latest_git_tag(output: &str) -> (r: Result<String, TagError>)
    ensures
        match first_line(chars::lines(output@)) {
            Some(line) => match remote_tag(line) {
                Some(tag) => r matches Ok(s) && s@ == tag,
                None => r == Err::<String, TagError>(TagError::Unreadable),
            },
            None => r == Err::<String, TagError>(TagError::NoTags),
        },
{
    let lines: Vec<&str> = text::lines(output);
    let ghost all = chars::strs(lines@);
    assert(all.skip(0) =~= all);
    let mut i: usize = 0;
    while i < lines.len()
        invariant
            i <= lines.len(),
            all == chars::strs(lines@),
            all == chars::lines(output@),
            first_line(all) == first_line(all.skip(i as int)),
        decreases lines.len() - i,
    {
        assert(all.skip(i as int)[0] == lines@[i as int]@);
        if !text::trim(lines[i]).is_empty() {
            return match parse_remote_tag(lines[i]) {
                Some(tag) => Ok(tag),
                None => Err(TagError::Unreadable),
            };
        }
        assert(all.skip(i as int).skip(1) =~= all.skip(i + 1));
        i = i + 1;
    }
    Err(TagError::NoTags)
}

/// The dependency after a lookup that gave the latest version or failed.
pub open spec fn resolved(dep: Dep, latest: Option<Seq<char>>) -> Dep {
    match latest {
        Some(tag) => dep.checked(tag, follows(dep.current, tag)),
        None => dep.unchecked(),
    }
}

/// The dependency after a lookup.
pub fn resolve(dep: Dependency, latest: Option<String>) -> (r: Dependency)
    ensures
        r@ == resolved(dep@, chars::opt(latest)),
{
    match latest {
        Some(tag) => {
            let satisfied: bool = action_ref_matches(dep.current_version.as_str(), tag.as_str());
            dep.with_latest(tag, satisfied)
        },
        None => dep.with_failure(),
    }
}

/// The references to write, by the names of their actions.
pub open spec fn replacements(updates: Seq<Dep>) -> Seq<(Seq<char>, Seq<char>)>
    decreases updates.len(),
{
    if updates.len() == 0 {
        seq![]
    } else {
        let before = replacements(updates.drop_last());
        let dep = updates.last();
        match dep.latest {
            Some(latest) => match replacement(dep.current, latest) {
                Some(reference) => before.push((dep.name, reference)),
                None => before,
            },
            None => before,
        }
    }
}

/// The references to write for the given updates.
pub fn plan(updates: &Vec<Dependency>) -> (r: Vec<(String, String)>)
    ensures
        chars::pairs(r@) == replacements(deps(updates@)),
{
    let mut out: Vec<(String, String)> = Vec::new();
    let ghost all = deps(updates@);
    assert(chars::pairs(out@) =~= seq![]);
    for i in 0..updates.len()
        invariant
            all == deps(updates@),
            chars::pairs(out@) == replacements(all.take(i as int)),
    {
        assert(all.take(i + 1).drop_last() =~= all.take(i as int));
        assert(all.take(i + 1).last() == updates@[i as int]@);
        let dep: &Dependency = &updates[i];
        if let Some(latest) = &dep.latest_version {
            if let Some(reference) = replacement_ref(
                dep.current_version.as_str(),
                latest.as_str(),
            ) {
                let ghost sofar = out@;
                let item: (String, String) = (dep.name.clone(), reference);
                out.push(item);
                assert(chars::pairs(out@) =~= chars::pairs(sofar).push(chars::pair(item)));
            }
        }
    }
    assert(all.take(all.len() as int) =~= all);
    out
}

/// The reference planned for an action, the last where there are several.
pub open spec fn planned(plan: Seq<(Seq<char>, Seq<char>)>, name: Seq<char>) -> Option<Seq<char>>
    decreases plan.len(),
{
    if plan.len() == 0 {
        None
    } else if plan.last().0 == name {
        Some(plan.last().1)
    } else {
        planned(plan.drop_last(), name)
    }
}

fn find_planned<'a>(plan: &'a Vec<(String, String)>, name: &str) -> (r: Option<&'a str>)
    ensures
        match r {
            Some(s) => planned(chars::pairs(plan@), name@) == Some(s@),
            None => planned(chars::pairs(plan@), name@) is None,
        },
{
    let ghost all = chars::pairs(plan@);
    let mut n: usize = plan.len();
    assert(all.take(n as int) =~= all);
    while n > 0
        invariant
            n <= plan.len(),
            all == chars::pairs(plan@),
            planned(all, name@) == planned(all.take(n as int), name@),
        decreases n,
    {
        assert(all.take(n as int).last() == chars::pair(plan@[n - 1]));
        if text::eq(plan[n - 1].0.as_str(), name) {
            return Some(plan[n - 1].1.as_str());
        }
        assert(all.take(n as int).drop_last() =~= all.take(n - 1));
        n = n - 1;
    }
    None
}

/// A character of an unquoted value.
pub open spec fn token_char() -> spec_fn(char) -> bool {
    |c: char| !(chars::is_space(c) || c == '#' || c == '"' || c == '\'')
}

/// The quote that a value starts with.
pub open spec fn opening(value: Seq<char>) -> Seq<char> {
    if value.len() > 0 && (value[0] == '"' || value[0] == '\'') {
        value.take(1)
    } else {
        seq![]
    }
}

/// The parts of a line with a `uses:` key: all up to the value, the quote that
/// the value starts with, its first token, and the rest of the line.
pub open spec fn uses_parts(line: Seq<char>) -> Option<
    (Seq<char>, Seq<char>, Seq<char>, Seq<char>),
> {
    match chars::find(line, "uses:"@) {
        Some(at) => {
            let value = chars::trim_start(line.skip(at as int + 5));
            let quote = opening(value);
            let body = value.skip(quote.len() as int);
            Some(
                (
                    line.take(line.len() - value.len()),
                    quote,
                    chars::take_while(body, token_char()),
                    chars::skip_while(body, token_char()),
                ),
            )
        },
        None => None,
    }
}

/// The line with its action at the planned reference, in the quotes that its
/// value starts with.
pub open spec fn rewritten(line: Seq<char>, plan: Seq<(Seq<char>, Seq<char>)>) -> Seq<char> {
    match uses_parts(line) {
        Some((front, quote, token, rest)) => match action(token) {
            Some((name, _)) => match planned(plan, name) {
                Some(reference) => front + quote + name + "@"@ + reference + quote + rest,
                None => line,
            },
            None => line,
        },
        None => line,
    }
}

pub fn rewrite_uses_line(line: &str, plan: &Vec<(String, String)>) -> (r: String)
    ensures
        r@ == rewritten(line@, chars::pairs(plan@)),
{
    proof {
        reveal_strlit("uses:");
    }
    let at: usize = match text::find(line, "uses:") {
        Some(at) => at,
        None => {
            return line.to_owned();
        },
    };
    let len: usize = line.unicode_len();
    let value: &str = text::trim_start(text::skip(line, at + 5));
    proof {
        chars::lemma_leading(line@.skip(at + 5), chars::space());
    }
    let n: usize = value.unicode_len();
    let quote: &str = if text::starts_with_char(value, '"') || text::starts_with_char(
        value,
        '\'',
    ) {
        text::take(value, 1)
    } else {
        text::take(value, 0)
    };
    assert(quote@ =~= opening(value@));
    let body: &str = text::skip(value, quote.unicode_len());
    let test = |c: char| -> (b: bool)
        ensures
            b == !(chars::is_space(c) || c == '#' || c == '"' || c == '\''),
    {
        !(text::is_space(c) || c == '#' || c == '"' || c == '\'')
    };
    let end: usize = text::leading(body, test, Ghost(token_char()));
    let (name, _) = match parse_action(text::take(body, end)) {
        Some(parsed) => parsed,
        None => {
            return line.to_owned();
        },
    };
    match find_planned(plan, name.as_str()) {
        Some(reference) => {
            let mut out: String = text::take(line, len - n).to_owned();
            out.append(quote);
            out.append(name.as_str());
            out.append("@");
            out.append(reference);
            out.append(quote);
            out.append(text::skip(body, end));
            out
        },
        None => line.to_owned(),
    }
}

/// The lines with the planned references.
pub open spec fn rewritten_lines(
    lines: Seq<Seq<char>>,
    plan: Seq<(Seq<char>, Seq<char>)>,
) -> Seq<Seq<char>> {
    lines.map_values(|line: Seq<char>| rewritten(line, plan))
}

/// The text to write of a workflow: none where its rewritten lines are all of it.
pub open spec fn updated(content: Seq<char>, plan: Seq<(Seq<char>, Seq<char>)>) -> Option<
    Seq<char>,
> {
    let lines = rewritten_lines(chars::lines(content), plan);
    if chars::join(lines, seq!['\n']) == content {
        None
    } else {
        Some(chars::relined(content, lines))
    }
}

/// The text to write of a workflow, where it changes.
pub fn update_workflow(content: &str, plan: &Vec<(String, String)>) -> (r: Option<String>)
    ensures
        chars::opt(r) == updated(content@, chars::pairs(plan@)),
{
    let lines: Vec<&str> = text::lines(content);
    let ghost all = chars::strs(lines@);
    let mut out: Vec<String> = Vec::new();
    for i in 0..lines.len()
        invariant
            all == chars::strs(lines@),
            chars::views(out@) == rewritten_lines(all.take(i as int), chars::pairs(plan@)),
    {
        let ghost sofar = out@;
        out.push(rewrite_uses_line(lines[i], plan));
        assert(chars::views(out@) =~= chars::views(sofar).push(
            rewritten(all[i as int], chars::pairs(plan@)),
        ));
        assert(rewritten_lines(all.take(i + 1), chars::pairs(plan@)) =~= rewritten_lines(
            all.take(i as int),
            chars::pairs(plan@),
        ).push(rewritten(all[i as int], chars::pairs(plan@))));
    }
    assert(all.take(all.len() as int) =~= all);
    proof {
        reveal_strlit("\n");
        assert("\n"@ =~= seq!['\n']);
    }
    if text::eq(text::join(&out, "\n").as_str(), content) {
        None
    } else {
        Some(text::relined(content, &out))
    }
}

} // verus!
