//! Python requirements in `requirements.txt`.
use vstd::prelude::*;
use vstd::string::*;
use crate::chars;
use crate::plugin::{Dep, DepType, Dependency, Dir, Directory, Plugin, deps, title, titled};
use crate::text;

verus! {

/// Looks after `requirements.txt`.
#[derive(Debug, Clone, Copy)]
pub struct RequirementsPlugin;

impl RequirementsPlugin {
    pub fn new() -> (r: Self)
        ensures
            r == RequirementsPlugin,
    {
        RequirementsPlugin
    }
}

impl Plugin for RequirementsPlugin {
    open spec fn name_text(&self) -> Seq<char> {
        "requirements"@
    }

    open spec fn file_text(&self) -> Seq<char> {
        "requirements.txt"@
    }

    open spec fn detected(&self, dir: Dir) -> bool {
        dir.files.contains("requirements.txt"@) || dir.folders.contains("requirements.txt"@)
    }

    open spec fn display_text(&self, dir: Dir) -> Seq<char> {
        titled("requirements"@, "requirements.txt"@)
    }

    fn name(&self) -> (r: &'static str) {
        "requirements"
    }

    fn file_name(&self) -> (r: &'static str) {
        "requirements.txt"
    }

    fn detect(&self, dir: &Directory) -> (r: bool) {
        dir.has_entry("requirements.txt")
    }

    fn display_name(&self, dir: &Directory) -> (r: String) {
        title("requirements", "requirements.txt")
    }
}

/// A character that a version specifier can start with.
pub open spec fn is_operator(c: char) -> bool {
    c == '>' || c == '<' || c == '=' || c == '!' || c == '~'
}

pub open spec fn not_operator() -> spec_fn(char) -> bool {
    |c: char| !is_operator(c)
}

/// How many characters stand before the version specifier of `s`.
pub fn operator_index(s: &str) -> (n: usize)
    ensures
        n == chars::leading(s@, not_operator()),
        n <= s@.len(),
{
    let test = |c: char| -> (b: bool)
        ensures
            b == !is_operator(c),
    {
        !(c == '>' || c == '<' || c == '=' || c == '!' || c == '~')
    };
    text::leading(s, test, Ghost(not_operator()))
}

/// The part of `s` in front of its first digit.
pub open spec fn range_prefix(s: Seq<char>) -> Seq<char> {
    chars::take_while(s, chars::not_digit())
}

pub fn prefix_of(s: &str) -> (r: &str)
    ensures
        r@ == range_prefix(s@),
{
    let test = |c: char| -> (b: bool)
        ensures
            b == !chars::is_digit(c),
    {
        !text::is_digit(c)
    };
    let n: usize = text::leading(s, test, Ghost(chars::not_digit()));
    text::take(s, n)
}

/// A requirement: a package, what stands before the version specifier, and that
/// specifier.
#[derive(Debug, Clone, PartialEq, Eq)]
pub struct ParsedRequirement {
    pub name: String,
    pub spec_target: String,
    pub current_version: String,
}

/// What a `ParsedRequirement` says.
pub struct Requirement {
    pub name: Seq<char>,
    pub target: Seq<char>,
    pub version: Seq<char>,
}

pub open spec fn requirement_of(r: Option<ParsedRequirement>) -> Option<Requirement> {
    match r {
        Some(p) => Some(
            Requirement {
                name: p.name@,
                target: p.spec_target@,
                version: p.current_version@,
            },
        ),
        None => None,
    }
}

/// A line's content and its comment, which starts at the first `#`.
pub fn strip_inline_comment(line: &str) -> (r: (&str, &str))
    ensures
        r.0@ == chars::before(line@, '#'),
        r.1@ == chars::skip_while(line@, chars::is_not('#')),
{
    let n: usize = text::index_of(line, '#');
    (text::take(line, n), text::skip(line, n))
}

/// What stands before the version specifier of `r`.
pub open spec fn target_of(r: Seq<char>) -> Seq<char> {
    let n = chars::leading(r, not_operator()) as int;
    if n < r.len() {
        chars::trim(r.take(n))
    } else {
        r
    }
}

/// The version specifier of `r`; any version will do where there is none.
pub open spec fn version_of(r: Seq<char>) -> Seq<char> {
    let n = chars::leading(r, not_operator()) as int;
    if n < r.len() {
        chars::trim(r.skip(n))
    } else {
        "*"@
    }
}

/// The requirement that `spec` states. A comment, an option, and a reference to
/// a URL state none.
pub open spec fn requirement(spec: Seq<char>) -> Option<Requirement> {
    let all = chars::trim(spec);
    let r = chars::trim(chars::before(all, ';'));
    if all.len() == 0 || all[0] == '#' || all[0] == '-' || chars::has(all, " @ "@) || r.len()
        == 0 {
        None
    } else {
        let target = target_of(r);
        let name = chars::trim(chars::before(target, '['));
        if name.len() == 0 {
            None
        } else {
            Some(Requirement { name, target, version: version_of(r) })
        }
    }
}

pub fn parse_requirement_spec(spec: &str) -> (r: Option<ParsedRequirement>)
    ensures
        requirement_of(r) == requirement(spec@),
{
    let all: &str = text::trim(spec);
    if all.is_empty() || text::starts_with_char(all, '#') || text::starts_with_char(all, '-')
        || text::has(all, " @ ") {
        return None;
    }
    let r: &str = text::trim(text::before(all, ';'));
    if r.is_empty() {
        return None;
    }
    let n: usize = operator_index(r);
    let (target, version): (&str, &str) = if n < r.unicode_len() {
        (text::trim(text::take(r, n)), text::trim(text::skip(r, n)))
    } else {
        (r, "*")
    };
    let name: &str = text::trim(text::before(target, '['));
    if name.is_empty() {
        return None;
    }
    Some(
        ParsedRequirement {
            name: name.to_owned(),
            spec_target: target.to_owned(),
            current_version: version.to_owned(),
        },
    )
}

/// The requirement of a line.
pub open spec fn line_requirement(line: Seq<char>) -> Option<Requirement> {
    requirement(chars::before(line, '#'))
}

pub fn parse_requirement_line(line: &str) -> (r: Option<ParsedRequirement>)
    ensures
        requirement_of(r) == line_requirement(line@),
{
    parse_requirement_spec(strip_inline_comment(line).0)
}

/// The version specifier to write: the latest version, behind the operator that
/// stood there or pinned.
pub open spec fn new_version(old: Seq<char>, latest: Seq<char>, preserve: bool) -> Seq<char> {
    if preserve {
        range_prefix(old) + latest
    } else {
        "=="@ + latest
    }
}

/// The environment marker of a line's content, with its semicolon.
pub open spec fn marker(content: Seq<char>) -> Seq<char> {
    chars::skip_while(chars::trim(content), chars::is_not(';'))
}

/// `s`, then `comment` after a blank, unless there is none.
pub open spec fn with_comment(s: Seq<char>, comment: Seq<char>) -> Seq<char> {
    if comment.len() == 0 {
        s
    } else if s.len() > 0 && s.last() == ' ' {
        s + chars::trim_start(comment)
    } else {
        s.push(' ') + chars::trim_start(comment)
    }
}

/// The line with its requirement moved to the latest version: its indentation,
/// its marker and its comment stay.
pub open spec fn rewritten(line: Seq<char>, dep: Dep, preserve: bool) -> Seq<char> {
    match (dep.latest, line_requirement(line)) {
        (Some(latest), Some(q)) => if q.name == dep.name {
            let body = chars::trim_start(line);
            let comment = chars::skip_while(body, chars::is_not('#'));
            with_comment(
                chars::take_while(line, chars::space()) + q.target + new_version(
                    q.version,
                    latest,
                    preserve,
                ) + marker(chars::before(body, '#')),
                comment,
            )
        } else {
            line
        },
        _ => line,
    }
}

pub fn rewrite_requirement_line(line: &str, dep: &Dependency, preserve: bool) -> (r: String)
    ensures
        r@ == rewritten(line@, dep@, preserve),
{
    let latest: &String = match &dep.latest_version {
        Some(latest) => latest,
        None => {
            return line.to_owned();
        },
    };
    let parsed: ParsedRequirement = match parse_requirement_line(line) {
        Some(parsed) => parsed,
        None => {
            return line.to_owned();
        },
    };
    if !text::eq(parsed.name.as_str(), dep.name.as_str()) {
        return line.to_owned();
    }
    let indent: usize = text::leading(line, text::is_space, Ghost(chars::space()));
    let (content, comment) = strip_inline_comment(text::skip(line, indent));
    let content: &str = text::trim(content);
    let mut out: String = text::take(line, indent).to_owned();
    out.append(parsed.spec_target.as_str());
    let ghost sofar = out@;
    if preserve {
        out.append(prefix_of(parsed.current_version.as_str()));
        out.append(latest.as_str());
    } else {
        out.append("==");
        out.append(latest.as_str());
    }
    assert(out@ =~= sofar + new_version(parsed.current_version@, latest@, preserve));
    out.append(text::skip(content, text::index_of(content, ';')));
    if !comment.is_empty() {
        if !text::ends_with_char(out.as_str(), ' ') {
            out.push(' ');
        }
        out.append(text::trim_start(comment));
    }
    out
}

/// The dependencies that the lines declare.
pub open spec fn listed(lines: Seq<Seq<char>>) -> Seq<Dep>
    decreases lines.len(),
{
    if lines.len() == 0 {
        seq![]
    } else {
        let before = listed(lines.drop_last());
        match line_requirement(lines.last()) {
            Some(q) => before.push(Dep::fresh(q.name, q.version, DepType::Normal)),
            None => before,
        }
    }
}

/// The dependencies that the file declares, line by line.
pub fn parse_requirements(content: &str) -> (r: Vec<Dependency>)
    ensures
        deps(r@) == listed(chars::lines(content@)),
{
    let lines: Vec<&str> = text::lines(content);
    let ghost all = chars::strs(lines@);
    let mut out: Vec<Dependency> = Vec::new();
    assert(deps(out@) =~= seq![]);
    for i in 0..lines.len()
        invariant
            all == chars::strs(lines@),
            deps(out@) == listed(all.take(i as int)),
    {
        assert(all.take(i + 1).drop_last() =~= all.take(i as int));
        let ghost sofar = out@;
        if let Some(parsed) = parse_requirement_line(lines[i]) {
            let dep: Dependency = Dependency::new(
                parsed.name,
                parsed.current_version,
                DepType::Normal,
            );
            out.push(dep);
            assert(deps(out@) =~= deps(sofar).push(dep@));
        }
    }
    assert(all.take(all.len() as int) =~= all);
    out
}

/// The first of the updates whose package has the given name.
pub open spec fn update_for(updates: Seq<Dep>, name: Seq<char>) -> Option<Dep>
    decreases updates.len(),
{
    if updates.len() == 0 {
        None
    } else if updates[0].name == name {
        Some(updates[0])
    } else {
        update_for(updates.skip(1), name)
    }
}

/// Where that update stands.
pub fn find_update(updates: &Vec<Dependency>, name: &str) -> (r: Option<usize>)
    ensures
        match r {
            Some(i) => i < updates.len() && update_for(deps(updates@), name@) == Some(
                updates@[i as int]@,
            ),
            None => update_for(deps(updates@), name@) is None,
        },
{
    let ghost all = deps(updates@);
    assert(all.skip(0) =~= all);
    let mut i: usize = 0;
    while i < updates.len()
        invariant
            i <= updates.len(),
            all == deps(updates@),
            update_for(all, name@) == update_for(all.skip(i as int), name@),
        decreases updates.len() - i,
    {
        assert(all.skip(i as int)[0] == updates@[i as int]@);
        if text::eq(updates[i].name.as_str(), name) {
            return Some(i);
        }
        assert(all.skip(i as int).skip(1) =~= all.skip(i + 1));
        i = i + 1;
    }
    None
}

/// A line with the updates applied.
pub open spec fn updated_line(line: Seq<char>, updates: Seq<Dep>, preserve: bool) -> Seq<char> {
    match line_requirement(line) {
        Some(q) => match update_for(updates, q.name) {
            Some(dep) => rewritten(line, dep, preserve),
            None => line,
        },
        None => line,
    }
}

/// The lines with the updates applied.
pub open spec fn updated_lines(
    lines: Seq<Seq<char>>,
    updates: Seq<Dep>,
    preserve: bool,
) -> Seq<Seq<char>> {
    lines.map_values(|line: Seq<char>| updated_line(line, updates, preserve))
}

/// The file with the updates applied.
pub open spec fn updated(content: Seq<char>, updates: Seq<Dep>, preserve: bool) -> Seq<char> {
    chars::relined(content, updated_lines(chars::lines(content), updates, preserve))
}

/// The text of the file with the updates applied.
pub fn update_requirements(content: &str, updates: &Vec<Dependency>, preserve: bool) -> (r: String)
    ensures
        r@ == updated(content@, deps(updates@), preserve),
{
    let lines: Vec<&str> = text::lines(content);
    let ghost all = chars::strs(lines@);
    let mut out: Vec<String> = Vec::new();
    for i in 0..lines.len()
        invariant
            all == chars::strs(lines@),
            chars::views(out@) == updated_lines(all.take(i as int), deps(updates@), preserve),
    {
        let ghost sofar = out@;
        let line: &str = lines[i];
        let new_line: String = match parse_requirement_line(line) {
            Some(parsed) => match find_update(updates, parsed.name.as_str()) {
                Some(k) => rewrite_requirement_line(line, &updates[k], preserve),
                None => line.to_owned(),
            },
            None => line.to_owned(),
        };
        out.push(new_line);
        assert(chars::views(out@) =~= chars::views(sofar).push(
            updated_line(all[i as int], deps(updates@), preserve),
        ));
        assert(updated_lines(all.take(i + 1), deps(updates@), preserve) =~= updated_lines(
            all.take(i as int),
            deps(updates@),
            preserve,
        ).push(updated_line(all[i as int], deps(updates@), preserve)));
    }
    assert(all.take(all.len() as int) =~= all);
    text::relined(content, &out)
}

/// A character of a version number.
pub open spec fn is_version_char(c: char) -> bool {
    chars::is_alnum(c) || c == '.' || c == '-' || c == '_' || c == '+' || c == '!'
}

/// A version number: not empty, and of the characters that version numbers have.
pub open spec fn is_version(s: Seq<char>) -> bool {
    s.len() > 0 && forall|i: int| 0 <= i < s.len() ==> is_version_char(#[trigger] s[i])
}

/// A text that can be written as a version: of the characters that version numbers
/// have, and not empty where it comes behind an operator that is preserved.
pub open spec fn is_written(latest: Seq<char>, preserve: bool) -> bool {
    &&& preserve ==> latest.len() > 0
    &&& forall|i: int| 0 <= i < latest.len() ==> is_version_char(#[trigger] latest[i])
}

/// Reading a rewritten line gives back what was written: the same package and
/// extras, at the latest version. A preserved `*` has no operator to keep.
pub proof fn law_rewritten_line_reads_back(line: Seq<char>, dep: Dep, preserve: bool)
    requires
        line_requirement(line) is Some,
        line_requirement(line)->0.name == dep.name,
        dep.latest is Some,
        is_written(dep.latest->0, preserve),
        preserve ==> line_requirement(line)->0.version != "*"@,
    ensures
        line_requirement(rewritten(line, dep, preserve)) == Some(
            Requirement {
                name: dep.name,
                target: line_requirement(line)->0.target,
                version: new_version(line_requirement(line)->0.version, dep.latest->0, preserve),
            },
        ),
{
    let latest = dep.latest->0;
    let q = line_requirement(line)->0;
    let content = chars::before(line, '#');
    let all = chars::trim(content);
    let body = chars::trim_start(line);
    let front = chars::take_while(line, chars::space());
    let v = new_version(q.version, latest, preserve);
    let m = chars::skip_while(all, chars::is_not(';'));
    let x = q.target + v + m;
    let comment = chars::skip_while(body, chars::is_not('#'));
    lemma_requirement(content);
    lemma_same_content(line);
    chars::lemma_leading(line, chars::space());
    chars::lemma_leading(line, chars::is_not('#'));
    chars::lemma_leading(all, chars::is_not(';'));
    chars::lemma_trim(content);
    lemma_version_parts(q.version, latest, preserve);
    assert(x.last() == if m.len() > 0 {
        all.last()
    } else {
        v.last()
    });
    assert(x[0] == q.target[0]);
    assert(front + q.target + v + m =~= front + x);
    assert forall|i: int| 0 <= i < x.len() implies #[trigger] x[i] != '#' by {
        lemma_no_hash(line, q, latest, preserve, i);
    }
    chars::lemma_leading(body, chars::is_not('#'));
    assert forall|i: int| 0 <= i < front.len() implies chars::is_space(#[trigger] front[i]) by {
        assert(chars::space()(line[i]));
    }
    lemma_content(front, x, comment);
    lemma_no_reference(all, q, latest, preserve);
    lemma_written(all, q, latest, preserve);
}

/// A line that states no requirement, or that of another package, stays as it is,
/// and so does every line where no newer version is known.
pub proof fn law_other_lines_stay(line: Seq<char>, dep: Dep, preserve: bool)
    requires
        dep.latest is None || line_requirement(line) is None || line_requirement(line)->0.name
            != dep.name,
    ensures
        rewritten(line, dep, preserve) == line,
{
}

/// Rewriting a line again changes nothing. A preserved `*` has no operator to keep,
/// and an operator that is preserved ends where the version's digits start.
pub proof fn law_rewriting_again_changes_nothing(line: Seq<char>, dep: Dep, preserve: bool)
    requires
        dep.latest matches Some(latest) ==> is_written(latest, preserve) && (preserve
            ==> chars::is_digit(latest[0])),
        line_requirement(line) matches Some(q) ==> preserve ==> q.version != "*"@,
    ensures
        rewritten(rewritten(line, dep, preserve), dep, preserve) == rewritten(line, dep, preserve),
{
    if line_requirement(line) is Some && line_requirement(line)->0.name == dep.name
        && dep.latest is Some {
        let latest = dep.latest->0;
        let q = line_requirement(line)->0;
        let content = chars::before(line, '#');
        let all = chars::trim(content);
        let body = chars::trim_start(line);
        let front = chars::take_while(line, chars::space());
        let v = new_version(q.version, latest, preserve);
        let m = chars::skip_while(all, chars::is_not(';'));
        let x = q.target + v + m;
        let comment = chars::skip_while(body, chars::is_not('#'));
        let new = rewritten(line, dep, preserve);
        law_rewritten_line_reads_back(line, dep, preserve);
        lemma_requirement(content);
        lemma_same_content(line);
        lemma_new_version_again(q.version, latest, preserve);
        lemma_version_parts(q.version, latest, preserve);
        chars::lemma_leading(line, chars::space());
        chars::lemma_leading(line, chars::is_not('#'));
        chars::lemma_leading(all, chars::is_not(';'));
        chars::lemma_leading(body, chars::is_not('#'));
        chars::lemma_trim(content);
        assert(x.last() == if m.len() > 0 {
            all.last()
        } else {
            v.last()
        });
        assert(x[0] == q.target[0]);
        assert(front + q.target + v + m =~= front + x);
        assert forall|i: int| 0 <= i < x.len() implies #[trigger] x[i] != '#' by {
            lemma_no_hash(line, q, latest, preserve, i);
        }
        assert forall|i: int| 0 <= i < front.len() implies chars::is_space(#[trigger] front[i]) by {
            assert(chars::space()(line[i]));
        }
        lemma_no_hash_in(line);
        lemma_content(front, x, comment);
        lemma_comment(front, x, comment);
        lemma_same_content(new);
        lemma_written(all, q, latest, preserve);
    }
}

/// A version that was written behind an operator is written there again.
proof fn lemma_new_version_again(old: Seq<char>, latest: Seq<char>, preserve: bool)
    requires
        preserve ==> latest.len() > 0 && chars::is_digit(latest[0]),
    ensures
        new_version(new_version(old, latest, preserve), latest, preserve) == new_version(
            old,
            latest,
            preserve,
        ),
{
    if preserve {
        let p = range_prefix(old);
        let v = p + latest;
        chars::lemma_leading(old, chars::not_digit());
        assert forall|i: int| 0 <= i < p.len() implies chars::not_digit()(#[trigger] v[i]) by {
            assert(chars::not_digit()(old[i]));
        }
        assert(v[p.len() as int] == latest[0]);
        chars::lemma_leading_is(v, chars::not_digit(), p.len() as int);
        assert(v.take(p.len() as int) =~= p);
    }
}

/// What stands before the comment of a line holds no `#`.
proof fn lemma_no_hash_in(line: Seq<char>)
    ensures
        forall|j: int|
            0 <= j < chars::trim(chars::before(line, '#')).len() ==> #[trigger] chars::trim(
                chars::before(line, '#'),
            )[j] != '#',
{
    let content = chars::before(line, '#');
    let all = chars::trim(content);
    chars::lemma_leading(line, chars::is_not('#'));
    chars::lemma_trim(content);
    let a = choose|a: int|
        0 <= a && a + all.len() <= content.len() && #[trigger] content.subrange(a, a + all.len())
            == all;
    assert forall|j: int| 0 <= j < all.len() implies #[trigger] all[j] != '#' by {
        assert(all[j] == line[a + j]);
        assert(chars::is_not('#')(line[a + j]));
    }
}

/// The indentation and the comment of a line that is put together.
proof fn lemma_comment(front: Seq<char>, x: Seq<char>, comment: Seq<char>)
    requires
        forall|i: int| 0 <= i < front.len() ==> chars::is_space(#[trigger] front[i]),
        x.len() > 0,
        !chars::is_space(x[0]),
        !chars::is_space(x.last()),
        forall|i: int| 0 <= i < x.len() ==> #[trigger] x[i] != '#',
        comment.len() > 0 ==> comment[0] == '#',
    ensures
        chars::take_while(with_comment(front + x, comment), chars::space()) == front,
        chars::skip_while(
            chars::trim_start(with_comment(front + x, comment)),
            chars::is_not('#'),
        ) == comment,
{
    let head = front + x;
    let r = with_comment(head, comment);
    let n = front.len() as int;
    assert(head.last() == x.last());
    assert(comment.skip(0) =~= comment);
    let tail = if comment.len() == 0 {
        seq![]
    } else {
        seq![' '] + comment
    };
    assert(r =~= head + tail);
    assert forall|i: int| 0 <= i < n implies chars::space()(#[trigger] r[i]) by {
        assert(r[i] == front[i]);
    }
    assert(r[n] == x[0]);
    chars::lemma_leading_is(r, chars::space(), n);
    assert(r.take(n) =~= front);
    let body = r.skip(n);
    assert(body =~= x + tail);
    let k = if comment.len() == 0 {
        x.len() as int
    } else {
        x.len() as int + 1
    };
    assert forall|i: int| 0 <= i < k implies chars::is_not('#')(#[trigger] body[i]) by {
        if i < x.len() {
            assert(body[i] == x[i]);
        }
    }
    chars::lemma_leading_is(body, chars::is_not('#'), k);
    assert(body.skip(k) =~= comment);
}

/// What stands before the comment of a line.
proof fn lemma_content(front: Seq<char>, x: Seq<char>, comment: Seq<char>)
    requires
        forall|i: int| 0 <= i < front.len() ==> chars::is_space(#[trigger] front[i]),
        x.len() > 0,
        !chars::is_space(x[0]),
        !chars::is_space(x.last()),
        forall|i: int| 0 <= i < x.len() ==> #[trigger] x[i] != '#',
        comment.len() > 0 ==> comment[0] == '#',
    ensures
        chars::trim(chars::before(with_comment(front + x, comment), '#')) == x,
{
    let head = front + x;
    let r = with_comment(head, comment);
    let none = Seq::<char>::empty();
    assert forall|i: int| 0 <= i < head.len() implies #[trigger] head[i] != '#' by {
        if i < front.len() {
            assert(head[i] == front[i]);
        } else {
            assert(head[i] == x[i - front.len()]);
        }
    }
    if comment.len() == 0 {
        chars::lemma_before_all(r, '#');
        chars::lemma_trim_around(front, x, none);
        assert(front + x + none =~= head);
    } else {
        let blank = seq![' '];
        assert(comment.skip(0) =~= comment);
        assert(head.last() == x.last());
        assert(r =~= head + blank + comment);
        assert forall|i: int| 0 <= i < head.len() + 1 implies #[trigger] r[i] != '#' by {
            if i < head.len() {
                assert(r[i] == head[i]);
            }
        }
        chars::lemma_before(r, '#', head.len() as int + 1);
        assert(chars::before(r, '#') =~= front + x + blank);
        chars::lemma_trim_around(front, x, blank);
    }
}

/// The version specifier stands in front of the marker, from the first operator on.
spec fn specified(all: Seq<char>, version: Seq<char>) -> bool {
    let a = chars::leading(all, not_operator()) as int;
    &&& version.len() > 0
    &&& is_operator(version[0])
    &&& a + version.len() <= chars::leading(all, chars::is_not(';'))
    &&& all.subrange(a, a + version.len()) == version
}

/// What the requirement of a text is made of: the target stands in front, and
/// the version specifier, where there is one, starts with an operator.
proof fn lemma_requirement(spec: Seq<char>)
    requires
        requirement(spec) is Some,
    ensures
        ({
            let all = chars::trim(spec);
            let q = requirement(spec)->0;
            let k = chars::leading(all, chars::is_not(';')) as int;
            &&& 0 < q.target.len() <= k <= all.len()
            &&& q.target == all.take(q.target.len() as int)
            &&& !chars::is_space(q.target[0])
            &&& !chars::is_space(q.target.last())
            &&& forall|i: int| 0 <= i < q.target.len() ==> !is_operator(#[trigger] q.target[i])
            &&& q.version == "*"@ || specified(all, q.version)
        }),
{
    let all = chars::trim(spec);
    let q = requirement(spec)->0;
    let r = chars::trim(chars::before(all, ';'));
    let n = chars::leading(r, not_operator()) as int;
    chars::lemma_trim(spec);
    lemma_piece(all);
    lemma_target(r);
    assert(q.target =~= all.take(q.target.len() as int));
    if n < r.len() {
        assert(q.version =~= all.subrange(n, n + q.version.len()));
        chars::lemma_leading(r, not_operator());
        assert forall|i: int| 0 <= i < n implies not_operator()(#[trigger] all[i]) by {
            assert(all[i] == r[i]);
            assert(not_operator()(r[i]));
        }
        assert(all[n] == r[n]);
        chars::lemma_leading_is(all, not_operator(), n);
    }
}

/// What stands before the marker, trimmed, is a prefix of the text.
proof fn lemma_piece(all: Seq<char>)
    requires
        all.len() > 0,
        !chars::is_space(all[0]),
        chars::trim(chars::before(all, ';')).len() > 0,
    ensures
        ({
            let r = chars::trim(chars::before(all, ';'));
            let k = chars::leading(all, chars::is_not(';')) as int;
            &&& r.len() <= k <= all.len()
            &&& r == all.take(r.len() as int)
            &&& !chars::is_space(r[0])
            &&& !chars::is_space(r.last())
        }),
{
    let k = chars::leading(all, chars::is_not(';')) as int;
    let piece = all.take(k);
    let r = chars::trim(piece);
    chars::lemma_leading(all, chars::is_not(';'));
    chars::lemma_trim(piece);
    assert(k > 0);
    assert(piece[0] == all[0]);
    chars::lemma_trim_front(piece);
    assert(r =~= all.take(r.len() as int));
}

/// The target and the version specifier in a requirement.
proof fn lemma_target(r: Seq<char>)
    requires
        r.len() > 0,
        !chars::is_space(r[0]),
        !chars::is_space(r.last()),
    ensures
        ({
            let n = chars::leading(r, not_operator()) as int;
            let target = target_of(r);
            let version = version_of(r);
            &&& n <= r.len()
            &&& chars::trim(chars::before(target, '[')).len() > 0 ==> {
                &&& 0 < target.len() <= r.len()
                &&& target == r.take(target.len() as int)
                &&& !chars::is_space(target[0])
                &&& !chars::is_space(target.last())
                &&& forall|i: int| 0 <= i < target.len() ==> !is_operator(#[trigger] target[i])
            }
            &&& n < r.len() ==> {
                &&& version.len() > 0
                &&& is_operator(version[0])
                &&& n + version.len() <= r.len()
                &&& version == r.subrange(n, n + version.len())
            }
        }),
{
    let n = chars::leading(r, not_operator()) as int;
    chars::lemma_leading(r, not_operator());
    let target = target_of(r);
    if n < r.len() {
        let tail = r.skip(n);
        assert(tail[0] == r[n]);
        chars::lemma_trim_front(tail);
        let version = chars::trim(tail);
        assert(version =~= r.subrange(n, n + version.len()));
    }
    if chars::trim(chars::before(target, '[')).len() > 0 {
        assert(target.len() > 0) by {
            if target.len() == 0 {
                assert(chars::before(target, '[') =~= seq![]);
                chars::lemma_trim(chars::before(target, '['));
            }
        }
        if n < r.len() {
            chars::lemma_trim(r.take(n));
            assert(n > 0);
            chars::lemma_trim_front(r.take(n));
            assert(target =~= r.take(target.len() as int));
        } else {
            assert(target =~= r.take(target.len() as int));
        }
        assert forall|i: int| 0 <= i < target.len() implies !is_operator(#[trigger] target[i]) by {
            assert(target[i] == r[i]);
            assert(not_operator()(r[i]));
        }
    }
}

/// The content of a line is the same with and without its indentation.
proof fn lemma_same_content(line: Seq<char>)
    requires
        chars::trim(chars::before(line, '#')).len() > 0,
    ensures
        chars::trim(chars::before(chars::trim_start(line), '#')) == chars::trim(
            chars::before(line, '#'),
        ),
{
    let h = chars::leading(line, chars::is_not('#')) as int;
    let w = chars::leading(line, chars::space()) as int;
    let content = line.take(h);
    chars::lemma_leading(line, chars::is_not('#'));
    chars::lemma_leading(line, chars::space());
    let c = chars::leading(content, chars::space()) as int;
    chars::lemma_leading(content, chars::space());
    chars::lemma_trim(content);
    assert(c < h) by {
        if c == h {
            assert(content.skip(c) =~= seq![]);
        }
    }
    assert(content[c] == line[c]);
    assert forall|i: int| 0 <= i < c implies chars::space()(#[trigger] line[i]) by {
        assert(chars::space()(content[i]));
    }
    chars::lemma_leading_is(line, chars::space(), c);
    let body = line.skip(w);
    assert forall|i: int| 0 <= i < h - w implies chars::is_not('#')(#[trigger] body[i]) by {
        assert(chars::is_not('#')(line[i + w]));
    }
    if h < line.len() {
        assert(body[h - w] == line[h]);
    }
    chars::lemma_leading_is(body, chars::is_not('#'), h - w);
    assert(body.take(h - w) =~= content.skip(w));
    let rest = content.skip(w);
    assert(rest[0] == content[w]);
    assert(chars::leading(rest, chars::space()) == 0);
    assert(rest.skip(0) =~= rest);
}

/// The parts of a version specifier that is written.
proof fn lemma_version_parts(old: Seq<char>, latest: Seq<char>, preserve: bool)
    requires
        is_written(latest, preserve),
        preserve ==> old.len() > 0 && is_operator(old[0]),
    ensures
        ({
            let v = new_version(old, latest, preserve);
            let p = v.len() - latest.len();
            &&& p > 0
            &&& is_operator(v[0])
            &&& v.skip(p) == latest
            &&& !chars::is_space(v.last())
            &&& preserve ==> p <= old.len() && v.take(p) == old.take(p)
            &&& !preserve ==> p == 2 && v[0] == '=' && v[1] == '='
        }),
{
    reveal_strlit("==");
    let v = new_version(old, latest, preserve);
    let p = v.len() - latest.len();
    chars::lemma_leading(old, chars::not_digit());
    if preserve {
        assert(chars::leading(old, chars::not_digit()) > 0) by {
            if chars::leading(old, chars::not_digit()) == 0 {
                assert(!chars::not_digit()(old[0]));
            }
        }
        assert(v[0] == old[0]);
    }
    assert(v.skip(p) =~= latest);
    if latest.len() > 0 {
        assert(v.last() == latest[latest.len() - 1]);
        assert(is_version_char(latest[latest.len() - 1]));
    }
    if preserve {
        assert(v.take(p) =~= old.take(p));
    }
}

/// Nothing that is written of a requirement holds a `#`, and what stands before
/// the marker holds no `;`.
proof fn lemma_no_hash(line: Seq<char>, q: Requirement, latest: Seq<char>, preserve: bool, i: int)
    requires
        line_requirement(line) == Some(q),
        is_written(latest, preserve),
        preserve ==> q.version != "*"@,
        0 <= i,
    ensures
        ({
            let all = chars::trim(chars::before(line, '#'));
            let x = q.target + new_version(q.version, latest, preserve) + chars::skip_while(
                all,
                chars::is_not(';'),
            );
            i < x.len() ==> x[i] != '#'
        }),
{
    let content = chars::before(line, '#');
    let all = chars::trim(content);
    let k = chars::leading(all, chars::is_not(';')) as int;
    chars::lemma_leading(line, chars::is_not('#'));
    chars::lemma_leading(all, chars::is_not(';'));
    chars::lemma_trim(content);
    lemma_requirement(content);
    lemma_no_hash_in(line);
    let v = new_version(q.version, latest, preserve);
    let m = all.skip(k);
    let x = q.target + v + m;
    let t = q.target.len() as int;
    lemma_version_parts(q.version, latest, preserve);
    lemma_version_chars(all, q, latest, preserve);
    if i < x.len() {
        if i < t {
            assert(x[i] == all[i]);
        } else if i < t + v.len() {
            assert(x[i] == v[i - t]);
        } else {
            assert(x[i] == all[k + (i - t - v.len())]);
        }
    }
}

/// The characters of a written version specifier: of the old one, an equals
/// sign, or of the version number.
proof fn lemma_version_chars(all: Seq<char>, q: Requirement, latest: Seq<char>, preserve: bool)
    requires
        is_written(latest, preserve),
        preserve ==> specified(all, q.version),
        forall|j: int| 0 <= j < all.len() ==> #[trigger] all[j] != '#',
    ensures
        forall|i: int|
            0 <= i < new_version(q.version, latest, preserve).len() ==> #[trigger] new_version(
                q.version,
                latest,
                preserve,
            )[i] != '#' && new_version(q.version, latest, preserve)[i] != ';',
{
    let v = new_version(q.version, latest, preserve);
    let p = v.len() - latest.len();
    chars::lemma_leading(all, chars::is_not(';'));
    lemma_version_parts(q.version, latest, preserve);
    assert forall|i: int| 0 <= i < v.len() implies #[trigger] v[i] != '#' && v[i] != ';' by {
        if i >= p {
            assert(v[i] == v.skip(p)[i - p]);
            assert(is_version_char(latest[i - p]));
        } else if preserve {
            let a = chars::leading(all, not_operator()) as int;
            assert(v[i] == v.take(p)[i]);
            assert(q.version.take(p)[i] == q.version[i]);
            assert(q.version[i] == all[a + i]);
            assert(chars::is_not(';')(all[a + i]));
        }
    }
}

/// A stretch of a text in which `p` stands nowhere does not hold it either.
proof fn lemma_no_occurrence(s: Seq<char>, a: int, b: int, p: Seq<char>, i: int)
    requires
        0 <= a <= b <= s.len(),
        !chars::has(s, p),
    ensures
        !chars::occurs(s.subrange(a, b), p, i),
{
    chars::lemma_find(s, p);
    let t = s.subrange(a, b);
    if chars::occurs(t, p, i) {
        assert(t.subrange(i, i + p.len()) =~= s.subrange(a + i, a + i + p.len()));
        assert(chars::occurs(s, p, a + i));
    }
}

/// What is written refers to no URL.
proof fn lemma_no_reference(all: Seq<char>, q: Requirement, latest: Seq<char>, preserve: bool)
    requires
        is_written(latest, preserve),
        !chars::has(all, " @ "@),
        preserve ==> specified(all, q.version),
        0 < q.target.len() <= all.len(),
        q.target == all.take(q.target.len() as int),
    ensures
        !chars::has(
            q.target + new_version(q.version, latest, preserve) + chars::skip_while(
                all,
                chars::is_not(';'),
            ),
            " @ "@,
        ),
{
    reveal_strlit(" @ ");
    let at = " @ "@;
    let v = new_version(q.version, latest, preserve);
    let k = chars::leading(all, chars::is_not(';')) as int;
    let m = all.skip(k);
    let x = q.target + v + m;
    let t = q.target.len() as int;
    let p = v.len() - latest.len();
    chars::lemma_leading(all, chars::is_not(';'));
    lemma_version_parts(q.version, latest, preserve);
    chars::lemma_find(x, at);
    if chars::has(x, at) {
        let i = chars::find(x, at)->0 as int;
        assert(x.subrange(i, i + 3)[0] == x[i]);
        assert(x.subrange(i, i + 3)[1] == x[i + 1]);
        assert(x.subrange(i, i + 3)[2] == x[i + 2]);
        assert(x[i] == ' ' && x[i + 1] == '@' && x[i + 2] == ' ');
        assert(x[t] == v[0]);
        if latest.len() > 0 {
            assert(x[t + p] == v.skip(p)[0]);
            assert(is_version_char(latest[0]));
        } else if m.len() > 0 {
            assert(x[t + p] == all[k]);
        }
        if i + 2 < t {
            assert(q.target =~= all.subrange(0, t));
            lemma_no_occurrence(all, 0, t, at, i);
            assert(q.target.subrange(i, i + 3) =~= x.subrange(i, i + 3));
        } else if i < t {
            assert(x[t] == x[i + 1] || x[t] == x[i + 2]);
        } else if i + 2 < t + p {
            if preserve {
                let a = chars::leading(all, not_operator()) as int;
                lemma_no_occurrence(all, a, a + q.version.len(), at, i - t);
                let old = q.version;
                assert(x[i] == v.take(p)[i - t] && old.take(p)[i - t] == old[i - t]);
                assert(x[i + 1] == v.take(p)[i - t + 1] && old.take(p)[i - t + 1] == old[i - t
                    + 1]);
                assert(x[i + 2] == v.take(p)[i - t + 2] && old.take(p)[i - t + 2] == old[i - t
                    + 2]);
                assert(old.subrange(i - t, i - t + 3) =~= x.subrange(i, i + 3));
                assert(chars::occurs(q.version, at, i - t));
            }
        } else if i < t + p {
            assert(x[t + p] == x[i] || x[t + p] == x[i + 1] || x[t + p] == x[i + 2]);
        } else if i < t + v.len() {
            assert(x[i] == v.skip(p)[i - t - p]);
            assert(is_version_char(latest[i - t - p]));
        } else {
            let j = i - t - v.len();
            assert(m =~= all.subrange(k, all.len() as int));
            lemma_no_occurrence(all, k, all.len() as int, at, j);
            assert(m.subrange(j, j + 3) =~= x.subrange(i, i + 3));
        }
    }
}

/// What is written states the requirement at the latest version.
proof fn lemma_written(all: Seq<char>, q: Requirement, latest: Seq<char>, preserve: bool)
    requires
        is_written(latest, preserve),
        preserve ==> specified(all, q.version),
        forall|j: int| 0 <= j < all.len() ==> #[trigger] all[j] != '#',
        0 < q.target.len() <= chars::leading(all, chars::is_not(';')),
        q.target == all.take(q.target.len() as int),
        !chars::is_space(q.target[0]),
        !chars::is_space(q.target.last()),
        forall|i: int| 0 <= i < q.target.len() ==> !is_operator(#[trigger] q.target[i]),
    ensures
        ({
            let v = new_version(q.version, latest, preserve);
            let x = q.target + v + chars::skip_while(all, chars::is_not(';'));
            let r = chars::trim(chars::before(x, ';'));
            &&& r == q.target + v
            &&& target_of(r) == q.target
            &&& version_of(r) == v
            &&& chars::skip_while(x, chars::is_not(';')) == chars::skip_while(
                all,
                chars::is_not(';'),
            )
        }),
{
    let v = new_version(q.version, latest, preserve);
    let k = chars::leading(all, chars::is_not(';')) as int;
    let m = all.skip(k);
    let x = q.target + v + m;
    let r = q.target + v;
    let t = q.target.len() as int;
    chars::lemma_leading(all, chars::is_not(';'));
    lemma_version_parts(q.version, latest, preserve);
    lemma_version_chars(all, q, latest, preserve);
    assert forall|i: int| 0 <= i < r.len() implies #[trigger] x[i] != ';' by {
        if i < t {
            assert(chars::is_not(';')(all[i]));
        } else {
            assert(x[i] == v[i - t]);
        }
    }
    if m.len() > 0 {
        assert(x[r.len() as int] == all[k]);
        chars::lemma_before(x, ';', r.len() as int);
    } else {
        chars::lemma_before_all(x, ';');
    }
    assert(chars::before(x, ';') =~= r);
    chars::lemma_leading(x, chars::is_not(';'));
    assert(x.skip(r.len() as int) =~= m);
    chars::lemma_trim_is(r);
    assert(r[t] == v[0]);
    assert forall|i: int| 0 <= i < t implies not_operator()(#[trigger] r[i]) by {
        assert(r[i] == q.target[i]);
    }
    chars::lemma_leading_is(r, not_operator(), t);
    assert(r.take(t) =~= q.target);
    assert(r.skip(t) =~= v);
    chars::lemma_trim_is(q.target);
    chars::lemma_trim_is(v);
}

/// A file that no update concerns stays as it is, but for carriage returns at the
/// ends of its lines.
pub proof fn law_no_update_no_change(content: Seq<char>, updates: Seq<Dep>, preserve: bool)
    requires
        forall|i: int|
            0 <= i < content.len() - 1 ==> !(#[trigger] content[i] == '\r' && content[i + 1]
                == '\n'),
        forall|i: int|
            0 <= i < chars::lines(content).len() ==> match line_requirement(
                #[trigger] chars::lines(content)[i],
            ) {
                Some(q) => update_for(updates, q.name) is None,
                None => true,
            },
    ensures
        updated(content, updates, preserve) == content,
{
    let lines = chars::lines(content);
    assert(updated_lines(lines, updates, preserve) =~= lines);
    chars::lemma_relined_same(content);
}

/// The packages at the versions that the updates move them to.
pub open spec fn moved(items: Seq<Dep>, updates: Seq<Dep>, preserve: bool) -> Seq<Dep> {
    items.map_values(
        |dep: Dep|
            match update_for(updates, dep.name) {
                Some(update) => match update.latest {
                    Some(latest) => Dep::fresh(
                        dep.name,
                        new_version(dep.current, latest, preserve),
                        DepType::Normal,
                    ),
                    None => dep,
                },
                None => dep,
            },
    )
}

/// Where an update moves a package of the file, it moves it to a version number,
/// and a range that is preserved has an operator.
pub open spec fn is_movable(lines: Seq<Seq<char>>, updates: Seq<Dep>, preserve: bool) -> bool {
    forall|i: int|
        0 <= i < lines.len() ==> match line_requirement(#[trigger] lines[i]) {
            Some(q) => match update_for(updates, q.name) {
                Some(update) => match update.latest {
                    Some(latest) => is_written(latest, preserve) && (preserve ==> q.version != "*"@),
                    None => true,
                },
                None => true,
            },
            None => true,
        }
}

/// The update of a package is one of that name.
proof fn lemma_update_named(updates: Seq<Dep>, name: Seq<char>)
    ensures
        update_for(updates, name) matches Some(dep) ==> dep.name == name,
    decreases updates.len(),
{
    if updates.len() > 0 {
        lemma_update_named(updates.skip(1), name);
    }
}

/// What is written of a requirement holds no character that neither the line nor
/// a version specifier has.
proof fn lemma_written_chars(
    all: Seq<char>,
    q: Requirement,
    latest: Seq<char>,
    preserve: bool,
    k: char,
    i: int,
)
    requires
        is_written(latest, preserve),
        preserve ==> specified(all, q.version),
        forall|j: int| 0 <= j < all.len() ==> #[trigger] all[j] != k,
        q.target.len() <= all.len(),
        q.target == all.take(q.target.len() as int),
        !is_version_char(k),
        k != '=',
        0 <= i,
    ensures
        ({
            let x = q.target + new_version(q.version, latest, preserve) + chars::skip_while(
                all,
                chars::is_not(';'),
            );
            i < x.len() ==> x[i] != k
        }),
{
    let v = new_version(q.version, latest, preserve);
    let p = v.len() - latest.len();
    let t = q.target.len() as int;
    let s = chars::leading(all, chars::is_not(';')) as int;
    let x = q.target + v + all.skip(s);
    chars::lemma_leading(all, chars::is_not(';'));
    lemma_version_parts(q.version, latest, preserve);
    if i < x.len() {
        if i < t {
            assert(x[i] == all[i]);
        } else if i < t + v.len() {
            let j = i - t;
            assert(x[i] == v[j]);
            if j >= p {
                assert(v[j] == v.skip(p)[j - p]);
                assert(is_version_char(latest[j - p]));
            } else if preserve {
                let a = chars::leading(all, not_operator()) as int;
                assert(v[j] == v.take(p)[j]);
                assert(q.version.take(p)[j] == q.version[j]);
                assert(all.subrange(a, a + q.version.len())[j] == all[a + j]);
            }
        } else {
            assert(x[i] == all[s + (i - t - v.len())]);
        }
    }
}

/// A rewritten line is still one line, not empty, and ends as it did or not in
/// white space.
proof fn lemma_still_a_line(line: Seq<char>, dep: Dep, preserve: bool)
    requires
        chars::is_one_line(line),
        line_requirement(line) is Some,
        line_requirement(line)->0.name == dep.name,
        dep.latest is Some,
        is_written(dep.latest->0, preserve),
        preserve ==> line_requirement(line)->0.version != "*"@,
    ensures
        chars::is_one_line(rewritten(line, dep, preserve)),
        rewritten(line, dep, preserve).len() > 0,
        !chars::ends_return(line) ==> !chars::ends_return(rewritten(line, dep, preserve)),
{
    let latest = dep.latest->0;
    let q = line_requirement(line)->0;
    let content = chars::before(line, '#');
    let all = chars::trim(content);
    let body = chars::trim_start(line);
    let front = chars::take_while(line, chars::space());
    let v = new_version(q.version, latest, preserve);
    let m = chars::skip_while(all, chars::is_not(';'));
    let x = q.target + v + m;
    let comment = chars::skip_while(body, chars::is_not('#'));
    lemma_requirement(content);
    lemma_same_content(line);
    chars::lemma_leading(line, chars::space());
    chars::lemma_leading(line, chars::is_not('#'));
    chars::lemma_leading(all, chars::is_not(';'));
    chars::lemma_leading(body, chars::is_not('#'));
    chars::lemma_trim(content);
    let a = choose|a: int|
        0 <= a && a + all.len() <= content.len() && #[trigger] content.subrange(a, a + all.len())
            == all;
    assert forall|j: int| 0 <= j < all.len() implies #[trigger] all[j] != '\n' by {
        assert(content.subrange(a, a + all.len())[j] == line[a + j]);
    }
    lemma_version_parts(q.version, latest, preserve);
    let head = front + x;
    assert(front + q.target + v + m =~= head);
    assert forall|i: int| 0 <= i < head.len() implies #[trigger] head[i] != '\n' by {
        if i < front.len() {
            assert(head[i] == line[i]);
        } else {
            lemma_written_chars(all, q, latest, preserve, '\n', i - front.len());
        }
    }
    assert forall|i: int| 0 <= i < comment.len() implies #[trigger] comment[i] != '\n' by {
        assert(comment[i] == line[line.len() - comment.len() + i]);
    }
    let r = with_comment(head, comment);
    assert(x.last() == if m.len() > 0 {
        all.last()
    } else {
        v.last()
    });
    assert(head.last() == x.last());
    if comment.len() > 0 {
        assert(comment.skip(0) =~= comment);
        assert(chars::trim_start(comment) == comment);
        assert(r =~= head.push(' ') + comment);
        assert(r.last() == line.last());
        assert forall|i: int| 0 <= i < r.len() implies #[trigger] r[i] != '\n' by {
            if i < head.len() {
                assert(r[i] == head[i]);
            } else if i > head.len() {
                assert(r[i] == comment[i - head.len() - 1]);
            }
        }
    }
}

proof fn lemma_updated_line(line: Seq<char>, updates: Seq<Dep>, preserve: bool)
    requires
        chars::is_one_line(line),
        is_movable(seq![line], updates, preserve),
    ensures
        chars::is_one_line(updated_line(line, updates, preserve)),
        !chars::ends_return(line) ==> !chars::ends_return(updated_line(line, updates, preserve)),
        line.len() > 0 ==> updated_line(line, updates, preserve).len() > 0,
        match line_requirement(line) {
            Some(q) => match update_for(updates, q.name) {
                Some(update) => match update.latest {
                    Some(latest) => line_requirement(
                        updated_line(line, updates, preserve),
                    ) matches Some(p) && p.name == q.name && p.version == new_version(
                        q.version,
                        latest,
                        preserve,
                    ),
                    None => updated_line(line, updates, preserve) == line,
                },
                None => updated_line(line, updates, preserve) == line,
            },
            None => updated_line(line, updates, preserve) == line,
        },
{
    assert(seq![line][0] == line);
    if let Some(q) = line_requirement(line) {
        lemma_update_named(updates, q.name);
        if let Some(update) = update_for(updates, q.name) {
            if update.latest is Some {
                lemma_still_a_line(line, update, preserve);
                law_rewritten_line_reads_back(line, update, preserve);
            }
        }
    }
}

proof fn lemma_updated_lines(content: Seq<char>, updates: Seq<Dep>, preserve: bool)
    requires
        chars::is_relinable(content),
        is_movable(chars::lines(content), updates, preserve),
    ensures
        chars::lines(updated(content, updates, preserve)) == updated_lines(
            chars::lines(content),
            updates,
            preserve,
        ),
{
    let lines = chars::lines(content);
    let items = updated_lines(lines, updates, preserve);
    chars::lemma_lines(content);
    assert forall|i: int| 0 <= i < items.len() implies chars::is_one_line(#[trigger] items[i]) && (
    !chars::ends_return(lines[i]) ==> !chars::ends_return(items[i])) && (lines[i].len() > 0
        ==> items[i].len() > 0) by {
        lemma_updated_line(lines[i], updates, preserve);
    }
    assert forall|i: int|
        0 <= i < items.len() && (i < items.len() - 1 || chars::ends_line(
            content,
        )) implies !chars::ends_return(#[trigger] items[i]) by {
        assert(!chars::ends_return(lines[i]));
    }
    if items.len() > 0 {
        assert(items.last() == items[items.len() - 1]);
    }
    chars::lemma_relined(content, items);
}

proof fn lemma_moved(lines: Seq<Seq<char>>, updates: Seq<Dep>, preserve: bool)
    requires
        forall|i: int| 0 <= i < lines.len() ==> chars::is_one_line(#[trigger] lines[i]),
        is_movable(lines, updates, preserve),
    ensures
        listed(updated_lines(lines, updates, preserve)) == moved(listed(lines), updates, preserve),
    decreases lines.len(),
{
    let items = updated_lines(lines, updates, preserve);
    if lines.len() == 0 {
        assert(moved(listed(lines), updates, preserve) =~= seq![]);
    } else {
        let init = lines.drop_last();
        let line = lines.last();
        assert(line == lines[lines.len() - 1]);
        assert forall|i: int| 0 <= i < init.len() implies chars::is_one_line(
            #[trigger] init[i],
        ) by {
            assert(init[i] == lines[i]);
        }
        assert(is_movable(init, updates, preserve)) by {
            assert forall|i: int| 0 <= i < init.len() implies init[i] == #[trigger] lines[i] by {}
        }
        assert(is_movable(seq![line], updates, preserve));
        lemma_moved(init, updates, preserve);
        lemma_updated_line(line, updates, preserve);
        assert(items.drop_last() =~= updated_lines(init, updates, preserve));
        let before = listed(init);
        if let Some(q) = line_requirement(line) {
            let dep = Dep::fresh(q.name, q.version, DepType::Normal);
            assert(moved(before.push(dep), updates, preserve) =~= moved(
                before,
                updates,
                preserve,
            ).push(moved(seq![dep], updates, preserve)[0]));
        }
    }
}

/// Reading an updated file gives the same packages, each at the version that it
/// was moved to.
pub proof fn law_updated_file_reads_back(content: Seq<char>, updates: Seq<Dep>, preserve: bool)
    requires
        chars::is_relinable(content),
        is_movable(chars::lines(content), updates, preserve),
    ensures
        listed(chars::lines(updated(content, updates, preserve))) == moved(
            listed(chars::lines(content)),
            updates,
            preserve,
        ),
{
    chars::lemma_lines(content);
    lemma_updated_lines(content, updates, preserve);
    lemma_moved(chars::lines(content), updates, preserve);
}

} // verus!
