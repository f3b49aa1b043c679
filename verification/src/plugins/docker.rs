//! Docker images in Dockerfiles and compose files.
use std::cmp::Ordering;
use vstd::prelude::*;
use vstd::string::*;
use crate::chars;
use crate::plugin::{Dep, DepType, Dependency, Dir, Directory, Plugin, deps, title, titled};
use crate::text;
use crate::version;

verus! {

/// The file name is that of a Dockerfile.
pub open spec fn dockerfile_name(name: Seq<char>) -> bool {
    name == "Dockerfile"@ || chars::starts_with(name, "Dockerfile."@)
}

/// The file name is that of a compose file.
pub open spec fn compose_name(name: Seq<char>) -> bool {
    ||| name == "docker-compose.yml"@
    ||| name == "docker-compose.yaml"@
    ||| name == "compose.yml"@
    ||| name == "compose.yaml"@
}

pub fn is_dockerfile_name(name: &str) -> (r: bool)
    ensures
        r == dockerfile_name(name@),
{
    text::eq(name, "Dockerfile") || text::starts_with(name, "Dockerfile.")
}

pub fn is_compose_name(name: &str) -> (r: bool)
    ensures
        r == compose_name(name@),
{
    text::eq(name, "docker-compose.yml") || text::eq(name, "docker-compose.yaml") || text::eq(
        name,
        "compose.yml",
    ) || text::eq(name, "compose.yaml")
}

/// The file is a Dockerfile or a compose file.
pub open spec fn is_manifest() -> spec_fn(Seq<char>) -> bool {
    |name: Seq<char>| dockerfile_name(name) || compose_name(name)
}

fn is_manifest_name(name: &str) -> (r: bool)
    ensures
        r == is_manifest()(name@),
{
    is_dockerfile_name(name) || is_compose_name(name)
}

/// The Dockerfiles and compose files among the files of a directory, in order.
pub open spec fn manifests_of(files: Seq<Seq<char>>) -> Seq<Seq<char>> {
    chars::sort(files.filter(is_manifest()))
}

pub fn manifest_files(files: &Vec<String>) -> (r: Vec<String>)
    ensures
        chars::views(r@) == manifests_of(chars::views(files@)),
{
    text::sort(text::keep(files, is_manifest_name, Ghost(is_manifest())))
}

/// Looks after Dockerfiles and compose files.
#[derive(Debug, Clone, Copy)]
pub struct DockerPlugin;

impl DockerPlugin {
    pub fn new() -> (r: Self)
        ensures
            r == DockerPlugin,
    {
        DockerPlugin
    }
}

impl Plugin for DockerPlugin {
    open spec fn name_text(&self) -> Seq<char> {
        "docker"@
    }

    open spec fn file_text(&self) -> Seq<char> {
        "Dockerfile* / docker-compose.yml"@
    }

    open spec fn detected(&self, dir: Dir) -> bool {
        manifests_of(dir.files).len() > 0
    }

    open spec fn display_text(&self, dir: Dir) -> Seq<char> {
        let names = manifests_of(dir.files);
        titled(
            "docker"@,
            if names.len() > 0 {
                chars::join(names, ", "@)
            } else {
                "Dockerfile* / docker-compose.yml"@
            },
        )
    }

    fn name(&self) -> (r: &'static str) {
        "docker"
    }

    fn file_name(&self) -> (r: &'static str) {
        "Dockerfile* / docker-compose.yml"
    }

    fn detect(&self, dir: &Directory) -> (r: bool) {
        manifest_files(&dir.files).len() > 0
    }

    fn display_name(&self, dir: &Directory) -> (r: String) {
        let names: Vec<String> = manifest_files(&dir.files);
        if names.len() > 0 {
            title("docker", text::join(&names, ", ").as_str())
        } else {
            title("docker", "Dockerfile* / docker-compose.yml")
        }
    }
}

/// `s` starts and ends with a `q`, and these are two.
pub open spec fn quoted(s: Seq<char>, q: char) -> bool {
    s.len() >= 2 && s[0] == q && s.last() == q
}

/// `s` without the pair of double or single quotes that it stands in, if any.
pub open spec fn unquote(s: Seq<char>) -> Seq<char> {
    if quoted(s, '"') || quoted(s, '\'') {
        s.subrange(1, s.len() - 1)
    } else {
        s
    }
}

pub fn strip_quotes(value: &str) -> (r: &str)
    ensures
        r@ == unquote(value@),
{
    let n: usize = value.unicode_len();
    if n >= 2 {
        let first: char = value.get_char(0);
        let last: char = value.get_char(n - 1);
        if (first == '"' && last == '"') || (first == '\'' && last == '\'') {
            return value.substring_char(1, n - 1);
        }
    }
    value
}

/// An image and its tag.
#[derive(Debug, Clone, PartialEq, Eq)]
pub struct ParsedImage {
    pub name: String,
    pub current_version: String,
}

/// The image and the tag of a reference: the tag follows the last colon, which
/// no slash follows. A reference by digest or with a variable in it has none.
pub open spec fn image(s: Seq<char>) -> Option<(Seq<char>, Seq<char>)> {
    let token = unquote(chars::trim(s));
    if token.contains('@') || chars::has(token, "${"@) {
        None
    } else {
        match chars::before_last(token, ':') {
            Some(head) => {
                let tail = chars::after_last(token, ':');
                let name = chars::trim(head);
                let tag = chars::trim(tail);
                if tail.contains('/') || name.len() == 0 || tag.len() == 0 {
                    None
                } else {
                    Some((name, tag))
                }
            },
            None => None,
        }
    }
}

pub open spec fn image_of(r: Option<ParsedImage>) -> Option<(Seq<char>, Seq<char>)> {
    match r {
        Some(p) => Some((p.name@, p.current_version@)),
        None => None,
    }
}

pub fn parse_image_reference(value: &str) -> (r: Option<ParsedImage>)
    ensures
        image_of(r) == image(value@),
{
    let token: &str = strip_quotes(text::trim(value));
    if text::has_char(token, '@') || text::has(token, "${") {
        return None;
    }
    match text::before_last(token, ':') {
        Some(head) => {
            let tail: &str = text::after_last(token, ':');
            let name: &str = text::trim(head);
            let tag: &str = text::trim(tail);
            if text::has_char(tail, '/') || name.is_empty() || tag.is_empty() {
                None
            } else {
                Some(ParsedImage { name: name.to_owned(), current_version: tag.to_owned() })
            }
        },
        None => None,
    }
}

/// An image in a line, with the place of its reference there: the characters
/// from `start` up to `end`.
pub struct Occurrence {
    pub name: Seq<char>,
    pub tag: Seq<char>,
    pub start: int,
    pub end: int,
}

/// The image that `token` refers to, placed where `token` first occurs in the
/// line after its indentation.
pub open spec fn placed(line: Seq<char>, token: Seq<char>) -> Option<Occurrence> {
    let body = chars::trim_start(line);
    match (image(token), chars::find(body, token)) {
        (Some((name, tag)), Some(at)) => {
            let start = line.len() - body.len() + at;
            Some(Occurrence { name, tag, start, end: start + token.len() })
        },
        _ => None,
    }
}

/// The first of the words that is no flag.
pub open spec fn first_operand(words: Seq<Seq<char>>) -> Option<Seq<char>>
    decreases words.len(),
{
    if words.len() == 0 {
        None
    } else if chars::starts_with(words[0], "--"@) {
        first_operand(words.skip(1))
    } else {
        Some(words[0])
    }
}

/// The image of a line of a Dockerfile: the first operand of `FROM`, in any case.
pub open spec fn from_line(line: Seq<char>) -> Option<Occurrence> {
    let body = chars::trim_start(line);
    let words = chars::words(body);
    if (body.len() > 0 && body[0] == '#') || words.len() == 0 || chars::lower(words[0])
        != chars::lower("FROM"@) {
        None
    } else {
        match first_operand(words.skip(1)) {
            Some(token) => placed(line, token),
            None => None,
        }
    }
}

/// The reference in the value of a compose file's `image:` key: what stands in
/// the quotes that it starts with, or its first word up to a comment.
pub open spec fn compose_token(value: Seq<char>) -> Option<Seq<char>> {
    if value.len() == 0 {
        None
    } else if value[0] == '"' || value[0] == '\'' {
        match chars::after(value.skip(1), value[0]) {
            Some(_) => Some(chars::before(value.skip(1), value[0])),
            None => None,
        }
    } else {
        Some(chars::trim(chars::before(chars::words(value)[0], '#')))
    }
}

/// The image of a line of a compose file.
pub open spec fn image_line(line: Seq<char>) -> Option<Occurrence> {
    match chars::strip_prefix(chars::trim_start(line), "image:"@) {
        Some(rest) => match compose_token(chars::trim_start(rest)) {
            Some(token) => placed(line, token),
            None => None,
        },
        None => None,
    }
}

/// The image of a line of a manifest: a Dockerfile's where the dependencies are
/// build dependencies, a compose file's where they are normal ones.
pub open spec fn occurrence(line: Seq<char>, dep_type: DepType) -> Option<Occurrence> {
    match dep_type {
        DepType::Build => from_line(line),
        DepType::Normal => image_line(line),
        _ => None,
    }
}

#[derive(Debug, Clone, PartialEq, Eq)]
pub struct ParsedOccurrence {
    pub name: String,
    pub current_version: String,
    /// The byte of the line at which the reference starts.
    pub replace_start: usize,
    /// The byte of the line at which it ends.
    pub replace_end: usize,
    pub dep_type: DepType,
}

/// What was read of a line is what it says, with the place in bytes.
pub open spec fn found(
    r: Option<ParsedOccurrence>,
    line: Seq<char>,
    o: Option<Occurrence>,
    dep_type: DepType,
) -> bool {
    match (r, o) {
        (Some(p), Some(o)) => {
            &&& p.name@ == o.name
            &&& p.current_version@ == o.tag
            &&& p.replace_start == chars::bytes(line.take(o.start))
            &&& p.replace_end == chars::bytes(line.take(o.end))
            &&& p.dep_type == dep_type
        },
        (None, None) => true,
        _ => false,
    }
}

/// An occurrence with its place in characters.
struct Place {
    name: String,
    tag: String,
    start: usize,
    end: usize,
}

spec fn place_of(r: Option<Place>) -> Option<Occurrence> {
    match r {
        Some(p) => Some(
            Occurrence { name: p.name@, tag: p.tag@, start: p.start as int, end: p.end as int },
        ),
        None => None,
    }
}

spec fn fits(r: Option<Place>, line: Seq<char>) -> bool {
    match r {
        Some(p) => p.start <= p.end && p.end <= line.len(),
        None => true,
    }
}

fn place(line: &str, token: &str) -> (r: Option<Place>)
    ensures
        place_of(r) == placed(line@, token@),
        fits(r, line@),
{
    let body: &str = text::trim_start(line);
    proof {
        chars::lemma_leading(line@, chars::space());
    }
    match parse_image_reference(token) {
        Some(image) => match text::find(body, token) {
            Some(at) => {
                let len: usize = line.unicode_len();
                let start: usize = len - body.unicode_len() + at;
                let end: usize = start + token.unicode_len();
                Some(Place { name: image.name, tag: image.current_version, start, end })
            },
            None => None,
        },
        None => None,
    }
}

fn find_from(line: &str) -> (r: Option<Place>)
    ensures
        place_of(r) == from_line(line@),
        fits(r, line@),
{
    let body: &str = text::trim_start(line);
    let words: Vec<&str> = text::words(body);
    let ghost all = chars::words(body@);
    assert(all =~= chars::strs(words@));
    if text::starts_with_char(body, '#') || words.len() == 0 {
        return None;
    }
    if !text::eq_ignore_case(words[0], "FROM") {
        return None;
    }
    assert(all.skip(1).skip(0) =~= all.skip(1));
    let mut i: usize = 1;
    while i < words.len()
        invariant
            1 <= i <= words.len(),
            all == chars::strs(words@),
            first_operand(all.skip(1)) == first_operand(all.skip(i as int)),
            from_line(line@) == (match first_operand(all.skip(1)) {
                Some(token) => placed(line@, token),
                None => None,
            }),
        decreases words.len() - i,
    {
        if !text::starts_with(words[i], "--") {
            assert(all.skip(i as int)[0] == words@[i as int]@);
            return place(line, words[i]);
        }
        assert(all.skip(i as int).skip(1) =~= all.skip(i + 1));
        i = i + 1;
    }
    None
}

fn find_image(line: &str) -> (r: Option<Place>)
    ensures
        place_of(r) == image_line(line@),
        fits(r, line@),
{
    let body: &str = text::trim_start(line);
    let value: &str = match text::strip_prefix(body, "image:") {
        Some(rest) => text::trim_start(rest),
        None => {
            return None;
        },
    };
    if value.is_empty() {
        return None;
    }
    let first: char = value.get_char(0);
    if first == '"' || first == '\'' {
        let rest: &str = text::skip(value, 1);
        match text::after(rest, first) {
            Some(_) => place(line, text::before(rest, first)),
            None => None,
        }
    } else {
        let words: Vec<&str> = text::words(value);
        proof {
            lemma_words_of_value(value@);
            assert(chars::strs(words@)[0] == words@[0]@);
        }
        place(line, text::trim(text::before(words[0], '#')))
    }
}

/// A trimmed text that is not empty has a word.
proof fn lemma_words_of_value(value: Seq<char>)
    requires
        exists|rest: Seq<char>| value == #[trigger] chars::trim_start(rest),
        value.len() > 0,
    ensures
        chars::words(value).len() > 0,
{
    let rest = choose|rest: Seq<char>| value == #[trigger] chars::trim_start(rest);
    chars::lemma_leading(rest, chars::space());
    assert(value[0] == rest[chars::leading(rest, chars::space()) as int]);
    assert(chars::leading(value, chars::space()) == 0);
    assert(value.skip(0) =~= value);
}

fn find_place(line: &str, dep_type: DepType) -> (r: Option<Place>)
    ensures
        place_of(r) == occurrence(line@, dep_type),
        fits(r, line@),
{
    match dep_type {
        DepType::Build => find_from(line),
        DepType::Normal => find_image(line),
        _ => None,
    }
}

/// An occurrence with its place in bytes.
fn in_bytes(line: &str, place: Option<Place>, dep_type: DepType) -> (r: Option<ParsedOccurrence>)
    requires
        fits(place, line@),
    ensures
        found(r, line@, place_of(place), dep_type),
{
    match place {
        Some(p) => Some(
            ParsedOccurrence {
                name: p.name,
                current_version: p.tag,
                replace_start: text::byte_len(text::take(line, p.start)),
                replace_end: text::byte_len(text::take(line, p.end)),
                dep_type,
            },
        ),
        None => None,
    }
}

pub fn parse_dockerfile_occurrence(line: &str) -> (r: Option<ParsedOccurrence>)
    ensures
        found(r, line@, from_line(line@), DepType::Build),
{
    in_bytes(line, find_from(line), DepType::Build)
}

pub fn parse_compose_occurrence(line: &str) -> (r: Option<ParsedOccurrence>)
    ensures
        found(r, line@, image_line(line@), DepType::Normal),
{
    in_bytes(line, find_image(line), DepType::Normal)
}

pub fn parse_line(line: &str, dep_type: DepType) -> (r: Option<ParsedOccurrence>)
    ensures
        found(r, line@, occurrence(line@, dep_type), dep_type),
{
    in_bytes(line, find_place(line, dep_type), dep_type)
}

/// The Docker Hub repository of an image: the path below the registry's host
/// where that is Docker Hub, in `library/` where it has one component. An image
/// of another registry has none.
pub open spec fn hub_repo(name: Seq<char>) -> Option<Seq<char>> {
    let first = chars::before(name, '/');
    let path = if first.contains('.') || first.contains(':') || first == "localhost"@ {
        if first == "docker.io"@ || first == "index.docker.io"@ || first
            == "registry-1.docker.io"@ {
            chars::after(name, '/')
        } else {
            None
        }
    } else {
        Some(name)
    };
    match path {
        Some(repo) => if repo.contains('/') {
            Some(repo)
        } else {
            Some("library/"@ + repo)
        },
        None => None,
    }
}

pub fn docker_hub_repo(name: &str) -> (r: Option<String>)
    ensures
        chars::opt(r) == hub_repo(name@),
{
    let first: &str = text::before(name, '/');
    let repo: &str = if text::has_char(first, '.') || text::has_char(first, ':') || text::eq(
        first,
        "localhost",
    ) {
        if !(text::eq(first, "docker.io") || text::eq(first, "index.docker.io") || text::eq(
            first,
            "registry-1.docker.io",
        )) {
            return None;
        }
        match text::after(name, '/') {
            Some(rest) => rest,
            None => {
                return None;
            },
        }
    } else {
        name
    };
    if text::has_char(repo, '/') {
        Some(repo.to_owned())
    } else {
        let mut out: String = "library/".to_owned();
        out.append(repo);
        Some(out)
    }
}

/// `s` without one `v` in front.
pub open spec fn without_v(s: Seq<char>) -> Seq<char> {
    if s.len() > 0 && s[0] == 'v' {
        s.skip(1)
    } else {
        s
    }
}

/// The version parts of a tag, and the suffix after them.
pub open spec fn version_tag(tag: Seq<char>) -> Option<(Seq<u64>, Seq<char>)> {
    let s = without_v(tag);
    match version::dotted(chars::take_while(s, version::digit_or_dot())) {
        Some(parts) => Some((parts, chars::skip_while(s, version::digit_or_dot()))),
        None => None,
    }
}

pub open spec fn tag_of(r: Option<(Vec<u64>, &str)>) -> Option<(Seq<u64>, Seq<char>)> {
    match r {
        Some((parts, suffix)) => Some((parts@, suffix@)),
        None => None,
    }
}

pub fn parse_version_tag(tag: &str) -> (r: Option<(Vec<u64>, &str)>)
    ensures
        tag_of(r) == version_tag(tag@),
{
    let s: &str = if text::starts_with_char(tag, 'v') {
        text::skip(tag, 1)
    } else {
        tag
    };
    let test = |c: char| -> (b: bool)
        ensures
            b == (chars::is_digit(c) || c == '.'),
    {
        text::is_digit(c) || c == '.'
    };
    let n: usize = text::leading(s, test, Ghost(version::digit_or_dot()));
    match version::parse_dotted(text::take(s, n)) {
        Some(parts) => Some((parts, text::skip(s, n))),
        None => None,
    }
}

/// How two versions compare, a version that ends early having zeros there.
pub fn version_cmp(left: &[u64], right: &[u64]) -> (r: Ordering)
    ensures
        r == Ordering::Equal <==> version::same(left@, right@),
        r == Ordering::Greater <==> version::newer(left@, right@),
        r == Ordering::Less <==> version::newer(right@, left@),
{
    let n: usize = if left.len() < right.len() {
        right.len()
    } else {
        left.len()
    };
    let mut i: usize = 0;
    while i < n
        invariant
            left@.len() <= n,
            right@.len() <= n,
            i <= n,
            version::agree(left@, right@, index(i)),
        decreases n - i,
    {
        let l: u64 = if i < left.len() {
            left[i]
        } else {
            0
        };
        let r: u64 = if i < right.len() {
            right[i]
        } else {
            0
        };
        proof {
            version::lemma_trichotomy(left@, right@);
            version::lemma_trichotomy(right@, left@);
            assert(l == version::part(left@, index(i)) && r == version::part(right@, index(i)));
        }
        if l < r {
            assert(version::agree(right@, left@, index(i))) by {
                assert forall|j: int| 0 <= j < i implies #[trigger] version::part(right@, j)
                    == version::part(left@, j) by {
                    assert(version::part(left@, j) == version::part(right@, j));
                }
            }
            return Ordering::Less;
        }
        if l > r {
            return Ordering::Greater;
        }
        i = i + 1;
    }
    proof {
        version::lemma_trichotomy(left@, right@);
        version::lemma_trichotomy(right@, left@);
        assert(version::same(left@, right@)) by {
            assert forall|j: int| 0 <= j implies #[trigger] version::part(left@, j)
                == version::part(right@, j) by {}
        }
    }
    Ordering::Equal
}

spec fn index(i: usize) -> int {
    i as int
}

/// `left` is newer than `right`.
fn is_newer(left: &Vec<u64>, right: &Vec<u64>) -> (r: bool)
    ensures
        r == version::newer(left@, right@),
{
    match version_cmp(left.as_slice(), right.as_slice()) {
        Ordering::Greater => true,
        _ => false,
    }
}

/// `tag` is a newer version than `current` in the family of its suffix.
pub open spec fn upgrades(current: Seq<char>, tag: Seq<char>) -> bool {
    match (version_tag(current), version_tag(tag)) {
        (Some((parts, suffix)), Some((tag_parts, tag_suffix))) => {
            &&& tag != current
            &&& tag_suffix == suffix
            &&& version::newer(tag_parts, parts)
        },
        _ => false,
    }
}

/// The parts of a tag's version.
pub open spec fn tag_parts(tag: Seq<char>) -> Seq<u64> {
    (version_tag(tag)->0).0
}

/// The tag at `k` is the one to upgrade to: none is newer, and none before it is the same.
pub open spec fn selected(current: Seq<char>, tags: Seq<Seq<char>>, k: int) -> bool {
    &&& 0 <= k < tags.len()
    &&& upgrades(current, tags[k])
    &&& forall|j: int|
        0 <= j < tags.len() && upgrades(current, #[trigger] tags[j]) ==> !version::newer(
            tag_parts(tags[j]),
            tag_parts(tags[k]),
        )
    &&& forall|j: int|
        0 <= j < k && upgrades(current, #[trigger] tags[j]) ==> version::newer(
            tag_parts(tags[k]),
            tag_parts(tags[j]),
        )
}

/// The newest of the tags that upgrade `current`, the first where several are.
pub fn select_newer_tag(current: &str, tags: &Vec<String>) -> (r: Option<String>)
    ensures
        match r {
            Some(tag) => exists|k: int| #[trigger]
                selected(current@, chars::views(tags@), k) && tag@ == tags@[k]@,
            None => forall|j: int|
                0 <= j < tags@.len() ==> !upgrades(current@, #[trigger] chars::views(tags@)[j]),
        },
{
    let (parts, suffix) = match parse_version_tag(current) {
        Some((parts, suffix)) => (parts, suffix),
        None => {
            return None;
        },
    };
    let ghost all = chars::views(tags@);
    let mut best: Option<(usize, Vec<u64>)> = None;
    for i in 0..tags.len()
        invariant
            all == chars::views(tags@),
            version_tag(current@) == Some((parts@, suffix@)),
            match best {
                Some((k, best_parts)) => {
                    &&& k < i
                    &&& best_parts@ == tag_parts(all[k as int])
                    &&& selected(current@, all.take(i as int), k as int)
                },
                None => forall|j: int| 0 <= j < i ==> !upgrades(current@, #[trigger] all[j]),
            },
    {
        let tag: &str = tags[i].as_str();
        assert(tag@ == all[i as int]);
        let candidate: Option<Vec<u64>> = if text::eq(tag, current) {
            None
        } else {
            match parse_version_tag(tag) {
                Some((tag_parts, tag_suffix)) => {
                    if text::eq(tag_suffix, suffix) && is_newer(&tag_parts, &parts) {
                        Some(tag_parts)
                    } else {
                        None
                    }
                },
                None => None,
            }
        };
        assert(candidate is Some <==> upgrades(current@, all[i as int]));
        assert(candidate is Some ==> candidate->0@ == tag_parts(all[i as int]));
        let ghost before_best = best;
        let ghost done = all.take(i as int);
        let ghost next = all.take(i + 1);
        assert forall|j: int| 0 <= j < i implies next[j] == done[j] by {}
        if let Some(tag_parts) = candidate {
            let better: bool = match &best {
                Some((_, best_parts)) => is_newer(&tag_parts, best_parts),
                None => true,
            };
            proof {
                if before_best is Some {
                    lemma_select_step(current@, all, i as int, (before_best->0).0 as int);
                } else {
                    lemma_select_first(current@, all, i as int);
                }
            }
            if better {
                best = Some((i, tag_parts));
            }
        } else {
            proof {
                if before_best is Some {
                    lemma_select_skip(current@, all, i as int, (before_best->0).0 as int);
                }
            }
        }
    }
    assert(all.take(all.len() as int) =~= all);
    match best {
        Some((k, _)) => {
            assert(selected(current@, all, k as int));
            Some(tags[k].clone())
        },
        None => None,
    }
}

proof fn lemma_select_first(current: Seq<char>, all: Seq<Seq<char>>, i: int)
    requires
        0 <= i < all.len(),
        upgrades(current, all[i]),
        forall|j: int| 0 <= j < i ==> !upgrades(current, #[trigger] all[j]),
    ensures
        selected(current, all.take(i + 1), i),
{
    let next = all.take(i + 1);
    version::lemma_trichotomy(tag_parts(all[i]), tag_parts(all[i]));
    assert forall|j: int| 0 <= j < next.len() && upgrades(current, #[trigger] next[j]) implies
        !version::newer(tag_parts(next[j]), tag_parts(next[i])) by {
        assert(next[j] == all[j]);
        assert(j == i);
        assert(version::same(tag_parts(all[i]), tag_parts(all[i])));
    }
    assert forall|j: int| 0 <= j < i && upgrades(current, #[trigger] next[j]) implies version::newer(
        tag_parts(next[i]),
        tag_parts(next[j]),
    ) by {
        assert(next[j] == all[j]);
    }
}

proof fn lemma_select_skip(current: Seq<char>, all: Seq<Seq<char>>, i: int, k: int)
    requires
        0 <= i < all.len(),
        !upgrades(current, all[i]),
        selected(current, all.take(i), k),
    ensures
        selected(current, all.take(i + 1), k),
{
    let done = all.take(i);
    let next = all.take(i + 1);
    assert(next[k] == done[k]);
    assert forall|j: int| 0 <= j < next.len() && upgrades(current, #[trigger] next[j]) implies
        !version::newer(tag_parts(next[j]), tag_parts(next[k])) by {
        assert(j < i);
        assert(next[j] == done[j]);
    }
    assert forall|j: int| 0 <= j < k && upgrades(current, #[trigger] next[j]) implies version::newer(
        tag_parts(next[k]),
        tag_parts(next[j]),
    ) by {
        assert(next[j] == done[j]);
    }
}

proof fn lemma_select_step(current: Seq<char>, all: Seq<Seq<char>>, i: int, k: int)
    requires
        0 <= i < all.len(),
        upgrades(current, all[i]),
        selected(current, all.take(i), k),
    ensures
        version::newer(tag_parts(all[i]), tag_parts(all[k])) ==> selected(
            current,
            all.take(i + 1),
            i,
        ),
        !version::newer(tag_parts(all[i]), tag_parts(all[k])) ==> selected(
            current,
            all.take(i + 1),
            k,
        ),
{
    let done = all.take(i);
    let next = all.take(i + 1);
    assert(next[k] == done[k] && done[k] == all[k]);
    assert(next[i] == all[i]);
    if version::newer(tag_parts(all[i]), tag_parts(all[k])) {
        assert forall|j: int| 0 <= j < next.len() && upgrades(current, #[trigger] next[j]) implies
            !version::newer(tag_parts(next[j]), tag_parts(next[i])) by {
            if j < i {
                assert(next[j] == done[j]);
                if version::newer(tag_parts(next[j]), tag_parts(next[i])) {
                    version::lemma_newer_transitive(
                        tag_parts(next[j]),
                        tag_parts(all[i]),
                        tag_parts(all[k]),
                    );
                }
            } else {
                version::lemma_trichotomy(tag_parts(all[i]), tag_parts(all[i]));
                assert(version::same(tag_parts(all[i]), tag_parts(all[i])));
            }
        }
        assert forall|j: int| 0 <= j < i && upgrades(current, #[trigger] next[j]) implies
            version::newer(tag_parts(next[i]), tag_parts(next[j])) by {
            assert(next[j] == done[j]);
            let a = tag_parts(next[j]);
            let b = tag_parts(all[k]);
            version::lemma_trichotomy(a, b);
            if version::same(a, b) {
                version::lemma_newer_same(tag_parts(all[i]), b, a);
            } else {
                version::lemma_newer_transitive(tag_parts(all[i]), b, a);
            }
        }
    } else {
        assert forall|j: int| 0 <= j < next.len() && upgrades(current, #[trigger] next[j]) implies
            !version::newer(tag_parts(next[j]), tag_parts(next[k])) by {
            if j < i {
                assert(next[j] == done[j]);
            }
        }
        assert forall|j: int| 0 <= j < k && upgrades(current, #[trigger] next[j]) implies
            version::newer(tag_parts(next[k]), tag_parts(next[j])) by {
            assert(next[j] == done[j]);
        }
    }
}

/// After an upgrade to the selected tag no tag upgrades it further.
pub proof fn law_selected_tag_is_final(current: Seq<char>, tags: Seq<Seq<char>>, k: int)
    requires
        selected(current, tags, k),
    ensures
        forall|j: int| 0 <= j < tags.len() ==> !upgrades(tags[k], #[trigger] tags[j]),
{
    assert forall|j: int| 0 <= j < tags.len() implies !upgrades(tags[k], #[trigger] tags[j]) by {
        if upgrades(tags[k], tags[j]) {
            version::lemma_newer_transitive(
                tag_parts(tags[j]),
                tag_parts(tags[k]),
                tag_parts(current),
            );
            if tags[j] == current {
                version::lemma_trichotomy(tag_parts(current), tag_parts(tags[k]));
            }
        }
    }
}

/// A line with the image's tag moved to the latest one, where the line holds
/// that image at the dependency's version.
pub open spec fn rewritten(line: Seq<char>, dep: Dep, dep_type: DepType) -> Seq<char> {
    match (occurrence(line, dep_type), dep.latest) {
        (Some(o), Some(latest)) => if o.name == dep.name && o.tag == dep.current {
            line.take(o.start) + o.name + ":"@ + latest + line.skip(o.end)
        } else {
            line
        },
        _ => line,
    }
}

pub fn rewrite_line(line: &str, dep: &Dependency, dep_type: DepType) -> (r: String)
    ensures
        r@ == rewritten(line@, dep@, dep_type),
{
    match find_place(line, dep_type) {
        Some(p) => {
            if !text::eq(p.name.as_str(), dep.name.as_str()) || !text::eq(
                p.tag.as_str(),
                dep.current_version.as_str(),
            ) {
                return line.to_owned();
            }
            match &dep.latest_version {
                Some(latest) => {
                    let mut out: String = text::take(line, p.start).to_owned();
                    out.append(p.name.as_str());
                    out.append(":");
                    out.append(latest.as_str());
                    out.append(text::skip(line, p.end));
                    out
                },
                None => line.to_owned(),
            }
        },
        None => line.to_owned(),
    }
}

/// The update is of the image and version at hand.
pub open spec fn concerns(dep: Dep, o: Occurrence, dep_type: DepType) -> bool {
    dep.name == o.name && dep.current == o.tag && dep.dep_type == dep_type
}

/// The first of the updates that concerns the image at hand.
pub open spec fn update_for(updates: Seq<Dep>, o: Occurrence, dep_type: DepType) -> Option<Dep>
    decreases updates.len(),
{
    if updates.len() == 0 {
        None
    } else if concerns(updates[0], o, dep_type) {
        Some(updates[0])
    } else {
        update_for(updates.skip(1), o, dep_type)
    }
}

/// A line of a manifest with the updates applied.
pub open spec fn updated_line(line: Seq<char>, updates: Seq<Dep>, dep_type: DepType) -> Seq<char> {
    match occurrence(line, dep_type) {
        Some(o) => match update_for(updates, o, dep_type) {
            Some(dep) => rewritten(line, dep, dep_type),
            None => line,
        },
        None => line,
    }
}

/// The lines of a manifest with the updates applied.
pub open spec fn updated_lines(
    lines: Seq<Seq<char>>,
    updates: Seq<Dep>,
    dep_type: DepType,
) -> Seq<Seq<char>> {
    lines.map_values(|line: Seq<char>| updated_line(line, updates, dep_type))
}

/// A manifest with the updates applied.
pub open spec fn updated(content: Seq<char>, updates: Seq<Dep>, dep_type: DepType) -> Seq<char> {
    chars::relined(content, updated_lines(chars::lines(content), updates, dep_type))
}

fn update_line(line: &str, updates: &Vec<Dependency>, dep_type: DepType) -> (r: String)
    ensures
        r@ == updated_line(line@, deps(updates@), dep_type),
{
    let p: Place = match find_place(line, dep_type) {
        Some(p) => p,
        None => {
            return line.to_owned();
        },
    };
    let ghost all = deps(updates@);
    let ghost o = occurrence(line@, dep_type)->0;
    assert(all.skip(0) =~= all);
    let mut i: usize = 0;
    while i < updates.len()
        invariant
            i <= updates.len(),
            all == deps(updates@),
            occurrence(line@, dep_type) == Some(o),
            p.name@ == o.name,
            p.tag@ == o.tag,
            update_for(all, o, dep_type) == update_for(all.skip(i as int), o, dep_type),
        decreases updates.len() - i,
    {
        let dep: &Dependency = &updates[i];
        assert(all.skip(i as int)[0] == dep@);
        if text::eq(dep.name.as_str(), p.name.as_str()) && text::eq(
            dep.current_version.as_str(),
            p.tag.as_str(),
        ) && dep.dep_type == dep_type {
            return rewrite_line(line, dep, dep_type);
        }
        assert(all.skip(i as int).skip(1) =~= all.skip(i + 1));
        i = i + 1;
    }
    line.to_owned()
}

/// The text of a manifest with the updates applied.
pub fn update_manifest(content: &str, updates: &Vec<Dependency>, dep_type: DepType) -> (r: String)
    ensures
        r@ == updated(content@, deps(updates@), dep_type),
{
    let lines: Vec<&str> = text::lines(content);
    let ghost all = chars::strs(lines@);
    let mut out: Vec<String> = Vec::new();
    for i in 0..lines.len()
        invariant
            all == chars::strs(lines@),
            chars::views(out@) == updated_lines(all.take(i as int), deps(updates@), dep_type),
    {
        let ghost sofar = out@;
        out.push(update_line(lines[i], updates, dep_type));
        assert(chars::views(out@) =~= chars::views(sofar).push(
            updated_line(all[i as int], deps(updates@), dep_type),
        ));
        assert(updated_lines(all.take(i + 1), deps(updates@), dep_type) =~= updated_lines(
            all.take(i as int),
            deps(updates@),
            dep_type,
        ).push(updated_line(all[i as int], deps(updates@), dep_type)));
    }
    assert(all.take(all.len() as int) =~= all);
    text::relined(content, &out)
}

/// The dependencies that the lines of a manifest declare.
pub open spec fn listed(lines: Seq<Seq<char>>, dep_type: DepType) -> Seq<Dep>
    decreases lines.len(),
{
    if lines.len() == 0 {
        seq![]
    } else {
        let before = listed(lines.drop_last(), dep_type);
        match occurrence(lines.last(), dep_type) {
            Some(o) => before.push(Dep::fresh(o.name, o.tag, dep_type)),
            None => before,
        }
    }
}

/// The dependencies of a manifest of the given file name: the images that a
/// Dockerfile builds from, or the images that a compose file runs.
pub fn list_dependencies(file_name: &str, content: &str) -> (r: Vec<Dependency>)
    ensures
        deps(r@) == listed(chars::lines(content@), manifest_type(file_name@)),
{
    let dep_type: DepType = manifest_dep_type(file_name);
    let lines: Vec<&str> = text::lines(content);
    let ghost all = chars::strs(lines@);
    let mut out: Vec<Dependency> = Vec::new();
    assert(deps(out@) =~= seq![]);
    for i in 0..lines.len()
        invariant
            all == chars::strs(lines@),
            deps(out@) == listed(all.take(i as int), dep_type),
    {
        assert(all.take(i + 1).drop_last() =~= all.take(i as int));
        let ghost sofar = out@;
        if let Some(p) = find_place(lines[i], dep_type) {
            let dep: Dependency = Dependency::new(p.name, p.tag, dep_type);
            out.push(dep);
            assert(deps(out@) =~= deps(sofar).push(dep@));
        }
    }
    assert(all.take(all.len() as int) =~= all);
    out
}

/// The group that a manifest's dependencies stand in.
pub open spec fn manifest_type(file_name: Seq<char>) -> DepType {
    if dockerfile_name(file_name) {
        DepType::Build
    } else {
        DepType::Normal
    }
}

pub fn manifest_dep_type(file_name: &str) -> (r: DepType)
    ensures
        r == manifest_type(file_name@),
{
    if is_dockerfile_name(file_name) {
        DepType::Build
    } else {
        DepType::Normal
    }
}

/// A manifest that no update concerns stays as it is, but for carriage returns
/// at the ends of its lines.
pub proof fn law_no_update_no_change(content: Seq<char>, updates: Seq<Dep>, dep_type: DepType)
    requires
        forall|i: int|
            0 <= i < content.len() - 1 ==> !(#[trigger] content[i] == '\r' && content[i + 1]
                == '\n'),
        forall|i: int|
            0 <= i < chars::lines(content).len() ==> match occurrence(
                #[trigger] chars::lines(content)[i],
                dep_type,
            ) {
                Some(o) => forall|j: int|
                    0 <= j < updates.len() ==> !concerns(#[trigger] updates[j], o, dep_type),
                None => true,
            },
    ensures
        updated(content, updates, dep_type) == content,
{
    let lines = chars::lines(content);
    assert forall|i: int| 0 <= i < lines.len() implies updated_line(
        #[trigger] lines[i],
        updates,
        dep_type,
    ) == lines[i] by {
        if let Some(o) = occurrence(lines[i], dep_type) {
            lemma_no_update(updates, o, dep_type);
        }
    }
    assert(updated_lines(lines, updates, dep_type) =~= lines);
    chars::lemma_relined_same(content);
}

proof fn lemma_no_update(updates: Seq<Dep>, o: Occurrence, dep_type: DepType)
    requires
        forall|j: int| 0 <= j < updates.len() ==> !concerns(#[trigger] updates[j], o, dep_type),
    ensures
        update_for(updates, o, dep_type) is None,
    decreases updates.len(),
{
    if updates.len() > 0 {
        assert(!concerns(updates[0], o, dep_type));
        assert forall|j: int| 0 <= j < updates.skip(1).len() implies !concerns(
            #[trigger] updates.skip(1)[j],
            o,
            dep_type,
        ) by {
            assert(updates.skip(1)[j] == updates[j + 1]);
        }
        lemma_no_update(updates.skip(1), o, dep_type);
    }
}

/// How many pages of tags are read at most.
pub const MAX_PAGES: usize = 5;

/// Where the first page of a repository's tags is.
pub fn tags_url(repo: &str) -> (r: String)
    ensures
        r@ == "https://hub.docker.com/v2/repositories/"@ + repo@ + "/tags?page_size=100"@,
{
    let mut out: String = "https://hub.docker.com/v2/repositories/".to_owned();
    out.append(repo);
    out.append("/tags?page_size=100");
    out
}

/// The address of the page that is read next.
pub open spec fn page_after(pages: usize, next: Option<Seq<char>>) -> Option<Seq<char>> {
    if pages >= MAX_PAGES {
        None
    } else {
        next
    }
}

/// The page to read after `pages` pages of which the last names `next`.
pub fn next_page(pages: usize, next: Option<String>) -> (r: Option<String>)
    ensures
        chars::opt(r) == page_after(pages, chars::opt(next)),
{
    if pages >= MAX_PAGES {
        None
    } else {
        next
    }
}

/// `latest` is the tag to move to from `current`: the selected one, or `current`
/// itself where no tag upgrades it.
pub open spec fn latest_of(current: Seq<char>, tags: Seq<Seq<char>>, latest: Seq<char>) -> bool {
    ||| exists|k: int| #[trigger] selected(current, tags, k) && latest == tags[k]
    ||| latest == current && forall|j: int|
        0 <= j < tags.len() ==> !upgrades(current, #[trigger] tags[j])
}

/// The tag to move to.
pub fn latest_tag(current: &str, tags: &Vec<String>) -> (r: String)
    ensures
        latest_of(current@, chars::views(tags@), r@),
{
    match select_newer_tag(current, tags) {
        Some(tag) => {
            let ghost k = choose|k: int| #[trigger]
                selected(current@, chars::views(tags@), k) && tag@ == tags@[k]@;
            assert(selected(current@, chars::views(tags@), k) && tag@ == chars::views(tags@)[k]);
            tag
        },
        None => current.to_owned(),
    }
}

/// A lookup never moves a version back, nor to another family of tags.
pub proof fn law_no_downgrade(current: Seq<char>, tags: Seq<Seq<char>>, latest: Seq<char>)
    requires
        latest_of(current, tags, latest),
    ensures
        latest == current || upgrades(current, latest),
{
}

/// What is known of a dependency without asking the registry: a tag that is no
/// version counts as the latest.
pub open spec fn settled(dep: Dep) -> Option<Dep> {
    if version_tag(dep.current) is None {
        Some(dep.checked(dep.current, true))
    } else {
        None
    }
}

/// The dependency after a lookup that gave its latest tag or failed.
pub open spec fn resolved(dep: Dep, latest: Option<Seq<char>>) -> Dep {
    match settled(dep) {
        Some(dep) => dep,
        None => match latest {
            Some(tag) => dep.checked(tag, tag == dep.current),
            None => dep.unchecked(),
        },
    }
}

/// The registry has to be asked about the dependency.
pub fn needs_lookup(dep: &Dependency) -> (r: bool)
    ensures
        r == (settled(dep@) is None),
{
    parse_version_tag(dep.current_version.as_str()).is_some()
}

/// The dependency after a lookup; the outcome counts only where it was needed.
pub fn resolve(dep: Dependency, latest: Option<String>) -> (r: Dependency)
    ensures
        r@ == resolved(dep@, chars::opt(latest)),
{
    if !needs_lookup(&dep) {
        let current: String = dep.current_version.clone();
        return dep.with_latest(current, true);
    }
    match latest {
        Some(tag) => {
            let satisfied: bool = text::eq(tag.as_str(), dep.current_version.as_str());
            dep.with_latest(tag, satisfied)
        },
        None => dep.with_failure(),
    }
}

} // verus!
