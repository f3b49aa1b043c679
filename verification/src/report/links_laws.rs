//! What the links of a report are made of.
use vstd::prelude::*;
use vstd::string::*;
use crate::chars;
use crate::ranges::semver_numbers;
use crate::report::links::{
    changelog_of, compare_link, core_numbers, first_mention, has_digit, in_version,
    mentions, no_start, npm_repo, owner_name, ref_candidates, ref_names, repo_endpoint_text,
    repo_path, repository_of, semver_change, version_core, web_address,
};
use crate::tree::{Tree, lemma_key_index_is};

verus! {

/// A character that a version can have.
pub open spec fn is_core_char(c: char) -> bool {
    ('0' <= c && c <= '9') || ('a' <= c && c <= 'z') || ('A' <= c && c <= 'Z') || c == '.' || c
        == '-' || c == '+'
}

/// What stands before a version: no digit and no `v`.
pub open spec fn is_before_core(front: Seq<char>) -> bool {
    forall|i: int| 0 <= i < front.len() ==> !('0' <= #[trigger] front[i] && front[i] <= '9')
        && front[i] != 'v'
}

/// A version starts with a digit.
pub open spec fn is_core(core: Seq<char>) -> bool {
    &&& core.len() > 0
    &&& '0' <= core[0] && core[0] <= '9'
    &&& forall|i: int| 0 <= i < core.len() ==> is_core_char(#[trigger] core[i])
}

/// The version in a text starts at the first digit or `v` and ends at the first
/// character that a version cannot have. Without a digit and a `v` there is none.
pub proof fn law_version_core(front: Seq<char>, core: Seq<char>, back: Seq<char>)
    requires
        is_before_core(front),
        core.len() > 0,
        ('0' <= core[0] && core[0] <= '9') || core[0] == 'v',
        forall|i: int| 0 <= i < core.len() ==> is_core_char(#[trigger] core[i]),
        back.len() > 0 ==> !is_core_char(back[0]),
    ensures
        version_core(front + core + back) == Some(core),
        version_core(front) is None,
{
    let s = front + core + back;
    let rest = core + back;
    assert(s[front.len() as int] == core[0]);
    assert forall|i: int| 0 <= i < front.len() implies no_start()(#[trigger] s[i]) by {
        assert(s[i] == front[i]);
    }
    chars::lemma_leading_is(s, no_start(), front.len() as int);
    assert(s.skip(front.len() as int) =~= rest);
    assert forall|i: int| 0 <= i < core.len() implies in_version()(#[trigger] rest[i]) by {
        assert(rest[i] == core[i]);
        assert(is_core_char(core[i]));
    }
    if back.len() > 0 {
        assert(rest[core.len() as int] == back[0]);
    }
    chars::lemma_leading_is(rest, in_version(), core.len() as int);
    assert(rest.take(core.len() as int) =~= core);
    chars::lemma_leading_is(front, no_start(), front.len() as int);
}

/// How a change is called. Where both versions can be read, the first number that is
/// greater decides; where one cannot, or none is greater, the version changed. What
/// stands before a version does not count, nor does a `v`.
pub proof fn law_classified(
    front: Seq<char>,
    current: Seq<char>,
    v: Seq<char>,
    latest: Seq<char>,
)
    requires
        is_before_core(front),
        is_core(current),
        v == seq!['v'] || v == Seq::<char>::empty(),
        is_core(latest),
    ensures
        ({
            let r = semver_change(front + current, v + latest);
            let a = semver_numbers(current);
            let b = semver_numbers(latest);
            &&& a is None || b is None ==> r == "version-change"@
            &&& a is Some && b is Some ==> {
                let (major, minor, patch) = a->0;
                let (new_major, new_minor, new_patch) = b->0;
                &&& new_major > major ==> r == "breaking"@
                &&& new_major <= major && new_minor > minor ==> r == "feature"@
                &&& new_major <= major && new_minor <= minor && new_patch > patch ==> r
                    == "bugfix"@
                &&& new_major <= major && new_minor <= minor && new_patch <= patch ==> r
                    == "version-change"@
            }
        }),
        semver_change(front, v + latest) == "unknown"@,
        semver_change(v + latest, front) == "unknown"@,
{
    let none = Seq::<char>::empty();
    law_version_core(front, current, none);
    assert(front + current + none =~= front + current);
    let core = v + latest;
    assert forall|i: int| 0 <= i < core.len() implies is_core_char(#[trigger] core[i]) by {
        if v.len() == 0 {
            assert(core[i] == latest[i]);
        } else if i > 0 {
            assert(core[i] == latest[i - 1]);
        }
    }
    if v.len() == 0 {
        assert(core[0] == latest[0]);
    }
    law_version_core(none, core, none);
    assert(none + core + none =~= core);
    lemma_core_numbers(none, current);
    lemma_core_numbers(v, latest);
    assert(none + current =~= current);
}

proof fn lemma_core_numbers(v: Seq<char>, core: Seq<char>)
    requires
        v == seq!['v'] || v == Seq::<char>::empty(),
        is_core(core),
    ensures
        core_numbers(v + core) == semver_numbers(core),
{
    let s = v + core;
    assert(s[v.len() as int] == core[0]);
    chars::lemma_leading_is(s, chars::is('v'), v.len() as int);
    assert(s.skip(v.len() as int) =~= core);
}

/// The path of a repository, as it is written behind the host.
pub open spec fn is_repo_path(path: Seq<char>) -> bool {
    &&& path.len() > 0
    &&& !chars::is_space(path.last())
    &&& path.last() != '/'
    &&& !chars::ends_with(path, ".git"@)
}

/// What may stand behind the path: nothing, `.git` or a slash.
pub open spec fn is_repo_end(end: Seq<char>) -> bool {
    end == Seq::<char>::empty() || end == ".git"@ || end == seq!['/']
}

proof fn lemma_repo_path(path: Seq<char>, end: Seq<char>)
    requires
        is_repo_path(path),
        is_repo_end(end),
    ensures
        repo_path(path + end) == path,
{
    reveal_strlit(".git");
    let git = ".git"@;
    let s = path + end;
    assert(chars::trim_end_text(path, git) == path);
    assert(path.last() == path[path.len() - 1]);
    chars::lemma_trailing_is(path, chars::is('/'), 0);
    assert(path.take(path.len() as int) =~= path);
    if end == git {
        assert(s.skip(s.len() - git.len()) =~= git);
        assert(s.take(s.len() - git.len()) =~= path);
        assert(chars::trim_end_text(s, git) == chars::trim_end_text(path, git));
    } else if end == seq!['/'] {
        assert(s.last() == '/');
        if chars::ends_with(s, git) {
            assert(s.skip(s.len() - git.len())[3] == s.last());
            assert(git[3] == 't');
        }
        assert(s[s.len() - 1] == '/');
        assert(s[s.len() - 2] == path[path.len() - 1]);
        chars::lemma_trailing_is(s, chars::is('/'), 1);
        assert(s.take(path.len() as int) =~= path);
    } else {
        assert(s =~= path);
    }
}

/// A repository on GitHub, in any of the four ways to write its address, is reached at
/// its web address, without `.git`, a slash at the end or white space around it.
pub proof fn law_web_address(front: Seq<char>, path: Seq<char>, end: Seq<char>, back: Seq<char>)
    requires
        forall|i: int| 0 <= i < front.len() ==> chars::is_space(#[trigger] front[i]),
        forall|i: int| 0 <= i < back.len() ==> chars::is_space(#[trigger] back[i]),
        is_repo_path(path),
        is_repo_end(end),
    ensures
        web_address(front + ("https://github.com/"@ + path + end) + back) == Some(
            "https://github.com/"@ + path,
        ),
        web_address(front + ("git+https://github.com/"@ + path + end) + back) == Some(
            "https://github.com/"@ + path,
        ),
        web_address(front + ("git://github.com/"@ + path + end) + back) == Some(
            "https://github.com/"@ + path,
        ),
        web_address(front + ("git@github.com:"@ + path + end) + back) == Some(
            "https://github.com/"@ + path,
        ),
{
    reveal_strlit("https://github.com/");
    reveal_strlit("git+https://github.com/");
    reveal_strlit("git://github.com/");
    reveal_strlit("git@github.com:");
    let web = "https://github.com/"@;
    let plus = "git+https://github.com/"@;
    let git = "git://github.com/"@;
    let ssh = "git@github.com:"@;
    lemma_trimmed(front, web, path, end, back);
    lemma_trimmed(front, plus, path, end, back);
    lemma_trimmed(front, git, path, end, back);
    lemma_trimmed(front, ssh, path, end, back);
    lemma_repo_path(path, end);
    lemma_on_web(path);
    lemma_repo_path(web + path, end);
    assert(web + path + end == (web + path) + end);
    let p = plus + path + end;
    let g = git + path + end;
    let s = ssh + path + end;
    assert(p[0] == 'g');
    assert(g[0] == 'g');
    assert(s[0] == 'g');
    assert(p.take(web.len() as int)[0] == 'g');
    assert(g.take(web.len() as int)[0] == 'g' || g.len() < web.len());
    assert(s.take(web.len() as int)[0] == 'g' || s.len() < web.len());
    assert(web[0] == 'h');
    assert(p.skip(plus.len() as int) =~= path + end);
    assert(g[3] == ':');
    assert(s[3] == '@');
    assert(plus[3] == '+');
    assert(git[3] == ':');
    assert(g.len() >= plus.len() ==> g.take(plus.len() as int)[3] == ':');
    assert(s.len() >= plus.len() ==> s.take(plus.len() as int)[3] == '@');
    assert(s.len() >= git.len() ==> s.take(git.len() as int)[3] == '@');
    assert(g.skip(git.len() as int) =~= path + end);
    assert(s.skip(ssh.len() as int) =~= path + end);
}

proof fn lemma_on_web(path: Seq<char>)
    requires
        is_repo_path(path),
    ensures
        is_repo_path("https://github.com/"@ + path),
{
    reveal_strlit("https://github.com/");
    reveal_strlit(".git");
    let web = "https://github.com/"@;
    let git = ".git"@;
    let u = web + path;
    assert(u.last() == path.last());
    if chars::ends_with(u, git) {
        let tail = u.skip(u.len() - 4);
        if path.len() >= 4 {
            assert(path.skip(path.len() - 4) =~= tail);
        } else {
            let k = 3 - path.len();
            assert(tail[k] == web[web.len() - 1]);
            assert(web[web.len() - 1] == '/');
            assert(git[k] != '/');
        }
    }
}

proof fn lemma_trimmed(
    front: Seq<char>,
    prefix: Seq<char>,
    path: Seq<char>,
    end: Seq<char>,
    back: Seq<char>,
)
    requires
        forall|i: int| 0 <= i < front.len() ==> chars::is_space(#[trigger] front[i]),
        forall|i: int| 0 <= i < back.len() ==> chars::is_space(#[trigger] back[i]),
        prefix.len() > 0,
        !chars::is_space(prefix[0]),
        is_repo_path(path),
        is_repo_end(end),
    ensures
        chars::trim(front + (prefix + path + end) + back) == prefix + path + end,
        chars::starts_with(prefix + path + end, prefix),
{
    reveal_strlit(".git");
    let s = prefix + path + end;
    assert(s[0] == prefix[0]);
    if end.len() > 0 {
        assert(s.last() == end.last());
        assert(end.last() == 't' || end.last() == '/');
    } else {
        assert(s.last() == path.last());
    }
    chars::lemma_trim_around(front, s, back);
    assert(s.take(prefix.len() as int) =~= prefix);
}

/// An address that does not start in one of these ways is none of a repository on
/// GitHub, and every one that is given is on the web.
pub proof fn law_no_web_address(raw: Seq<char>)
    requires
        web_address(raw) is Some,
    ensures
        ({
            let s = chars::trim(raw);
            ||| chars::starts_with(s, "https://github.com/"@)
            ||| chars::starts_with(s, "git+https://github.com/"@)
            ||| chars::starts_with(s, "git://github.com/"@)
            ||| chars::starts_with(s, "git@github.com:"@)
        }),
{
}

/// The owner and the name of a repository: the first two parts behind the host.
pub proof fn law_owner_and_name(owner: Seq<char>, name: Seq<char>, rest: Seq<char>)
    requires
        !owner.contains('/'),
        !name.contains('/'),
    ensures
        owner_name("https://github.com/"@ + owner) is None,
        owner_name("https://github.com/"@ + (owner + seq!['/'] + name)) == Some((owner, name)),
        owner_name("https://github.com/"@ + (owner + seq!['/'] + (name + seq!['/'] + rest)))
            == Some((owner, name)),
{
    let web = "https://github.com/"@;
    let slash = seq!['/'];
    let more = name + slash + rest;
    lemma_stripped(web, owner);
    lemma_stripped(web, owner + slash + name);
    lemma_stripped(web, owner + slash + more);
    chars::lemma_before_all(owner, '/');
    chars::lemma_before_all(name, '/');
    chars::lemma_first(owner, '/', name);
    chars::lemma_first(name, '/', rest);
    chars::lemma_first(owner, '/', more);
}

proof fn lemma_unslashed(path: Seq<char>, slashes: Seq<char>)
    requires
        path.len() > 0,
        path.last() != '/',
        slashes == Seq::<char>::empty() || slashes == seq!['/'],
    ensures
        chars::trim_end_char(path + slashes, '/') == path,
{
    let s = path + slashes;
    let n = slashes.len() as int;
    assert(s[path.len() - 1] == path.last());
    if n == 1 {
        assert(s[s.len() - 1] == '/');
    }
    chars::lemma_trailing_is(s, chars::is('/'), n);
    assert(s.take(path.len() as int) =~= path);
}

/// Where a repository is asked for: under its owner and its name. One slash may follow;
/// an address with more behind the name is none of a repository.
pub proof fn law_repo_endpoint(
    owner: Seq<char>,
    name: Seq<char>,
    slashes: Seq<char>,
    rest: Seq<char>,
)
    requires
        !owner.contains('/'),
        !name.contains('/'),
        name.len() > 0,
        slashes == Seq::<char>::empty() || slashes == seq!['/'],
    ensures
        repo_endpoint_text("https://github.com/"@ + (owner + seq!['/'] + name + slashes)) == Some(
            "https://api.github.com/repos/"@ + (owner + seq!['/'] + name),
        ),
        rest.len() > 0 && rest.last() != '/' ==> repo_endpoint_text(
            "https://github.com/"@ + (owner + seq!['/'] + (name + seq!['/'] + rest)),
        ) is None,
{
    let web = "https://github.com/"@;
    let api = "https://api.github.com/repos/"@;
    let slash = seq!['/'];
    let path = owner + slash + name;
    reveal_strlit("/");
    assert("/"@ =~= slash);
    lemma_stripped(web, path + slashes);
    assert(path.last() == name[name.len() - 1]);
    assert(name.contains(name[name.len() - 1]));
    lemma_unslashed(path, slashes);
    chars::lemma_first(owner, '/', name);
    assert(api + owner + slash + name =~= api + path);
    if rest.len() > 0 && rest.last() != '/' {
        let more = name + slash + rest;
        let long = owner + slash + more;
        let none = Seq::<char>::empty();
        lemma_stripped(web, long);
        assert(long.last() == rest.last());
        lemma_unslashed(long, none);
        assert(long + none =~= long);
        chars::lemma_first(owner, '/', more);
        assert(more[name.len() as int] == '/');
        assert(more.contains('/'));
    }
}

proof fn lemma_stripped(prefix: Seq<char>, rest: Seq<char>)
    ensures
        chars::strip_prefix(prefix + rest, prefix) == Some(rest),
{
    let s = prefix + rest;
    assert(s.take(prefix.len() as int) =~= prefix);
    assert(s.skip(prefix.len() as int) =~= rest);
}

/// The page that compares two versions: between the references where both are known,
/// else between the versions that the texts hold.
pub proof fn law_compare_link(
    owner: Seq<char>,
    name: Seq<char>,
    a: Seq<char>,
    b: Seq<char>,
    front: Seq<char>,
    current: Seq<char>,
    latest: Seq<char>,
)
    requires
        !owner.contains('/'),
        !name.contains('/'),
        is_repo_path(owner + seq!['/'] + name),
        is_before_core(front),
        is_core(current),
        is_core(latest),
    ensures
        ({
            let url = "https://github.com/"@ + (owner + seq!['/'] + name);
            &&& compare_link(url, front + current, latest, Some(a), Some(b)) == Some(
                url + "/compare/"@ + a + "..."@ + b,
            )
            &&& compare_link(url, front + current, latest, None, Some(b)) == Some(
                url + "/compare/"@ + current + "..."@ + latest,
            )
            &&& compare_link(url, front + current, latest, Some(a), None) == Some(
                url + "/compare/"@ + current + "..."@ + latest,
            )
            &&& compare_link(url, front, latest, None, None) is None
            &&& compare_link(front, front + current, latest, Some(a), Some(b)) is Some
                ==> web_address(front) is Some
        }),
{
    let path = owner + seq!['/'] + name;
    let url = "https://github.com/"@ + path;
    let none = Seq::<char>::empty();
    law_web_address(none, path, none, none);
    assert(none + (url + none) + none =~= url);
    if name.len() == 0 {
        assert(path.last() == '/');
    }
    law_owner_and_name(owner, name, none);
    law_version_core(front, current, none);
    assert(front + current + none =~= front + current);
    law_version_core(none, latest, none);
    assert(none + latest + none =~= latest);
    law_version_core(front, latest, none);
}

/// The references under which a version may be found: the version with a `v` and
/// without, and as a release.
pub proof fn law_ref_candidates(core: Seq<char>, text: Seq<char>)
    requires
        is_core(core),
    ensures
        ref_candidates(core).contains(text) <==> text == core || text == "v"@ + core || text
            == "release-"@ + core || text == "release/"@ + core,
        ref_candidates("v"@ + core).contains(text) <==> text == core || text == "v"@ + core
            || text == "release-"@ + core || text == "release/"@ + core,
{
    reveal_strlit("v");
    let none = Seq::<char>::empty();
    let tagged = "v"@ + core;
    assert(is_core_char(core[0]));
    assert(is_core_char(core[core.len() - 1]));
    assert(core.last() == core[core.len() - 1]);
    chars::lemma_trim_is(core);
    assert(tagged[0] == 'v');
    assert(tagged.last() == core.last());
    chars::lemma_trim_is(tagged);
    law_version_core(none, core, none);
    assert(none + core + none =~= core);
    assert forall|i: int| 0 <= i < tagged.len() implies is_core_char(#[trigger] tagged[i]) by {
        if i > 0 {
            assert(tagged[i] == core[i - 1]);
        }
    }
    law_version_core(none, tagged, none);
    assert(none + tagged + none =~= tagged);
    lemma_ref_names(core, text);
    let own = ref_names(core);
    let theirs = ref_names(tagged);
    chars::lemma_distinct(own + own);
    chars::lemma_distinct(theirs + theirs);
    lemma_twice(own, text);
    lemma_twice(theirs, text);
}

proof fn lemma_twice(a: Seq<Seq<char>>, t: Seq<char>)
    ensures
        (a + a).contains(t) <==> a.contains(t),
{
    if (a + a).contains(t) {
        let i = choose|i: int| 0 <= i < (a + a).len() && (a + a)[i] == t;
        if i < a.len() {
            assert(a[i] == t);
        } else {
            assert(a[i - a.len()] == t);
        }
    }
    if a.contains(t) {
        let i = choose|i: int| 0 <= i < a.len() && a[i] == t;
        assert((a + a)[i] == t);
    }
}

proof fn lemma_ref_names(core: Seq<char>, text: Seq<char>)
    requires
        is_core(core),
    ensures
        ref_names(core).contains(text) <==> text == core || text == "v"@ + core || text
            == "release-"@ + core || text == "release/"@ + core,
        ref_names("v"@ + core).contains(text) <==> text == core || text == "v"@ + core || text
            == "release-"@ + core || text == "release/"@ + core,
{
    reveal_strlit("v");
    let tagged = "v"@ + core;
    assert(tagged[0] == 'v');
    assert(tagged[1] == core[0]);
    chars::lemma_leading_is(core, chars::is('v'), 0);
    assert(core.skip(0) =~= core);
    chars::lemma_leading_is(tagged, chars::is('v'), 1);
    assert(tagged.skip(1) =~= core);
    chars::lemma_leading(core, chars::not_digit());
    assert(chars::leading(core, chars::not_digit()) == 0);
    assert(has_digit(core));
    assert(core.len() < tagged.len());
    let a = seq![core, tagged, "release-"@ + core, "release/"@ + core];
    let b = seq![tagged, core, "release-"@ + core, "release/"@ + core];
    assert(ref_names(core) =~= a);
    assert(ref_names(tagged) =~= b);
    assert(a[0] == core && a[1] == tagged && a[2] == "release-"@ + core && a[3] == "release/"@
        + core);
    assert(b[0] == tagged && b[1] == core && b[2] == "release-"@ + core && b[3] == "release/"@
        + core);
    assert(a.contains(core) && a.contains(tagged) && a.contains("release-"@ + core) && a.contains(
        "release/"@ + core,
    ));
    assert(b.contains(core) && b.contains(tagged) && b.contains("release-"@ + core) && b.contains(
        "release/"@ + core,
    ));
}

/// One of the words stands somewhere in the key, in letters of either case.
pub open spec fn is_mention(key: Seq<char>, word: Seq<char>) -> bool {
    exists|at: int| #[trigger] chars::occurs(chars::lower(key), word, at)
}

/// The address is that of the first key that mentions one of the three words.
pub proof fn law_first_mention(
    urls: Seq<(Seq<char>, Seq<char>)>,
    a: Seq<char>,
    b: Seq<char>,
    c: Seq<char>,
)
    ensures
        match first_mention(urls, a, b, c) {
            Some(url) => exists|k: int|
                0 <= k < urls.len() && (#[trigger] urls[k]).1 == url && (is_mention(urls[k].0, a)
                    || is_mention(urls[k].0, b) || is_mention(urls[k].0, c)) && forall|j: int|
                    0 <= j < k ==> !is_mention((#[trigger] urls[j]).0, a) && !is_mention(
                        urls[j].0,
                        b,
                    ) && !is_mention(urls[j].0, c),
            None => forall|j: int|
                0 <= j < urls.len() ==> !is_mention((#[trigger] urls[j]).0, a) && !is_mention(
                    urls[j].0,
                    b,
                ) && !is_mention(urls[j].0, c),
        },
    decreases urls.len(),
{
    if urls.len() > 0 {
        lemma_mention(urls[0].0, a, b, c);
        if mentions(urls[0].0, a, b, c) {
            assert(urls[0].1 == urls[0].1);
        } else {
            let rest = urls.skip(1);
            law_first_mention(rest, a, b, c);
            match first_mention(rest, a, b, c) {
                Some(url) => {
                    let k = choose|k: int|
                        0 <= k < rest.len() && (#[trigger] rest[k]).1 == url && (is_mention(
                            rest[k].0,
                            a,
                        ) || is_mention(rest[k].0, b) || is_mention(rest[k].0, c)) && forall|
                            j: int,
                        |
                            0 <= j < k ==> !is_mention((#[trigger] rest[j]).0, a) && !is_mention(
                                rest[j].0,
                                b,
                            ) && !is_mention(rest[j].0, c);
                    assert forall|j: int| 0 <= j < k + 1 implies !is_mention(
                        (#[trigger] urls[j]).0,
                        a,
                    ) && !is_mention(urls[j].0, b) && !is_mention(urls[j].0, c) by {
                        if j > 0 {
                            assert(urls[j] == rest[j - 1]);
                        }
                    }
                    assert(urls[k + 1] == rest[k]);
                },
                None => {
                    assert forall|j: int| 0 <= j < urls.len() implies !is_mention(
                        (#[trigger] urls[j]).0,
                        a,
                    ) && !is_mention(urls[j].0, b) && !is_mention(urls[j].0, c) by {
                        if j > 0 {
                            assert(urls[j] == rest[j - 1]);
                        }
                    }
                },
            }
        }
    }
}

proof fn lemma_mention(key: Seq<char>, a: Seq<char>, b: Seq<char>, c: Seq<char>)
    ensures
        mentions(key, a, b, c) <==> is_mention(key, a) || is_mention(key, b) || is_mention(key, c),
{
    chars::lemma_find(chars::lower(key), a);
    chars::lemma_find(chars::lower(key), b);
    chars::lemma_find(chars::lower(key), c);
}

/// The key is one of a repository.
pub open spec fn is_of_repository(key: Seq<char>) -> bool {
    is_mention(key, "source"@) || is_mention(key, "repository"@) || is_mention(key, "github"@)
}

/// The key is one of a changelog.
pub open spec fn is_of_changelog(key: Seq<char>) -> bool {
    is_mention(key, "changelog"@) || is_mention(key, "release"@) || is_mention(key, "news"@)
}

/// The repository of a Python package is at the first address under a key of one, else
/// its home page; its changelog is at the first address under a key of one.
pub proof fn law_python_links(
    urls: Seq<(Seq<char>, Seq<char>)>,
    home_page: Option<Seq<char>>,
    k: int,
)
    requires
        0 <= k <= urls.len(),
    ensures
        (forall|j: int| 0 <= j < k ==> !is_of_repository((#[trigger] urls[j]).0)) ==> {
            &&& k < urls.len() && is_of_repository(urls[k].0) ==> repository_of(urls, home_page)
                == Some(urls[k].1)
            &&& k == urls.len() ==> repository_of(urls, home_page) == home_page
        },
        (forall|j: int| 0 <= j < k ==> !is_of_changelog((#[trigger] urls[j]).0)) ==> {
            &&& k < urls.len() && is_of_changelog(urls[k].0) ==> changelog_of(urls) == Some(
                urls[k].1,
            )
            &&& k == urls.len() ==> changelog_of(urls) is None
        },
{
    lemma_first_at(urls, "source"@, "repository"@, "github"@, k);
    lemma_first_at(urls, "changelog"@, "release"@, "news"@, k);
    if forall|j: int| 0 <= j < k ==> !is_of_repository((#[trigger] urls[j]).0) {
        assert forall|j: int| 0 <= j < k implies !mentions(
            (#[trigger] urls[j]).0,
            "source"@,
            "repository"@,
            "github"@,
        ) by {
            lemma_mention(urls[j].0, "source"@, "repository"@, "github"@);
            assert(!is_of_repository(urls[j].0));
        }
        if k < urls.len() {
            lemma_mention(urls[k].0, "source"@, "repository"@, "github"@);
        }
    }
    if forall|j: int| 0 <= j < k ==> !is_of_changelog((#[trigger] urls[j]).0) {
        assert forall|j: int| 0 <= j < k implies !mentions(
            (#[trigger] urls[j]).0,
            "changelog"@,
            "release"@,
            "news"@,
        ) by {
            lemma_mention(urls[j].0, "changelog"@, "release"@, "news"@);
            assert(!is_of_changelog(urls[j].0));
        }
        if k < urls.len() {
            lemma_mention(urls[k].0, "changelog"@, "release"@, "news"@);
        }
    }
}

proof fn lemma_first_at(
    urls: Seq<(Seq<char>, Seq<char>)>,
    a: Seq<char>,
    b: Seq<char>,
    c: Seq<char>,
    k: int,
)
    requires
        0 <= k <= urls.len(),
    ensures
        (forall|j: int| 0 <= j < k ==> !mentions((#[trigger] urls[j]).0, a, b, c)) ==> {
            &&& k < urls.len() && mentions(urls[k].0, a, b, c) ==> first_mention(urls, a, b, c)
                == Some(urls[k].1)
            &&& k == urls.len() ==> first_mention(urls, a, b, c) is None
        },
    decreases k,
{
    if k > 0 && forall|j: int| 0 <= j < k ==> !mentions((#[trigger] urls[j]).0, a, b, c) {
        let rest = urls.skip(1);
        assert(!mentions(urls[0].0, a, b, c));
        assert forall|j: int| 0 <= j < k - 1 implies !mentions((#[trigger] rest[j]).0, a, b, c) by {
            assert(rest[j] == urls[j + 1]);
        }
        lemma_first_at(rest, a, b, c, k - 1);
        if k < urls.len() {
            assert(rest[k - 1] == urls[k]);
        }
    }
}

/// The repository of an npm package is given as a text, or as the text under `url`.
pub proof fn law_npm_repo(url: Seq<char>, entries: Seq<(Seq<char>, Tree)>, i: int)
    requires
        0 <= i < entries.len(),
        entries[i] == ("url"@, Tree::Text(url)),
        forall|j: int| 0 <= j < entries.len() && j != i ==> (#[trigger] entries[j]).0 != "url"@,
    ensures
        npm_repo(Tree::Text(url)) == Some(url),
        npm_repo(Tree::Table(entries)) == Some(url),
{
    lemma_key_index_is(entries, "url"@, i);
}

} // verus!
