//! What a requirement is made of, and what an update does to it.
use vstd::prelude::*;
use vstd::string::*;
use crate::chars;
use crate::plugin::{Dep, DepType, is_behind_prefix, lemma_behind_prefix};
use crate::plugins::requirements::{
    Requirement, line_requirement, listed, marker, new_version, not_operator,
    requirement, rewritten, target_of, update_for, version_of,
};

verus! {

/// A character that the specifiers of a version can start with.
pub open spec fn is_sign(c: char) -> bool {
    c == '=' || c == '>' || c == '<' || c == '~' || c == '!'
}

/// A name, its extras in square brackets or none, white space, and specifiers that
/// start with an operator or none.
pub open spec fn is_pieces(
    name: Seq<char>,
    extras: Seq<char>,
    gap: Seq<char>,
    spec: Seq<char>,
) -> bool {
    &&& name.len() > 0
    &&& name[0] != '-'
    &&& forall|i: int|
        0 <= i < name.len() ==> !chars::is_space(#[trigger] name[i]) && !is_sign(name[i])
            && name[i] != ';' && name[i] != '[' && name[i] != '#' && name[i] != '@'
    &&& extras.len() > 0 ==> extras[0] == '['
    &&& forall|i: int|
        0 <= i < extras.len() ==> !chars::is_space(#[trigger] extras[i]) && !is_sign(extras[i])
            && extras[i] != ';' && extras[i] != '#' && extras[i] != '@'
    &&& forall|i: int| 0 <= i < gap.len() ==> chars::is_space(#[trigger] gap[i])
    &&& spec.len() > 0 ==> is_sign(spec[0]) && !chars::is_space(spec.last())
    &&& forall|i: int|
        0 <= i < spec.len() ==> #[trigger] spec[i] != ';' && spec[i] != '#' && spec[i] != '@'
}

/// The version that specifiers ask for: any, where there are none.
pub open spec fn version_asked(spec: Seq<char>) -> Seq<char> {
    if spec.len() == 0 {
        "*"@
    } else {
        spec
    }
}

/// What is read of the pieces.
pub proof fn lemma_pieces(name: Seq<char>, extras: Seq<char>, gap: Seq<char>, spec: Seq<char>)
    requires
        is_pieces(name, extras, gap, spec),
    ensures
        ({
            let all = name + extras + gap + spec;
            let r = chars::trim(all);
            let n = chars::leading(r, not_operator()) as int;
            &&& all.len() > 0
            &&& all[0] == name[0]
            &&& forall|i: int|
                0 <= i < all.len() ==> #[trigger] all[i] != ';' && all[i] != '#' && all[i] != '@'
            &&& r.len() > 0
            &&& !chars::is_space(r[0])
            &&& !chars::is_space(r.last())
            &&& target_of(r) == name + extras
            &&& version_of(r) == version_asked(spec)
            &&& chars::trim(chars::before(name + extras, '[')) == name
            &&& n < r.len() <==> spec.len() > 0
            &&& chars::trim(chars::before(r.take(n), '[')) == name
            &&& spec.len() > 0 ==> r == all && n == (name + extras + gap).len()
            &&& spec.len() == 0 ==> r == name + extras && n == r.len()
            &&& chars::leading(all, not_operator()) == (name + extras + gap).len()
        }),
{
    let target = name + extras;
    let all = name + extras + gap + spec;
    assert(name[0] == all[0]);
    assert(!chars::is_space(name[0]));
    assert forall|i: int| 0 <= i < target.len() implies !chars::is_space(#[trigger] target[i])
        && !is_sign(target[i]) && target[i] != ';' && target[i] != '#' && target[i] != '@' by {
        if i < name.len() {
            assert(target[i] == name[i]);
        } else {
            assert(target[i] == extras[i - name.len()]);
        }
    }
    assert forall|i: int| 0 <= i < all.len() implies #[trigger] all[i] != ';' && all[i] != '#'
        && all[i] != '@' by {
        if i < target.len() {
            assert(all[i] == target[i]);
        } else if i < target.len() + gap.len() {
            assert(all[i] == gap[i - target.len()]);
        } else {
            assert(all[i] == spec[i - target.len() - gap.len()]);
        }
    }
    assert(!chars::is_space(target[target.len() - 1]));
    assert(target.last() == target[target.len() - 1]);
    let none = Seq::<char>::empty();
    chars::lemma_trim_around(none, target, gap);
    assert(none + target + gap =~= target + gap);
    chars::lemma_trim_is(name);
    if extras.len() > 0 {
        assert(target =~= name + seq!['['] + extras.skip(1));
        assert(!name.contains('['));
        chars::lemma_first(name, '[', extras.skip(1));
    } else {
        assert(target =~= name);
        chars::lemma_before_all(target, '[');
    }
    let front = target + gap;
    assert forall|i: int| 0 <= i < front.len() implies not_operator()(#[trigger] front[i]) by {
        if i < target.len() {
            assert(front[i] == target[i]);
        } else {
            assert(front[i] == gap[i - target.len()]);
        }
    }
    if spec.len() > 0 {
        assert(all.last() == spec.last());
        chars::lemma_trim_is(all);
        assert forall|i: int| 0 <= i < front.len() implies not_operator()(#[trigger] all[i]) by {
            assert(all[i] == front[i]);
        }
        assert(all[front.len() as int] == spec[0]);
        chars::lemma_leading_is(all, not_operator(), front.len() as int);
        assert(all.take(front.len() as int) =~= front);
        assert(all.skip(front.len() as int) =~= spec);
        chars::lemma_trim_is(spec);
        if extras.len() > 0 {
            assert(front =~= name + seq!['['] + (extras.skip(1) + gap));
            chars::lemma_first(name, '[', extras.skip(1) + gap);
        } else {
            assert(front =~= name + gap);
            assert forall|i: int| 0 <= i < front.len() implies #[trigger] front[i] != '[' by {
                if i < name.len() {
                    assert(front[i] == name[i]);
                } else {
                    assert(front[i] == gap[i - name.len()]);
                }
            }
            chars::lemma_before_all(front, '[');
        }
    } else {
        assert(all =~= front);
        chars::lemma_leading_is(front, not_operator(), front.len() as int);
        assert forall|i: int| 0 <= i < target.len() implies not_operator()(#[trigger] target[i]) by {}
        chars::lemma_leading_is(target, not_operator(), target.len() as int);
        assert(target.take(target.len() as int) =~= target);
    }
}

/// What stands behind the pieces: nothing, or a marker behind a semicolon.
pub open spec fn is_marker(marker: Seq<char>) -> bool {
    &&& marker.len() > 0 ==> marker[0] == ';'
    &&& forall|i: int| 0 <= i < marker.len() ==> #[trigger] marker[i] != '#' && marker[i] != '@'
}

/// What is read of the pieces with a marker behind them and white space around them.
proof fn lemma_content(
    indent: Seq<char>,
    name: Seq<char>,
    extras: Seq<char>,
    gap: Seq<char>,
    spec: Seq<char>,
    mark: Seq<char>,
)
    requires
        forall|i: int| 0 <= i < indent.len() ==> chars::is_space(#[trigger] indent[i]),
        is_pieces(name, extras, gap, spec),
        is_marker(mark),
    ensures
        requirement(indent + (name + extras + gap + spec) + mark) == Some(
            Requirement { name, target: name + extras, version: version_asked(spec) },
        ),
{
    let core = name + extras + gap + spec;
    let text = core + mark;
    let content = indent + core + mark;
    lemma_pieces(name, extras, gap, spec);
    assert(content =~= indent + text);
    assert(content[indent.len() as int] == text[0]);
    assert(text[0] == core[0]);
    assert(!chars::is_space(name[0]));
    assert forall|i: int| 0 <= i < indent.len() implies chars::space()(#[trigger] content[i]) by {
        assert(content[i] == indent[i]);
    }
    chars::lemma_leading_is(content, chars::space(), indent.len() as int);
    assert(content.skip(indent.len() as int) =~= text);
    chars::lemma_trim_front(text);
    assert(chars::leading(text, chars::space()) == 0);
    assert(text.skip(0) =~= text);
    let all = chars::trim(content);
    assert(all == chars::trim(text));
    assert(all[0] == name[0]);
    assert forall|i: int| 0 <= i < all.len() implies #[trigger] all[i] != '@' by {
        assert(all[i] == text[i]);
        if i < core.len() {
            assert(text[i] == core[i]);
        } else {
            assert(text[i] == mark[i - core.len()]);
        }
    }
    reveal_strlit(" @ ");
    chars::lemma_find(all, " @ "@);
    if chars::has(all, " @ "@) {
        let n = chars::find(all, " @ "@)->0 as int;
        assert(all.subrange(n, n + 3)[1] == all[n + 1]);
        assert(" @ "@[1] == '@');
    }
    assert(name[0] != '#');
    if mark.len() > 0 {
        assert(text[core.len() as int] == ';');
        chars::lemma_trailing(text, chars::space());
        let k = chars::trailing(text, chars::space()) as int;
        if text.len() - k <= core.len() {
            assert(chars::space()(text[core.len() as int]));
        }
        assert(all.len() > core.len());
        assert(all[core.len() as int] == ';');
        assert forall|i: int| 0 <= i < core.len() implies #[trigger] all[i] != ';' by {
            assert(all[i] == text[i]);
            assert(text[i] == core[i]);
        }
        chars::lemma_before(all, ';', core.len() as int);
        assert(all.take(core.len() as int) =~= core);
    } else {
        assert(text =~= core);
        assert forall|i: int| 0 <= i < all.len() implies #[trigger] all[i] != ';' by {
            assert(all[i] == core[i]);
        }
        chars::lemma_before_all(all, ';');
        chars::lemma_trim_is(all);
    }
}

/// A requirement is a name with its extras, the specifiers behind it, and a marker and
/// a comment that do not count. Without specifiers any version will do.
pub proof fn law_requirement(
    indent: Seq<char>,
    name: Seq<char>,
    extras: Seq<char>,
    gap: Seq<char>,
    spec: Seq<char>,
    mark: Seq<char>,
    comment: Seq<char>,
)
    requires
        forall|i: int| 0 <= i < indent.len() ==> chars::is_space(#[trigger] indent[i]),
        is_pieces(name, extras, gap, spec),
        is_marker(mark),
        comment.len() > 0 ==> comment[0] == '#',
    ensures
        line_requirement(indent + (name + extras + gap + spec) + mark + comment) == Some(
            Requirement {
                name,
                target: name + extras,
                version: if spec.len() == 0 {
                    "*"@
                } else {
                    spec
                },
            },
        ),
{
    let core = name + extras + gap + spec;
    let content = indent + core + mark;
    let line = content + comment;
    lemma_content(indent, name, extras, gap, spec, mark);
    lemma_pieces(name, extras, gap, spec);
    assert forall|i: int| 0 <= i < content.len() implies #[trigger] content[i] != '#' by {
        if i < indent.len() {
            assert(content[i] == indent[i]);
        } else if i < indent.len() + core.len() {
            assert(content[i] == core[i - indent.len()]);
        } else {
            assert(content[i] == mark[i - indent.len() - core.len()]);
        }
    }
    lemma_before_comment(content, comment);
}

/// A comment is cut off.
proof fn lemma_before_comment(content: Seq<char>, comment: Seq<char>)
    requires
        forall|i: int| 0 <= i < content.len() ==> #[trigger] content[i] != '#',
        comment.len() > 0 ==> comment[0] == '#',
    ensures
        chars::before(content + comment, '#') == content,
        chars::skip_while(content + comment, chars::is_not('#')) == comment,
{
    let line = content + comment;
    if comment.len() > 0 {
        assert(line[content.len() as int] == '#');
        assert forall|i: int| 0 <= i < content.len() implies #[trigger] line[i] != '#' by {
            assert(line[i] == content[i]);
        }
        chars::lemma_before(line, '#', content.len() as int);
        assert(line.take(content.len() as int) =~= content);
        assert(line.skip(content.len() as int) =~= comment);
    } else {
        assert(line =~= content);
        chars::lemma_before_all(content, '#');
        assert(line.skip(line.len() as int) =~= comment);
    }
}

/// Blank lines, comments, options and addresses are no requirements.
pub proof fn law_no_requirement(
    indent: Seq<char>,
    first: char,
    rest: Seq<char>,
    name: Seq<char>,
    url: Seq<char>,
)
    requires
        forall|i: int| 0 <= i < indent.len() ==> chars::is_space(#[trigger] indent[i]),
        first == '#' || first == '-',
        name.len() > 0,
        !chars::is_space(name[0]),
        url.len() > 0,
        !chars::is_space(url.last()),
    ensures
        line_requirement(indent) is None,
        requirement(indent) is None,
        line_requirement(indent + seq![first] + rest) is None,
        requirement(indent + seq![first] + rest) is None,
        requirement(name + " @ "@ + url) is None,
{
    lemma_blank(indent);
    assert forall|i: int| 0 <= i < indent.len() implies #[trigger] indent[i] != '#' by {}
    chars::lemma_before_all(indent, '#');
    let line = indent + seq![first] + rest;
    lemma_starts(indent, first, rest);
    if first == '#' {
        lemma_before_comment(indent, seq![first] + rest);
        assert(line =~= indent + (seq![first] + rest));
    } else {
        chars::lemma_leading(rest, chars::is_not('#'));
        let k = chars::leading(rest, chars::is_not('#')) as int;
        let head = indent + seq![first] + rest.take(k);
        assert forall|i: int| 0 <= i < head.len() implies #[trigger] head[i] != '#' by {
            if i < indent.len() {
                assert(head[i] == indent[i]);
            } else if i > indent.len() {
                assert(head[i] == rest[i - indent.len() - 1]);
                assert(chars::is_not('#')(rest[i - indent.len() - 1]));
            }
        }
        lemma_before_comment(head, rest.skip(k));
        assert(line =~= head + rest.skip(k));
        lemma_starts(indent, first, rest.take(k));
    }
    reveal_strlit(" @ ");
    let all = name + " @ "@ + url;
    assert(all[0] == name[0]);
    assert(all.last() == url.last());
    chars::lemma_trim_is(all);
    let n = name.len() as int;
    assert(all.subrange(n, n + 3) =~= " @ "@);
    assert(chars::occurs(all, " @ "@, n));
    chars::lemma_find(all, " @ "@);
}

proof fn lemma_blank(indent: Seq<char>)
    requires
        forall|i: int| 0 <= i < indent.len() ==> chars::is_space(#[trigger] indent[i]),
    ensures
        chars::trim(indent).len() == 0,
        requirement(indent) is None,
{
    chars::lemma_leading_is(indent, chars::space(), indent.len() as int);
}

proof fn lemma_starts(indent: Seq<char>, first: char, rest: Seq<char>)
    requires
        forall|i: int| 0 <= i < indent.len() ==> chars::is_space(#[trigger] indent[i]),
        first == '#' || first == '-',
    ensures
        requirement(indent + seq![first] + rest) is None,
{
    let line = indent + seq![first] + rest;
    let body = seq![first] + rest;
    assert(line[indent.len() as int] == first);
    assert forall|i: int| 0 <= i < indent.len() implies chars::space()(#[trigger] line[i]) by {
        assert(line[i] == indent[i]);
    }
    chars::lemma_leading_is(line, chars::space(), indent.len() as int);
    assert(line.skip(indent.len() as int) =~= body);
    assert(body[0] == first);
    chars::lemma_trim_front(body);
    assert(chars::leading(body, chars::space()) == 0);
    assert(body.skip(0) =~= body);
    assert(chars::trim(line) == chars::trim(body));
    assert(chars::trim(line)[0] == first);
}

/// What is written: with ranges preserved the latest version behind what stood before
/// the first digit, else the latest version alone, pinned by two equals signs.
pub proof fn law_latest_version_is_written(old: Seq<char>, latest: Seq<char>)
    ensures
        is_behind_prefix(new_version(old, latest, true), old, latest),
        new_version(old, latest, false) == seq!['=', '='] + latest,
{
    lemma_behind_prefix(old, latest);
    reveal_strlit("==");
    assert("=="@ =~= seq!['=', '=']);
}

/// An update of a line keeps the indent, the name with its extras, the marker and the
/// comment, and writes the new version behind the name.
pub proof fn law_rewritten_line(
    indent: Seq<char>,
    name: Seq<char>,
    extras: Seq<char>,
    gap: Seq<char>,
    spec: Seq<char>,
    mark: Seq<char>,
    space: Seq<char>,
    comment: Seq<char>,
    dep: Dep,
    preserve: bool,
)
    requires
        forall|i: int| 0 <= i < indent.len() ==> chars::is_space(#[trigger] indent[i]),
        is_pieces(name, extras, gap, spec),
        is_marker(mark),
        mark.len() > 0 ==> !chars::is_space(mark.last()),
        forall|i: int| 0 <= i < space.len() ==> chars::is_space(#[trigger] space[i]),
        comment.len() > 0 ==> comment[0] == '#',
        dep.latest is Some,
        dep.latest->0.len() > 0,
        dep.latest->0.last() != ' ',
    ensures
        ({
            let line = indent + (name + extras + gap + spec) + mark + space + comment;
            let version = if spec.len() == 0 {
                "*"@
            } else {
                spec
            };
            rewritten(line, dep, preserve) == if dep.name == name {
                indent + (name + extras) + new_version(version, dep.latest->0, preserve) + mark + (
                if comment.len() == 0 {
                    seq![]
                } else {
                    seq![' '] + comment
                })
            } else {
                line
            }
        }),
{
    let core = name + extras + gap + spec;
    let latest = dep.latest->0;
    let line = indent + core + mark + space + comment;
    lemma_line_read(indent, name, extras, gap, spec, mark, space, comment);
    if dep.name == name {
        let text = core + mark + space;
        let body = text + comment;
        lemma_pieces(name, extras, gap, spec);
        lemma_behind_indent(indent, core, mark, space, comment);
        assert(line =~= indent + body);
        lemma_marker(core, mark, space);
        let start = indent + (name + extras) + new_version(version_asked(spec), latest, preserve)
            + mark;
        if comment.len() > 0 {
            assert(chars::leading(comment, chars::space()) == 0);
            assert(comment.skip(0) =~= comment);
            let v = new_version(version_asked(spec), latest, preserve);
            assert(v.last() == latest.last());
            if mark.len() > 0 {
                assert(start.last() == mark.last());
            } else {
                assert(start.last() == v.last());
            }
            assert(start.push(' ') + comment =~= start + (seq![' '] + comment));
        } else {
            assert(start + seq![] =~= start);
        }
    }
}

/// Where the parts of a line stand.
proof fn lemma_behind_indent(
    indent: Seq<char>,
    core: Seq<char>,
    mark: Seq<char>,
    space: Seq<char>,
    comment: Seq<char>,
)
    requires
        forall|i: int| 0 <= i < indent.len() ==> chars::is_space(#[trigger] indent[i]),
        core.len() > 0,
        !chars::is_space(core[0]),
        forall|i: int| 0 <= i < core.len() ==> #[trigger] core[i] != '#',
        is_marker(mark),
        forall|i: int| 0 <= i < space.len() ==> chars::is_space(#[trigger] space[i]),
        comment.len() > 0 ==> comment[0] == '#',
    ensures
        ({
            let text = core + mark + space;
            let line = indent + (text + comment);
            &&& chars::take_while(line, chars::space()) == indent
            &&& chars::trim_start(line) == text + comment
            &&& chars::before(text + comment, '#') == text
            &&& chars::skip_while(text + comment, chars::is_not('#')) == comment
        }),
{
    let text = core + mark + space;
    let body = text + comment;
    let line = indent + body;
    assert(body[0] == core[0]);
    assert(line[indent.len() as int] == body[0]);
    assert forall|i: int| 0 <= i < indent.len() implies chars::space()(#[trigger] line[i]) by {
        assert(line[i] == indent[i]);
    }
    chars::lemma_leading_is(line, chars::space(), indent.len() as int);
    assert(line.take(indent.len() as int) =~= indent);
    assert(line.skip(indent.len() as int) =~= body);
    assert forall|i: int| 0 <= i < text.len() implies #[trigger] text[i] != '#' by {
        if i < core.len() {
            assert(text[i] == core[i]);
        } else if i < core.len() + mark.len() {
            assert(text[i] == mark[i - core.len()]);
        } else {
            assert(text[i] == space[i - core.len() - mark.len()]);
        }
    }
    lemma_before_comment(text, comment);
}

/// What is read of a line with white space before the comment.
proof fn lemma_line_read(
    indent: Seq<char>,
    name: Seq<char>,
    extras: Seq<char>,
    gap: Seq<char>,
    spec: Seq<char>,
    mark: Seq<char>,
    space: Seq<char>,
    comment: Seq<char>,
)
    requires
        forall|i: int| 0 <= i < indent.len() ==> chars::is_space(#[trigger] indent[i]),
        is_pieces(name, extras, gap, spec),
        is_marker(mark),
        forall|i: int| 0 <= i < space.len() ==> chars::is_space(#[trigger] space[i]),
        comment.len() > 0 ==> comment[0] == '#',
    ensures
        line_requirement(indent + (name + extras + gap + spec) + mark + space + comment) == Some(
            Requirement { name, target: name + extras, version: version_asked(spec) },
        ),
{
    let core = name + extras + gap + spec;
    let line = indent + core + mark + space + comment;
    lemma_pieces(name, extras, gap, spec);
    let tail = mark + space;
    assert(is_marker(mark));
    if mark.len() == 0 {
        let wide = gap + space;
        if spec.len() == 0 {
            assert forall|i: int| 0 <= i < wide.len() implies chars::is_space(
                #[trigger] wide[i],
            ) by {
                if i < gap.len() {
                    assert(wide[i] == gap[i]);
                } else {
                    assert(wide[i] == space[i - gap.len()]);
                }
            }
            assert(line =~= indent + (name + extras + wide + spec) + mark + comment);
            law_requirement(indent, name, extras, wide, spec, mark, comment);
        } else {
            lemma_trailing_space(indent, name, extras, gap, spec, space, comment);
        }
    } else {
        assert forall|i: int| 0 <= i < tail.len() implies #[trigger] tail[i] != '#' && tail[i]
            != '@' by {
            if i < mark.len() {
                assert(tail[i] == mark[i]);
            } else {
                assert(tail[i] == space[i - mark.len()]);
            }
        }
        assert(tail[0] == mark[0]);
        assert(line =~= indent + core + tail + comment);
        law_requirement(indent, name, extras, gap, spec, tail, comment);
    }
}

proof fn lemma_trailing_space(
    indent: Seq<char>,
    name: Seq<char>,
    extras: Seq<char>,
    gap: Seq<char>,
    spec: Seq<char>,
    space: Seq<char>,
    comment: Seq<char>,
)
    requires
        forall|i: int| 0 <= i < indent.len() ==> chars::is_space(#[trigger] indent[i]),
        is_pieces(name, extras, gap, spec),
        spec.len() > 0,
        forall|i: int| 0 <= i < space.len() ==> chars::is_space(#[trigger] space[i]),
        comment.len() > 0 ==> comment[0] == '#',
    ensures
        line_requirement(
            indent + (name + extras + gap + spec) + Seq::<char>::empty() + space + comment,
        ) == Some(Requirement { name, target: name + extras, version: spec }),
{
    let core = name + extras + gap + spec;
    let none = Seq::<char>::empty();
    let content = indent + core + space;
    lemma_pieces(name, extras, gap, spec);
    lemma_content(none, name, extras, gap, spec, none);
    assert(none + core + none =~= core);
    assert forall|i: int| 0 <= i < content.len() implies #[trigger] content[i] != '#' by {
        if i < indent.len() {
            assert(content[i] == indent[i]);
        } else if i < indent.len() + core.len() {
            assert(content[i] == core[i - indent.len()]);
        } else {
            assert(content[i] == space[i - indent.len() - core.len()]);
        }
    }
    lemma_before_comment(content, comment);
    assert(indent + core + none + space + comment =~= content + comment);
    assert(core.last() == spec.last());
    assert(!chars::is_space(name[0]));
    chars::lemma_trim_around(indent, core, space);
    chars::lemma_trim_is(core);
    assert(chars::trim(content) == core);
}

proof fn lemma_marker(core: Seq<char>, mark: Seq<char>, space: Seq<char>)
    requires
        core.len() > 0,
        !chars::is_space(core[0]),
        forall|i: int| 0 <= i < core.len() ==> #[trigger] core[i] != ';',
        is_marker(mark),
        mark.len() > 0 ==> !chars::is_space(mark.last()),
        forall|i: int| 0 <= i < space.len() ==> chars::is_space(#[trigger] space[i]),
    ensures
        marker(core + mark + space) == mark,
{
    let text = core + mark + space;
    if mark.len() > 0 {
        let front = core + mark;
        let none = Seq::<char>::empty();
        assert(front.last() == mark.last());
        chars::lemma_trim_around(none, front, space);
        assert(none + front + space =~= text);
        assert(front[core.len() as int] == ';');
        assert forall|i: int| 0 <= i < core.len() implies #[trigger] front[i] != ';' by {
            assert(front[i] == core[i]);
        }
        chars::lemma_before(front, ';', core.len() as int);
        assert(front.skip(core.len() as int) =~= mark);
    } else {
        assert(text[0] == core[0]);
        chars::lemma_trim_front(text);
        let t = chars::trim(text);
        assert forall|i: int| 0 <= i < t.len() implies #[trigger] t[i] != ';' by {
            assert(t[i] == text[i]);
            if i < core.len() {
                assert(text[i] == core[i]);
            } else {
                assert(text[i] == space[i - core.len()]);
            }
        }
        chars::lemma_before_all(t, ';');
        assert(t.skip(t.len() as int) =~= mark);
    }
}

/// What is listed is what the lines ask for, with nothing known of it yet.
pub proof fn law_listed_requirements(lines: Seq<Seq<char>>, d: Dep)
    ensures
        listed(lines).contains(d) <==> {
            &&& exists|i: int|
                0 <= i < lines.len() && (#[trigger] line_requirement(lines[i])) is Some
                    && line_requirement(lines[i])->0.name == d.name && line_requirement(
                    lines[i],
                )->0.version == d.current
            &&& d.dep_type == DepType::Normal
            &&& d.latest is None
            &&& !d.satisfied
            &&& !d.check_failed
            &&& d.peers.len() == 0
            &&& d.held_back.len() == 0
        },
    decreases lines.len(),
{
    if d.peers.len() == 0 && d.held_back.len() == 0 {
        assert(d.peers =~= seq![]);
        assert(d.held_back =~= seq![]);
    }
    if lines.len() > 0 {
        let front = lines.drop_last();
        let before = listed(front);
        let all = listed(lines);
        let n = lines.len() - 1;
        law_listed_requirements(front, d);
        if let Some(q) = line_requirement(lines.last()) {
            let fresh = Dep::fresh(q.name, q.version, DepType::Normal);
            assert(all == before.push(fresh));
            assert(all[before.len() as int] == fresh);
            if before.contains(d) {
                let i = choose|i: int| 0 <= i < before.len() && before[i] == d;
                assert(all[i] == d);
            }
            if all.contains(d) && !before.contains(d) {
                let i = choose|i: int| 0 <= i < all.len() && all[i] == d;
                if i < before.len() {
                    assert(before[i] == d);
                }
                assert(line_requirement(lines[n]) is Some);
            }
        }
        if before.contains(d) {
            let i = choose|i: int|
                0 <= i < front.len() && (#[trigger] line_requirement(front[i])) is Some
                    && line_requirement(front[i])->0.name == d.name && line_requirement(
                    front[i],
                )->0.version == d.current;
            assert(line_requirement(lines[i]) is Some);
        }
        if exists|i: int|
            0 <= i < lines.len() && (#[trigger] line_requirement(lines[i])) is Some
                && line_requirement(lines[i])->0.name == d.name && line_requirement(
                lines[i],
            )->0.version == d.current {
            let i = choose|i: int|
                0 <= i < lines.len() && (#[trigger] line_requirement(lines[i])) is Some
                    && line_requirement(lines[i])->0.name == d.name && line_requirement(
                    lines[i],
                )->0.version == d.current;
            if i < n {
                assert(line_requirement(front[i]) is Some);
            } else {
                assert(lines[i] == lines.last());
            }
        }
    }
}

/// The first update of a name is the one that counts.
pub proof fn law_first_update_counts(updates: Seq<Dep>, name: Seq<char>)
    ensures
        match update_for(updates, name) {
            Some(dep) => exists|k: int|
                0 <= k < updates.len() && #[trigger] updates[k] == dep && dep.name == name
                    && forall|j: int| 0 <= j < k ==> (#[trigger] updates[j]).name != name,
            None => forall|j: int| 0 <= j < updates.len() ==> (#[trigger] updates[j]).name != name,
        },
    decreases updates.len(),
{
    if updates.len() > 0 && updates[0].name != name {
        let rest = updates.skip(1);
        law_first_update_counts(rest, name);
        match update_for(rest, name) {
            Some(dep) => {
                let k = choose|k: int|
                    0 <= k < rest.len() && #[trigger] rest[k] == dep && dep.name == name
                        && forall|j: int| 0 <= j < k ==> (#[trigger] rest[j]).name != name;
                assert forall|j: int| 0 <= j < k + 1 implies (#[trigger] updates[j]).name != name by {
                    if j > 0 {
                        assert(updates[j] == rest[j - 1]);
                    }
                }
                assert(updates[k + 1] == dep);
            },
            None => {
                assert forall|j: int| 0 <= j < updates.len() implies (#[trigger] updates[j]).name
                    != name by {
                    if j > 0 {
                        assert(updates[j] == rest[j - 1]);
                    }
                }
            },
        }
    } else if updates.len() > 0 {
        assert(updates[0] == updates[0]);
    }
}

/// The requirements are listed line by line.
pub proof fn law_listed_line_by_line(a: Seq<Seq<char>>, b: Seq<Seq<char>>)
    ensures
        listed(a + b) == listed(a) + listed(b),
    decreases b.len(),
{
    if b.len() == 0 {
        assert(a + b =~= a);
        assert(listed(a) + listed(b) =~= listed(a));
    } else {
        law_listed_line_by_line(a, b.drop_last());
        assert((a + b).drop_last() =~= a + b.drop_last());
        assert(listed(a + b) =~= listed(a) + listed(b));
    }
}

} // verus!
