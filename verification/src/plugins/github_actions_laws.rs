//! What is read of an action, when it is up to date, and that what is written is read
//! again.
use vstd::prelude::*;
use vstd::string::*;
use crate::chars;
use crate::plugin::{Dep, DepType, lemma_filtered};
use crate::plugins::github_actions::{
    Answer, action, answered, collected, first_line, follows, is_on, is_workflow, listed, opening,
    planned, prefix_parts, remote_tag, replacement, replacements, repo_of, resolved, rewritten,
    rewritten_lines, token_char, updated, uses, uses_parts, workflows_of,
};
use crate::version;

verus! {

/// The text can be read again behind the `@` of an action.
pub open spec fn is_ref(s: Seq<char>) -> bool {
    &&& s.len() > 0
    &&& forall|i: int| 0 <= i < s.len() ==> !chars::is_space(#[trigger] s[i]) && s[i] != '@'
    &&& s.last() != '"'
    &&& s.last() != '\''
}

/// What is read of a line is what is replaced in it, and a double quote in front
/// of it is not closed by a single one.
pub open spec fn is_plain_use(line: Seq<char>) -> bool {
    match uses_parts(line) {
        Some((_, quote, token, rest)) => {
            &&& uses(line) is Some
            &&& uses(line) == action(token)
            &&& quote == seq!['"'] ==> rest.len() == 0 || rest[0] != '\''
        },
        None => false,
    }
}

/// A value without the quotes around it.
spec fn unwrapped(s: Seq<char>) -> Seq<char> {
    chars::trim_char(chars::trim_char(s, '"'), '\'')
}

/// Nothing, or one quote.
spec fn is_opening(q: Seq<char>) -> bool {
    q.len() == 0 || q == seq!['"'] || q == seq!['\'']
}

/// What is left of `tail` without the double and then the single quotes at its end.
spec fn stub(tail: Seq<char>) -> Seq<char> {
    chars::trim_end_char(chars::trim_end_char(tail, '"'), '\'')
}

/// Quotes at the start of a text that is not only of them, and at its end.
proof fn lemma_trim_char(front: Seq<char>, x: Seq<char>, tail: Seq<char>, k: char)
    requires
        x.len() > 0,
        x[0] != k,
        x.last() != k,
        forall|i: int| 0 <= i < front.len() ==> #[trigger] front[i] == k,
    ensures
        chars::trim_char(front + x + tail, k) == x + chars::trim_end_char(tail, k),
{
    let all = front + x + tail;
    let f = front.len() as int;
    assert(all[f] == x[0]);
    assert forall|i: int| 0 <= i < f implies chars::is(k)(#[trigger] all[i]) by {
        assert(all[i] == front[i]);
    }
    chars::lemma_leading_is(all, chars::is(k), f);
    let t = x + tail;
    assert(all.skip(f) =~= t);
    chars::lemma_trailing(tail, chars::is(k));
    let n = chars::trailing(tail, chars::is(k)) as int;
    assert forall|i: int| t.len() - n <= i < t.len() implies chars::is(k)(#[trigger] t[i]) by {
        assert(t[i] == tail[i - x.len()]);
    }
    if n < tail.len() {
        assert(t[t.len() - n - 1] == tail[tail.len() - n - 1]);
    } else {
        assert(t[t.len() - n - 1] == x.last());
    }
    chars::lemma_trailing_is(t, chars::is(k), n);
    assert(t.take(t.len() - n) =~= x + tail.take(tail.len() - n));
}

/// What unwrapping leaves of a value between quotes.
proof fn lemma_unwrapped(q: Seq<char>, x: Seq<char>, tail: Seq<char>)
    requires
        is_opening(q),
        x.len() > 0,
        x[0] != '"',
        x[0] != '\'',
        x.last() != '"',
        x.last() != '\'',
    ensures
        unwrapped(q + x + tail) == x + stub(tail),
{
    let none = Seq::<char>::empty();
    let t1 = chars::trim_end_char(tail, '"');
    if q == seq!['\''] {
        let y = q + x;
        assert(y.last() == x.last());
        assert(none + y + tail =~= q + x + tail);
        lemma_trim_char(none, y, tail, '"');
        assert(y + t1 =~= q + x + t1);
        lemma_trim_char(q, x, t1, '\'');
    } else {
        lemma_trim_char(q, x, tail, '"');
        assert(none + x + t1 =~= x + t1);
        lemma_trim_char(none, x, t1, '\'');
    }
}

/// A quote in front of closing quotes leaves nothing either, but for a double quote
/// in front of a single one.
proof fn lemma_stub(q: Seq<char>, tail: Seq<char>)
    requires
        is_opening(q),
        stub(tail).len() == 0,
        q == seq!['"'] ==> tail.len() == 0 || tail[0] != '\'',
    ensures
        stub(q + tail).len() == 0,
{
    let all = q + tail;
    let t1 = chars::trim_end_char(tail, '"');
    let n = chars::trailing(tail, chars::is('"')) as int;
    chars::lemma_trailing(tail, chars::is('"'));
    chars::lemma_trailing(t1, chars::is('\''));
    assert forall|i: int| 0 <= i < t1.len() implies #[trigger] t1[i] == '\'' by {
        assert(chars::is('\'')(t1[i]));
    }
    assert forall|i: int| all.len() - n <= i < all.len() implies chars::is('"')(
        #[trigger] all[i],
    ) by {
        assert(all[i] == tail[i - q.len()]);
    }
    if q == seq!['"'] {
        assert(t1.len() == 0) by {
            if t1.len() > 0 {
                assert(t1[0] == tail[0]);
            }
        }
        assert forall|i: int| 0 <= i < all.len() implies chars::is('"')(#[trigger] all[i]) by {
            if i > 0 {
                assert(all[i] == tail[i - 1]);
            }
        }
        chars::lemma_trailing_is(all, chars::is('"'), all.len() as int);
        assert(all.take(0) =~= seq![]);
    } else {
        if n < all.len() {
            if n < tail.len() {
                assert(all[all.len() - n - 1] == tail[tail.len() - n - 1]);
            } else {
                assert(all[all.len() - n - 1] == q[0]);
            }
        }
        chars::lemma_trailing_is(all, chars::is('"'), n);
        let u = all.take(all.len() - n);
        assert(u =~= q + t1);
        assert forall|i: int| 0 <= i < u.len() implies chars::is('\'')(#[trigger] u[i]) by {
            if i >= q.len() {
                assert(u[i] == t1[i - q.len()]);
            }
        }
        chars::lemma_trailing_is(u, chars::is('\''), u.len() as int);
    }
}

/// The parts of an action's value.
proof fn lemma_action(value: Seq<char>)
    requires
        action(value) is Some,
    ensures
        ({
            let (name, reference) = action(value)->0;
            &&& name.len() > 0
            &&& name.len() + 1 + reference.len() == value.len()
            &&& name == value.take(name.len() as int)
            &&& value[name.len() as int] == '@'
        }),
{
    chars::lemma_trailing(value, chars::is_not('@'));
}

/// A name and a reference with an `@` between them are read as such.
proof fn lemma_action_is(value: Seq<char>, reference: Seq<char>)
    requires
        action(value) is Some,
        is_ref(reference),
    ensures
        ({
            let name = (action(value)->0).0;
            action(name + "@"@ + reference) == Some((name, reference))
        }),
{
    reveal_strlit("@");
    reveal_strlit("./");
    reveal_strlit("docker://");
    reveal_strlit("${{");
    let name = (action(value)->0).0;
    let n = name.len() as int;
    let x = name + "@"@ + reference;
    lemma_action(value);
    assert(x[n] == '@');
    assert(x.take(n) =~= value.take(n));
    lemma_same_start(value, x, n, "./"@);
    lemma_same_start(value, x, n, "docker://"@);
    lemma_same_start(value, x, n, "${{"@);
    assert forall|i: int| x.len() - reference.len() <= i < x.len() implies chars::is_not('@')(
        #[trigger] x[i],
    ) by {
        assert(x[i] == reference[i - n - 1]);
    }
    chars::lemma_trailing_is(x, chars::is_not('@'), reference.len() as int);
    assert(x.take(n) =~= name);
    assert(x.skip(n + 1) =~= reference);
}

/// Two texts that agree up to an `@` start with the same texts that hold none.
proof fn lemma_same_start(s: Seq<char>, x: Seq<char>, n: int, p: Seq<char>)
    requires
        0 <= n < s.len(),
        n < x.len(),
        s.take(n) == x.take(n),
        x[n] == '@',
        !p.contains('@'),
        !chars::starts_with(s, p),
    ensures
        !chars::starts_with(x, p),
{
    if chars::starts_with(x, p) {
        let m = p.len() as int;
        if m <= n {
            assert(s.take(m) =~= s.take(n).take(m));
            assert(x.take(m) =~= x.take(n).take(m));
        } else {
            assert(p[n] == x.take(m)[n]);
        }
    }
}

/// Where the key of a line that starts with it stands.
proof fn lemma_key(line: Seq<char>)
    requires
        chars::starts_with(chars::trim_start(line), "uses:"@),
    ensures
        chars::find(line, "uses:"@) == Some(chars::leading(line, chars::space())),
{
    reveal_strlit("uses:");
    let key = "uses:"@;
    let lead = chars::leading(line, chars::space()) as int;
    chars::lemma_leading(line, chars::space());
    chars::lemma_find(line, key);
    let body = chars::trim_start(line);
    assert(line.subrange(lead, lead + 5) =~= body.take(5));
    assert(chars::occurs(line, key, lead));
    let at = chars::find(line, key)->0 as int;
    if at < lead {
        assert(line.subrange(at, at + 5)[0] == line[at]);
        assert(chars::space()(line[at]));
    }
}

/// The first word of a text behind white space.
proof fn lemma_first_word(blank: Seq<char>, value: Seq<char>)
    requires
        forall|i: int| 0 <= i < blank.len() ==> chars::is_space(#[trigger] blank[i]),
        value.len() > 0,
        !chars::is_space(value[0]),
    ensures
        chars::words(blank + value).len() > 0,
        chars::words(blank + value)[0] == chars::take_while(value, chars::not_space()),
        chars::trim_start(blank + value) == value,
{
    let all = blank + value;
    assert(all[blank.len() as int] == value[0]);
    assert forall|i: int| 0 <= i < blank.len() implies chars::space()(#[trigger] all[i]) by {
        assert(all[i] == blank[i]);
    }
    chars::lemma_leading_is(all, chars::space(), blank.len() as int);
    assert(all.skip(blank.len() as int) =~= value);
}

/// The first word of a text that starts with a text without white space.
proof fn lemma_word_of(x: Seq<char>, rest: Seq<char>)
    requires
        forall|i: int| 0 <= i < x.len() ==> !chars::is_space(#[trigger] x[i]),
    ensures
        chars::take_while(x + rest, chars::not_space()) == x + chars::take_while(
            rest,
            chars::not_space(),
        ),
{
    let all = x + rest;
    let m = chars::leading(rest, chars::not_space()) as int;
    chars::lemma_leading(rest, chars::not_space());
    assert forall|i: int| 0 <= i < x.len() + m implies chars::not_space()(#[trigger] all[i]) by {
        if i < x.len() {
            assert(all[i] == x[i]);
        } else {
            assert(all[i] == rest[i - x.len()]);
        }
    }
    if m < rest.len() {
        assert(all[x.len() + m] == rest[m]);
    }
    chars::lemma_leading_is(all, chars::not_space(), x.len() + m);
    assert(all.take(x.len() + m) =~= x + rest.take(m));
}

/// The parts of a value, and what they are made of.
proof fn lemma_value(value: Seq<char>)
    ensures
        ({
            let quote = opening(value);
            let body = value.skip(quote.len() as int);
            let token = chars::take_while(body, token_char());
            let rest = chars::skip_while(body, token_char());
            &&& is_opening(quote)
            &&& value == quote + token + rest
            &&& forall|i: int|
                0 <= i < quote.len() ==> !chars::is_space(#[trigger] quote[i])
            &&& forall|i: int| 0 <= i < token.len() ==> token_char()(#[trigger] token[i])
        }),
{
    let quote = opening(value);
    let body = value.skip(quote.len() as int);
    chars::lemma_leading(body, token_char());
    if quote.len() > 0 {
        assert(quote =~= seq![value[0]]);
    }
    let token = chars::take_while(body, token_char());
    let rest = chars::skip_while(body, token_char());
    assert(value =~= quote + token + rest);
    assert forall|i: int| 0 <= i < token.len() implies token_char()(#[trigger] token[i]) by {
        assert(token[i] == body[i]);
    }
}

/// What is read of a value that is made of these parts.
spec fn read(quote: Seq<char>, token: Seq<char>, rest: Seq<char>) -> Option<
    (Seq<char>, Seq<char>),
> {
    action(unwrapped(chars::take_while(quote + token + rest, chars::not_space())))
}

/// Where what is read is the token's action, only quotes stand behind the token.
proof fn lemma_closed(quote: Seq<char>, token: Seq<char>, rest: Seq<char>)
    requires
        is_opening(quote),
        forall|i: int| 0 <= i < quote.len() ==> !chars::is_space(#[trigger] quote[i]),
        forall|i: int| 0 <= i < token.len() ==> token_char()(#[trigger] token[i]),
        action(token) is Some,
        read(quote, token, rest) == action(token),
    ensures
        stub(chars::take_while(rest, chars::not_space())).len() == 0,
{
    let tail = chars::take_while(rest, chars::not_space());
    let x = quote + token;
    assert forall|i: int| 0 <= i < x.len() implies !chars::is_space(#[trigger] x[i]) by {
        if i < quote.len() {
            assert(x[i] == quote[i]);
        } else {
            assert(token_char()(token[i - quote.len()]));
        }
    }
    lemma_word_of(x, rest);
    lemma_action(token);
    assert(token_char()(token[0]));
    assert(token_char()(token.last()));
    lemma_unwrapped(quote, token, tail);
    lemma_action(token + stub(tail));
}

/// What is read of a value once its reference is replaced.
proof fn lemma_read_back(quote: Seq<char>, token: Seq<char>, rest: Seq<char>, reference: Seq<char>)
    requires
        is_opening(quote),
        forall|i: int| 0 <= i < quote.len() ==> !chars::is_space(#[trigger] quote[i]),
        forall|i: int| 0 <= i < token.len() ==> token_char()(#[trigger] token[i]),
        action(token) is Some,
        stub(chars::take_while(rest, chars::not_space())).len() == 0,
        quote == seq!['"'] ==> rest.len() == 0 || rest[0] != '\'',
        is_ref(reference),
    ensures
        ({
            let name = (action(token)->0).0;
            read(quote, name + "@"@ + reference, quote + rest) == Some((name, reference))
        }),
{
    reveal_strlit("@");
    let name = (action(token)->0).0;
    let n = name.len() as int;
    let x = name + "@"@ + reference;
    let tail = chars::take_while(rest, chars::not_space());
    lemma_action(token);
    lemma_action_is(token, reference);
    let y = quote + x;
    assert forall|i: int| 0 <= i < y.len() implies !chars::is_space(#[trigger] y[i]) by {
        if i < quote.len() {
            assert(y[i] == quote[i]);
        } else if i < quote.len() + n {
            assert(y[i] == token[i - quote.len()]);
            assert(token_char()(token[i - quote.len()]));
        } else if i > quote.len() + n {
            assert(y[i] == reference[i - quote.len() - n - 1]);
        }
    }
    lemma_word_of(y, quote + rest);
    lemma_word_of(quote, rest);
    assert(chars::take_while(y + (quote + rest), chars::not_space()) == y + (quote + tail));
    assert(x[0] == token[0]);
    assert(token_char()(token[0]));
    assert(x.last() == reference.last());
    lemma_unwrapped(quote, x, quote + tail);
    chars::lemma_leading(rest, chars::not_space());
    if tail.len() > 0 {
        assert(tail[0] == rest[0]);
    }
    lemma_stub(quote, tail);
    assert(x + stub(quote + tail) =~= x);
}

/// What is read of a line: of its value's parts.
proof fn lemma_uses(line: Seq<char>)
    requires
        uses(line) is Some,
    ensures
        ({
            let body = chars::trim_start(line);
            let value = chars::trim_start(body.skip(5));
            let quote = opening(value);
            let inner = value.skip(quote.len() as int);
            let token = chars::take_while(inner, token_char());
            let rest = chars::skip_while(inner, token_char());
            &&& uses_parts(line) == Some((line.take(line.len() - value.len()), quote, token, rest))
            &&& uses(line) == read(quote, token, rest)
            &&& value.len() > 0
            &&& !chars::is_space(value[0])
            &&& value.len() + 5 <= body.len()
        }),
{
    reveal_strlit("uses:");
    let lead = chars::leading(line, chars::space()) as int;
    chars::lemma_leading(line, chars::space());
    let body = chars::trim_start(line);
    let after = body.skip(5);
    lemma_key(line);
    assert(line.skip(lead + 5) =~= after);
    let value = chars::trim_start(after);
    let m = chars::leading(after, chars::space()) as int;
    chars::lemma_leading(after, chars::space());
    assert(value.len() > 0);
    assert(value[0] == after[m]);
    let blank = after.take(m);
    assert forall|i: int| 0 <= i < blank.len() implies chars::is_space(#[trigger] blank[i]) by {
        assert(chars::space()(after[i]));
    }
    assert(blank + value =~= after);
    lemma_first_word(blank, value);
    lemma_value(value);
}

/// A line with another value is read as that value is.
proof fn lemma_uses_now(line: Seq<char>, now: Seq<char>)
    requires
        uses(line) is Some,
        now.len() > 0,
        !chars::is_space(now[0]),
    ensures
        ({
            let value = chars::trim_start(chars::trim_start(line).skip(5));
            uses(line.take(line.len() - value.len()) + now) == action(
                unwrapped(chars::take_while(now, chars::not_space())),
            )
        }),
{
    reveal_strlit("uses:");
    let key = "uses:"@;
    let lead = chars::leading(line, chars::space()) as int;
    chars::lemma_leading(line, chars::space());
    let body = chars::trim_start(line);
    let after = body.skip(5);
    let value = chars::trim_start(after);
    let m = chars::leading(after, chars::space()) as int;
    chars::lemma_leading(after, chars::space());
    lemma_uses(line);
    let blank = after.take(m);
    assert forall|i: int| 0 <= i < blank.len() implies chars::is_space(#[trigger] blank[i]) by {
        assert(chars::space()(after[i]));
    }
    let indent = line.take(lead);
    assert forall|i: int| 0 <= i < indent.len() implies chars::is_space(#[trigger] indent[i]) by {
        assert(chars::space()(line[i]));
    }
    let written = line.take(line.len() - value.len()) + now;
    let rest = key + blank + now;
    assert(written =~= indent + rest) by {
        assert(body.take(5) =~= key);
        assert(line.take(line.len() - value.len()) =~= indent + body.take(5) + blank);
    }
    assert(rest[0] == key[0]);
    lemma_first_word(indent, rest);
    assert(rest.take(5) =~= key);
    assert(rest.skip(5) =~= blank + now);
    lemma_first_word(blank, now);
}

/// A line that has been moved to another reference uses the same action at that
/// reference.
pub proof fn law_rewritten_line_reads_back(line: Seq<char>, plan: Seq<(Seq<char>, Seq<char>)>)
    requires
        is_plain_use(line),
        planned(plan, (uses(line)->0).0) matches Some(reference) && is_ref(reference),
    ensures
        uses(rewritten(line, plan)) == Some(
            ((uses(line)->0).0, planned(plan, (uses(line)->0).0)->0),
        ),
{
    let name = (uses(line)->0).0;
    let reference = planned(plan, name)->0;
    let value = chars::trim_start(chars::trim_start(line).skip(5));
    let (front, quote, token, rest) = uses_parts(line)->0;
    lemma_uses(line);
    lemma_value(value);
    lemma_closed(quote, token, rest);
    lemma_read_back(quote, token, rest, reference);
    lemma_action(token);
    let x = name + "@"@ + reference;
    let now = quote + x + (quote + rest);
    assert(now[0] == value[0]) by {
        if quote.len() == 0 {
            assert(now[0] == x[0]);
            assert(x[0] == name[0]);
            assert(value[0] == token[0]);
        } else {
            assert(now[0] == quote[0]);
            assert(value[0] == quote[0]);
        }
    }
    assert(rewritten(line, plan) =~= front + now);
    lemma_uses_now(line, now);
}

/// A workflow for whose actions nothing is planned stays as it is, but for carriage
/// returns at the ends of its lines.
pub proof fn law_no_plan_no_change(content: Seq<char>, plan: Seq<(Seq<char>, Seq<char>)>)
    requires
        forall|i: int|
            0 <= i < content.len() - 1 ==> !(#[trigger] content[i] == '\r' && content[i + 1]
                == '\n'),
        forall|i: int|
            0 <= i < chars::lines(content).len() ==> match uses_parts(
                #[trigger] chars::lines(content)[i],
            ) {
                Some((_, _, token, _)) => match action(token) {
                    Some((name, _)) => planned(plan, name) is None,
                    None => true,
                },
                None => true,
            },
    ensures
        updated(content, plan) matches Some(text) ==> text == content,
{
    let lines = chars::lines(content);
    assert(rewritten_lines(lines, plan) =~= lines);
    chars::lemma_relined_same(content);
}

/// All uses of actions in the lines.
pub open spec fn all_uses(lines: Seq<Seq<char>>) -> Seq<(Seq<char>, Seq<char>)>
    decreases lines.len(),
{
    if lines.len() == 0 {
        seq![]
    } else {
        let before = all_uses(lines.drop_last());
        match uses(lines.last()) {
            Some(u) => before.push(u),
            None => before,
        }
    }
}

/// The uses at the references that are planned for them.
pub open spec fn moved(
    items: Seq<(Seq<char>, Seq<char>)>,
    plan: Seq<(Seq<char>, Seq<char>)>,
) -> Seq<(Seq<char>, Seq<char>)> {
    items.map_values(
        |u: (Seq<char>, Seq<char>)|
            match planned(plan, u.0) {
                Some(reference) => (u.0, reference),
                None => u,
            },
    )
}

/// The reference that is written into a line.
pub open spec fn written(line: Seq<char>, plan: Seq<(Seq<char>, Seq<char>)>) -> Option<Seq<char>> {
    match uses_parts(line) {
        Some((_, _, token, _)) => match action(token) {
            Some((name, _)) => planned(plan, name),
            None => None,
        },
        None => None,
    }
}

/// What is planned for a line that uses an action is written into it, where what
/// is read of it is what is replaced.
pub open spec fn is_movable(line: Seq<char>, plan: Seq<(Seq<char>, Seq<char>)>) -> bool {
    match written(line, plan) {
        Some(reference) => is_ref(reference) && (is_plain_use(line) || !chars::starts_with(
            chars::trim_start(line),
            "uses:"@,
        )),
        None => match uses(line) {
            Some((name, _)) => planned(plan, name) is None,
            None => true,
        },
    }
}

/// The parts of a line are the line.
proof fn lemma_parts(line: Seq<char>)
    requires
        uses_parts(line) is Some,
    ensures
        ({
            let (front, quote, token, rest) = uses_parts(line)->0;
            &&& line == front + quote + token + rest
            &&& chars::find(line, "uses:"@) is Some
            &&& front.len() >= chars::find(line, "uses:"@)->0 + 5
            &&& is_opening(quote)
        }),
{
    reveal_strlit("uses:");
    chars::lemma_find(line, "uses:"@);
    let at = chars::find(line, "uses:"@)->0 as int;
    let after = line.skip(at + 5);
    let value = chars::trim_start(after);
    chars::lemma_leading(after, chars::space());
    lemma_value(value);
    let (front, quote, token, rest) = uses_parts(line)->0;
    assert(line.skip(front.len() as int) =~= value);
    assert(line =~= front + (quote + token + rest));
    assert(front + (quote + token + rest) =~= front + quote + token + rest);
}

/// A rewritten line is still one line, not empty, and ends as it did or not in
/// white space.
proof fn lemma_still_a_line(line: Seq<char>, plan: Seq<(Seq<char>, Seq<char>)>)
    requires
        chars::is_one_line(line),
        written(line, plan) matches Some(reference) && is_ref(reference),
    ensures
        chars::is_one_line(rewritten(line, plan)),
        rewritten(line, plan).len() > 0,
        !chars::ends_return(line) ==> !chars::ends_return(rewritten(line, plan)),
{
    reveal_strlit("@");
    let (front, quote, token, rest) = uses_parts(line)->0;
    let name = (action(token)->0).0;
    let reference = planned(plan, name)->0;
    lemma_parts(line);
    lemma_action(token);
    let r = front + quote + name + "@"@ + reference + quote + rest;
    let a = front.len() as int;
    let b = a + quote.len();
    let c = b + name.len();
    let d = c + 1 + reference.len();
    assert forall|i: int| 0 <= i < r.len() implies #[trigger] r[i] != '\n' by {
        if i < b {
            assert(r[i] == line[i]);
        } else if i < c {
            assert(r[i] == name[i - b]);
            assert(name[i - b] == token[i - b]);
            assert(line[i] == token[i - b]);
        } else if i == c {
            assert(r[i] == '@');
        } else if i < d {
            assert(r[i] == reference[i - c - 1]);
        } else if i < d + quote.len() {
            assert(r[i] == quote[i - d]);
        } else {
            let j = i - d - quote.len();
            assert(r[i] == rest[j]);
            assert(line[line.len() - rest.len() + j] == rest[j]);
        }
    }
    if rest.len() > 0 {
        assert(r.last() == rest.last());
        assert(line.last() == rest.last());
    } else if quote.len() > 0 {
        assert(r.last() == quote.last());
    } else {
        assert(r.last() == reference.last());
        assert(!chars::is_space(reference[reference.len() - 1]));
    }
}

/// A line that does not start with the key does not do so once it is rewritten.
proof fn lemma_still_no_use(line: Seq<char>, plan: Seq<(Seq<char>, Seq<char>)>)
    requires
        written(line, plan) is Some,
        !chars::starts_with(chars::trim_start(line), "uses:"@),
    ensures
        uses(rewritten(line, plan)) is None,
{
    reveal_strlit("uses:");
    let key = "uses:"@;
    let r = rewritten(line, plan);
    let lead = chars::leading(line, chars::space()) as int;
    let at = chars::find(line, key)->0 as int;
    let (front, quote, token, rest) = uses_parts(line)->0;
    chars::lemma_leading(line, chars::space());
    chars::lemma_find(line, key);
    lemma_parts(line);
    assert(line.subrange(at, at + 5)[0] == line[at]);
    assert(lead <= at) by {
        if at < lead {
            assert(chars::space()(line[at]));
        }
    }
    if at == lead {
        assert(line.skip(lead).take(5) =~= line.subrange(at, at + 5));
    }
    assert forall|i: int| 0 <= i < front.len() implies r[i] == line[i] by {
        assert(r[i] == front[i]);
    }
    assert forall|i: int| 0 <= i < lead implies chars::space()(#[trigger] r[i]) by {
        assert(r[i] == line[i]);
        assert(chars::space()(line[i]));
    }
    assert(r[lead] == line[lead]);
    chars::lemma_leading_is(r, chars::space(), lead);
    assert(r.skip(lead).take(5) =~= line.skip(lead).take(5));
}

proof fn lemma_moved_line(line: Seq<char>, plan: Seq<(Seq<char>, Seq<char>)>)
    requires
        chars::is_one_line(line),
        is_movable(line, plan),
    ensures
        chars::is_one_line(rewritten(line, plan)),
        !chars::ends_return(line) ==> !chars::ends_return(rewritten(line, plan)),
        line.len() > 0 ==> rewritten(line, plan).len() > 0,
        match uses(line) {
            Some((name, reference)) => uses(rewritten(line, plan)) == Some(
                match planned(plan, name) {
                    Some(new) => (name, new),
                    None => (name, reference),
                },
            ),
            None => uses(rewritten(line, plan)) is None,
        },
{
    if written(line, plan) is Some {
        lemma_still_a_line(line, plan);
        if chars::starts_with(chars::trim_start(line), "uses:"@) {
            law_rewritten_line_reads_back(line, plan);
        } else {
            lemma_still_no_use(line, plan);
        }
    } else {
        assert(rewritten(line, plan) == line);
    }
}

proof fn lemma_moved(lines: Seq<Seq<char>>, plan: Seq<(Seq<char>, Seq<char>)>)
    requires
        forall|i: int|
            0 <= i < lines.len() ==> chars::is_one_line(#[trigger] lines[i]) && is_movable(
                lines[i],
                plan,
            ),
    ensures
        all_uses(rewritten_lines(lines, plan)) == moved(all_uses(lines), plan),
    decreases lines.len(),
{
    let items = rewritten_lines(lines, plan);
    if lines.len() == 0 {
        assert(moved(all_uses(lines), plan) =~= seq![]);
    } else {
        let init = lines.drop_last();
        let line = lines.last();
        assert(line == lines[lines.len() - 1]);
        assert forall|i: int| 0 <= i < init.len() implies chars::is_one_line(#[trigger] init[i])
            && is_movable(init[i], plan) by {
            assert(init[i] == lines[i]);
        }
        lemma_moved(init, plan);
        lemma_moved_line(line, plan);
        assert(items.drop_last() =~= rewritten_lines(init, plan));
        let before = all_uses(init);
        if let Some(u) = uses(line) {
            assert(moved(before.push(u), plan) =~= moved(before, plan).push(
                moved(seq![u], plan)[0],
            ));
        }
    }
}

/// Reading an updated workflow gives the same uses of actions, each at the
/// reference that is planned for it.
pub proof fn law_updated_workflow_reads_back(
    content: Seq<char>,
    plan: Seq<(Seq<char>, Seq<char>)>,
)
    requires
        chars::is_relinable(content),
        forall|i: int|
            0 <= i < chars::lines(content).len() ==> is_movable(
                #[trigger] chars::lines(content)[i],
                plan,
            ),
    ensures
        updated(content, plan) matches Some(text) ==> all_uses(chars::lines(text)) == moved(
            all_uses(chars::lines(content)),
            plan,
        ),
        updated(content, plan) is None ==> all_uses(chars::lines(content)) == moved(
            all_uses(chars::lines(content)),
            plan,
        ),
{
    let lines = chars::lines(content);
    let items = rewritten_lines(lines, plan);
    chars::lemma_lines(content);
    lemma_moved(lines, plan);
    assert forall|i: int| 0 <= i < items.len() implies chars::is_one_line(#[trigger] items[i]) && (
    !chars::ends_return(lines[i]) ==> !chars::ends_return(items[i])) && (lines[i].len() > 0
        ==> items[i].len() > 0) by {
        lemma_moved_line(lines[i], plan);
    }
    assert forall|i: int|
        0 <= i < items.len() && (i < items.len() - 1 || chars::ends_line(
            content,
        )) implies !chars::ends_return(#[trigger] items[i]) by {
        assert(!chars::ends_return(lines[i]));
    }
    if items.len() > 0 {
        assert(items.last() == items[items.len() - 1]);
    }
    chars::lemma_relined(content, items);
    if updated(content, plan) is None {
        lemma_unended(content, items);
    }
}

/// A text that is its lines, joined, has these lines.
proof fn lemma_unended(content: Seq<char>, items: Seq<Seq<char>>)
    requires
        chars::join(items, seq!['\n']) == content,
        items.len() == chars::lines(content).len(),
        forall|i: int| 0 <= i < items.len() ==> chars::is_one_line(#[trigger] items[i]),
        forall|i: int| 0 <= i < items.len() - 1 ==> !chars::ends_return(#[trigger] items[i]),
        chars::lines(chars::relined(content, items)) == items,
    ensures
        chars::lines(content) == items,
{
    if chars::ends_line(content) {
        let nl = seq!['\n'];
        let init = items.drop_last();
        let last = items.last();
        assert(last == items[items.len() - 1]);
        assert(chars::is_one_line(last));
        if items.len() > 1 {
            assert(content == chars::join(init, nl) + nl + last);
            assert(last.len() == 0) by {
                if last.len() > 0 {
                    assert(content.last() == last.last());
                }
            }
            assert(content =~= chars::join(init, nl) + nl);
            assert forall|i: int| 0 <= i < init.len() implies chars::is_one_line(
                #[trigger] init[i],
            ) && !chars::ends_return(init[i]) by {
                assert(init[i] == items[i]);
            }
            chars::lemma_joined_lines(init, true);
        } else {
            assert(content == last);
        }
    }
}

/// A reference is read as a version: letters `v` before it are left out, and what
/// follows the last digit or dot.
pub proof fn law_version_prefix(count: nat, parts: Seq<u64>, back: Seq<char>)
    requires
        parts.len() > 0,
        back.len() > 0 ==> !('0' <= back[0] && back[0] <= '9') && back[0] != '.',
    ensures
        prefix_parts(Seq::new(count, |i: int| 'v') + version::written(parts) + back) == Some(parts),
{
    let vs = Seq::new(count, |i: int| 'v');
    let text = version::written(parts);
    let s = text + back;
    let all = vs + text + back;
    version::lemma_written(parts);
    version::law_written_numbers_read_back(parts);
    assert(all[count as int] == text[0]);
    chars::lemma_leading_is(all, chars::is('v'), count as int);
    assert(all.skip(count as int) =~= s);
    assert forall|i: int| 0 <= i < text.len() implies version::digit_or_dot()(#[trigger] s[i]) by {
        assert(s[i] == text[i]);
    }
    if back.len() > 0 {
        assert(s[text.len() as int] == back[0]);
    }
    chars::lemma_leading_is(s, version::digit_or_dot(), text.len() as int);
    assert(s.take(text.len() as int) =~= text);
}

/// A reference is up to date with a tag in three cases: they are the same; it is the
/// name of a branch that moves; the numbers that it has, behind its last slash, are the
/// tag's first ones.
pub proof fn law_up_to_date(current: Seq<char>, latest: Seq<char>)
    ensures
        follows(current, latest) <==> {
            ||| current == latest
            ||| current == "main"@
            ||| current == "master"@
            ||| current == "stable"@
            ||| current == "beta"@
            ||| current == "nightly"@
            ||| {
                let short = prefix_parts(chars::after_last(current, '/'));
                let long = prefix_parts(latest);
                &&& short is Some
                &&& long is Some
                &&& short->0.len() <= long->0.len()
                &&& forall|i: int| 0 <= i < short->0.len() ==> #[trigger] (short->0)[i] == (long->0)[i]
            }
        },
{
    if let (Some(short), Some(long)) = (
        prefix_parts(chars::after_last(current, '/')),
        prefix_parts(latest),
    ) {
        if short.len() <= long.len() {
            if long.take(short.len() as int) == short {
                assert forall|i: int| 0 <= i < short.len() implies #[trigger] short[i] == long[i] by {
                    assert(long.take(short.len() as int)[i] == long[i]);
                }
            }
            if forall|i: int| 0 <= i < short.len() ==> #[trigger] short[i] == long[i] {
                assert(long.take(short.len() as int) =~= short);
            }
        }
    }
}

/// A reference is replaced by the latest tag unless it is that, is the name of a branch
/// that moves, or has a slash and is up to date. A version without a slash is pinned to
/// the whole tag though it is up to date.
pub proof fn law_replacement(current: Seq<char>, latest: Seq<char>)
    ensures
        replacement(current, latest) is Some ==> replacement(current, latest) == Some(latest),
        replacement(current, latest) is None <==> {
            ||| current == latest
            ||| current == "main"@
            ||| current == "master"@
            ||| current == "stable"@
            ||| current == "beta"@
            ||| current == "nightly"@
            ||| current.contains('/') && follows(current, latest)
        },
{
    chars::lemma_trailing(current, chars::is_not('/'));
    if current.contains('/') {
        let i = choose|i: int| 0 <= i < current.len() && current[i] == '/';
        if chars::trailing(current, chars::is_not('/')) == current.len() {
            assert(chars::is_not('/')(current[i]));
        }
        assert(chars::after_last(current, '/').len() < current.len());
    } else {
        chars::lemma_last_all(current, '/');
    }
}

/// An action is a name with a slash, an at sign and a reference. Paths, images and
/// expressions are none.
pub proof fn law_action(name: Seq<char>, reference: Seq<char>)
    requires
        !reference.contains('@'),
    ensures
        ({
            let value = name + seq!['@'] + reference;
            let skipped = chars::starts_with(value, "./"@) || chars::starts_with(
                value,
                "docker://"@,
            ) || chars::starts_with(value, "${{"@);
            action(value) == if name.contains('/') && reference.len() > 0 && !skipped {
                Some((name, reference))
            } else {
                None
            }
        }),
        !name.contains('@') ==> action(name) is None,
{
    chars::lemma_last(name, '@', reference);
    if !name.contains('@') {
        chars::lemma_last_all(name, '@');
    }
}

/// A line uses the action that stands behind `uses:`, in quotes or not. A comment may
/// follow it.
pub proof fn law_uses(
    indent: Seq<char>,
    gap: Seq<char>,
    quote: Seq<char>,
    value: Seq<char>,
    back: Seq<char>,
)
    requires
        forall|i: int| 0 <= i < indent.len() ==> chars::is_space(#[trigger] indent[i]),
        forall|i: int| 0 <= i < gap.len() ==> chars::is_space(#[trigger] gap[i]),
        quote == seq!['"'] || quote == seq!['\''] || quote == Seq::<char>::empty(),
        value.len() > 0,
        forall|i: int|
            0 <= i < value.len() ==> !chars::is_space(#[trigger] value[i]) && value[i] != '"'
                && value[i] != '\'',
        back.len() == 0 || chars::is_space(back[0]),
    ensures
        uses(indent + "uses:"@ + gap + (quote + value + quote) + back) == action(value),
{
    reveal_strlit("uses:");
    let key = "uses:"@;
    let token = quote + value + quote;
    let line = indent + key + gap + token + back;
    assert(line[indent.len() as int] == key[0]);
    assert forall|i: int| 0 <= i < indent.len() implies chars::space()(#[trigger] line[i]) by {
        assert(line[i] == indent[i]);
    }
    chars::lemma_leading_is(line, chars::space(), indent.len() as int);
    let body = key + gap + token + back;
    assert(line.skip(indent.len() as int) =~= body);
    assert(body.take(key.len() as int) =~= key);
    let rest = gap + token + back;
    assert(body.skip(key.len() as int) =~= rest);
    assert(value[0] != '"');
    assert(!chars::is_space(value[value.len() - 1]));
    assert forall|i: int| 0 <= i < token.len() implies !chars::is_space(#[trigger] token[i]) by {
        if quote.len() <= i < quote.len() + value.len() {
            assert(token[i] == value[i - quote.len()]);
        }
    }
    let t = token + back;
    chars::lemma_words_one(token);
    chars::lemma_words_add(token, back);
    assert(chars::words(t)[0] == token);
    lemma_blank_words(gap);
    chars::lemma_words_add(gap, t);
    assert(rest =~= gap + t);
    assert(chars::words(rest) =~= chars::words(t));
    lemma_unquoted(quote, value);
}

proof fn lemma_blank_words(gap: Seq<char>)
    requires
        forall|i: int| 0 <= i < gap.len() ==> chars::is_space(#[trigger] gap[i]),
    ensures
        chars::words(gap) == Seq::<Seq<char>>::empty(),
{
    chars::lemma_leading_is(gap, chars::space(), gap.len() as int);
    assert(gap.skip(gap.len() as int) =~= seq![]);
}

/// Quotes of one kind around a text without quotes are all that trimming takes.
proof fn lemma_unquoted(quote: Seq<char>, value: Seq<char>)
    requires
        quote == seq!['"'] || quote == seq!['\''] || quote == Seq::<char>::empty(),
        value.len() > 0,
        forall|i: int| 0 <= i < value.len() ==> #[trigger] value[i] != '"' && value[i] != '\'',
    ensures
        chars::trim_char(chars::trim_char(quote + value + quote, '"'), '\'') == value,
{
    lemma_trim_none(value, '"');
    lemma_trim_none(value, '\'');
    if quote == seq!['"'] {
        lemma_trim_one(value, '"');
    } else if quote == seq!['\''] {
        lemma_trim_one(value, '\'');
        let s = quote + value + quote;
        assert(s[0] == '\'');
        assert(s.last() == '\'');
        assert(chars::leading(s, chars::is('"')) == 0);
        assert(s.skip(0) =~= s);
        assert(chars::trailing(s, chars::is('"')) == 0);
        assert(s.take(s.len() as int) =~= s);
    } else {
        assert(quote + value + quote =~= value);
    }
}

proof fn lemma_trim_none(value: Seq<char>, q: char)
    requires
        value.len() > 0,
        forall|i: int| 0 <= i < value.len() ==> #[trigger] value[i] != q,
    ensures
        chars::trim_char(value, q) == value,
{
    assert(value[0] != q);
    assert(value[value.len() - 1] != q);
    assert(chars::leading(value, chars::is(q)) == 0);
    assert(value.skip(0) =~= value);
    assert(chars::trailing(value, chars::is(q)) == 0);
    assert(value.take(value.len() as int) =~= value);
}

proof fn lemma_trim_one(value: Seq<char>, q: char)
    requires
        value.len() > 0,
        forall|i: int| 0 <= i < value.len() ==> #[trigger] value[i] != q,
    ensures
        chars::trim_char(seq![q] + value + seq![q], q) == value,
{
    let s = seq![q] + value + seq![q];
    assert(s[0] == q);
    assert(s[1] == value[0]);
    chars::lemma_leading_is(s, chars::is(q), 1);
    let t = s.skip(1);
    assert(t =~= value + seq![q]);
    assert(t[value.len() as int] == q);
    assert(t[value.len() - 1] == value[value.len() - 1]);
    chars::lemma_trailing_is(t, chars::is(q), 1);
    assert(t.take(value.len() as int) =~= value);
}

/// An action's repository is the first two parts of its name.
pub proof fn law_action_repo(owner: Seq<char>, repo: Seq<char>, path: Seq<char>)
    requires
        !owner.contains('/'),
        !repo.contains('/'),
    ensures
        repo_of(owner) is None,
        repo_of(owner + seq!['/'] + repo) == Some(owner + seq!['/'] + repo),
        repo_of(owner + seq!['/'] + repo + seq!['/'] + path) == Some(owner + seq!['/'] + repo),
{
    reveal_strlit("/");
    assert("/"@ =~= seq!['/']);
    chars::lemma_before_all(owner, '/');
    chars::lemma_before_all(repo, '/');
    chars::lemma_first(owner, '/', repo);
    let rest = repo + seq!['/'] + path;
    chars::lemma_first(repo, '/', path);
    chars::lemma_first(owner, '/', rest);
    assert(owner + seq!['/'] + repo + seq!['/'] + path =~= owner + seq!['/'] + rest);
}

/// A dependency is listed where a line of a workflow uses it, and as nothing but that
/// is known of it.
pub proof fn law_listed_actions(contents: Seq<Seq<char>>, d: Dep)
    ensures
        listed(contents).contains(d) <==> {
            &&& exists|k: int, i: int|
                #![trigger chars::lines(contents[k])[i]]
                0 <= k < contents.len() && 0 <= i < chars::lines(contents[k]).len() && uses(
                    chars::lines(contents[k])[i],
                ) == Some((d.name, d.current))
            &&& d.dep_type == DepType::Build
            &&& d.latest is None
            &&& !d.satisfied
            &&& !d.check_failed
            &&& d.peers.len() == 0
            &&& d.held_back.len() == 0
        },
    decreases contents.len(),
{
    if d.peers.len() == 0 && d.held_back.len() == 0 {
        assert(d.peers =~= seq![]);
        assert(d.held_back =~= seq![]);
    }
    if contents.len() > 0 {
        let front = contents.drop_last();
        let last = chars::lines(contents.last());
        let n = contents.len() - 1;
        law_listed_actions(front, d);
        lemma_all_fresh(front);
        lemma_collected(listed(front), last, d);
        if exists|k: int, i: int|
            #![trigger chars::lines(contents[k])[i]]
            0 <= k < contents.len() && 0 <= i < chars::lines(contents[k]).len() && uses(
                chars::lines(contents[k])[i],
            ) == Some((d.name, d.current)) {
            let (k, i) = choose|k: int, i: int|
                #![trigger chars::lines(contents[k])[i]]
                0 <= k < contents.len() && 0 <= i < chars::lines(contents[k]).len() && uses(
                    chars::lines(contents[k])[i],
                ) == Some((d.name, d.current));
            if k < n {
                assert(uses(chars::lines(front[k])[i]) == Some((d.name, d.current)));
            } else {
                assert(uses(last[i]) == Some((d.name, d.current)));
            }
        }
        if listed(contents).contains(d) {
            if listed(front).contains(d) {
                let (k, i) = choose|k: int, i: int|
                    #![trigger chars::lines(front[k])[i]]
                    0 <= k < front.len() && 0 <= i < chars::lines(front[k]).len() && uses(
                        chars::lines(front[k])[i],
                    ) == Some((d.name, d.current));
                assert(uses(chars::lines(contents[k])[i]) == Some((d.name, d.current)));
            } else {
                let i = choose|i: int|
                    0 <= i < last.len() && uses(#[trigger] last[i]) == Some((d.name, d.current));
                assert(uses(chars::lines(contents[n])[i]) == Some((d.name, d.current)));
            }
        }
    }
}

spec fn all_fresh(items: Seq<Dep>) -> bool {
    forall|i: int|
        0 <= i < items.len() ==> #[trigger] items[i] == Dep::fresh(
            items[i].name,
            items[i].current,
            DepType::Build,
        )
}

proof fn lemma_all_fresh(contents: Seq<Seq<char>>)
    ensures
        all_fresh(listed(contents)),
    decreases contents.len(),
{
    if contents.len() > 0 {
        lemma_all_fresh(contents.drop_last());
        lemma_fresh_lines(listed(contents.drop_last()), chars::lines(contents.last()));
    }
}

proof fn lemma_fresh_lines(sofar: Seq<Dep>, lines: Seq<Seq<char>>)
    requires
        all_fresh(sofar),
    ensures
        all_fresh(collected(sofar, lines)),
    decreases lines.len(),
{
    if lines.len() > 0 {
        lemma_fresh_lines(sofar, lines.drop_last());
    }
}

proof fn lemma_collected(sofar: Seq<Dep>, lines: Seq<Seq<char>>, d: Dep)
    requires
        all_fresh(sofar),
    ensures
        collected(sofar, lines).contains(d) <==> sofar.contains(d) || (d == Dep::fresh(
            d.name,
            d.current,
            DepType::Build,
        ) && exists|i: int|
            0 <= i < lines.len() && uses(#[trigger] lines[i]) == Some((d.name, d.current))),
    decreases lines.len(),
{
    if lines.len() > 0 {
        let front = lines.drop_last();
        let before = collected(sofar, front);
        let all = collected(sofar, lines);
        lemma_collected(sofar, front, d);
        lemma_fresh_lines(sofar, front);
        let n = lines.len() - 1;
        if exists|i: int| 0 <= i < front.len() && uses(#[trigger] front[i]) == Some((d.name, d.current)) {
            let i = choose|i: int|
                0 <= i < front.len() && uses(#[trigger] front[i]) == Some((d.name, d.current));
            assert(uses(lines[i]) == Some((d.name, d.current)));
        }
        if exists|i: int| 0 <= i < lines.len() && uses(#[trigger] lines[i]) == Some((d.name, d.current)) {
            let i = choose|i: int|
                0 <= i < lines.len() && uses(#[trigger] lines[i]) == Some((d.name, d.current));
            if i < n {
                assert(uses(front[i]) == Some((d.name, d.current)));
            } else {
                assert(lines[i] == lines.last());
            }
        }
        match uses(lines.last()) {
            Some(u) => {
                let fresh = Dep::fresh(u.0, u.1, DepType::Build);
                if exists|i: int| 0 <= i < before.len() && is_on(#[trigger] before[i], u) {
                    let i = choose|i: int| 0 <= i < before.len() && is_on(#[trigger] before[i], u);
                    assert(before[i] == fresh);
                    assert(before.contains(fresh));
                } else {
                    assert(all == before.push(fresh));
                    assert(all[before.len() as int] == fresh);
                    if before.contains(d) {
                        let i = choose|i: int| 0 <= i < before.len() && before[i] == d;
                        assert(all[i] == d);
                    }
                    if all.contains(d) {
                        let i = choose|i: int| 0 <= i < all.len() && all[i] == d;
                        if i < before.len() {
                            assert(before[i] == d);
                        } else {
                            assert(uses(lines[n]) == Some((d.name, d.current)));
                        }
                    }
                }
            },
            None => {},
        }
    }
}

/// An action is moved to what its last update that replaces something says.
pub proof fn law_last_replacement_counts(updates: Seq<Dep>, name: Seq<char>)
    ensures
        match planned(replacements(updates), name) {
            Some(reference) => exists|k: int|
                0 <= k < updates.len() && #[trigger] is_replaced(updates[k], name) && reference
                    == updates[k].latest->0 && forall|j: int|
                    k < j < updates.len() ==> !is_replaced(#[trigger] updates[j], name),
            None => forall|j: int|
                0 <= j < updates.len() ==> !is_replaced(#[trigger] updates[j], name),
        },
    decreases updates.len(),
{
    if updates.len() > 0 {
        let front = updates.drop_last();
        let n = updates.len() - 1;
        let dep = updates.last();
        law_last_replacement_counts(front, name);
        if dep.latest is Some {
            law_replacement(dep.current, dep.latest->0);
            if let Some(reference) = replacement(dep.current, dep.latest->0) {
                assert(replacements(updates).drop_last() =~= replacements(front));
            }
        }
        if is_replaced(updates[n], name) {
            assert(planned(replacements(updates), name) == Some(dep.latest->0));
        } else {
            assert(planned(replacements(updates), name) == planned(replacements(front), name));
            match planned(replacements(front), name) {
                Some(reference) => {
                    let k = choose|k: int|
                        0 <= k < front.len() && #[trigger] is_replaced(front[k], name) && reference
                            == front[k].latest->0 && forall|j: int|
                            k < j < front.len() ==> !is_replaced(#[trigger] front[j], name);
                    assert(front[k] == updates[k]);
                    assert forall|j: int| k < j < updates.len() implies !is_replaced(
                        #[trigger] updates[j],
                        name,
                    ) by {
                        if j < n {
                            assert(front[j] == updates[j]);
                        }
                    }
                    assert(is_replaced(updates[k], name));
                },
                None => {
                    assert forall|j: int| 0 <= j < updates.len() implies !is_replaced(
                        #[trigger] updates[j],
                        name,
                    ) by {
                        if j < n {
                            assert(front[j] == updates[j]);
                        }
                    }
                },
            }
        }
    }
}

/// The update is one of the action, and its reference is replaced.
pub open spec fn is_replaced(dep: Dep, name: Seq<char>) -> bool {
    dep.name == name && dep.latest is Some && replacement(dep.current, dep.latest->0) is Some
}

/// The first line that is not blank is the one that counts.
pub proof fn law_first_line(lines: Seq<Seq<char>>, k: int)
    requires
        0 <= k <= lines.len(),
        forall|j: int, i: int|
            0 <= j < k && 0 <= i < lines[j].len() ==> chars::is_space(#[trigger] lines[j][i]),
        k < lines.len() ==> exists|i: int|
            0 <= i < lines[k].len() && !chars::is_space(#[trigger] lines[k][i]),
    ensures
        first_line(lines) == if k < lines.len() {
            Some(lines[k])
        } else {
            None
        },
    decreases k,
{
    if k > 0 {
        let rest = lines.skip(1);
        assert forall|i: int| 0 <= i < lines[0].len() implies chars::is_space(
            #[trigger] lines[0][i],
        ) by {}
        chars::lemma_leading_is(lines[0], chars::space(), lines[0].len() as int);
        assert(chars::trim(lines[0]).len() == 0);
        assert forall|j: int, i: int|
            0 <= j < k - 1 && 0 <= i < rest[j].len() implies chars::is_space(
            #[trigger] rest[j][i],
        ) by {
            assert(rest[j][i] == lines[j + 1][i]);
        }
        if k < lines.len() {
            assert(rest[k - 1] == lines[k]);
            let i = choose|i: int|
                0 <= i < lines[k].len() && !chars::is_space(#[trigger] lines[k][i]);
            assert(!chars::is_space(rest[k - 1][i]));
        }
        law_first_line(rest, k - 1);
    } else if k < lines.len() {
        let s = lines[0];
        let i = choose|i: int| 0 <= i < s.len() && !chars::is_space(#[trigger] s[i]);
        chars::lemma_leading(s, chars::space());
        let n = chars::leading(s, chars::space()) as int;
        if n > i {
            assert(chars::space()(s[i]));
        }
        let t = chars::trim_start(s);
        assert(t[0] == s[n]);
        assert(!chars::is_space(t[0]));
        chars::lemma_trailing(t, chars::space());
        if chars::trailing(t, chars::space()) == t.len() {
            assert(chars::space()(t[0]));
        }
    }
}

/// The tag of a line of references: what follows `refs/tags/` in its second word.
pub proof fn law_remote_tag(hash: Seq<char>, gap: Seq<char>, tag: Seq<char>)
    requires
        hash.len() > 0,
        forall|i: int| 0 <= i < hash.len() ==> !chars::is_space(#[trigger] hash[i]),
        gap.len() > 0,
        forall|i: int| 0 <= i < gap.len() ==> chars::is_space(#[trigger] gap[i]),
        forall|i: int| 0 <= i < tag.len() ==> !chars::is_space(#[trigger] tag[i]),
    ensures
        remote_tag(hash + gap + ("refs/tags/"@ + tag)) == Some(tag),
        remote_tag(hash) is None,
{
    reveal_strlit("refs/tags/");
    let key = "refs/tags/"@;
    let second = key + tag;
    chars::lemma_words_one(hash);
    assert forall|i: int| 0 <= i < second.len() implies !chars::is_space(#[trigger] second[i]) by {
        if i >= key.len() {
            assert(second[i] == tag[i - key.len()]);
        }
    }
    chars::lemma_words_one(second);
    lemma_blank_words(gap);
    assert(chars::is_space(gap[0]));
    assert(chars::is_space(gap[gap.len() - 1]));
    chars::lemma_words_add(hash, gap);
    assert((hash + gap).last() == gap.last());
    chars::lemma_words_add(hash + gap, second);
    assert(chars::words(hash + gap + second) =~= seq![hash, second]);
    assert(second.take(key.len() as int) =~= key);
    assert(second.skip(key.len() as int) =~= tag);
}

/// After a lookup an action has the tag that was found, or the lookup has failed.
pub proof fn law_lookup(dep: Dep, tag: Seq<char>)
    ensures
        resolved(dep, Some(tag)) == (Dep {
            latest: Some(tag),
            satisfied: follows(dep.current, tag),
            ..dep
        }),
        resolved(dep, None) == (Dep { check_failed: true, ..dep }),
{
}

/// The files that are workflows: those with the extension `yml` or `yaml`.
pub proof fn law_workflows(names: Seq<Seq<char>>, stem: Seq<char>, ending: Seq<char>)
    requires
        stem.len() > 0,
        !ending.contains('.'),
    ensures
        ({
            let name = stem + seq!['.'] + ending;
            workflows_of(names).contains(name) <==> names.contains(name) && (ending == "yml"@
                || ending == "yaml"@)
        }),
        !stem.contains('.') ==> !workflows_of(names).contains(stem),
        chars::sorted(workflows_of(names)),
{
    let name = stem + seq!['.'] + ending;
    chars::lemma_last(stem, '.', ending);
    if !stem.contains('.') {
        chars::lemma_last_all(stem, '.');
    }
    let kept = names.filter(is_workflow());
    lemma_filtered(names, is_workflow());
    chars::lemma_sort(kept);
    kept.to_multiset_ensures();
    workflows_of(names).to_multiset_ensures();
    assert forall|n: Seq<char>| workflows_of(names).contains(n) <==> kept.contains(n) by {
        assert(kept.contains(n) <==> kept.to_multiset().count(n) > 0);
        assert(workflows_of(names).contains(n) <==> workflows_of(names).to_multiset().count(n) > 0);
    }
    assert(kept.contains(name) <==> names.contains(name) && is_workflow()(name));
    assert(kept.contains(stem) <==> names.contains(stem) && is_workflow()(stem));
}

/// An answer with a release gives it, and one with tags gives the first. No release and
/// no tag give no version.
pub proof fn law_answers(release: String, tags: Vec<String>)
    ensures
        answered(Answer::Release(Some(release))) == Some(release@),
        answered(Answer::Release(None)) is None,
        tags@.len() > 0 ==> answered(Answer::Tags(Some(tags))) == Some(tags@.first()@),
        tags@.len() == 0 ==> answered(Answer::Tags(Some(tags))) is None,
        answered(Answer::Tags(None)) is None,
{
}

/// An update of a line keeps all that stands before the action and behind it, and
/// writes the new reference behind its name, between quotes of the kind that opened it.
pub proof fn law_rewritten_line(
    front: Seq<char>,
    gap: Seq<char>,
    quote: Seq<char>,
    name: Seq<char>,
    old_ref: Seq<char>,
    back: Seq<char>,
    plan: Seq<(Seq<char>, Seq<char>)>,
)
    requires
        ({
            let token = name + seq!['@'] + old_ref;
            let line = front + "uses:"@ + gap + quote + token + back;
            &&& chars::find(line, "uses:"@) == Some(front.len())
            &&& forall|i: int| 0 <= i < gap.len() ==> chars::is_space(#[trigger] gap[i])
            &&& quote == seq!['"'] || quote == seq!['\''] || quote == Seq::<char>::empty()
            &&& forall|i: int|
                0 <= i < token.len() ==> !chars::is_space(#[trigger] token[i]) && token[i] != '#'
                    && token[i] != '"' && token[i] != '\''
            &&& back.len() > 0 ==> chars::is_space(back[0]) || back[0] == '#' || back[0] == '"'
                || back[0] == '\''
            &&& !old_ref.contains('@')
            &&& action(token) is Some
        }),
    ensures
        ({
            let token = name + seq!['@'] + old_ref;
            let line = front + "uses:"@ + gap + quote + token + back;
            rewritten(line, plan) == match planned(plan, name) {
                Some(reference) => front + "uses:"@ + gap + quote + name + seq!['@'] + reference
                    + quote + back,
                None => line,
            }
        }),
{
    reveal_strlit("uses:");
    reveal_strlit("@");
    assert("@"@ =~= seq!['@']);
    let key = "uses:"@;
    let token = name + seq!['@'] + old_ref;
    let body = token + back;
    let value = quote + body;
    let line = front + key + gap + quote + token + back;
    let start = front + key + gap;
    let rest = gap + value;
    assert(line.skip(front.len() as int + 5) =~= rest);
    assert(token.len() > 0);
    assert(!chars::is_space(token[0]));
    if quote.len() > 0 {
        assert(value[0] == quote[0]);
    } else {
        assert(value[0] == token[0]);
    }
    assert(rest[gap.len() as int] == value[0]);
    assert forall|i: int| 0 <= i < gap.len() implies chars::space()(#[trigger] rest[i]) by {
        assert(rest[i] == gap[i]);
    }
    chars::lemma_leading_is(rest, chars::space(), gap.len() as int);
    assert(rest.skip(gap.len() as int) =~= value);
    assert(line =~= start + value);
    assert(line.take(line.len() - value.len()) =~= start);
    if quote.len() > 0 {
        assert(value.take(1) =~= quote);
    }
    assert(opening(value) == quote);
    assert(value.skip(quote.len() as int) =~= body);
    assert forall|i: int| 0 <= i < token.len() implies token_char()(#[trigger] body[i]) by {
        assert(body[i] == token[i]);
    }
    if back.len() > 0 {
        assert(body[token.len() as int] == back[0]);
    }
    chars::lemma_leading_is(body, token_char(), token.len() as int);
    assert(body.take(token.len() as int) =~= token);
    assert(body.skip(token.len() as int) =~= back);
    law_action(name, old_ref);
}

/// A line without an action is not changed.
pub proof fn law_other_lines_stay(line: Seq<char>, plan: Seq<(Seq<char>, Seq<char>)>)
    ensures
        !chars::has(line, "uses:"@) ==> rewritten(line, plan) == line,
        plan.len() == 0 ==> rewritten(line, plan) == line,
{
}

/// The actions are listed line by line, each where it is first used.
pub proof fn law_listed_line_by_line(sofar: Seq<Dep>, a: Seq<Seq<char>>, b: Seq<Seq<char>>)
    ensures
        collected(sofar, a + b) == collected(collected(sofar, a), b),
        sofar.len() <= collected(sofar, b).len(),
        collected(sofar, b).take(sofar.len() as int) == sofar,
    decreases b.len(),
{
    if b.len() == 0 {
        assert(a + b =~= a);
        assert(sofar.take(sofar.len() as int) =~= sofar);
    } else {
        law_listed_line_by_line(sofar, a, b.drop_last());
        assert((a + b).drop_last() =~= a + b.drop_last());
        let before = collected(sofar, b.drop_last());
        assert(collected(sofar, b).take(sofar.len() as int) =~= before.take(sofar.len() as int));
    }
}

/// A line uses nothing unless it starts with `uses:` and something follows.
pub proof fn law_no_use(line: Seq<char>)
    requires
        uses(line) is Some,
    ensures
        chars::starts_with(chars::trim_start(line), "uses:"@),
        chars::words(line).len() > 0,
        (uses(line)->0).0.contains('/'),
        (uses(line)->0).1.len() > 0,
        !(uses(line)->0).1.contains('@'),
{
    let t = chars::trim_start(line);
    let rest = chars::strip_prefix(t, "uses:"@)->0;
    let value = chars::trim_char(chars::trim_char(chars::words(rest)[0], '"'), '\'');
    chars::lemma_trailing(value, chars::is_not('@'));
    let r = (uses(line)->0).1;
    assert forall|i: int| 0 <= i < r.len() implies #[trigger] r[i] != '@' by {
        let j = value.len() - r.len() + i;
        assert(r[i] == value[j]);
        assert(chars::is_not('@')(value[j]));
    }
    reveal_strlit("uses:");
    assert(t.len() > 0);
    chars::lemma_trim_start_twice(line);
}

} // verus!
