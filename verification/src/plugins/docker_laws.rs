//! What is read of an image, which of its tags is the latest, and that what is written
//! is read again.
use vstd::prelude::*;
use vstd::string::*;
use crate::chars;
use crate::plugin::{Dep, DepType, lemma_filtered};
use crate::plugins::docker::{
    Occurrence, compose_token, concerns, first_operand, from_line, hub_repo, image, image_line,
    is_manifest, latest_of, listed, manifest_type, manifests_of, occurrence, page_after, placed,
    quoted, resolved, rewritten, selected, settled, unquote, update_for, updated, updated_line,
    updated_lines, upgrades, version_tag, without_v,
};
use crate::version;

verus! {

/// A character that a tag can have.
pub open spec fn is_tag_char(c: char) -> bool {
    chars::is_alnum(c) || c == '_' || c == '.' || c == '-'
}

/// The text is that of a tag.
pub open spec fn is_tag(s: Seq<char>) -> bool {
    s.len() > 0 && forall|i: int| 0 <= i < s.len() ==> is_tag_char(#[trigger] s[i])
}

/// The reference stands where it is read from: in a Dockerfile not in a flag before
/// it, in a compose file behind the key. And in a Dockerfile the image is not named
/// like a flag.
pub open spec fn is_apart(line: Seq<char>, o: Occurrence, dep_type: DepType) -> bool {
    match dep_type {
        DepType::Build => chars::is_space(line[o.start - 1]) && !chars::starts_with(o.name, "--"@),
        _ => o.start >= chars::leading(line, chars::space()) + "image:"@.len(),
    }
}

/// A reference without the white space and the quotes around it.
spec fn bare(token: Seq<char>) -> Seq<char> {
    unquote(chars::trim(token))
}

/// The bare reference is a stretch of the reference.
proof fn lemma_bare(token: Seq<char>) -> (a: int)
    ensures
        chars::occurs(token, bare(token), a),
{
    let t1 = chars::trim(token);
    let t2 = unquote(t1);
    chars::lemma_trim(token);
    let a1 = choose|a: int|
        0 <= a && a + t1.len() <= token.len() && #[trigger] token.subrange(a, a + t1.len()) == t1;
    assert(chars::occurs(token, t1, a1));
    let a2: int = if quoted(t1, '"') || quoted(t1, '\'') {
        1
    } else {
        0
    };
    assert(t1.subrange(a2, a2 + t2.len()) =~= t2);
    chars::lemma_occurs_within(token, t1, a1, t2, a2);
    a1 + a2
}

/// What precedes the last colon, and the name in it.
proof fn lemma_head(bare: Seq<char>) -> (a: int)
    requires
        chars::before_last(bare, ':') is Some,
    ensures
        ({
            let head = chars::before_last(bare, ':')->0;
            let name = chars::trim(head);
            let tail = chars::after_last(bare, ':');
            &&& chars::occurs(bare, name, a)
            &&& name.len() > 0 ==> !chars::is_space(name[0]) && !chars::is_space(name.last())
            &&& bare.contains(':')
            &&& bare.len() == head.len() + 1 + tail.len()
            &&& head == bare.take(head.len() as int)
        }),
{
    chars::lemma_trailing(bare, chars::is_not(':'));
    let c = bare.len() - chars::trailing(bare, chars::is_not(':')) - 1;
    let head = bare.take(c);
    let name = chars::trim(head);
    assert(bare[c] == ':');
    assert(bare.subrange(0, c) =~= head);
    chars::lemma_trim(head);
    let a = choose|a: int|
        0 <= a && a + name.len() <= head.len() && #[trigger] head.subrange(a, a + name.len())
            == name;
    chars::lemma_occurs_within(bare, head, 0, name, a);
    a
}

/// A stretch of a text holds no more than the text.
proof fn lemma_stretch(s: Seq<char>, p: Seq<char>, a: int, k: char, q: Seq<char>)
    requires
        chars::occurs(s, p, a),
    ensures
        p.contains(k) ==> s.contains(k),
        chars::has(p, q) ==> chars::has(s, q),
        p.len() <= s.len(),
{
    if p.contains(k) {
        let i = p.index_of(k);
        assert(s.subrange(a, a + p.len())[i] == s[a + i]);
    }
    if chars::has(p, q) {
        chars::lemma_find(p, q);
        chars::lemma_find(s, q);
        let n = chars::find(p, q)->0 as int;
        chars::lemma_occurs_within(s, p, a, q, n);
    }
}

/// The name of an image is a stretch of its reference, and holds nothing that a
/// reference may not hold.
proof fn lemma_name(token: Seq<char>) -> (a: int)
    requires
        image(token) is Some,
    ensures
        ({
            let (name, tag) = image(token)->0;
            &&& name.len() > 0
            &&& !chars::is_space(name[0])
            &&& !chars::is_space(name.last())
            &&& chars::occurs(token, name, a)
            &&& !name.contains('@')
            &&& !chars::has(name, "${"@)
            &&& token.contains(':')
            &&& token.len() >= 3
        }),
{
    let b = bare(token);
    let (name, tag) = image(token)->0;
    let head = chars::before_last(b, ':')->0;
    let tail = chars::after_last(b, ':');
    let a1 = lemma_bare(token);
    let a2 = lemma_head(b);
    lemma_stretch(token, b, a1, ':', "${"@);
    lemma_stretch(b, name, a2, '@', "${"@);
    chars::lemma_trim(head);
    chars::lemma_trim(tail);
    chars::lemma_occurs_within(token, b, a1, name, a2);
    a1 + a2
}

/// The name of a reference that starts with neither white space nor a quote starts
/// as the reference does.
proof fn lemma_name_start(token: Seq<char>)
    requires
        image(token) is Some,
        token.len() > 0,
        !chars::is_space(token[0]),
        token[0] != '"',
        token[0] != '\'',
    ensures
        (image(token)->0).0[0] == token[0],
{
    let t1 = chars::trim(token);
    let a = lemma_head(bare(token));
    let head = chars::before_last(bare(token), ':')->0;
    let name = chars::trim(head);
    chars::lemma_trim(head);
    chars::lemma_trim_front(token);
    assert(t1[0] == token.take(t1.len() as int)[0]);
    assert(bare(token) == t1);
    assert(head[0] == t1[0]);
    chars::lemma_trim_front(head);
    assert(name[0] == head.take(name.len() as int)[0]);
}

/// A name and a tag with a colon between them are read as such.
proof fn lemma_reference(name: Seq<char>, tag: Seq<char>)
    requires
        name.len() > 0,
        !chars::is_space(name[0]),
        !chars::is_space(name.last()),
        !name.contains('@'),
        !chars::has(name, "${"@),
        is_tag(tag),
    ensures
        image(name + ":"@ + tag) == Some((name, tag)),
{
    reveal_strlit(":");
    reveal_strlit("${");
    let x = name + ":"@ + tag;
    let n = name.len() as int;
    assert(x[0] == name[0]);
    assert(x.last() == tag.last());
    assert(is_tag_char(tag.last()));
    chars::lemma_trim_is(x);
    assert(unquote(x) == x);
    assert(!x.contains('@')) by {
        if x.contains('@') {
            let i = x.index_of('@');
            if i < n {
                assert(name[i] == '@');
            } else if i > n {
                assert(is_tag_char(tag[i - n - 1]));
            }
        }
    }
    assert(!chars::has(x, "${"@)) by {
        chars::lemma_find(x, "${"@);
        chars::lemma_find(name, "${"@);
        if chars::has(x, "${"@) {
            let i = chars::find(x, "${"@)->0 as int;
            assert(x.subrange(i, i + 2)[0] == x[i]);
            assert(x.subrange(i, i + 2)[1] == x[i + 1]);
            if i + 1 < n {
                assert(name.subrange(i, i + 2) =~= x.subrange(i, i + 2));
                assert(chars::occurs(name, "${"@, i));
            } else if i + 1 > n {
                assert(is_tag_char(tag[i - n]));
            }
        }
    }
    assert forall|i: int| x.len() - tag.len() <= i < x.len() implies chars::is_not(':')(
        #[trigger] x[i],
    ) by {
        assert(is_tag_char(tag[i - n - 1]));
    }
    assert(x[n] == ':');
    chars::lemma_trailing_is(x, chars::is_not(':'), tag.len() as int);
    assert(x.take(n) =~= name);
    assert(x.skip(n + 1) =~= tag);
    assert(is_tag_char(tag[0]));
    chars::lemma_trim_is(name);
    chars::lemma_trim_is(tag);
    assert(!tag.contains('/')) by {
        if tag.contains('/') {
            assert(is_tag_char(tag[tag.index_of('/')]));
        }
    }
}

/// Where the first operand stands among the words: behind flags.
proof fn lemma_operand(words: Seq<Seq<char>>) -> (k: int)
    requires
        first_operand(words) is Some,
    ensures
        0 <= k < words.len(),
        first_operand(words) == Some(words[k]),
        !chars::starts_with(words[k], "--"@),
        forall|j: int| 0 <= j < k ==> chars::starts_with(#[trigger] words[j], "--"@),
    decreases words.len(),
{
    if chars::starts_with(words[0], "--"@) {
        let k = lemma_operand(words.skip(1));
        assert forall|j: int| 0 <= j < k + 1 implies chars::starts_with(
            #[trigger] words[j],
            "--"@,
        ) by {
            if j > 0 {
                assert(words[j] == words.skip(1)[j - 1]);
            }
        }
        k + 1
    } else {
        0
    }
}

/// What stands behind flags is the first operand.
proof fn lemma_operand_is(words: Seq<Seq<char>>, k: int)
    requires
        0 <= k < words.len(),
        !chars::starts_with(words[k], "--"@),
        forall|j: int| 0 <= j < k ==> chars::starts_with(#[trigger] words[j], "--"@),
    ensures
        first_operand(words) == Some(words[k]),
    decreases words.len(),
{
    if k > 0 {
        assert(chars::starts_with(words[0], "--"@));
        assert forall|j: int| 0 <= j < k - 1 implies chars::starts_with(
            #[trigger] words.skip(1)[j],
            "--"@,
        ) by {
            assert(words.skip(1)[j] == words[j + 1]);
        }
        lemma_operand_is(words.skip(1), k - 1);
    }
}

/// The keyword holds no colon.
proof fn lemma_no_colon(word: Seq<char>)
    requires
        chars::lower(word) == chars::lower("FROM"@),
    ensures
        !word.contains(':'),
{
    reveal_strlit("FROM");
    let keyword = "FROM"@;
    if word.contains(':') {
        let c = word.index_of(':');
        assert(chars::lower(word).len() == word.len());
        assert(chars::lower(keyword).len() == keyword.len());
        assert(chars::lower(word)[c] == chars::lower_char(word[c]));
        assert(chars::lower(keyword)[c] == chars::lower_char(keyword[c]));
        assert(chars::lower_char(':') == ':');
        assert(keyword[c] == 'F' || keyword[c] == 'R' || keyword[c] == 'O' || keyword[c] == 'M');
    }
}

/// A text without white space that stands at the start of a word is a prefix of
/// that word.
proof fn lemma_prefix_of_word(s: Seq<char>, token: Seq<char>, at: int) -> (j: int)
    requires
        chars::occurs(s, token, at),
        token.len() > 0,
        forall|i: int| 0 <= i < token.len() ==> !chars::is_space(#[trigger] token[i]),
        at == 0 || chars::is_space(s[at - 1]),
    ensures
        0 <= j < chars::words(s).len(),
        chars::starts_with(chars::words(s)[j], token),
{
    let n = token.len() as int;
    assert forall|i: int| 0 <= i < n implies s[at + i] == #[trigger] token[i] by {
        assert(s.subrange(at, at + n)[i] == s[at + i]);
    }
    assert(s[at] == token[0]);
    chars::lemma_word_start(s, at);
    let j = chars::words(s.take(at)).len() as int;
    let w = s.skip(at);
    let m = chars::leading(w, chars::not_space()) as int;
    chars::lemma_leading(w, chars::not_space());
    assert(m >= n) by {
        if m < n {
            assert(w[m] == token[m]);
        }
    }
    assert(w.take(m).take(n) =~= token) by {
        assert forall|i: int| 0 <= i < n implies w.take(m).take(n)[i] == token[i] by {
            assert(w[i] == s[at + i]);
        }
    }
    j
}

/// The reference of a `FROM` line is first found where its operand stands.
proof fn lemma_first_place(body: Seq<char>, k: int, i: int, at: int)
    requires
        0 <= k < chars::words(body).len(),
        1 <= k,
        chars::lower(chars::words(body)[0]) == chars::lower("FROM"@),
        forall|j: int|
            1 <= j < k ==> chars::starts_with(#[trigger] chars::words(body)[j], "--"@),
        !chars::starts_with(chars::words(body)[k], "--"@),
        chars::words(body)[k].contains(':'),
        chars::words(body)[k].len() >= 2,
        chars::occurs(body, chars::words(body)[k], i),
        0 < i,
        chars::is_space(body[i - 1]),
        chars::words(body.take(i)) == chars::words(body).take(k),
        0 <= at <= i,
        chars::occurs(body, chars::words(body)[k], at),
        at == 0 || chars::is_space(body[at - 1]),
    ensures
        at == i,
{
    let all = chars::words(body);
    let token = all[k];
    let n = token.len() as int;
    chars::lemma_word(body, k);
    if at < i {
        let s = body.take(i);
        assert(at + n <= i) by {
            if at + n > i {
                assert(body.subrange(at, at + n)[i - 1 - at] == body[i - 1]);
            }
        }
        assert(s.subrange(at, at + n) =~= body.subrange(at, at + n));
        let j = lemma_prefix_of_word(s, token, at);
        let word = all[j];
        assert(all.take(k)[j] == word);
        if j == 0 {
            lemma_no_colon(word);
            let c = token.index_of(':');
            assert(word.take(n)[c] == word[c]);
        } else {
            reveal_strlit("--");
            assert(word.take(2) =~= "--"@);
            assert(token.take(2) =~= word.take(n).take(2));
            assert(word.take(n).take(2) =~= word.take(2));
        }
    }
}

/// The reference of a `FROM` line is placed where its operand stands.
proof fn lemma_from_place(line: Seq<char>) -> (k: int)
    requires
        from_line(line) is Some,
        chars::is_space(line[(from_line(line)->0).start - 1]),
    ensures
        ({
            let body = chars::trim_start(line);
            let all = chars::words(body);
            let o = from_line(line)->0;
            let i = o.start - (line.len() - body.len());
            let n = o.end - o.start;
            &&& 1 <= k < all.len()
            &&& forall|j: int| 1 <= j < k ==> chars::starts_with(#[trigger] all[j], "--"@)
            &&& image(all[k]) == Some((o.name, o.tag))
            &&& n == all[k].len()
            &&& chars::occurs(body, all[k], i)
            &&& i > 0
            &&& chars::is_space(body[i - 1])
            &&& chars::words(body.take(i)) == all.take(k)
            &&& i + n < body.len() ==> chars::is_space(body[i + n])
        }),
{
    let body = chars::trim_start(line);
    let lead = chars::leading(line, chars::space()) as int;
    let all = chars::words(body);
    chars::lemma_leading(line, chars::space());
    let k = lemma_operand(all.skip(1)) + 1;
    let token = all[k];
    assert(all.skip(1)[k - 1] == token);
    assert forall|j: int| 1 <= j < k implies chars::starts_with(#[trigger] all[j], "--"@) by {
        assert(all[j] == all.skip(1)[j - 1]);
    }
    let i = chars::lemma_word_at(body, k);
    chars::lemma_find(body, token);
    let at = chars::find(body, token)->0 as int;
    let a = lemma_name(token);
    assert(i > 0) by {
        if i == 0 {
            assert(chars::words(body.take(0)) =~= seq![]);
            assert(all.take(k).len() == k);
        }
    }
    if at > 0 {
        assert(body[at - 1] == line[lead + at - 1]);
    }
    lemma_first_place(body, k, i, at);
    k
}

/// Indentation in front of a text is what trimming its start takes.
proof fn lemma_indented(line: Seq<char>, lead: int, now: Seq<char>)
    requires
        lead == chars::leading(line, chars::space()),
        now.len() > 0,
        !chars::is_space(now[0]),
    ensures
        chars::leading(line.take(lead) + now, chars::space()) == lead,
        chars::trim_start(line.take(lead) + now) == now,
{
    chars::lemma_leading(line, chars::space());
    let written = line.take(lead) + now;
    assert forall|j: int| 0 <= j < lead implies chars::space()(#[trigger] written[j]) by {
        assert(chars::space()(line[j]));
    }
    assert(written[lead] == now[0]);
    chars::lemma_leading_is(written, chars::space(), lead);
    assert(written.skip(lead) =~= now);
}

/// A written reference is one word.
proof fn lemma_one_word(token: Seq<char>, name: Seq<char>, a: int, tag: Seq<char>)
    requires
        chars::occurs(token, name, a),
        forall|j: int| 0 <= j < token.len() ==> !chars::is_space(#[trigger] token[j]),
        is_tag(tag),
    ensures
        forall|j: int|
            0 <= j < (name + ":"@ + tag).len() ==> !chars::is_space(
                #[trigger] (name + ":"@ + tag)[j],
            ),
        chars::words(name + ":"@ + tag) == seq![name + ":"@ + tag],
{
    reveal_strlit(":");
    let x = name + ":"@ + tag;
    assert forall|j: int| 0 <= j < x.len() implies !chars::is_space(#[trigger] x[j]) by {
        if j < name.len() {
            assert(token.subrange(a, a + name.len())[j] == token[a + j]);
        } else if j > name.len() {
            assert(is_tag_char(tag[j - name.len() - 1]));
        }
    }
    chars::lemma_words_one(x);
}

/// A name that is not that of a flag does not become one by its tag.
proof fn lemma_no_flag(name: Seq<char>, tag: Seq<char>)
    requires
        name.len() > 0,
        !chars::starts_with(name, "--"@),
    ensures
        !chars::starts_with(name + ":"@ + tag, "--"@),
{
    reveal_strlit(":");
    reveal_strlit("--");
    let x = name + ":"@ + tag;
    if chars::starts_with(x, "--"@) {
        assert(x.take(2)[0] == x[0] && x.take(2)[1] == x[1]);
        if name.len() >= 2 {
            assert(name.take(2) =~= x.take(2));
        }
    }
}

/// A `FROM` line whose operand has been replaced.
proof fn lemma_from_now(body: Seq<char>, k: int, i: int, n: int, x: Seq<char>)
    requires
        1 <= k < chars::words(body).len(),
        forall|j: int|
            1 <= j < k ==> chars::starts_with(#[trigger] chars::words(body)[j], "--"@),
        0 < i,
        0 <= n,
        i + n <= body.len(),
        chars::is_space(body[i - 1]),
        chars::words(body.take(i)) == chars::words(body).take(k),
        i + n < body.len() ==> chars::is_space(body[i + n]),
        chars::words(x) == seq![x],
        !chars::starts_with(x, "--"@),
    ensures
        ({
            let now = body.take(i) + x + body.skip(i + n);
            let words = chars::words(now);
            &&& words.len() > 0
            &&& words[0] == chars::words(body)[0]
            &&& first_operand(words.skip(1)) == Some(x)
            &&& chars::find(now, x) is Some
        }),
{
    let all = chars::words(body);
    let front = body.take(i);
    let back = body.skip(i + n);
    let now = front + x + back;
    if back.len() > 0 {
        assert(back[0] == body[i + n]);
    }
    chars::lemma_words_add(x, back);
    assert(front.last() == body[i - 1]);
    chars::lemma_words_add(front, x + back);
    assert(front + (x + back) =~= now);
    let words = chars::words(now);
    assert(words =~= all.take(k) + (seq![x] + chars::words(back)));
    assert(words[0] == all[0]);
    let tail = words.skip(1);
    assert(tail[k - 1] == x);
    assert forall|j: int| 0 <= j < k - 1 implies chars::starts_with(#[trigger] tail[j], "--"@) by {
        assert(tail[j] == all[j + 1]);
        assert(chars::starts_with(all[j + 1], "--"@));
    }
    lemma_operand_is(tail, k - 1);
    chars::lemma_find(now, x);
    assert(now.subrange(i, i + x.len()) =~= x);
    assert(chars::occurs(now, x, i));
}

/// What is read of a `FROM` line.
proof fn lemma_from_line_is(line: Seq<char>, now: Seq<char>, x: Seq<char>)
    requires
        chars::trim_start(line) == now,
        now.len() > 0,
        now[0] != '#',
        chars::words(now).len() > 0,
        chars::lower(chars::words(now)[0]) == chars::lower("FROM"@),
        first_operand(chars::words(now).skip(1)) == Some(x),
        chars::find(now, x) is Some,
        image(x) is Some,
    ensures
        from_line(line) is Some,
        (from_line(line)->0).name == (image(x)->0).0,
        (from_line(line)->0).tag == (image(x)->0).1,
{
}

/// A line is its indentation and the rest, also once a stretch of it is replaced.
proof fn lemma_replaced(line: Seq<char>, lead: int, i: int, n: int, name: Seq<char>, tag: Seq<char>)
    requires
        0 <= lead,
        0 <= i,
        0 <= n,
        lead + i + n <= line.len(),
    ensures
        line.take(lead + i) + name + ":"@ + tag + line.skip(lead + i + n) == line.take(lead) + (
        line.skip(lead).take(i) + (name + ":"@ + tag) + line.skip(lead).skip(i + n)),
{
    let body = line.skip(lead);
    assert(line.take(lead + i) =~= line.take(lead) + body.take(i));
    assert(line.skip(lead + i + n) =~= body.skip(i + n));
    assert(line.take(lead + i) + name + ":"@ + tag + line.skip(lead + i + n) =~= line.take(lead) + (
    body.take(i) + (name + ":"@ + tag) + body.skip(i + n)));
}

/// A rewritten `FROM` line is read as it was written.
proof fn lemma_from_reads_back(line: Seq<char>, tag: Seq<char>)
    requires
        from_line(line) is Some,
        is_apart(line, from_line(line)->0, DepType::Build),
        is_tag(tag),
    ensures
        ({
            let o = from_line(line)->0;
            let written = line.take(o.start) + o.name + ":"@ + tag + line.skip(o.end);
            from_line(written) matches Some(p) && p.name == o.name && p.tag == tag
        }),
{
    let o = from_line(line)->0;
    let k = lemma_from_place(line);
    let body = chars::trim_start(line);
    let lead = chars::leading(line, chars::space()) as int;
    chars::lemma_leading(line, chars::space());
    let token = chars::words(body)[k];
    let i = o.start - lead;
    let n = token.len() as int;
    let a = lemma_name(token);
    chars::lemma_word(body, k);
    lemma_reference(o.name, tag);
    lemma_one_word(token, o.name, a, tag);
    lemma_no_flag(o.name, tag);
    let x = o.name + ":"@ + tag;
    lemma_from_now(body, k, i, n, x);
    let now = body.take(i) + x + body.skip(i + n);
    lemma_replaced(line, lead, i, n, o.name, tag);
    assert(now[0] == body[0]);
    assert(body[0] == line[lead]);
    lemma_indented(line, lead, now);
    lemma_from_line_is(line.take(lead) + now, now, x);
}

/// A written reference holds only what the old one held, a colon and a tag.
proof fn lemma_written_chars(token: Seq<char>, name: Seq<char>, a: int, tag: Seq<char>, k: char)
    requires
        chars::occurs(token, name, a),
        is_tag(tag),
        !is_tag_char(k),
        k != ':',
        !token.contains(k),
    ensures
        forall|j: int|
            0 <= j < (name + ":"@ + tag).len() ==> #[trigger] (name + ":"@ + tag)[j] != k,
{
    reveal_strlit(":");
    let x = name + ":"@ + tag;
    assert forall|j: int| 0 <= j < x.len() implies #[trigger] x[j] != k by {
        if j < name.len() {
            assert(token.subrange(a, a + name.len())[j] == token[a + j]);
            assert(token.contains(token[a + j]));
        } else if j > name.len() {
            assert(is_tag_char(tag[j - name.len() - 1]));
        }
    }
}

/// Where the reference of a compose file's value stands in the value: behind the
/// quote that it starts with, if any.
spec fn token_start(value: Seq<char>) -> int {
    if value[0] == '"' || value[0] == '\'' {
        1
    } else {
        0
    }
}

/// The reference in a value.
proof fn lemma_token(value: Seq<char>)
    requires
        value.len() > 0,
        !chars::is_space(value[0]),
        compose_token(value) is Some,
    ensures
        ({
            let token = compose_token(value)->0;
            let p = token_start(value);
            &&& chars::occurs(value, token, p)
            &&& p == 1 ==> !token.contains(value[0]) && p + token.len() < value.len() && value[p
                + token.len()] == value[0]
            &&& p == 0 ==> !token.contains('#') && (p + token.len() < value.len() ==> value[p
                + token.len()] == '#' || chars::is_space(value[p + token.len()])) && (forall|j: int|
                0 <= j < token.len() ==> !chars::is_space(#[trigger] token[j]))
        }),
{
    let token = compose_token(value)->0;
    if token_start(value) == 1 {
        let q = value[0];
        let inner = value.skip(1);
        chars::lemma_leading(inner, chars::is_not(q));
        let e = chars::leading(inner, chars::is_not(q)) as int;
        assert(value.subrange(1, 1 + e) =~= token);
        assert(value[1 + e] == inner[e]);
        if token.contains(q) {
            let j = token.index_of(q);
            assert(chars::is_not(q)(inner[j]));
        }
    } else {
        assert(chars::leading(value, chars::space()) == 0);
        assert(value.skip(0) =~= value);
        let word = chars::words(value)[0];
        let m = chars::leading(value, chars::not_space()) as int;
        chars::lemma_leading(value, chars::not_space());
        assert(word == value.take(m));
        let h = chars::leading(word, chars::is_not('#')) as int;
        chars::lemma_leading(word, chars::is_not('#'));
        let piece = word.take(h);
        assert forall|j: int| 0 <= j < h implies !chars::is_space(#[trigger] piece[j]) by {
            assert(chars::not_space()(value[j]));
        }
        chars::lemma_trim_is(piece);
        assert(token == piece);
        assert(value.subrange(0, h) =~= token);
        if token.contains('#') {
            let j = token.index_of('#');
            assert(chars::is_not('#')(word[j]));
        }
        if h < value.len() {
            if h < m {
                assert(value[h] == word[h]);
            }
        }
    }
}

/// What stands between quotes is read as the reference.
proof fn lemma_quoted_token(now: Seq<char>, x: Seq<char>)
    requires
        x.len() + 1 < now.len(),
        now[0] == '"' || now[0] == '\'',
        now.subrange(1, x.len() as int + 1) == x,
        forall|j: int| 0 <= j < x.len() ==> #[trigger] x[j] != now[0],
        now[x.len() as int + 1] == now[0],
    ensures
        compose_token(now) == Some(x),
{
    let n = x.len() as int;
    let inner = now.skip(1);
    assert forall|j: int| 0 <= j < n implies #[trigger] inner[j] != now[0] by {
        assert(inner[j] == now.subrange(1, 1 + n)[j]);
    }
    assert(inner[n] == now[1 + n]);
    chars::lemma_before(inner, now[0], n);
    assert(inner.take(n) =~= x);
}

/// A word up to a comment is read as the reference.
proof fn lemma_plain_token(now: Seq<char>, x: Seq<char>)
    requires
        0 < x.len() <= now.len(),
        now[0] != '"',
        now[0] != '\'',
        now.take(x.len() as int) == x,
        forall|j: int|
            0 <= j < x.len() ==> #[trigger] x[j] != '#' && !chars::is_space(x[j]),
        x.len() < now.len() ==> now[x.len() as int] == '#' || chars::is_space(now[x.len() as int]),
    ensures
        compose_token(now) == Some(x),
{
    let n = x.len() as int;
    assert forall|j: int| 0 <= j < n implies now[j] == #[trigger] x[j] by {
        assert(now.take(n)[j] == now[j]);
    }
    assert(now[0] == x[0]);
    assert(chars::leading(now, chars::space()) == 0);
    assert(now.skip(0) =~= now);
    let m = chars::leading(now, chars::not_space()) as int;
    chars::lemma_leading(now, chars::not_space());
    let word = now.take(m);
    assert(chars::words(now)[0] == word);
    assert(m >= n) by {
        if m < n {
            assert(now[m] == x[m]);
        }
    }
    assert forall|j: int| 0 <= j < n implies #[trigger] word[j] != '#' by {
        assert(word[j] == x[j]);
    }
    if n < m {
        assert(chars::not_space()(now[n]));
        assert(word[n] == '#');
        chars::lemma_before(word, '#', n);
    } else {
        chars::lemma_before_all(word, '#');
    }
    assert(word.take(n) =~= x);
    chars::lemma_trim_is(x);
}

/// A value with its reference replaced.
proof fn lemma_token_now(value: Seq<char>, name: Seq<char>, a: int, tag: Seq<char>)
    requires
        value.len() > 0,
        !chars::is_space(value[0]),
        compose_token(value) is Some,
        chars::occurs(compose_token(value)->0, name, a),
        is_tag(tag),
        name.len() > 0,
        token_start(value) == 0 ==> name[0] == value[0],
    ensures
        ({
            let token = compose_token(value)->0;
            let p = token_start(value);
            let x = name + ":"@ + tag;
            let now = value.take(p) + x + value.skip(p + token.len());
            &&& compose_token(now) == Some(x)
            &&& now.len() > 0
            &&& now[0] == value[0]
            &&& chars::occurs(now, x, p)
        }),
{
    let token = compose_token(value)->0;
    let p = token_start(value);
    let x = name + ":"@ + tag;
    let n = x.len() as int;
    let back = value.skip(p + token.len());
    let now = value.take(p) + x + back;
    lemma_token(value);
    assert(now.subrange(p, p + n) =~= x);
    assert(x[0] == name[0]);
    if back.len() > 0 {
        assert(now[p + n] == back[0]);
        assert(back[0] == value[p + token.len()]);
    }
    if p == 1 {
        lemma_written_chars(token, name, a, tag, value[0]);
        lemma_quoted_token(now, x);
    } else {
        lemma_one_word(token, name, a, tag);
        lemma_written_chars(token, name, a, tag, '#');
        assert(now.take(n) =~= x);
        lemma_plain_token(now, x);
    }
}

/// The reference of a compose file's line is found where its value has it.
proof fn lemma_image_place(body: Seq<char>, value: Seq<char>, p: int, at: int)
    requires
        0 <= p <= body.len(),
        body.skip(p) == value,
        value.len() > 0,
        !chars::is_space(value[0]),
        compose_token(value) is Some,
        image(compose_token(value)->0) is Some,
        0 <= at,
        chars::occurs(body, compose_token(value)->0, at),
        forall|j: int| at <= j < p ==> chars::is_space(#[trigger] body[j]),
        at <= p + token_start(value),
    ensures
        at == p + token_start(value),
{
    let token = compose_token(value)->0;
    let n = token.len() as int;
    let a = lemma_name(token);
    let name = (image(token)->0).0;
    lemma_token(value);
    assert(token.subrange(a, a + name.len())[0] == token[a]);
    assert forall|j: int| 0 <= j < n implies body[at + j] == #[trigger] token[j] by {
        assert(body.subrange(at, at + n)[j] == body[at + j]);
    }
    if at < p + token_start(value) {
        if token_start(value) == 1 {
            assert(body[p] == value[0]);
            if at + n > p {
                assert(token[p - at] == body[p]);
                assert(token.contains(value[0]));
            } else {
                assert(body[at + a] == token[a]);
                assert(chars::is_space(body[at + a]));
            }
        } else {
            assert(body[at] == token[0]);
            assert(chars::is_space(body[at]));
        }
    }
}

/// What is read of a compose file's line.
proof fn lemma_image_line_is(line: Seq<char>, now: Seq<char>, value: Seq<char>, x: Seq<char>)
    requires
        chars::trim_start(line) == now,
        chars::starts_with(now, "image:"@),
        chars::trim_start(now.skip("image:"@.len() as int)) == value,
        compose_token(value) == Some(x),
        chars::find(now, x) is Some,
        image(x) is Some,
    ensures
        image_line(line) is Some,
        (image_line(line)->0).name == (image(x)->0).0,
        (image_line(line)->0).tag == (image(x)->0).1,
{
}

/// A compose file's line with its reference replaced.
proof fn lemma_image_now(body: Seq<char>, p: int, s: int, n: int, x: Seq<char>)
    requires
        chars::starts_with(body, "image:"@),
        p == "image:"@.len() + chars::leading(body.skip("image:"@.len() as int), chars::space()),
        p <= body.len(),
        0 <= s,
        0 <= n,
        p + s + n <= body.len(),
        body.skip(p).len() > 0,
        ({
            let value = body.skip(p);
            let value_now = value.take(s) + x + value.skip(s + n);
            &&& value_now.len() > 0
            &&& !chars::is_space(value_now[0])
            &&& chars::occurs(value_now, x, s)
        }),
    ensures
        ({
            let value = body.skip(p);
            let value_now = value.take(s) + x + value.skip(s + n);
            let now = body.take(p + s) + x + body.skip(p + s + n);
            &&& chars::starts_with(now, "image:"@)
            &&& chars::trim_start(now.skip("image:"@.len() as int)) == value_now
            &&& chars::find(now, x) is Some
        }),
{
    let key = "image:"@;
    let k = key.len() as int;
    let value = body.skip(p);
    let value_now = value.take(s) + x + value.skip(s + n);
    let now = body.take(p + s) + x + body.skip(p + s + n);
    assert(now =~= body.take(p) + value_now) by {
        assert(body.take(p + s) =~= body.take(p) + value.take(s));
        assert(body.skip(p + s + n) =~= value.skip(s + n));
    }
    assert(now.take(k) =~= body.take(k));
    let rest = body.skip(k);
    assert(now.skip(k) =~= rest.take(p - k) + value_now);
    lemma_indented(rest, p - k, value_now);
    chars::lemma_find(now, x);
    assert(now.subrange(p + s, p + s + x.len()) =~= value_now.subrange(s, s + x.len()));
    assert(chars::occurs(now, x, p + s));
}

/// A rewritten line of a compose file is read as it was written.
proof fn lemma_image_reads_back(line: Seq<char>, tag: Seq<char>)
    requires
        image_line(line) is Some,
        is_apart(line, image_line(line)->0, DepType::Normal),
        is_tag(tag),
    ensures
        ({
            let o = image_line(line)->0;
            let written = line.take(o.start) + o.name + ":"@ + tag + line.skip(o.end);
            image_line(written) matches Some(p) && p.name == o.name && p.tag == tag
        }),
{
    reveal_strlit("image:");
    let o = image_line(line)->0;
    let key = "image:"@;
    let k = key.len() as int;
    let body = chars::trim_start(line);
    let lead = chars::leading(line, chars::space()) as int;
    chars::lemma_leading(line, chars::space());
    let rest = body.skip(k);
    let p = k + chars::leading(rest, chars::space());
    chars::lemma_leading(rest, chars::space());
    let value = body.skip(p);
    assert(chars::trim_start(rest) =~= value);
    let token = compose_token(value)->0;
    let s = token_start(value);
    let n = token.len() as int;
    assert(value[0] == rest[p - k]);
    let at = chars::find(body, token)->0 as int;
    chars::lemma_find(body, token);
    lemma_token(value);
    assert(body.subrange(p + s, p + s + n) =~= value.subrange(s, s + n));
    assert(chars::occurs(body, token, p + s));
    assert forall|j: int| at <= j < p implies chars::is_space(#[trigger] body[j]) by {
        assert(body[j] == rest[j - k]);
        assert(chars::space()(rest[j - k]));
    }
    lemma_image_place(body, value, p, at);
    let a = lemma_name(token);
    let x = o.name + ":"@ + tag;
    if s == 0 {
        assert(value.subrange(0, n)[0] == value[0]);
        lemma_name_start(token);
    }
    lemma_reference(o.name, tag);
    lemma_token_now(value, o.name, a, tag);
    lemma_image_now(body, p, s, n, x);
    lemma_replaced(line, lead, p + s, n, o.name, tag);
    let now = body.take(p + s) + x + body.skip(p + s + n);
    assert(now[0] == now.take(k)[0]);
    lemma_indented(line, lead, now);
    lemma_image_line_is(
        line.take(lead) + now,
        now,
        value.take(s) + x + value.skip(s + n),
        x,
    );
}

/// A line that has been moved to another tag names the same image with that tag.
pub proof fn law_rewritten_line_reads_back(line: Seq<char>, dep: Dep, dep_type: DepType)
    requires
        occurrence(line, dep_type) matches Some(o) && o.name == dep.name && o.tag == dep.current
            && is_apart(line, o, dep_type),
        dep.latest matches Some(tag) && is_tag(tag),
    ensures
        occurrence(rewritten(line, dep, dep_type), dep_type) matches Some(o) && o.name == dep.name
            && Some(o.tag) == dep.latest,
{
    let tag = dep.latest->0;
    match dep_type {
        DepType::Build => {
            lemma_from_reads_back(line, tag);
        },
        DepType::Normal => {
            lemma_image_reads_back(line, tag);
        },
        _ => {},
    }
}

/// The update of an image that is listed.
pub open spec fn update_of(updates: Seq<Dep>, dep: Dep, dep_type: DepType) -> Option<Dep> {
    update_for(
        updates,
        Occurrence { name: dep.name, tag: dep.current, start: 0, end: 0 },
        dep_type,
    )
}

/// The images with the tags that the updates move them to.
pub open spec fn moved(items: Seq<Dep>, updates: Seq<Dep>, dep_type: DepType) -> Seq<Dep> {
    items.map_values(
        |dep: Dep|
            match update_of(updates, dep, dep_type) {
                Some(update) => match update.latest {
                    Some(tag) => Dep::fresh(dep.name, tag, dep_type),
                    None => dep,
                },
                None => dep,
            },
    )
}

/// Where an update moves an image of the manifest, it moves it to a tag, and the
/// reference stands where it is read from.
pub open spec fn is_movable(lines: Seq<Seq<char>>, updates: Seq<Dep>, dep_type: DepType) -> bool {
    forall|i: int|
        0 <= i < lines.len() ==> match occurrence(#[trigger] lines[i], dep_type) {
            Some(o) => match update_for(updates, o, dep_type) {
                Some(update) => match update.latest {
                    Some(tag) => is_tag(tag) && is_apart(lines[i], o, dep_type),
                    None => true,
                },
                None => true,
            },
            None => true,
        }
}

/// Only the name and the tag of an image count for its update.
proof fn lemma_same_update(updates: Seq<Dep>, a: Occurrence, b: Occurrence, dep_type: DepType)
    requires
        a.name == b.name,
        a.tag == b.tag,
    ensures
        update_for(updates, a, dep_type) == update_for(updates, b, dep_type),
        update_for(updates, a, dep_type) matches Some(dep) ==> concerns(dep, a, dep_type),
    decreases updates.len(),
{
    if updates.len() > 0 {
        lemma_same_update(updates.skip(1), a, b, dep_type);
    }
}

/// The place of an image is a stretch of its line.
proof fn lemma_place(line: Seq<char>, dep_type: DepType)
    requires
        occurrence(line, dep_type) is Some,
    ensures
        ({
            let o = occurrence(line, dep_type)->0;
            &&& 0 <= o.start <= o.end <= line.len()
            &&& exists|token: Seq<char>|
                o.end == o.start + token.len() && #[trigger] chars::occurs(line, token, o.start)
                    && image(token) == Some((o.name, o.tag))
        }),
{
    let o = occurrence(line, dep_type)->0;
    let body = chars::trim_start(line);
    let lead = chars::leading(line, chars::space()) as int;
    chars::lemma_leading(line, chars::space());
    let token: Seq<char> = match dep_type {
        DepType::Build => first_operand(chars::words(body).skip(1))->0,
        _ => compose_token(chars::trim_start(chars::strip_prefix(body, "image:"@)->0))->0,
    };
    assert(placed(line, token) == Some(o));
    chars::lemma_find(body, token);
    let at = chars::find(body, token)->0 as int;
    assert(line.subrange(lead + at, lead + at + token.len()) =~= body.subrange(
        at,
        at + token.len(),
    ));
    assert(chars::occurs(line, token, o.start));
}

/// A rewritten line is still one line, not empty, and ends as it did or in its tag.
proof fn lemma_still_a_line(line: Seq<char>, dep: Dep, dep_type: DepType)
    requires
        chars::is_one_line(line),
        occurrence(line, dep_type) is Some,
        dep.latest matches Some(tag) && is_tag(tag),
    ensures
        chars::is_one_line(rewritten(line, dep, dep_type)),
        rewritten(line, dep, dep_type).len() > 0,
        !chars::ends_return(line) ==> !chars::ends_return(rewritten(line, dep, dep_type)),
{
    reveal_strlit(":");
    let o = occurrence(line, dep_type)->0;
    let tag = dep.latest->0;
    lemma_place(line, dep_type);
    let token = choose|token: Seq<char>|
        o.end == o.start + token.len() && #[trigger] chars::occurs(line, token, o.start)
            && image(token) == Some((o.name, o.tag));
    let a = lemma_name(token);
    chars::lemma_occurs_within(line, token, o.start, o.name, a);
    let front = line.take(o.start);
    let back = line.skip(o.end);
    let n = o.name.len() as int;
    let r = front + o.name + ":"@ + tag + back;
    assert forall|i: int| 0 <= i < r.len() implies #[trigger] r[i] != '\n' by {
        let s = o.start;
        if i < s {
            assert(r[i] == line[i]);
        } else if i < s + n {
            assert(line.subrange(s + a, s + a + n)[i - s] == line[s + a + (i - s)]);
        } else if i == s + n {
            assert(r[i] == ':');
        } else if i < s + n + 1 + tag.len() {
            assert(r[i] == tag[i - s - n - 1]);
            assert(is_tag_char(tag[i - s - n - 1]));
        } else {
            assert(r[i] == line[o.end + (i - s - n - 1 - tag.len())]);
        }
    }
    if back.len() > 0 {
        assert(r.last() == line.last());
    } else {
        assert(r.last() == tag.last());
        assert(is_tag_char(tag.last()));
    }
}

/// An updated manifest is read line by line as it was written.
proof fn lemma_updated_lines(content: Seq<char>, updates: Seq<Dep>, dep_type: DepType)
    requires
        chars::is_relinable(content),
        is_movable(chars::lines(content), updates, dep_type),
    ensures
        chars::lines(updated(content, updates, dep_type)) == updated_lines(
            chars::lines(content),
            updates,
            dep_type,
        ),
{
    let lines = chars::lines(content);
    let items = updated_lines(lines, updates, dep_type);
    chars::lemma_lines(content);
    assert forall|i: int| 0 <= i < items.len() implies chars::is_one_line(#[trigger] items[i]) && (
    !chars::ends_return(lines[i]) ==> !chars::ends_return(items[i])) && (lines[i].len() > 0
        ==> items[i].len() > 0) by {
        lemma_updated_line(lines[i], updates, dep_type);
    }
    assert forall|i: int|
        0 <= i < items.len() && (i < items.len() - 1 || chars::ends_line(
            content,
        )) implies !chars::ends_return(#[trigger] items[i]) by {
        assert(!chars::ends_return(lines[i]));
    }
    if items.len() > 0 {
        assert(items.last() == items[items.len() - 1]);
    }
    chars::lemma_relined(content, items);
}

proof fn lemma_updated_line(line: Seq<char>, updates: Seq<Dep>, dep_type: DepType)
    requires
        chars::is_one_line(line),
        is_movable(seq![line], updates, dep_type),
    ensures
        chars::is_one_line(updated_line(line, updates, dep_type)),
        !chars::ends_return(line) ==> !chars::ends_return(updated_line(line, updates, dep_type)),
        line.len() > 0 ==> updated_line(line, updates, dep_type).len() > 0,
        match occurrence(line, dep_type) {
            Some(o) => match update_for(updates, o, dep_type) {
                Some(update) => match update.latest {
                    Some(tag) => occurrence(
                        updated_line(line, updates, dep_type),
                        dep_type,
                    ) matches Some(p) && p.name == o.name && p.tag == tag,
                    None => updated_line(line, updates, dep_type) == line,
                },
                None => updated_line(line, updates, dep_type) == line,
            },
            None => updated_line(line, updates, dep_type) == line,
        },
{
    assert(seq![line][0] == line);
    if let Some(o) = occurrence(line, dep_type) {
        lemma_same_update(updates, o, o, dep_type);
        if let Some(update) = update_for(updates, o, dep_type) {
            if update.latest is Some {
                lemma_still_a_line(line, update, dep_type);
                law_rewritten_line_reads_back(line, update, dep_type);
            }
        }
    }
}

proof fn lemma_moved(lines: Seq<Seq<char>>, updates: Seq<Dep>, dep_type: DepType)
    requires
        forall|i: int| 0 <= i < lines.len() ==> chars::is_one_line(#[trigger] lines[i]),
        is_movable(lines, updates, dep_type),
    ensures
        listed(updated_lines(lines, updates, dep_type), dep_type) == moved(
            listed(lines, dep_type),
            updates,
            dep_type,
        ),
    decreases lines.len(),
{
    let items = updated_lines(lines, updates, dep_type);
    if lines.len() == 0 {
        assert(moved(listed(lines, dep_type), updates, dep_type) =~= seq![]);
    } else {
        let init = lines.drop_last();
        let line = lines.last();
        assert(line == lines[lines.len() - 1]);
        assert forall|i: int| 0 <= i < init.len() implies chars::is_one_line(
            #[trigger] init[i],
        ) by {
            assert(init[i] == lines[i]);
        }
        assert(is_movable(init, updates, dep_type)) by {
            assert forall|i: int| 0 <= i < init.len() implies init[i] == #[trigger] lines[i] by {}
        }
        assert(is_movable(seq![line], updates, dep_type));
        lemma_moved(init, updates, dep_type);
        lemma_updated_line(line, updates, dep_type);
        assert(items.drop_last() =~= updated_lines(init, updates, dep_type));
        let before = listed(init, dep_type);
        if let Some(o) = occurrence(line, dep_type) {
            let dep = Dep::fresh(o.name, o.tag, dep_type);
            lemma_same_update(
                updates,
                o,
                Occurrence { name: dep.name, tag: dep.current, start: 0, end: 0 },
                dep_type,
            );
            assert(moved(before.push(dep), updates, dep_type) =~= moved(
                before,
                updates,
                dep_type,
            ).push(moved(seq![dep], updates, dep_type)[0]));
        }
    }
}

/// Listing an updated manifest gives the same images, each at the tag that it was
/// moved to.
pub proof fn law_updated_manifest_reads_back(
    content: Seq<char>,
    updates: Seq<Dep>,
    dep_type: DepType,
)
    requires
        chars::is_relinable(content),
        is_movable(chars::lines(content), updates, dep_type),
    ensures
        listed(chars::lines(updated(content, updates, dep_type)), dep_type) == moved(
            listed(chars::lines(content), dep_type),
            updates,
            dep_type,
        ),
{
    chars::lemma_lines(content);
    lemma_updated_lines(content, updates, dep_type);
    lemma_moved(chars::lines(content), updates, dep_type);
}

/// The selected tag has the suffix of the current one and is newer, and so is no
/// other tag of that suffix newer than it: of equally new ones it is the first.
pub proof fn law_selected_tag_is_the_newest(
    current: Seq<char>,
    tags: Seq<Seq<char>>,
    k: int,
    j: int,
)
    requires
        selected(current, tags, k),
        0 <= j < tags.len(),
    ensures
        version_tag(current) is Some,
        version_tag(tags[k]) is Some,
        ({
            let (parts, suffix) = version_tag(current)->0;
            let (best, best_suffix) = version_tag(tags[k])->0;
            let (other, other_suffix) = version_tag(tags[j])->0;
            &&& best_suffix == suffix
            &&& version::newer(best, parts)
            &&& version_tag(tags[j]) is Some && other_suffix == suffix && version::newer(
                other,
                parts,
            ) ==> !version::newer(other, best) && (j < k ==> version::newer(best, other))
        }),
{
    let (parts, suffix) = version_tag(current)->0;
    version::lemma_trichotomy(parts, parts);
    assert(version::same(parts, parts));
    let (other, other_suffix) = version_tag(tags[j])->0;
    if version_tag(tags[j]) is Some && other_suffix == suffix && version::newer(other, parts) {
        assert(tags[j] != current);
        assert(upgrades(current, tags[j]));
    }
}

/// Where no tag is selected, no tag of the same suffix is newer than the current one.
pub proof fn law_no_newer_tag_is_passed_over(current: Seq<char>, tags: Seq<Seq<char>>, j: int)
    requires
        forall|i: int| 0 <= i < tags.len() ==> !upgrades(current, #[trigger] tags[i]),
        0 <= j < tags.len(),
        version_tag(current) is Some,
        version_tag(tags[j]) is Some,
    ensures
        (version_tag(tags[j])->0).1 == (version_tag(current)->0).1 ==> !version::newer(
            (version_tag(tags[j])->0).0,
            (version_tag(current)->0).0,
        ),
{
    let (parts, suffix) = version_tag(current)->0;
    version::lemma_trichotomy(parts, parts);
    assert(version::same(parts, parts));
    assert(!upgrades(current, tags[j]));
}

/// A tag is a version, with a `v` before it or without, and a suffix: the numbers
/// between the dots, and what follows the last digit or dot.
pub proof fn law_version_tag(parts: Seq<u64>, suffix: Seq<char>)
    requires
        parts.len() > 0,
        suffix.len() > 0 ==> !('0' <= suffix[0] && suffix[0] <= '9') && suffix[0] != '.',
    ensures
        version_tag(version::written(parts) + suffix) == Some((parts, suffix)),
        version_tag(seq!['v'] + version::written(parts) + suffix) == Some((parts, suffix)),
{
    let text = version::written(parts);
    let s = text + suffix;
    version::lemma_written(parts);
    version::law_written_numbers_read_back(parts);
    assert(s[0] == text[0]);
    assert((seq!['v'] + text + suffix).skip(1) =~= s);
    assert forall|i: int| 0 <= i < text.len() implies version::digit_or_dot()(#[trigger] s[i]) by {
        assert(s[i] == text[i]);
    }
    if suffix.len() > 0 {
        assert(s[text.len() as int] == suffix[0]);
    }
    chars::lemma_leading_is(s, version::digit_or_dot(), text.len() as int);
    assert(s.take(text.len() as int) =~= text);
    assert(s.skip(text.len() as int) =~= suffix);
}

/// A tag that does not start with a digit or a dot, after a `v`, is no version.
pub proof fn law_no_version_tag(tag: Seq<char>)
    requires
        version_tag(tag) is Some,
    ensures
        ({
            let s = if tag.len() > 0 && tag[0] == 'v' {
                tag.skip(1)
            } else {
                tag
            };
            s.len() > 0 && ('0' <= s[0] && s[0] <= '9' || s[0] == '.')
        }),
{
    let s = without_v(tag);
    let text = chars::take_while(s, version::digit_or_dot());
    version::law_no_version(text);
    chars::lemma_leading(s, version::digit_or_dot());
    assert(version::digit_or_dot()(s[0]));
}

/// The text is not empty, and has no white space, quote, at sign or dollar sign.
spec fn is_plain(s: Seq<char>) -> bool {
    &&& s.len() > 0
    &&& forall|i: int|
        0 <= i < s.len() ==> !chars::is_space(#[trigger] s[i]) && s[i] != '@' && s[i] != '$' && s[i]
            != '"' && s[i] != '\''
}

/// A reference is a name, a colon and a tag, with white space around it and in single
/// or double quotes or none.
pub proof fn law_image(front: Seq<char>, quote: Seq<char>, name: Seq<char>, tag: Seq<char>, back: Seq<char>)
    requires
        forall|i: int| 0 <= i < front.len() ==> chars::is_space(#[trigger] front[i]),
        forall|i: int| 0 <= i < back.len() ==> chars::is_space(#[trigger] back[i]),
        quote == seq!['"'] || quote == seq!['\''] || quote == Seq::<char>::empty(),
        name.len() > 0,
        forall|i: int|
            0 <= i < name.len() ==> !chars::is_space(#[trigger] name[i]) && name[i] != '@' && name[i]
                != '$' && name[i] != '"' && name[i] != '\'',
        tag.len() > 0,
        forall|i: int|
            0 <= i < tag.len() ==> !chars::is_space(#[trigger] tag[i]) && tag[i] != '@' && tag[i]
                != '$' && tag[i] != '"' && tag[i] != '\'' && tag[i] != ':' && tag[i] != '/',
    ensures
        image(front + (quote + (name + seq![':'] + tag) + quote) + back) == Some((name, tag)),
        image(front + (quote + name + quote) + back) is Some ==> name.contains(':'),
{
    let token = name + seq![':'] + tag;
    assert(is_plain(name));
    assert(is_plain(tag));
    assert(!tag.contains(':'));
    chars::lemma_last(name, ':', tag);
    chars::lemma_trim_is(name);
    chars::lemma_trim_is(tag);
    assert(!tag.contains('/'));
    assert(is_plain(token)) by {
        assert forall|i: int| 0 <= i < token.len() implies !chars::is_space(#[trigger] token[i])
            && token[i] != '@' && token[i] != '$' && token[i] != '"' && token[i] != '\'' by {
            if i < name.len() {
                assert(token[i] == name[i]);
            } else if i > name.len() {
                assert(token[i] == tag[i - name.len() - 1]);
            }
        }
    }
    lemma_in_quotes(front, quote, token, back);
    lemma_in_quotes(front, quote, name, back);
    if !name.contains(':') {
        chars::lemma_last_all(name, ':');
    }
}

proof fn lemma_in_quotes(front: Seq<char>, quote: Seq<char>, token: Seq<char>, back: Seq<char>)
    requires
        forall|i: int| 0 <= i < front.len() ==> chars::is_space(#[trigger] front[i]),
        forall|i: int| 0 <= i < back.len() ==> chars::is_space(#[trigger] back[i]),
        quote == seq!['"'] || quote == seq!['\''] || quote == Seq::<char>::empty(),
        is_plain(token),
    ensures
        unquote(chars::trim(front + (quote + token + quote) + back)) == token,
        !token.contains('@'),
        !chars::has(token, "${"@),
{
    let whole = quote + token + quote;
    assert(token[0] != '"');
    assert(!chars::is_space(token[token.len() - 1]));
    if quote.len() > 0 {
        assert(whole[0] == quote[0]);
        assert(whole.last() == quote[0]);
        assert(whole.subrange(1, whole.len() - 1) =~= token);
    } else {
        assert(whole =~= token);
        assert(token.last() == token[token.len() - 1]);
    }
    chars::lemma_trim_around(front, whole, back);
    reveal_strlit("${");
    chars::lemma_find(token, "${"@);
    if chars::has(token, "${"@) {
        let n = chars::find(token, "${"@)->0 as int;
        assert(token.subrange(n, n + 2)[0] == token[n]);
        assert("${"@[0] == '$');
    }
}

/// What has no version, what names a digest and what is a variable is passed over.
pub proof fn law_no_image(s: Seq<char>)
    requires
        image(s) is Some,
    ensures
        s.contains(':'),
        ({
            let (name, tag) = image(s)->0;
            &&& name.len() > 0
            &&& tag.len() > 0
            &&& !name.contains('@') && !tag.contains('@')
            &&& !tag.contains(':') && !tag.contains('/')
            &&& !chars::is_space(name[0]) && !chars::is_space(name.last())
            &&& !chars::is_space(tag[0]) && !chars::is_space(tag.last())
        }),
{
    let t = chars::trim(s);
    let token = unquote(t);
    let n = chars::trailing(token, chars::is_not(':')) as int;
    chars::lemma_trim(s);
    chars::lemma_trailing(token, chars::is_not(':'));
    let a = choose|a: int|
        0 <= a && a + t.len() <= s.len() && #[trigger] s.subrange(a, a + t.len()) == t;
    let p = token.len() - n - 1;
    let off: int = if token.len() == t.len() {
        0
    } else {
        1
    };
    assert(token[p] == ':');
    assert(t[p + off] == ':');
    assert(s.subrange(a, a + t.len())[p + off] == s[a + p + off]);
    assert(s[a + p + off] == ':');
    let head = token.take(p);
    let tail = token.skip(p + 1);
    chars::lemma_trim(head);
    chars::lemma_trim(tail);
    let name = chars::trim(head);
    let tag = chars::trim(tail);
    let x = choose|x: int|
        0 <= x && x + name.len() <= head.len() && #[trigger] head.subrange(x, x + name.len()) == name;
    let y = choose|y: int|
        0 <= y && y + tag.len() <= tail.len() && #[trigger] tail.subrange(y, y + tag.len()) == tag;
    assert forall|i: int| 0 <= i < name.len() implies #[trigger] name[i] != '@' by {
        assert(name[i] == head.subrange(x, x + name.len())[i]);
        assert(name[i] == token[x + i]);
        assert(token.contains(token[x + i]));
    }
    assert forall|i: int| 0 <= i < tag.len() implies #[trigger] tag[i] != '@' && tag[i] != ':'
        && tag[i] != '/' by {
        assert(tag[i] == tail.subrange(y, y + tag.len())[i]);
        assert(tag[i] == tail[y + i]);
        assert(tail.contains(tail[y + i]));
        assert(tag[i] == token[p + 1 + y + i]);
        assert(token.contains(token[p + 1 + y + i]));
        assert(chars::is_not(':')(token[p + 1 + y + i]));
    }
}

/// Where an image is looked up. One name alone is an official image; `user/name` is
/// looked up as it is; Docker Hub's own hosts are left out of the path; any other
/// host, which has a dot, a colon or is `localhost`, is not looked up.
pub proof fn law_hub_repo(name: Seq<char>, host: Seq<char>)
    requires
        !host.contains('/'),
    ensures
        !name.contains('/') && !name.contains('.') && !name.contains(':') && name != "localhost"@
            ==> hub_repo(name) == Some("library/"@ + name),
        !host.contains('.') && !host.contains(':') && host != "localhost"@ ==> hub_repo(
            host + seq!['/'] + name,
        ) == Some(host + seq!['/'] + name),
        host == "docker.io"@ || host == "index.docker.io"@ || host == "registry-1.docker.io"@
            ==> hub_repo(host + seq!['/'] + name) == Some(
            if name.contains('/') {
                name
            } else {
                "library/"@ + name
            },
        ),
        (host.contains('.') || host.contains(':') || host == "localhost"@) && host
            != "docker.io"@ && host != "index.docker.io"@ && host != "registry-1.docker.io"@
            ==> hub_repo(host + seq!['/'] + name) is None,
{
    let whole = host + seq!['/'] + name;
    chars::lemma_first(host, '/', name);
    assert(whole[host.len() as int] == '/');
    assert(whole.contains('/'));
    if !name.contains('/') {
        chars::lemma_before_all(name, '/');
    }
    reveal_strlit("docker.io");
    reveal_strlit("index.docker.io");
    reveal_strlit("registry-1.docker.io");
    assert("docker.io"@[6] == '.');
    assert("index.docker.io"@[5] == '.');
    assert("registry-1.docker.io"@[10] == '.');
}

/// The files of a directory that are read: those named `Dockerfile`, those whose name
/// starts with `Dockerfile.`, and the four names of a compose file.
pub proof fn law_manifests(files: Seq<Seq<char>>, name: Seq<char>)
    ensures
        manifests_of(files).contains(name) <==> files.contains(name) && {
            ||| name == "Dockerfile"@
            ||| exists|rest: Seq<char>| name == #[trigger] ("Dockerfile."@ + rest)
            ||| name == "docker-compose.yml"@
            ||| name == "docker-compose.yaml"@
            ||| name == "compose.yml"@
            ||| name == "compose.yaml"@
        },
        chars::sorted(manifests_of(files)),
        manifest_type(name) == DepType::Build <==> (name == "Dockerfile"@ || exists|
            rest: Seq<char>,
        | name == #[trigger] ("Dockerfile."@ + rest)),
        manifest_type(name) == DepType::Build || manifest_type(name) == DepType::Normal,
{
    let kept = files.filter(is_manifest());
    lemma_filtered(files, is_manifest());
    chars::lemma_sort(kept);
    let dot = "Dockerfile."@;
    if chars::starts_with(name, dot) {
        assert(name =~= dot + name.skip(dot.len() as int));
    }
    if exists|rest: Seq<char>| name == #[trigger] (dot + rest) {
        let rest = choose|rest: Seq<char>| name == #[trigger] (dot + rest);
        assert(name.take(dot.len() as int) =~= dot);
    }
    assert(kept.contains(name) <==> files.contains(name) && is_manifest()(name));
    assert(manifests_of(files).to_multiset() =~= kept.to_multiset());
    kept.to_multiset_ensures();
    manifests_of(files).to_multiset_ensures();
    assert(kept.contains(name) <==> kept.to_multiset().count(name) > 0);
    assert(manifests_of(files).contains(name) <==> manifests_of(files).to_multiset().count(name) > 0);
}

/// After a lookup an image has the tag that was found and is up to date where it is
/// the one that it has. One whose tag is no version stays as it is, and one for which
/// nothing was found has failed.
pub proof fn law_lookup(dep: Dep, tag: Option<Seq<char>>)
    ensures
        version_tag(dep.current) is None ==> resolved(dep, tag) == (Dep {
            latest: Some(dep.current),
            satisfied: true,
            ..dep
        }),
        version_tag(dep.current) is Some && tag is Some ==> resolved(dep, tag) == (Dep {
            latest: tag,
            satisfied: tag->0 == dep.current,
            ..dep
        }),
        version_tag(dep.current) is Some && tag is None ==> resolved(dep, tag) == (Dep {
            check_failed: true,
            ..dep
        }),
        settled(dep) is None <==> version_tag(dep.current) is Some,
{
}

/// A line is changed by the first update of its image, tag and group.
pub proof fn law_first_update_counts(updates: Seq<Dep>, o: Occurrence, dep_type: DepType)
    ensures
        match update_for(updates, o, dep_type) {
            Some(dep) => exists|k: int| #[trigger]
                is_first_for(updates, o, dep_type, k) && dep == updates[k],
            None => forall|j: int|
                0 <= j < updates.len() ==> (#[trigger] updates[j]).name != o.name || updates[j].current
                    != o.tag || updates[j].dep_type != dep_type,
        },
    decreases updates.len(),
{
    if updates.len() > 0 {
        if concerns(updates[0], o, dep_type) {
            assert(is_first_for(updates, o, dep_type, 0));
        } else {
            let rest = updates.skip(1);
            law_first_update_counts(rest, o, dep_type);
            match update_for(rest, o, dep_type) {
                Some(dep) => {
                    let k = choose|k: int| #[trigger]
                        is_first_for(rest, o, dep_type, k) && dep == rest[k];
                    assert forall|j: int| 0 <= j < k + 1 implies (#[trigger] updates[j]).name
                        != o.name || updates[j].current != o.tag || updates[j].dep_type
                        != dep_type by {
                        if j > 0 {
                            assert(updates[j] == rest[j - 1]);
                        }
                    }
                    assert(rest[k] == updates[k + 1]);
                    assert(is_first_for(updates, o, dep_type, k + 1));
                },
                None => {
                    assert forall|j: int| 0 <= j < updates.len() implies (
                    #[trigger] updates[j]).name != o.name || updates[j].current != o.tag
                        || updates[j].dep_type != dep_type by {
                        if j > 0 {
                            assert(updates[j] == rest[j - 1]);
                        }
                    }
                },
            }
        }
    }
}

/// The update at `k` is the first of the image, the tag and the group.
pub open spec fn is_first_for(updates: Seq<Dep>, o: Occurrence, dep_type: DepType, k: int) -> bool {
    &&& 0 <= k < updates.len()
    &&& updates[k].name == o.name
    &&& updates[k].current == o.tag
    &&& updates[k].dep_type == dep_type
    &&& forall|j: int|
        0 <= j < k ==> (#[trigger] updates[j]).name != o.name || updates[j].current != o.tag
            || updates[j].dep_type != dep_type
}

/// What is listed is what the lines hold, each once for each line and in their order.
pub proof fn law_listed_images(lines: Seq<Seq<char>>, dep_type: DepType)
    ensures
        forall|d: Dep| #[trigger] listed(lines, dep_type).contains(d) <==> {
            &&& exists|i: int|
                0 <= i < lines.len() && (#[trigger] occurrence(lines[i], dep_type)) is Some
                    && occurrence(lines[i], dep_type)->0.name == d.name && occurrence(
                    lines[i],
                    dep_type,
                )->0.tag == d.current
            &&& d.dep_type == dep_type
            &&& d.latest is None
            &&& !d.satisfied
            &&& !d.check_failed
            &&& d.peers.len() == 0
            &&& d.held_back.len() == 0
        },
    decreases lines.len(),
{
    let all = listed(lines, dep_type);
    if lines.len() > 0 {
        let front = lines.drop_last();
        let before = listed(front, dep_type);
        law_listed_images(front, dep_type);
        assert forall|d: Dep| #[trigger] all.contains(d) <==> {
            &&& exists|i: int|
                0 <= i < lines.len() && (#[trigger] occurrence(lines[i], dep_type)) is Some
                    && occurrence(lines[i], dep_type)->0.name == d.name && occurrence(
                    lines[i],
                    dep_type,
                )->0.tag == d.current
            &&& d.dep_type == dep_type
            &&& d.latest is None
            &&& !d.satisfied
            &&& !d.check_failed
            &&& d.peers.len() == 0
            &&& d.held_back.len() == 0
        } by {
            let last = occurrence(lines.last(), dep_type);
            if d.peers.len() == 0 && d.held_back.len() == 0 {
                assert(d.peers =~= seq![]);
                assert(d.held_back =~= seq![]);
            }
            if let Some(o) = last {
                let fresh = Dep::fresh(o.name, o.tag, dep_type);
                assert(all == before.push(fresh));
                assert(all[before.len() as int] == fresh);
                assert(all.contains(fresh));
                assert(before.contains(d) ==> all.contains(d)) by {
                    if before.contains(d) {
                        let i = choose|i: int| 0 <= i < before.len() && before[i] == d;
                        assert(all[i] == d);
                    }
                }
                if all.contains(d) && !before.contains(d) {
                    let i = choose|i: int| 0 <= i < all.len() && all[i] == d;
                    if i < before.len() {
                        assert(before[i] == d);
                    }
                    assert(d == fresh);
                    assert(occurrence(lines[lines.len() - 1], dep_type) is Some);
                }
            }
            if before.contains(d) {
                let i = choose|i: int|
                    0 <= i < front.len() && (#[trigger] occurrence(front[i], dep_type)) is Some
                        && occurrence(front[i], dep_type)->0.name == d.name && occurrence(
                        front[i],
                        dep_type,
                    )->0.tag == d.current;
                assert(front[i] == lines[i]);
                assert(occurrence(lines[i], dep_type) is Some);
            }
            if exists|i: int|
                0 <= i < lines.len() && (#[trigger] occurrence(lines[i], dep_type)) is Some
                    && occurrence(lines[i], dep_type)->0.name == d.name && occurrence(
                    lines[i],
                    dep_type,
                )->0.tag == d.current {
                let i = choose|i: int|
                    0 <= i < lines.len() && (#[trigger] occurrence(lines[i], dep_type)) is Some
                        && occurrence(lines[i], dep_type)->0.name == d.name && occurrence(
                        lines[i],
                        dep_type,
                    )->0.tag == d.current;
                if i < front.len() {
                    assert(front[i] == lines[i]);
                    assert(occurrence(front[i], dep_type) is Some);
                } else {
                    assert(lines[i] == lines.last());
                    if d.dep_type == dep_type && d.latest is None && !d.satisfied
                        && !d.check_failed && d.peers.len() == 0 && d.held_back.len() == 0 {
                        assert(d =~= Dep::fresh(d.name, d.current, dep_type));
                    }
                }
            }
        }
    }
}

/// The token that is placed stands where its place says.
proof fn lemma_placed(line: Seq<char>, token: Seq<char>)
    ensures
        placed(line, token) matches Some(o) ==> {
            &&& 0 <= o.start <= o.end <= line.len()
            &&& line.subrange(o.start, o.end) == token
            &&& image(token) == Some((o.name, o.tag))
        },
{
    let body = chars::trim_start(line);
    chars::lemma_leading(line, chars::space());
    chars::lemma_find(body, token);
    if let Some(o) = placed(line, token) {
        let at = chars::find(body, token)->0 as int;
        let off = line.len() - body.len();
        assert(chars::occurs(body, token, at));
        assert(line.subrange(o.start, o.end) =~= body.subrange(at, at + token.len()));
    }
}

/// An update writes over the reference of its image, tag and group, and over nothing
/// else of the line. A line without such a reference stays.
pub proof fn law_only_the_reference_changes(line: Seq<char>, dep: Dep, dep_type: DepType)
    ensures
        rewritten(line, dep, dep_type) == line || exists|
            front: Seq<char>,
            token: Seq<char>,
            back: Seq<char>,
        |
            {
                &&& line == #[trigger] (front + token + back)
                &&& image(token) == Some((dep.name, dep.current))
                &&& dep.latest is Some
                &&& rewritten(line, dep, dep_type) == front + (dep.name + seq![':'] + dep.latest->0)
                    + back
            },
        dep.latest is Some && occurrence(line, dep_type) is Some && occurrence(
            line,
            dep_type,
        )->0.name == dep.name && occurrence(line, dep_type)->0.tag == dep.current ==> exists|
            front: Seq<char>,
            token: Seq<char>,
            back: Seq<char>,
        |
            {
                &&& line == #[trigger] (front + token + back)
                &&& image(token) == Some((dep.name, dep.current))
                &&& rewritten(line, dep, dep_type) == front + (dep.name + seq![':'] + dep.latest->0)
                    + back
            },
{
    if let (Some(o), Some(latest)) = (occurrence(line, dep_type), dep.latest) {
        if o.name == dep.name && o.tag == dep.current {
            match dep_type {
                DepType::Build => {
                    let body = chars::trim_start(line);
                    lemma_placed(line, first_operand(chars::words(body).skip(1))->0);
                },
                _ => {
                    let rest = chars::strip_prefix(chars::trim_start(line), "image:"@)->0;
                    lemma_placed(line, compose_token(chars::trim_start(rest))->0);
                },
            }
            let front = line.take(o.start);
            let token = line.subrange(o.start, o.end);
            let back = line.skip(o.end);
            assert(line =~= front + token + back);
            reveal_strlit(":");
            assert(":"@ =~= seq![':']);
            assert(rewritten(line, dep, dep_type) =~= front + (dep.name + seq![':'] + latest) + back);
        }
    }
}

proof fn lemma_first_operand(words: Seq<Seq<char>>, k: int)
    requires
        0 <= k < words.len(),
        forall|i: int| 0 <= i < k ==> chars::starts_with(#[trigger] words[i], "--"@),
        !chars::starts_with(words[k], "--"@),
    ensures
        first_operand(words) == Some(words[k]),
    decreases k,
{
    if k > 0 {
        let rest = words.skip(1);
        assert(chars::starts_with(words[0], "--"@));
        assert forall|i: int| 0 <= i < k - 1 implies chars::starts_with(
            #[trigger] rest[i],
            "--"@,
        ) by {
            assert(rest[i] == words[i + 1]);
        }
        assert(rest[k - 1] == words[k]);
        lemma_first_operand(rest, k - 1);
    }
}

/// A line of a Dockerfile whose first word is `FROM`, in letters of either case,
/// holds the image that its first word behind that and behind the flags names.
pub proof fn law_from_line(line: Seq<char>, k: int)
    requires
        1 <= k < chars::words(line).len(),
        chars::lower(chars::words(line)[0]) == "from"@,
        forall|i: int|
            1 <= i < k ==> chars::starts_with(#[trigger] chars::words(line)[i], "--"@),
        !chars::starts_with(chars::words(line)[k], "--"@),
    ensures
        match from_line(line) {
            Some(o) => image(chars::words(line)[k]) == Some((o.name, o.tag)) && 0 <= o.start
                <= o.end <= line.len() && line.subrange(o.start, o.end) == chars::words(line)[k],
            None => image(chars::words(line)[k]) is None,
        },
{
    let body = chars::trim_start(line);
    let words = chars::words(line);
    chars::lemma_trim_start_twice(line);
    reveal_strlit("from");
    reveal_strlit("FROM");
    assert(chars::lower("FROM"@) =~= "from"@);
    assert(words[0] == chars::take_while(body, chars::not_space()));
    chars::lemma_leading(body, chars::not_space());
    chars::lemma_word(line, 0);
    assert(words[0][0] == body[0]);
    assert(chars::lower(words[0])[0] == chars::lower_char(body[0]));
    assert("from"@[0] == 'f');
    assert(body[0] != '#');
    let rest = words.skip(1);
    assert forall|i: int| 0 <= i < k - 1 implies chars::starts_with(#[trigger] rest[i], "--"@) by {
        assert(rest[i] == words[i + 1]);
    }
    assert(rest[k - 1] == words[k]);
    lemma_first_operand(rest, k - 1);
    chars::lemma_word(body, k);
    chars::lemma_find(body, words[k]);
    lemma_placed(line, words[k]);
}

/// A line of a Dockerfile that does not start with `FROM`, in letters of either case,
/// holds no image.
pub proof fn law_no_from_line(line: Seq<char>)
    ensures
        from_line(line) is Some ==> chars::words(line).len() > 1 && chars::lower(
            chars::words(line)[0],
        ) == "from"@,
{
    chars::lemma_trim_start_twice(line);
    reveal_strlit("from");
    reveal_strlit("FROM");
    assert(chars::lower("FROM"@) =~= "from"@);
}

/// A line of a compose file with the key `image:` holds the image that follows, up to
/// white space or the quote that ends it.
pub proof fn law_image_line(
    indent: Seq<char>,
    gap: Seq<char>,
    token: Seq<char>,
    quote: char,
    back: Seq<char>,
)
    requires
        forall|i: int| 0 <= i < indent.len() ==> chars::is_space(#[trigger] indent[i]),
        forall|i: int| 0 <= i < gap.len() ==> chars::is_space(#[trigger] gap[i]),
        token.len() > 0,
        forall|i: int|
            0 <= i < token.len() ==> !chars::is_space(#[trigger] token[i]) && token[i] != '#'
                && token[i] != '"' && token[i] != '\'',
        quote == '"' || quote == '\'',
    ensures
        back.len() == 0 || chars::is_space(back[0]) ==> match image_line(
            indent + "image:"@ + gap + token + back,
        ) {
            Some(o) => image(token) == Some((o.name, o.tag)),
            None => image(token) is None,
        },
        match image_line(indent + "image:"@ + gap + (seq![quote] + token + seq![quote]) + back) {
            Some(o) => image(token) == Some((o.name, o.tag)),
            None => image(token) is None,
        },
{
    reveal_strlit("image:");
    let key = "image:"@;
    assert(token[0] != '#');
    assert(token.last() == token[token.len() - 1]);
    chars::lemma_trim_is(token);
    chars::lemma_before_all(token, '#');
    if back.len() == 0 || chars::is_space(back[0]) {
        let value = token + back;
        let line = indent + key + gap + token + back;
        lemma_behind_key(indent, gap, value);
        assert(line =~= indent + key + gap + value);
        assert(value[0] == token[0]);
        chars::lemma_words_add(token, back);
        chars::lemma_words_one(token);
        assert(chars::words(value)[0] == token);
        assert(compose_token(value) == Some(token));
        lemma_finds(indent, gap, Seq::empty(), token, back);
        assert(line =~= indent + (key + gap + Seq::empty() + token + back));
    }
    let q = seq![quote];
    let value = q + token + q + back;
    let line = indent + key + gap + (q + token + q) + back;
    lemma_behind_key(indent, gap, value);
    assert(line =~= indent + key + gap + value);
    assert(value[0] == quote);
    assert(value.skip(1) =~= token + q + back);
    assert(!token.contains(quote));
    chars::lemma_first(token, quote, back);
    assert(compose_token(value) == Some(token));
    lemma_finds(indent, gap, q, token, q + back);
    assert(line =~= indent + (key + gap + q + token + (q + back)));
}

proof fn lemma_behind_key(indent: Seq<char>, gap: Seq<char>, value: Seq<char>)
    requires
        forall|i: int| 0 <= i < indent.len() ==> chars::is_space(#[trigger] indent[i]),
        forall|i: int| 0 <= i < gap.len() ==> chars::is_space(#[trigger] gap[i]),
        value.len() > 0,
        !chars::is_space(value[0]),
    ensures
        chars::trim_start(indent + "image:"@ + gap + value) == "image:"@ + gap + value,
        chars::strip_prefix("image:"@ + gap + value, "image:"@) == Some(gap + value),
        chars::trim_start(gap + value) == value,
{
    reveal_strlit("image:");
    let key = "image:"@;
    let line = indent + key + gap + value;
    assert(line[indent.len() as int] == key[0]);
    assert forall|i: int| 0 <= i < indent.len() implies chars::space()(#[trigger] line[i]) by {
        assert(line[i] == indent[i]);
    }
    chars::lemma_leading_is(line, chars::space(), indent.len() as int);
    assert(line.skip(indent.len() as int) =~= key + gap + value);
    assert((key + gap + value).take(key.len() as int) =~= key);
    assert((key + gap + value).skip(key.len() as int) =~= gap + value);
    let s = gap + value;
    assert(s[gap.len() as int] == value[0]);
    assert forall|i: int| 0 <= i < gap.len() implies chars::space()(#[trigger] s[i]) by {
        assert(s[i] == gap[i]);
    }
    chars::lemma_leading_is(s, chars::space(), gap.len() as int);
    assert(s.skip(gap.len() as int) =~= value);
}

proof fn lemma_finds(
    indent: Seq<char>,
    gap: Seq<char>,
    q: Seq<char>,
    token: Seq<char>,
    back: Seq<char>,
)
    requires
        forall|i: int| 0 <= i < indent.len() ==> chars::is_space(#[trigger] indent[i]),
    ensures
        chars::find(
            chars::trim_start(indent + ("image:"@ + gap + q + token + back)),
            token,
        ) is Some,
{
    reveal_strlit("image:");
    let body = "image:"@ + gap + q + token + back;
    let line = indent + body;
    assert(line[indent.len() as int] == body[0]);
    assert forall|i: int| 0 <= i < indent.len() implies chars::space()(#[trigger] line[i]) by {
        assert(line[i] == indent[i]);
    }
    assert(body[0] == 'i');
    chars::lemma_leading_is(line, chars::space(), indent.len() as int);
    assert(line.skip(indent.len() as int) =~= body);
    let at = ("image:"@.len() + gap.len() + q.len()) as int;
    assert(body.subrange(at, at + token.len()) =~= token);
    assert(chars::occurs(body, token, at));
    chars::lemma_find(body, token);
}

/// The next page is read until five were.
pub proof fn law_pages_read(pages: usize, next: Option<Seq<char>>)
    ensures
        pages < 5 ==> page_after(pages, next) == next,
        pages >= 5 ==> page_after(pages, next) is None,
{
}

/// The latest tag is one that was published or the one at hand. Of all published tags
/// with the suffix at hand and a newer version, none is newer than it, and where there
/// is one, it is not the one at hand.
pub proof fn law_latest_tag(current: Seq<char>, tags: Seq<Seq<char>>, latest: Seq<char>, j: int)
    requires
        latest_of(current, tags, latest),
        0 <= j < tags.len(),
    ensures
        latest == current || tags.contains(latest),
        version_tag(current) is Some && version_tag(tags[j]) is Some && (version_tag(
            tags[j],
        )->0).1 == (version_tag(current)->0).1 && version::newer(
            (version_tag(tags[j])->0).0,
            (version_tag(current)->0).0,
        ) && tags[j] != current ==> {
            &&& latest != current
            &&& version_tag(latest) is Some
            &&& !version::newer((version_tag(tags[j])->0).0, (version_tag(latest)->0).0)
        },
{
    if exists|k: int| #[trigger] selected(current, tags, k) && latest == tags[k] {
        let k = choose|k: int| #[trigger] selected(current, tags, k) && latest == tags[k];
        assert(tags.contains(tags[k]));
        assert(upgrades(current, tags[k]));
    } else {
        assert(!upgrades(current, tags[j]));
    }
}

/// The images are listed line by line.
pub proof fn law_listed_line_by_line(a: Seq<Seq<char>>, b: Seq<Seq<char>>, dep_type: DepType)
    ensures
        listed(a + b, dep_type) == listed(a, dep_type) + listed(b, dep_type),
    decreases b.len(),
{
    if b.len() == 0 {
        assert(a + b =~= a);
        assert(listed(a, dep_type) + listed(b, dep_type) =~= listed(a, dep_type));
    } else {
        law_listed_line_by_line(a, b.drop_last(), dep_type);
        assert((a + b).drop_last() =~= a + b.drop_last());
        assert(listed(a + b, dep_type) =~= listed(a, dep_type) + listed(b, dep_type));
    }
}

} // verus!
