//! The mathematical model of text: what the string operations of this crate
//! mean, over sequences of characters.
use vstd::prelude::*;

verus! {

/// White space, as Unicode's `White_Space` property has it.
pub open spec fn is_space(c: char) -> bool {
    let n = c as u32;
    ||| 0x09 <= n <= 0x0d
    ||| n == 0x20
    ||| n == 0x85
    ||| n == 0xa0
    ||| n == 0x1680
    ||| 0x2000 <= n <= 0x200a
    ||| n == 0x2028
    ||| n == 0x2029
    ||| n == 0x202f
    ||| n == 0x205f
    ||| n == 0x3000
}

/// An ASCII decimal digit.
pub open spec fn is_digit(c: char) -> bool {
    '0' <= c && c <= '9'
}

/// An ASCII letter or digit.
pub open spec fn is_alnum(c: char) -> bool {
    is_digit(c) || ('a' <= c && c <= 'z') || ('A' <= c && c <= 'Z')
}

/// `c` in lower case where it is an ASCII capital, else `c`.
pub open spec fn lower_char(c: char) -> char {
    if 'A' <= c && c <= 'Z' {
        ((c as u32 + 32) as u32) as char
    } else {
        c
    }
}

/// `s` with its ASCII capitals in lower case.
pub open spec fn lower(s: Seq<char>) -> Seq<char> {
    s.map_values(|c: char| lower_char(c))
}

pub open spec fn space() -> spec_fn(char) -> bool {
    |c: char| is_space(c)
}

pub open spec fn not_space() -> spec_fn(char) -> bool {
    |c: char| !is_space(c)
}

pub open spec fn digit() -> spec_fn(char) -> bool {
    |c: char| is_digit(c)
}

pub open spec fn not_digit() -> spec_fn(char) -> bool {
    |c: char| !is_digit(c)
}

pub open spec fn is(k: char) -> spec_fn(char) -> bool {
    |c: char| c == k
}

pub open spec fn is_not(k: char) -> spec_fn(char) -> bool {
    |c: char| c != k
}

/// How many characters at the start of `s` satisfy `p` without a break.
pub open spec fn leading(s: Seq<char>, p: spec_fn(char) -> bool) -> nat
    decreases s.len(),
{
    if s.len() > 0 && p(s[0]) {
        1 + leading(s.skip(1), p)
    } else {
        0
    }
}

/// How many characters at the end of `s` satisfy `p` without a break.
pub open spec fn trailing(s: Seq<char>, p: spec_fn(char) -> bool) -> nat
    decreases s.len(),
{
    if s.len() > 0 && p(s.last()) {
        1 + trailing(s.drop_last(), p)
    } else {
        0
    }
}

/// The longest prefix of `s` whose characters all satisfy `p`.
pub open spec fn take_while(s: Seq<char>, p: spec_fn(char) -> bool) -> Seq<char> {
    s.take(leading(s, p) as int)
}

/// `s` without that prefix.
pub open spec fn skip_while(s: Seq<char>, p: spec_fn(char) -> bool) -> Seq<char> {
    s.skip(leading(s, p) as int)
}

/// `s` without its longest suffix whose characters all satisfy `p`.
pub open spec fn drop_while(s: Seq<char>, p: spec_fn(char) -> bool) -> Seq<char> {
    s.take(s.len() - trailing(s, p))
}

pub open spec fn trim_start(s: Seq<char>) -> Seq<char> {
    skip_while(s, space())
}

pub open spec fn trim_end(s: Seq<char>) -> Seq<char> {
    drop_while(s, space())
}

pub open spec fn trim(s: Seq<char>) -> Seq<char> {
    trim_end(trim_start(s))
}

/// `s` without the `k`s at its end.
pub open spec fn trim_end_char(s: Seq<char>, k: char) -> Seq<char> {
    drop_while(s, is(k))
}

/// `s` without the `k`s at its start.
pub open spec fn trim_start_char(s: Seq<char>, k: char) -> Seq<char> {
    skip_while(s, is(k))
}

/// `s` without the `k`s at either end.
pub open spec fn trim_char(s: Seq<char>, k: char) -> Seq<char> {
    trim_end_char(trim_start_char(s, k), k)
}

pub open spec fn starts_with(s: Seq<char>, p: Seq<char>) -> bool {
    p.len() <= s.len() && s.take(p.len() as int) == p
}

pub open spec fn ends_with(s: Seq<char>, p: Seq<char>) -> bool {
    p.len() <= s.len() && s.skip(s.len() - p.len()) == p
}

/// What follows `p` where `s` starts with it.
pub open spec fn strip_prefix(s: Seq<char>, p: Seq<char>) -> Option<Seq<char>> {
    if starts_with(s, p) {
        Some(s.skip(p.len() as int))
    } else {
        None
    }
}

/// `s` without the repetitions of `p` at its end.
pub open spec fn trim_end_text(s: Seq<char>, p: Seq<char>) -> Seq<char>
    decreases s.len(),
{
    if p.len() > 0 && ends_with(s, p) {
        trim_end_text(s.take(s.len() - p.len()), p)
    } else {
        s
    }
}

/// What precedes the first `k` of `s`; all of `s` where there is none.
pub open spec fn before(s: Seq<char>, k: char) -> Seq<char> {
    take_while(s, is_not(k))
}

/// What follows the first `k` of `s`, where there is one.
pub open spec fn after(s: Seq<char>, k: char) -> Option<Seq<char>> {
    if leading(s, is_not(k)) < s.len() {
        Some(s.skip(leading(s, is_not(k)) as int + 1))
    } else {
        None
    }
}

/// What follows the last `k` of `s`; all of `s` where there is none.
pub open spec fn after_last(s: Seq<char>, k: char) -> Seq<char> {
    s.skip(s.len() - trailing(s, is_not(k)))
}

/// What precedes the last `k` of `s`, where there is one.
pub open spec fn before_last(s: Seq<char>, k: char) -> Option<Seq<char>> {
    if trailing(s, is_not(k)) < s.len() {
        Some(s.take(s.len() - trailing(s, is_not(k)) - 1))
    } else {
        None
    }
}

/// Where `p` first occurs in `s`.
pub open spec fn find(s: Seq<char>, p: Seq<char>) -> Option<nat>
    decreases s.len(),
{
    if starts_with(s, p) {
        Some(0)
    } else if s.len() == 0 {
        None
    } else {
        match find(s.skip(1), p) {
            Some(n) => Some(n + 1),
            None => None,
        }
    }
}

/// `p` occurs in `s`.
pub open spec fn has(s: Seq<char>, p: Seq<char>) -> bool {
    find(s, p) is Some
}

/// The pieces of `s` between its `k`s.
pub open spec fn split(s: Seq<char>, k: char) -> Seq<Seq<char>>
    decreases s.len(),
{
    match after(s, k) {
        Some(rest) => seq![before(s, k)] + split(rest, k),
        None => seq![s],
    }
}

/// The maximal runs of `s` that hold no white space.
pub open spec fn words(s: Seq<char>) -> Seq<Seq<char>>
    decreases s.len(),
{
    let t = trim_start(s);
    if t.len() == 0 {
        seq![]
    } else {
        proof {
            lemma_leading(s, space());
            lemma_leading(t, not_space());
            assert(leading(t, not_space()) > 0);
        }
        seq![take_while(t, not_space())] + words(skip_while(t, not_space()))
    }
}

/// `s` without one carriage return at its end.
pub open spec fn strip_return(s: Seq<char>) -> Seq<char> {
    if s.len() > 0 && s.last() == '\r' {
        s.drop_last()
    } else {
        s
    }
}

/// The lines of `s`: each ends at a line feed, which together with a carriage
/// return just before it is no part of the line. What follows the last line
/// feed is a line unless it is empty.
pub open spec fn lines(s: Seq<char>) -> Seq<Seq<char>>
    decreases s.len(),
{
    if s.len() == 0 {
        seq![]
    } else {
        match after(s, '\n') {
            Some(rest) => seq![strip_return(before(s, '\n'))] + lines(rest),
            None => seq![s],
        }
    }
}

/// The parts one after another, with `sep` between each two.
pub open spec fn join(parts: Seq<Seq<char>>, sep: Seq<char>) -> Seq<char>
    decreases parts.len(),
{
    if parts.len() == 0 {
        seq![]
    } else if parts.len() == 1 {
        parts[0]
    } else {
        join(parts.drop_last(), sep) + sep + parts.last()
    }
}

/// `s` ends with a line feed.
pub open spec fn ends_line(s: Seq<char>) -> bool {
    s.len() > 0 && s.last() == '\n'
}

/// The text of the given lines, which ends with a line feed where `content` does.
pub open spec fn relined(content: Seq<char>, lines: Seq<Seq<char>>) -> Seq<char> {
    let body = join(lines, seq!['\n']);
    if ends_line(content) {
        body + seq!['\n']
    } else {
        body
    }
}

/// `s` with `with` in place of each `k`.
pub open spec fn replace(s: Seq<char>, k: char, with: Seq<char>) -> Seq<char>
    decreases s.len(),
{
    if s.len() == 0 {
        seq![]
    } else {
        replace(s.drop_last(), k, with) + (if s.last() == k {
            with
        } else {
            seq![s.last()]
        })
    }
}

/// All characters of `s` are ASCII digits, and there is one.
pub open spec fn is_number(s: Seq<char>) -> bool {
    s.len() > 0 && forall|i: int| 0 <= i < s.len() ==> is_digit(#[trigger] s[i])
}

/// The number that decimal digits stand for.
pub open spec fn value(s: Seq<char>) -> nat
    decreases s.len(),
{
    if s.len() == 0 {
        0
    } else {
        value(s.drop_last()) * 10 + (s.last() as nat - '0' as nat) as nat
    }
}

/// The decimal digits of `n`.
pub open spec fn decimal(n: nat) -> Seq<char>
    decreases n,
{
    if n < 10 {
        seq![((n + 48) as u32) as char]
    } else {
        decimal(n / 10) + seq![((n % 10 + 48) as u32) as char]
    }
}

/// How many bytes `s` takes in UTF-8.
pub open spec fn bytes(s: Seq<char>) -> nat {
    vstd::utf8::encode_utf8(s).len()
}

/// `n` blanks.
pub open spec fn blanks(n: nat) -> Seq<char> {
    Seq::new(n, |i: int| ' ')
}

/// `s`, followed by as many blanks as it needs to have `width` characters.
pub open spec fn pad(s: Seq<char>, width: nat) -> Seq<char> {
    if s.len() < width {
        s + blanks((width - s.len()) as nat)
    } else {
        s
    }
}

/// `a` does not come after `b` in the order of the code points.
pub open spec fn le(a: Seq<char>, b: Seq<char>) -> bool
    decreases a.len(),
{
    if a.len() == 0 {
        true
    } else if b.len() == 0 {
        false
    } else if a[0] == b[0] {
        le(a.skip(1), b.skip(1))
    } else {
        a[0] < b[0]
    }
}

/// The texts that strings hold.
pub open spec fn views(items: Seq<String>) -> Seq<Seq<char>> {
    items.map_values(|s: String| s@)
}

/// The texts that string slices hold.
pub open spec fn strs(items: Seq<&str>) -> Seq<Seq<char>> {
    items.map_values(|s: &str| s@)
}

/// The text in a string, where there is one.
pub open spec fn opt(s: Option<String>) -> Option<Seq<char>> {
    match s {
        Some(t) => Some(t@),
        None => None,
    }
}

/// The two texts of a pair.
pub open spec fn pair(p: (String, String)) -> (Seq<char>, Seq<char>) {
    (p.0@, p.1@)
}

/// The texts of pairs.
pub open spec fn pairs(items: Seq<(String, String)>) -> Seq<(Seq<char>, Seq<char>)> {
    items.map_values(|p: (String, String)| pair(p))
}

/// What `leading` counts: all before it satisfy `p`, and what stands at it does not.
pub proof fn lemma_leading(s: Seq<char>, p: spec_fn(char) -> bool)
    ensures
        leading(s, p) <= s.len(),
        forall|i: int| 0 <= i < leading(s, p) ==> p(#[trigger] s[i]),
        leading(s, p) < s.len() ==> !p(s[leading(s, p) as int]),
    decreases s.len(),
{
    if s.len() > 0 && p(s[0]) {
        lemma_leading(s.skip(1), p);
        assert forall|i: int| 0 <= i < leading(s, p) implies p(#[trigger] s[i]) by {
            if i > 0 {
                assert(s[i] == s.skip(1)[i - 1]);
            }
        }
    }
}

/// The count is the only number that `lemma_leading` holds of.
pub proof fn lemma_leading_is(s: Seq<char>, p: spec_fn(char) -> bool, n: int)
    requires
        0 <= n <= s.len(),
        forall|i: int| 0 <= i < n ==> p(#[trigger] s[i]),
        n < s.len() ==> !p(s[n]),
    ensures
        leading(s, p) == n,
{
    lemma_leading(s, p);
    let k = leading(s, p) as int;
    if k < n {
        assert(p(s[k]));
    } else if n < k {
        assert(p(s[n]));
    }
}

/// What `trailing` counts.
pub proof fn lemma_trailing(s: Seq<char>, p: spec_fn(char) -> bool)
    ensures
        trailing(s, p) <= s.len(),
        forall|i: int| s.len() - trailing(s, p) <= i < s.len() ==> p(#[trigger] s[i]),
        trailing(s, p) < s.len() ==> !p(s[s.len() - trailing(s, p) - 1]),
    decreases s.len(),
{
    if s.len() > 0 && p(s.last()) {
        lemma_trailing(s.drop_last(), p);
        assert forall|i: int| s.len() - trailing(s, p) <= i < s.len() implies p(
            #[trigger] s[i],
        ) by {
            if i < s.len() - 1 {
                assert(s[i] == s.drop_last()[i]);
            }
        }
    }
}

/// The count is the only number that `lemma_trailing` holds of.
pub proof fn lemma_trailing_is(s: Seq<char>, p: spec_fn(char) -> bool, n: int)
    requires
        0 <= n <= s.len(),
        forall|i: int| s.len() - n <= i < s.len() ==> p(#[trigger] s[i]),
        n < s.len() ==> !p(s[s.len() - n - 1]),
    ensures
        trailing(s, p) == n,
{
    lemma_trailing(s, p);
    let k = trailing(s, p) as int;
    if k < n {
        assert(p(s[s.len() - k - 1]));
    } else if n < k {
        assert(p(s[s.len() - n - 1]));
    }
}

/// The UTF-8 lengths of two texts add up.
pub proof fn lemma_bytes_add(a: Seq<char>, b: Seq<char>)
    ensures
        bytes(a + b) == bytes(a) + bytes(b),
    decreases a.len(),
{
    if a.len() == 0 {
        assert(a + b == b);
    } else {
        assert((a + b).drop_first() == a.drop_first() + b);
        lemma_bytes_add(a.drop_first(), b);
    }
}

/// A text in which no line ends with a carriage return and a line feed is the
/// text of its lines.
pub proof fn lemma_relined_same(s: Seq<char>)
    requires
        forall|i: int| 0 <= i < s.len() - 1 ==> !(#[trigger] s[i] == '\r' && s[i + 1] == '\n'),
    ensures
        relined(s, lines(s)) == s,
{
    lemma_join_lines(s);
    if ends_line(s) {
        assert(s =~= s.drop_last() + seq!['\n']);
    }
}

proof fn lemma_join_lines(s: Seq<char>)
    requires
        forall|i: int| 0 <= i < s.len() - 1 ==> !(#[trigger] s[i] == '\r' && s[i + 1] == '\n'),
    ensures
        join(lines(s), seq!['\n']) == if ends_line(s) {
            s.drop_last()
        } else {
            s
        },
        s.len() > 0 ==> lines(s).len() > 0,
    decreases s.len(),
{
    let nl = seq!['\n'];
    if s.len() > 0 {
        let k = leading(s, is_not('\n')) as int;
        lemma_leading(s, is_not('\n'));
        if k < s.len() {
            let head = before(s, '\n');
            let rest = s.skip(k + 1);
            assert(head == s.take(k));
            assert(strip_return(head) == head) by {
                if head.len() > 0 {
                    assert(s[k - 1] != '\r' || s[k - 1 + 1] != '\n');
                }
            }
            assert forall|i: int| 0 <= i < rest.len() - 1 implies !(#[trigger] rest[i] == '\r'
                && rest[i + 1] == '\n') by {
                assert(rest[i] == s[i + k + 1]);
                assert(rest[i + 1] == s[(i + k + 1) + 1]);
            }
            lemma_join_lines(rest);
            lemma_join_front(head, lines(rest), nl);
            if rest.len() == 0 {
                assert(lines(s) =~= seq![head]);
                assert(s.drop_last() =~= head);
            } else {
                assert(s =~= head + nl + rest);
                assert(rest.last() == s.last());
                if ends_line(s) {
                    assert(s.drop_last() =~= head + nl + rest.drop_last());
                }
            }
        } else {
            assert(forall|i: int| 0 <= i < s.len() ==> is_not('\n')(#[trigger] s[i]));
            assert(is_not('\n')(s[s.len() - 1]));
        }
    }
}

/// A part in front of others comes before them, with the separator.
pub proof fn lemma_join_front(first: Seq<char>, rest: Seq<Seq<char>>, sep: Seq<char>)
    ensures
        rest.len() > 0 ==> join(seq![first] + rest, sep) == first + sep + join(rest, sep),
        rest.len() == 0 ==> join(seq![first] + rest, sep) == first,
    decreases rest.len(),
{
    let all = seq![first] + rest;
    if rest.len() == 0 {
        assert(all =~= seq![first]);
    } else {
        assert(all.drop_last() =~= seq![first] + rest.drop_last());
        assert(all.last() == rest.last());
        lemma_join_front(first, rest.drop_last(), sep);
        if rest.len() == 1 {
            assert(all.drop_last() =~= seq![first]);
            assert(join(rest, sep) == rest[0]);
        } else {
            assert(first + sep + join(rest.drop_last(), sep) + sep + rest.last() =~= first + sep
                + (join(rest.drop_last(), sep) + sep + rest.last()));
        }
    }
}

/// `le` is a total order.
pub proof fn lemma_le_total(a: Seq<char>, b: Seq<char>)
    ensures
        le(a, b) || le(b, a),
    decreases a.len(),
{
    if a.len() > 0 && b.len() > 0 && a[0] == b[0] {
        lemma_le_total(a.skip(1), b.skip(1));
    }
}

pub proof fn lemma_le_antisymmetric(a: Seq<char>, b: Seq<char>)
    requires
        le(a, b),
        le(b, a),
    ensures
        a == b,
    decreases a.len(),
{
    if a.len() > 0 && b.len() > 0 {
        lemma_le_antisymmetric(a.skip(1), b.skip(1));
        assert(a =~= seq![a[0]] + a.skip(1));
        assert(b =~= seq![b[0]] + b.skip(1));
    } else {
        assert(a =~= b);
    }
}

pub proof fn lemma_le_transitive(a: Seq<char>, b: Seq<char>, c: Seq<char>)
    requires
        le(a, b),
        le(b, c),
    ensures
        le(a, c),
    decreases a.len(),
{
    if a.len() > 0 && b.len() > 0 && c.len() > 0 && a[0] == b[0] && b[0] == c[0] {
        lemma_le_transitive(a.skip(1), b.skip(1), c.skip(1));
    }
}

/// A part behind others comes after them, with the separator.
pub proof fn lemma_join_push(parts: Seq<Seq<char>>, last: Seq<char>, sep: Seq<char>)
    ensures
        join(parts.push(last), sep) == if parts.len() == 0 {
            last
        } else {
            join(parts, sep) + sep + last
        },
{
    assert(parts.push(last).drop_last() == parts);
}

/// `p` stands in `s` at `i`.
pub open spec fn occurs(s: Seq<char>, p: Seq<char>, i: int) -> bool {
    0 <= i && i + p.len() <= s.len() && s.subrange(i, i + p.len()) == p
}

/// What `find` finds: the first place at which `p` stands.
pub proof fn lemma_find(s: Seq<char>, p: Seq<char>)
    ensures
        match find(s, p) {
            Some(n) => occurs(s, p, n as int) && forall|j: int|
                0 <= j < n ==> !#[trigger] occurs(s, p, j),
            None => forall|j: int| !#[trigger] occurs(s, p, j),
        },
    decreases s.len(),
{
    assert(s.subrange(0, s.len() as int) =~= s);
    if starts_with(s, p) {
        assert(s.subrange(0, p.len() as int) =~= s.take(p.len() as int));
    } else {
        assert(!occurs(s, p, 0)) by {
            if occurs(s, p, 0) {
                assert(s.subrange(0, p.len() as int) =~= s.take(p.len() as int));
            }
        }
        if s.len() > 0 {
            let t = s.skip(1);
            lemma_find(t, p);
            assert forall|j: int| j >= 1 implies #[trigger] occurs(s, p, j) == occurs(
                t,
                p,
                j - 1,
            ) by {
                if j + p.len() <= s.len() {
                    assert(s.subrange(j, j + p.len()) =~= t.subrange(j - 1, j - 1 + p.len()));
                }
            }
        }
    }
}

/// A text that has no white space at its ends is what trimming it leaves.
pub proof fn lemma_trim_is(s: Seq<char>)
    requires
        s.len() > 0 ==> !is_space(s[0]) && !is_space(s.last()),
    ensures
        trim_start(s) == s,
        trim_end(s) == s,
        trim(s) == s,
{
    assert(leading(s, space()) == 0);
    assert(trailing(s, space()) == 0);
    assert(s.skip(0) =~= s);
    assert(s.take(s.len() as int) =~= s);
}

/// Trimming leaves the stretch from the first to the last character that is no
/// white space.
pub proof fn lemma_trim(s: Seq<char>)
    ensures
        trim(s).len() <= s.len(),
        trim(s).len() > 0 ==> !is_space(trim(s)[0]) && !is_space(trim(s).last()),
        exists|a: int|
            0 <= a && a + trim(s).len() <= s.len() && #[trigger] s.subrange(a, a + trim(s).len())
                == trim(s),
{
    let a = leading(s, space()) as int;
    let t = s.skip(a);
    lemma_leading(s, space());
    lemma_trailing(t, space());
    let r = trim(s);
    assert(s.subrange(a, a + r.len()) =~= r);
    if r.len() > 0 {
        assert(r[0] == s[a]);
        assert(a < s.len());
        assert(r.last() == t[r.len() - 1]);
    }
}

/// Trimming a text that does not start with white space leaves a prefix of it,
/// with its first character.
pub proof fn lemma_trim_front(s: Seq<char>)
    requires
        s.len() > 0,
        !is_space(s[0]),
    ensures
        0 < trim(s).len() <= s.len(),
        trim(s) == s.take(trim(s).len() as int),
{
    assert(leading(s, space()) == 0);
    assert(s.skip(0) =~= s);
    lemma_trailing(s, space());
    if trailing(s, space()) == s.len() {
        assert(space()(s[0]));
    }
}

/// White space around a text that has none at its ends is all that trimming
/// takes.
pub proof fn lemma_trim_around(front: Seq<char>, s: Seq<char>, back: Seq<char>)
    requires
        s.len() > 0,
        !is_space(s[0]),
        !is_space(s.last()),
        forall|i: int| 0 <= i < front.len() ==> is_space(#[trigger] front[i]),
        forall|i: int| 0 <= i < back.len() ==> is_space(#[trigger] back[i]),
    ensures
        trim_start(front + s + back) == s + back,
        trim(front + s + back) == s,
{
    let all = front + s + back;
    assert(all[front.len() as int] == s[0]);
    lemma_leading_is(all, space(), front.len() as int);
    assert(all.skip(front.len() as int) =~= s + back);
    let t = s + back;
    assert(t[s.len() - 1] == s.last());
    assert forall|i: int| t.len() - back.len() <= i < t.len() implies space()(
        #[trigger] t[i],
    ) by {
        assert(t[i] == back[i - s.len()]);
    }
    lemma_trailing_is(t, space(), back.len() as int);
    assert(t.take(s.len() as int) =~= s);
}

/// What precedes and follows the first `k`, where it stands at `n`.
pub proof fn lemma_before(s: Seq<char>, k: char, n: int)
    requires
        0 <= n < s.len(),
        s[n] == k,
        forall|i: int| 0 <= i < n ==> #[trigger] s[i] != k,
    ensures
        leading(s, is_not(k)) == n,
        before(s, k) == s.take(n),
        after(s, k) == Some(s.skip(n + 1)),
{
    lemma_leading_is(s, is_not(k), n);
}

/// Where there is no `k`, all precedes the first one.
pub proof fn lemma_before_all(s: Seq<char>, k: char)
    requires
        forall|i: int| 0 <= i < s.len() ==> #[trigger] s[i] != k,
    ensures
        leading(s, is_not(k)) == s.len(),
        before(s, k) == s,
        after(s, k) is None,
{
    lemma_leading_is(s, is_not(k), s.len() as int);
    assert(s.take(s.len() as int) =~= s);
}

/// No text comes after one that stands behind it.
pub open spec fn sorted(items: Seq<Seq<char>>) -> bool {
    forall|i: int, j: int| 0 <= i <= j < items.len() ==> #[trigger] le(items[i], items[j])
}

/// The order of the code points.
pub open spec fn order() -> spec_fn(Seq<char>, Seq<char>) -> bool {
    |a: Seq<char>, b: Seq<char>| le(a, b)
}

/// The texts in order.
pub open spec fn sort(items: Seq<Seq<char>>) -> Seq<Seq<char>> {
    items.sort_by(order())
}

proof fn lemma_order()
    ensures
        vstd::relations::total_ordering(order()),
{
    assert forall|a: Seq<char>| #[trigger] order()(a, a) by {
        lemma_le_reflexive(a);
    }
    assert forall|a: Seq<char>, b: Seq<char>| #[trigger]
        order()(a, b) && #[trigger] order()(b, a) implies a == b by {
        lemma_le_antisymmetric(a, b);
    }
    assert forall|a: Seq<char>, b: Seq<char>, c: Seq<char>| #[trigger]
        order()(a, b) && #[trigger] order()(b, c) implies order()(a, c) by {
        lemma_le_transitive(a, b, c);
    }
    assert forall|a: Seq<char>, b: Seq<char>| #[trigger] order()(a, b) || #[trigger] order()(
        b,
        a,
    ) by {
        lemma_le_total(a, b);
    }
}

/// Texts in order are what sorting gives.
pub proof fn lemma_sort_is(r: Seq<Seq<char>>, s: Seq<Seq<char>>)
    requires
        sorted(r),
        r.to_multiset() == s.to_multiset(),
    ensures
        r == sort(s),
{
    lemma_order();
    s.lemma_sort_by_ensures(order());
    assert(vstd::relations::sorted_by(r, order())) by {
        assert forall|i: int, j: int| 0 <= i < j < r.len() implies #[trigger] order()(
            r[i],
            r[j],
        ) by {
            assert(le(r[i], r[j]));
        }
    }
    vstd::seq_lib::lemma_sorted_unique(r, sort(s), order());
}

/// Sorting gives the same texts, in order.
pub proof fn lemma_sort(s: Seq<Seq<char>>)
    ensures
        sorted(sort(s)),
        sort(s).to_multiset() == s.to_multiset(),
        sort(s).len() == s.len(),
{
    lemma_order();
    s.lemma_sort_by_ensures(order());
    let r = sort(s);
    assert forall|i: int, j: int| 0 <= i <= j < r.len() implies #[trigger] le(r[i], r[j]) by {
        if i < j {
            assert(order()(r[i], r[j]));
        } else {
            lemma_le_reflexive(r[i]);
        }
    }
    vstd::seq_lib::to_multiset_len(s);
    vstd::seq_lib::to_multiset_len(r);
}

/// The texts that occur in `s`, each where it first occurs.
pub open spec fn distinct(s: Seq<Seq<char>>) -> Seq<Seq<char>>
    decreases s.len(),
{
    if s.len() == 0 {
        seq![]
    } else {
        let before = distinct(s.drop_last());
        if before.contains(s.last()) {
            before
        } else {
            before.push(s.last())
        }
    }
}

/// `le` holds between equal texts.
pub proof fn lemma_le_reflexive(a: Seq<char>)
    ensures
        le(a, a),
    decreases a.len(),
{
    if a.len() > 0 {
        lemma_le_reflexive(a.skip(1));
    }
}

/// `distinct` keeps every text, and none twice.
pub proof fn lemma_distinct(s: Seq<Seq<char>>)
    ensures
        forall|x: Seq<char>| #[trigger] distinct(s).contains(x) == s.contains(x),
        distinct(s).no_duplicates(),
    decreases s.len(),
{
    if s.len() > 0 {
        let init = s.drop_last();
        let before = distinct(init);
        lemma_distinct(init);
        assert(s =~= init.push(s.last()));
        assert forall|x: Seq<char>| #[trigger] distinct(s).contains(x) == s.contains(x) by {
            if init.contains(x) {
                let i = init.index_of(x);
                assert(s[i] == x);
                let j = before.index_of(x);
                assert(before.contains(x));
                assert(distinct(s)[j] == x);
            }
            if x == s.last() {
                assert(s[s.len() - 1] == x);
                if !before.contains(x) {
                    assert(distinct(s)[before.len() as int] == x);
                }
            }
            if distinct(s).contains(x) {
                let j = distinct(s).index_of(x);
                if j < before.len() {
                    assert(before[j] == x);
                    assert(before.contains(x));
                    assert(init.contains(x));
                }
            }
            if s.contains(x) {
                let i = s.index_of(x);
                if i < init.len() {
                    assert(init[i] == x);
                }
            }
        }
    }
}

/// Trimming the start leaves nothing to trim there, and loses no word.
pub proof fn lemma_trim_start_twice(s: Seq<char>)
    ensures
        trim_start(trim_start(s)) == trim_start(s),
        words(trim_start(s)) == words(s),
        trim_start(s).len() <= s.len(),
{
    let t = trim_start(s);
    lemma_leading(s, space());
    if t.len() > 0 {
        assert(t[0] == s[leading(s, space()) as int]);
    }
    assert(leading(t, space()) == 0);
    assert(t.skip(0) =~= t);
}

/// A text without white space is one word.
pub proof fn lemma_words_one(w: Seq<char>)
    requires
        w.len() > 0,
        forall|i: int| 0 <= i < w.len() ==> !is_space(#[trigger] w[i]),
    ensures
        words(w) == seq![w],
{
    lemma_trim_is(w);
    lemma_leading_is(w, not_space(), w.len() as int);
    assert(w.take(w.len() as int) =~= w);
    assert(w.skip(w.len() as int) =~= seq![]);
    assert(words(Seq::<char>::empty()) =~= seq![]);
    assert(words(w) =~= seq![w]);
}

/// Where white space parts two texts, their words are those of both.
pub proof fn lemma_words_add(a: Seq<char>, b: Seq<char>)
    requires
        a.len() == 0 || b.len() == 0 || is_space(a.last()) || is_space(b[0]),
    ensures
        words(a + b) == words(a) + words(b),
    decreases a.len(),
{
    let all = a + b;
    let n = leading(a, space()) as int;
    let t = trim_start(a);
    lemma_leading(a, space());
    assert forall|i: int| 0 <= i < n implies space()(#[trigger] all[i]) by {
        assert(all[i] == a[i]);
        assert(space()(a[i]));
    }
    if t.len() == 0 {
        lemma_leading(b, space());
        let m = leading(b, space()) as int;
        assert forall|i: int| 0 <= i < n + m implies space()(#[trigger] all[i]) by {
            if i >= n {
                assert(all[i] == b[i - n]);
                assert(space()(b[i - n]));
            }
        }
        if m < b.len() {
            assert(all[n + m] == b[m]);
        }
        lemma_leading_is(all, space(), n + m);
        assert(all.skip(n + m) =~= b.skip(m));
        lemma_trim_start_twice(all);
        lemma_trim_start_twice(b);
        assert(words(a) =~= seq![]);
        assert(words(a) + words(b) =~= words(b));
    } else {
        assert(all[n] == a[n]);
        lemma_leading_is(all, space(), n);
        let u = t + b;
        assert(all.skip(n) =~= u);
        let k = leading(t, not_space()) as int;
        lemma_leading(t, not_space());
        assert(t[0] == a[n]);
        assert(k > 0);
        assert forall|i: int| 0 <= i < k implies not_space()(#[trigger] u[i]) by {
            assert(u[i] == t[i]);
            assert(not_space()(t[i]));
        }
        if k < t.len() {
            assert(u[k] == t[k]);
        } else {
            assert(a.last() == t[t.len() - 1]);
            assert(not_space()(t[t.len() - 1]));
            if b.len() > 0 {
                assert(u[k] == b[0]);
            }
        }
        lemma_leading_is(u, not_space(), k);
        let rest = t.skip(k);
        assert(u.take(k) =~= t.take(k));
        assert(u.skip(k) =~= rest + b);
        if rest.len() > 0 {
            assert(rest.last() == a.last());
        }
        lemma_words_add(rest, b);
        assert(words(all) == seq![t.take(k)] + words(rest + b));
        assert(words(a) == seq![t.take(k)] + words(rest));
        assert(seq![t.take(k)] + (words(rest) + words(b)) =~= words(a) + words(b));
    }
}

/// Every word is a stretch of the text, holds no white space and is not empty.
pub proof fn lemma_word(s: Seq<char>, i: int)
    requires
        0 <= i < words(s).len(),
    ensures
        words(s)[i].len() > 0,
        forall|j: int| 0 <= j < words(s)[i].len() ==> !is_space(#[trigger] words(s)[i][j]),
        exists|a: int| occurs(s, words(s)[i], a),
    decreases s.len(),
{
    let n = leading(s, space()) as int;
    let t = trim_start(s);
    lemma_leading(s, space());
    let k = leading(t, not_space()) as int;
    lemma_leading(t, not_space());
    assert(t[0] == s[n]);
    assert(k > 0);
    let w = t.take(k);
    let rest = t.skip(k);
    if i == 0 {
        assert(words(s)[0] == w);
        assert forall|j: int| 0 <= j < w.len() implies !is_space(#[trigger] w[j]) by {
            assert(not_space()(t[j]));
        }
        assert(s.subrange(n, n + k) =~= w);
        assert(occurs(s, w, n));
    } else {
        lemma_word(rest, i - 1);
        let x = words(rest)[i - 1];
        assert(words(s)[i] == x);
        let a = choose|a: int| occurs(rest, x, a);
        assert(s.subrange(n + k + a, n + k + a + x.len()) =~= rest.subrange(a, a + x.len()));
        assert(occurs(s, x, n + k + a));
    }
}

/// What follows the last dot of a file name, where something precedes it.
pub open spec fn extension(name: Seq<char>) -> Option<Seq<char>> {
    match before_last(name, '.') {
        Some(stem) => if stem.len() > 0 {
            Some(after_last(name, '.'))
        } else {
            None
        },
        None => None,
    }
}

/// A stretch of a stretch is a stretch.
pub proof fn lemma_occurs_within(s: Seq<char>, p: Seq<char>, a: int, q: Seq<char>, b: int)
    requires
        occurs(s, p, a),
        occurs(p, q, b),
    ensures
        occurs(s, q, a + b),
{
    assert(s.subrange(a + b, a + b + q.len()) =~= p.subrange(b, b + q.len()));
}

/// The words from a place on where one starts.
pub proof fn lemma_word_start(s: Seq<char>, i: int)
    requires
        0 <= i < s.len(),
        !is_space(s[i]),
        i == 0 || is_space(s[i - 1]),
    ensures
        words(s.take(i)).len() < words(s).len(),
        words(s)[words(s.take(i)).len() as int] == take_while(s.skip(i), not_space()),
{
    let front = s.take(i);
    let back = s.skip(i);
    assert(front + back =~= s);
    if i > 0 {
        assert(front.last() == s[i - 1]);
    }
    lemma_words_add(front, back);
    assert(back[0] == s[i]);
    assert(leading(back, space()) == 0);
    assert(back.skip(0) =~= back);
    assert(words(back)[0] == take_while(back, not_space()));
}

/// Where the word at `k` stands: after the words before it, between white space or
/// the ends of the text.
pub proof fn lemma_word_at(s: Seq<char>, k: int) -> (i: int)
    requires
        0 <= k < words(s).len(),
    ensures
        occurs(s, words(s)[k], i),
        words(s.take(i)) == words(s).take(k),
        i == 0 || is_space(s[i - 1]),
        i + words(s)[k].len() < s.len() ==> is_space(s[i + words(s)[k].len()]),
    decreases s.len(),
{
    let n = leading(s, space()) as int;
    let t = trim_start(s);
    lemma_leading(s, space());
    let m = leading(t, not_space()) as int;
    lemma_leading(t, not_space());
    assert(t[0] == s[n]);
    assert(m > 0);
    let w = t.take(m);
    let rest = t.skip(m);
    let blank = s.take(n);
    assert(leading(blank, space()) == n) by {
        assert forall|j: int| 0 <= j < n implies space()(#[trigger] blank[j]) by {
            assert(space()(s[j]));
        }
        lemma_leading_is(blank, space(), n);
    }
    assert(words(blank) =~= seq![]);
    assert(words(s)[0] == w);
    if k == 0 {
        assert(s.subrange(n, n + m) =~= w);
        assert(words(s).take(0) =~= seq![]);
        if n > 0 {
            assert(space()(s[n - 1]));
        }
        if n + m < s.len() {
            assert(s[n + m] == t[m]);
        }
        n
    } else {
        let j = lemma_word_at(rest, k - 1);
        let x = words(rest)[k - 1];
        assert(words(s)[k] == x);
        let i = n + m + j;
        lemma_word(rest, k - 1);
        assert(rest[0] == t[m]);
        assert(is_space(rest[0]));
        assert(x[0] == rest.subrange(j, j + x.len())[0]);
        assert(rest[j] == x[0]);
        assert(j > 0);
        assert(s.subrange(i, i + x.len()) =~= rest.subrange(j, j + x.len()));
        assert(s[i - 1] == rest[j - 1]);
        if i + x.len() < s.len() {
            assert(s[i + x.len()] == rest[j + x.len()]);
        }
        let front = blank + w;
        assert(s.take(i) =~= front + rest.take(j));
        assert forall|a: int| 0 <= a < w.len() implies !is_space(#[trigger] w[a]) by {
            assert(not_space()(t[a]));
        }
        lemma_words_one(w);
        if n > 0 {
            assert(space()(s[n - 1]));
        }
        lemma_words_add(blank, w);
        assert(words(front) =~= seq![w]);
        assert(rest.take(j)[0] == rest[0]);
        lemma_words_add(front, rest.take(j));
        assert(words(s).take(k) =~= seq![w] + words(rest).take(k - 1));
        i
    }
}

/// No line feed is in the text.
pub open spec fn is_one_line(s: Seq<char>) -> bool {
    forall|i: int| 0 <= i < s.len() ==> #[trigger] s[i] != '\n'
}

/// A carriage return ends the text.
pub open spec fn ends_return(s: Seq<char>) -> bool {
    s.len() > 0 && s.last() == '\r'
}

/// No line of the text ends with a carriage return, but for a last one without a
/// line feed.
pub open spec fn is_relinable(s: Seq<char>) -> bool {
    forall|i: int|
        0 <= i < lines(s).len() && (i < lines(s).len() - 1 || ends_line(s)) ==> !ends_return(
            #[trigger] lines(s)[i],
        )
}

/// Lines hold no line feeds, and what follows the last line feed is not empty.
pub proof fn lemma_lines(s: Seq<char>)
    ensures
        forall|i: int| 0 <= i < lines(s).len() ==> is_one_line(#[trigger] lines(s)[i]),
        s.len() > 0 ==> lines(s).len() > 0,
        s.len() == 0 ==> lines(s).len() == 0,
        s.len() > 0 && !ends_line(s) ==> lines(s).last().len() > 0,
    decreases s.len(),
{
    if s.len() > 0 {
        let k = leading(s, is_not('\n')) as int;
        lemma_leading(s, is_not('\n'));
        if k < s.len() {
            let head = before(s, '\n');
            let rest = s.skip(k + 1);
            lemma_lines(rest);
            assert forall|i: int| 0 <= i < lines(s).len() implies is_one_line(
                #[trigger] lines(s)[i],
            ) by {
                if i == 0 {
                    assert forall|j: int| 0 <= j < strip_return(head).len() implies #[trigger]
                        strip_return(head)[j] != '\n' by {
                        assert(is_not('\n')(s[j]));
                    }
                } else {
                    assert(lines(s)[i] == lines(rest)[i - 1]);
                }
            }
            if rest.len() > 0 {
                assert(rest.last() == s.last());
                assert(lines(s).last() == lines(rest).last());
            } else {
                assert(s[k] == s.last());
            }
        } else {
            assert forall|j: int| 0 <= j < s.len() implies #[trigger] s[j] != '\n' by {
                assert(is_not('\n')(s[j]));
            }
        }
    }
}

/// The lines of a text that is made of lines are these lines.
pub proof fn lemma_joined_lines(items: Seq<Seq<char>>, ended: bool)
    requires
        forall|i: int| 0 <= i < items.len() ==> is_one_line(#[trigger] items[i]),
        forall|i: int|
            0 <= i < items.len() && (i < items.len() - 1 || ended) ==> !ends_return(
                #[trigger] items[i],
            ),
        items.len() == 0 ==> !ended,
        items.len() > 0 && !ended ==> items.last().len() > 0,
    ensures
        lines(
            join(items, seq!['\n']) + (if ended {
                seq!['\n']
            } else {
                seq![]
            }),
        ) == items,
    decreases items.len(),
{
    let nl = seq!['\n'];
    let end = if ended {
        nl
    } else {
        Seq::<char>::empty()
    };
    let s = join(items, nl) + end;
    if items.len() > 0 {
        let first = items[0];
        let others = items.skip(1);
        assert(is_one_line(first));
        assert(items =~= seq![first] + others);
        lemma_join_front(first, others, nl);
        if others.len() > 0 || ended {
            let tail = if others.len() > 0 {
                join(others, nl) + end
            } else {
                Seq::<char>::empty()
            };
            assert(s =~= first + nl + tail);
            assert(s[first.len() as int] == '\n');
            assert forall|i: int| 0 <= i < first.len() implies #[trigger] s[i] != '\n' by {
                assert(s[i] == first[i]);
            }
            lemma_before(s, '\n', first.len() as int);
            assert(s.take(first.len() as int) =~= first);
            assert(s.skip(first.len() as int + 1) =~= tail);
            assert(!ends_return(first));
            assert(strip_return(first) == first);
            if others.len() > 0 {
                assert forall|i: int| 0 <= i < others.len() implies is_one_line(
                    #[trigger] others[i],
                ) by {
                    assert(others[i] == items[i + 1]);
                }
                assert forall|i: int|
                    0 <= i < others.len() && (i < others.len() - 1 || ended) implies !ends_return(
                    #[trigger] others[i],
                ) by {
                    assert(others[i] == items[i + 1]);
                }
                lemma_joined_lines(others, ended);
            } else {
                assert(lines(tail) =~= others);
            }
            assert(lines(s) =~= seq![first] + others);
        } else {
            assert(s =~= first);
            lemma_before_all(s, '\n');
            assert(lines(s) =~= items);
        }
    } else {
        assert(s =~= seq![]);
        assert(lines(s) =~= items);
    }
}

/// What is written line by line is read line by line.
pub proof fn lemma_relined(content: Seq<char>, items: Seq<Seq<char>>)
    requires
        items.len() == lines(content).len(),
        forall|i: int| 0 <= i < items.len() ==> is_one_line(#[trigger] items[i]),
        forall|i: int|
            0 <= i < items.len() && (i < items.len() - 1 || ends_line(content)) ==> !ends_return(
                #[trigger] items[i],
            ),
        items.len() > 0 && !ends_line(content) ==> items.last().len() > 0,
    ensures
        lines(relined(content, items)) == items,
{
    lemma_lines(content);
    lemma_joined_lines(items, ends_line(content));
    let body = join(items, seq!['\n']);
    assert(body + Seq::<char>::empty() =~= body);
}

/// A number in decimals is made of digits and reads back.
pub proof fn lemma_decimal(n: nat)
    ensures
        is_number(decimal(n)),
        value(decimal(n)) == n,
    decreases n,
{
    let last = n % 10;
    assert(last < 10);
    let c = ((last + 48) as u32) as char;
    assert(c as nat == last + 48);
    assert('0' as nat == 48);
    if n < 10 {
        assert(decimal(n) =~= seq![c]);
        assert(decimal(n).drop_last() =~= seq![]);
        assert(value(Seq::<char>::empty()) == 0);
        assert(decimal(n).last() == c);
    } else {
        lemma_decimal(n / 10);
        let front = decimal(n / 10);
        assert(decimal(n) =~= front.push(c));
        assert(decimal(n).drop_last() =~= front);
        assert(decimal(n).last() == c);
        assert(value(decimal(n)) == (n / 10) * 10 + last);
        assert forall|i: int| 0 <= i < decimal(n).len() implies is_digit(
            #[trigger] decimal(n)[i],
        ) by {
            if i < front.len() {
                assert(decimal(n)[i] == front[i]);
            }
        }
    }
}

/// Parts that hold no separator are what the joined text is split into.
pub proof fn lemma_split_joined(parts: Seq<Seq<char>>, k: char)
    requires
        parts.len() > 0,
        forall|i: int| 0 <= i < parts.len() ==> !(#[trigger] parts[i]).contains(k),
    ensures
        split(join(parts, seq![k]), k) == parts,
    decreases parts.len(),
{
    let first = parts[0];
    let others = parts.skip(1);
    let sep = seq![k];
    let s = join(parts, sep);
    assert(!first.contains(k));
    assert(parts =~= seq![first] + others);
    lemma_join_front(first, others, sep);
    if others.len() > 0 {
        let tail = join(others, sep);
        assert(s == first + sep + tail);
        assert(s[first.len() as int] == k);
        assert forall|i: int| 0 <= i < first.len() implies #[trigger] s[i] != k by {
            assert(s[i] == first[i]);
        }
        lemma_before(s, k, first.len() as int);
        assert(s.take(first.len() as int) =~= first);
        assert(s.skip(first.len() as int + 1) =~= tail);
        assert forall|i: int| 0 <= i < others.len() implies !(#[trigger] others[i]).contains(k) by {
            assert(others[i] == parts[i + 1]);
        }
        lemma_split_joined(others, k);
        assert(split(s, k) =~= seq![first] + others);
    } else {
        assert(s == first);
        lemma_before_all(s, k);
        assert(split(s, k) =~= parts);
    }
}

/// What precedes and follows the last `k`.
pub proof fn lemma_last(front: Seq<char>, k: char, back: Seq<char>)
    requires
        !back.contains(k),
    ensures
        before_last(front + seq![k] + back, k) == Some(front),
        after_last(front + seq![k] + back, k) == back,
{
    let s = front + seq![k] + back;
    assert(s[front.len() as int] == k);
    assert forall|i: int| s.len() - back.len() <= i < s.len() implies is_not(k)(
        #[trigger] s[i],
    ) by {
        assert(s[i] == back[i - front.len() - 1]);
    }
    lemma_trailing_is(s, is_not(k), back.len() as int);
    assert(s.take(front.len() as int) =~= front);
    assert(s.skip(front.len() as int + 1) =~= back);
}

/// Where there is no `k`, all follows the last one.
pub proof fn lemma_last_all(s: Seq<char>, k: char)
    requires
        !s.contains(k),
    ensures
        before_last(s, k) is None,
        after_last(s, k) == s,
{
    lemma_trailing_is(s, is_not(k), s.len() as int);
    assert(s.skip(0) =~= s);
}

/// What precedes and follows the first `k`.
pub proof fn lemma_first(front: Seq<char>, k: char, back: Seq<char>)
    requires
        !front.contains(k),
    ensures
        before(front + seq![k] + back, k) == front,
        after(front + seq![k] + back, k) == Some(back),
{
    let s = front + seq![k] + back;
    assert(s[front.len() as int] == k);
    assert forall|i: int| 0 <= i < front.len() implies #[trigger] s[i] != k by {
        assert(s[i] == front[i]);
    }
    lemma_before(s, k, front.len() as int);
    assert(s.take(front.len() as int) =~= front);
    assert(s.skip(front.len() as int + 1) =~= back);
}

/// Texts are in the order of the first characters in which they differ, and a text
/// comes before those that it starts.
pub proof fn law_order(a: Seq<char>, b: Seq<char>, k: int)
    requires
        0 <= k <= a.len(),
        k <= b.len(),
        a.take(k) == b.take(k),
    ensures
        k < a.len() && k < b.len() && a[k] < b[k] ==> le(a, b) && !le(b, a),
        k == a.len() && k < b.len() ==> le(a, b) && !le(b, a),
        k == a.len() && k == b.len() ==> le(a, b) && le(b, a),
    decreases k,
{
    if k > 0 {
        assert(a[0] == a.take(k)[0]);
        assert(b[0] == b.take(k)[0]);
        assert(a.skip(1).take(k - 1) =~= a.take(k).skip(1));
        assert(b.skip(1).take(k - 1) =~= b.take(k).skip(1));
        law_order(a.skip(1), b.skip(1), k - 1);
    }
}

/// What stands in a part of a text stands in the text.
pub proof fn lemma_has_within(a: Seq<char>, b: Seq<char>, c: Seq<char>, p: Seq<char>)
    requires
        has(b, p),
    ensures
        has(a + b + c, p),
{
    let s = a + b + c;
    lemma_find(b, p);
    lemma_find(s, p);
    let i = find(b, p)->0 as int;
    assert(s.subrange(a.len() as int, (a.len() + b.len()) as int) =~= b);
    lemma_occurs_within(s, b, a.len() as int, p, i);
}

/// A text stands in itself.
pub proof fn lemma_has_itself(p: Seq<char>)
    ensures
        has(p, p),
{
    assert(p.take(p.len() as int) =~= p);
}

/// A line ends at a line feed, with a carriage return before it or without, or at the
/// end of the text.
pub proof fn law_lines(line: Seq<char>, rest: Seq<char>)
    requires
        is_one_line(line),
        !ends_return(line),
    ensures
        lines(line + seq!['\n'] + rest) == seq![line] + lines(rest),
        lines(line + seq!['\r', '\n'] + rest) == seq![line] + lines(rest),
        line.len() > 0 ==> lines(line) == seq![line],
{
    let s = line + seq!['\n'] + rest;
    assert(!line.contains('\n'));
    lemma_first(line, '\n', rest);
    let with = line.push('\r');
    let t = line + seq!['\r', '\n'] + rest;
    assert(!with.contains('\n')) by {
        assert forall|i: int| 0 <= i < with.len() implies #[trigger] with[i] != '\n' by {
            if i < line.len() {
                assert(with[i] == line[i]);
            }
        }
    }
    lemma_first(with, '\n', rest);
    assert(t =~= with + seq!['\n'] + rest);
    assert(with.drop_last() =~= line);
    assert(s.len() > 0);
    assert(t.len() > 0);
    lemma_before_all(line, '\n');
}

/// Only the capital letters of the alphabet change, each to the small one.
pub proof fn law_lower(s: Seq<char>, i: int)
    requires
        0 <= i < s.len(),
    ensures
        lower(s).len() == s.len(),
        'A' <= s[i] && s[i] <= 'Z' ==> lower(s)[i] as int == s[i] as int + 32,
        !('A' <= s[i] && s[i] <= 'Z') ==> lower(s)[i] == s[i],
{
    assert(lower(s)[i] == lower_char(s[i]));
}

/// Each character is replaced by itself, those that are looked for by the text.
pub proof fn law_replace(a: Seq<char>, b: Seq<char>, k: char, with: Seq<char>)
    ensures
        replace(a + b, k, with) == replace(a, k, with) + replace(b, k, with),
        replace(seq![k], k, with) == with,
        !a.contains(k) ==> replace(a, k, with) == a,
    decreases a.len() + b.len(),
{
    assert(seq![k].drop_last() =~= seq![]);
    assert(replace(seq![], k, with) =~= seq![]);
    assert(replace(seq![k], k, with) =~= with);
    if b.len() == 0 {
        assert(a + b =~= a);
        assert(replace(a, k, with) + replace(b, k, with) =~= replace(a, k, with));
        if a.len() > 0 && !a.contains(k) {
            let front = a.drop_last();
            assert(!front.contains(k));
            law_replace(front, b, k, with);
            assert(a.contains(a[a.len() - 1]));
            assert(front + seq![a.last()] =~= a);
        }
    } else {
        law_replace(a, b.drop_last(), k, with);
        assert((a + b).drop_last() =~= a + b.drop_last());
        assert(replace(a + b, k, with) =~= replace(a, k, with) + replace(b, k, with));
    }
}

/// A text is padded with blanks at its end, up to the width and not beyond it.
pub proof fn law_pad(s: Seq<char>, width: nat)
    ensures
        pad(s, width).take(s.len() as int) == s,
        pad(s, width).len() == if s.len() < width {
            width
        } else {
            s.len()
        },
        forall|i: int| s.len() <= i < pad(s, width).len() ==> #[trigger] pad(s, width)[i] == ' ',
{
    assert(pad(s, width).take(s.len() as int) =~= s);
}

/// Texts that occur once each stay as they are, and a text that has occurred is not
/// kept again.
pub proof fn law_distinct_in_order(s: Seq<Seq<char>>, x: Seq<char>)
    ensures
        s.no_duplicates() ==> distinct(s) == s,
        s.contains(x) ==> distinct(s.push(x)) == distinct(s),
        !s.contains(x) ==> distinct(s.push(x)) == distinct(s).push(x),
    decreases s.len(),
{
    lemma_distinct(s);
    assert(s.push(x).drop_last() =~= s);
    if s.len() > 0 && s.no_duplicates() {
        let front = s.drop_last();
        assert(front.no_duplicates());
        law_distinct_in_order(front, s.last());
        if front.contains(s.last()) {
            let i = choose|i: int| 0 <= i < front.len() && front[i] == s.last();
            assert(s[i] == s[s.len() - 1]);
        }
        assert(front.push(s.last()) =~= s);
    }
}

} // verus!
