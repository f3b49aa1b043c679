//! Operations on strings, each proved to be what `chars` says it is.
use vstd::prelude::*;
use vstd::string::*;
use crate::chars;

verus! {

/// `String::push` appends the character.
pub assume_specification[ String::push ](s: &mut String, c: char)
    ensures
        final(s)@ == old(s)@.push(c),
;

pub fn is_space(c: char) -> (r: bool)
    ensures
        r == chars::is_space(c),
{
    let n: u32 = c as u32;
    (0x09 <= n && n <= 0x0d) || n == 0x20 || n == 0x85 || n == 0xa0 || n == 0x1680 || (0x2000 <= n
        && n <= 0x200a) || n == 0x2028 || n == 0x2029 || n == 0x202f || n == 0x205f || n == 0x3000
}

pub fn is_digit(c: char) -> (r: bool)
    ensures
        r == chars::is_digit(c),
{
    '0' <= c && c <= '9'
}

pub fn is_alnum(c: char) -> (r: bool)
    ensures
        r == chars::is_alnum(c),
{
    is_digit(c) || ('a' <= c && c <= 'z') || ('A' <= c && c <= 'Z')
}

/// The characters of `s`.
pub fn to_vec(s: &str) -> (r: Vec<char>)
    ensures
        r@ == s@,
{
    let mut r: Vec<char> = Vec::new();
    for c in it: s.chars()
        invariant
            r@ == s@.take(it.index() as int),
            it.seq() == s@,
    {
        r.push(c);
    }
    r
}

/// How many characters at the start of `s` satisfy `f`, which decides `p`.
pub fn leading<F: Fn(char) -> bool>(s: &str, f: F, Ghost(p): Ghost<spec_fn(char) -> bool>) -> (n:
    usize)
    requires
        forall|c: char| f.requires((c,)),
        forall|c: char, b: bool| f.ensures((c,), b) ==> b == p(c),
    ensures
        n == chars::leading(s@, p),
        n <= s@.len(),
{
    let len: usize = s.unicode_len();
    let mut n: usize = 0;
    for c in it: s.chars()
        invariant
            forall|c: char| f.requires((c,)),
            forall|c: char, b: bool| f.ensures((c,), b) ==> b == p(c),
            it.seq() == s@,
            len == s@.len(),
            n == it.index(),
            forall|i: int| 0 <= i < n ==> p(#[trigger] s@[i]),
    {
        if !f(c) {
            proof {
                chars::lemma_leading_is(s@, p, n as int);
            }
            return n;
        }
        n = n + 1;
    }
    proof {
        chars::lemma_leading_is(s@, p, n as int);
    }
    n
}

/// How many characters at the end of `s` satisfy `f`, which decides `p`.
pub fn trailing<F: Fn(char) -> bool>(s: &str, f: F, Ghost(p): Ghost<spec_fn(char) -> bool>) -> (n:
    usize)
    requires
        forall|c: char| f.requires((c,)),
        forall|c: char, b: bool| f.ensures((c,), b) ==> b == p(c),
    ensures
        n == chars::trailing(s@, p),
        n <= s@.len(),
{
    let v: Vec<char> = to_vec(s);
    let len: usize = v.len();
    let mut n: usize = 0;
    while n < len
        invariant
            forall|c: char| f.requires((c,)),
            forall|c: char, b: bool| f.ensures((c,), b) ==> b == p(c),
            v@ == s@,
            n <= len,
            len == s@.len(),
            forall|i: int| len - n <= i < len ==> p(#[trigger] s@[i]),
        decreases len - n,
    {
        if !f(v[len - n - 1]) {
            proof {
                chars::lemma_trailing_is(s@, p, n as int);
            }
            return n;
        }
        n = n + 1;
    }
    proof {
        chars::lemma_trailing_is(s@, p, n as int);
    }
    n
}

/// The first `n` characters of `s`.
pub fn take(s: &str, n: usize) -> (r: &str)
    requires
        n <= s@.len(),
    ensures
        r@ == s@.take(n as int),
{
    s.substring_char(0, n)
}

/// All but the first `n` characters of `s`.
pub fn skip(s: &str, n: usize) -> (r: &str)
    requires
        n <= s@.len(),
    ensures
        r@ == s@.skip(n as int),
{
    s.substring_char(n, s.unicode_len())
}

pub fn trim_start(s: &str) -> (r: &str)
    ensures
        r@ == chars::trim_start(s@),
{
    let n: usize = leading(s, is_space, Ghost(chars::space()));
    skip(s, n)
}

pub fn trim_end(s: &str) -> (r: &str)
    ensures
        r@ == chars::trim_end(s@),
{
    let n: usize = trailing(s, is_space, Ghost(chars::space()));
    take(s, s.unicode_len() - n)
}

pub fn trim(s: &str) -> (r: &str)
    ensures
        r@ == chars::trim(s@),
{
    trim_end(trim_start(s))
}

/// How many characters at the start of `s` differ from `k`.
pub fn index_of(s: &str, k: char) -> (n: usize)
    ensures
        n == chars::leading(s@, chars::is_not(k)),
        n <= s@.len(),
        n < s@.len() <==> s@.contains(k),
        n < s@.len() ==> s@[n as int] == k,
{
    let test = |c: char| -> (b: bool)
        ensures
            b == (c != k),
    {
        c != k
    };
    let n: usize = leading(
        s,
        test,
        Ghost(chars::is_not(k)),
    );
    proof {
        chars::lemma_leading(s@, chars::is_not(k));
        if s@.contains(k) && n == s@.len() {
            let i = s@.index_of(k);
            assert(chars::is_not(k)(s@[i]));
        }
    }
    n
}

/// How many characters at the end of `s` differ from `k`.
pub fn index_from_end(s: &str, k: char) -> (n: usize)
    ensures
        n == chars::trailing(s@, chars::is_not(k)),
        n <= s@.len(),
        n < s@.len() <==> s@.contains(k),
{
    let test = |c: char| -> (b: bool)
        ensures
            b == (c != k),
    {
        c != k
    };
    let n: usize = trailing(
        s,
        test,
        Ghost(chars::is_not(k)),
    );
    proof {
        chars::lemma_trailing(s@, chars::is_not(k));
        if n < s@.len() {
            assert(s@[s@.len() - n - 1] == k);
        }
        if s@.contains(k) && n == s@.len() {
            let i = s@.index_of(k);
            assert(chars::is_not(k)(s@[i]));
        }
    }
    n
}

pub fn trim_start_char(s: &str, k: char) -> (r: &str)
    ensures
        r@ == chars::trim_start_char(s@, k),
{
    let test = |c: char| -> (b: bool)
        ensures
            b == (c == k),
    {
        c == k
    };
    let n: usize = leading(
        s,
        test,
        Ghost(chars::is(k)),
    );
    skip(s, n)
}

pub fn trim_end_char(s: &str, k: char) -> (r: &str)
    ensures
        r@ == chars::trim_end_char(s@, k),
{
    let test = |c: char| -> (b: bool)
        ensures
            b == (c == k),
    {
        c == k
    };
    let n: usize = trailing(
        s,
        test,
        Ghost(chars::is(k)),
    );
    take(s, s.unicode_len() - n)
}

pub fn trim_char(s: &str, k: char) -> (r: &str)
    ensures
        r@ == chars::trim_char(s@, k),
{
    trim_end_char(trim_start_char(s, k), k)
}

/// The two strings hold the same text.
pub fn eq(a: &str, b: &str) -> (r: bool)
    ensures
        r == (a@ == b@),
{
    let x: Vec<char> = to_vec(a);
    let y: Vec<char> = to_vec(b);
    if x.len() != y.len() {
        return false;
    }
    for i in 0..x.len()
        invariant
            x@ == a@,
            y@ == b@,
            x@.len() == y@.len(),
            x@.take(i as int) == y@.take(i as int),
    {
        if x[i] != y[i] {
            assert(a@[i as int] != b@[i as int]);
            return false;
        }
        assert(x@.take(i + 1) == x@.take(i as int).push(x@[i as int]));
        assert(y@.take(i + 1) == y@.take(i as int).push(y@[i as int]));
    }
    assert(x@.take(x@.len() as int) == x@);
    assert(y@.take(y@.len() as int) == y@);
    true
}

pub fn starts_with(s: &str, p: &str) -> (r: bool)
    ensures
        r == chars::starts_with(s@, p@),
{
    let n: usize = p.unicode_len();
    if n <= s.unicode_len() {
        eq(take(s, n), p)
    } else {
        false
    }
}

pub fn ends_with(s: &str, p: &str) -> (r: bool)
    ensures
        r == chars::ends_with(s@, p@),
{
    let n: usize = p.unicode_len();
    let len: usize = s.unicode_len();
    if n <= len {
        eq(skip(s, len - n), p)
    } else {
        false
    }
}

/// The first character of `s` is `k`.
pub fn starts_with_char(s: &str, k: char) -> (r: bool)
    ensures
        r == (s@.len() > 0 && s@[0] == k),
{
    s.unicode_len() > 0 && s.get_char(0) == k
}

/// The last character of `s` is `k`.
pub fn ends_with_char(s: &str, k: char) -> (r: bool)
    ensures
        r == (s@.len() > 0 && s@.last() == k),
{
    let n: usize = s.unicode_len();
    n > 0 && s.get_char(n - 1) == k
}

pub fn strip_prefix<'a>(s: &'a str, p: &str) -> (r: Option<&'a str>)
    ensures
        match r {
            Some(t) => chars::strip_prefix(s@, p@) == Some(t@),
            None => chars::strip_prefix(s@, p@) is None,
        },
{
    if starts_with(s, p) {
        Some(skip(s, p.unicode_len()))
    } else {
        None
    }
}

/// `s` without the repetitions of `p` at its end.
pub fn trim_end_text<'a>(s: &'a str, p: &str) -> (r: &'a str)
    ensures
        r@ == chars::trim_end_text(s@, p@),
    decreases s@.len(),
{
    let n: usize = p.unicode_len();
    if n > 0 && ends_with(s, p) {
        trim_end_text(take(s, s.unicode_len() - n), p)
    } else {
        s
    }
}

/// What precedes the first `k`; all where there is none.
pub fn before(s: &str, k: char) -> (r: &str)
    ensures
        r@ == chars::before(s@, k),
{
    take(s, index_of(s, k))
}

/// What follows the first `k`, where there is one.
pub fn after(s: &str, k: char) -> (r: Option<&str>)
    ensures
        match r {
            Some(t) => chars::after(s@, k) == Some(t@),
            None => chars::after(s@, k) is None,
        },
{
    let n: usize = index_of(s, k);
    if n < s.unicode_len() {
        Some(skip(s, n + 1))
    } else {
        None
    }
}

/// What follows the last `k`; all where there is none.
pub fn after_last(s: &str, k: char) -> (r: &str)
    ensures
        r@ == chars::after_last(s@, k),
{
    skip(s, s.unicode_len() - index_from_end(s, k))
}

/// What precedes the last `k`, where there is one.
pub fn before_last(s: &str, k: char) -> (r: Option<&str>)
    ensures
        match r {
            Some(t) => chars::before_last(s@, k) == Some(t@),
            None => chars::before_last(s@, k) is None,
        },
{
    let n: usize = index_from_end(s, k);
    if n < s.unicode_len() {
        Some(take(s, s.unicode_len() - n - 1))
    } else {
        None
    }
}

/// `k` occurs in `s`.
pub fn has_char(s: &str, k: char) -> (r: bool)
    ensures
        r == s@.contains(k),
{
    index_of(s, k) < s.unicode_len()
}

/// Where `p` first occurs in `s`.
pub fn find(s: &str, p: &str) -> (r: Option<usize>)
    ensures
        match r {
            Some(n) => chars::find(s@, p@) == Some(n as nat) && n + p@.len() <= s@.len(),
            None => chars::find(s@, p@) is None,
        },
{
    let len: usize = s.unicode_len();
    let mut n: usize = 0;
    assert(s@.skip(0) == s@);
    while n <= len
        invariant
            n <= len + 1,
            len == s@.len(),
            n <= len ==> match chars::find(s@.skip(n as int), p@) {
                Some(k) => chars::find(s@, p@) == Some(k + n as nat),
                None => chars::find(s@, p@) is None,
            },
            n == len + 1 ==> chars::find(s@, p@) is None,
        decreases len + 1 - n,
    {
        if starts_with(skip(s, n), p) {
            return Some(n);
        }
        if n == len {
            return None;
        }
        assert(s@.skip(n as int).skip(1) == s@.skip(n + 1));
        n = n + 1;
    }
    None
}

/// `p` occurs in `s`.
pub fn has(s: &str, p: &str) -> (r: bool)
    ensures
        r == chars::has(s@, p@),
{
    find(s, p).is_some()
}

/// There is something after a `k` exactly where there is a `k`.
proof fn lemma_after(s: Seq<char>, k: char)
    ensures
        chars::after(s, k) is Some <==> s.contains(k),
        chars::leading(s, chars::is_not(k)) <= s.len(),
{
    chars::lemma_leading(s, chars::is_not(k));
    if s.contains(k) {
        let i = s.index_of(k);
        assert(!chars::is_not(k)(s[i]));
    }
}

/// The pieces of `s` between its `k`s.
pub fn split(s: &str, k: char) -> (r: Vec<&str>)
    ensures
        chars::strs(r@) == chars::split(s@, k),
{
    let mut out: Vec<&str> = Vec::new();
    let mut rest: &str = s;
    assert(chars::strs(out@) + chars::split(rest@, k) =~= chars::split(s@, k));
    while has_char(rest, k)
        invariant
            chars::strs(out@) + chars::split(rest@, k) == chars::split(s@, k),
        decreases rest@.len(),
    {
        proof {
            lemma_after(rest@, k);
        }
        let len: usize = rest.unicode_len();
        let next: &str = skip(rest, index_of(rest, k) + 1);
        assert(next@.len() < len);
        let ghost before_out = out@;
        out.push(before(rest, k));
        assert(chars::strs(out@) =~= chars::strs(before_out).push(chars::before(rest@, k)));
        assert(chars::strs(before_out) + (seq![chars::before(rest@, k)] + chars::split(next@, k))
            =~= chars::strs(out@) + chars::split(next@, k));
        rest = next;
    }
    proof {
        lemma_after(rest@, k);
    }
    let ghost before_out = out@;
    out.push(rest);
    assert(chars::strs(out@) =~= chars::strs(before_out) + seq![rest@]);
    out
}

/// The maximal runs of `s` that hold no white space.
pub fn words(s: &str) -> (r: Vec<&str>)
    ensures
        chars::strs(r@) == chars::words(s@),
{
    let mut out: Vec<&str> = Vec::new();
    let mut rest: &str = trim_start(s);
    proof {
        chars::lemma_trim_start_twice(s@);
        assert(chars::strs(out@) + chars::words(rest@) =~= chars::words(s@));
    }
    while !rest.is_empty()
        invariant
            chars::strs(out@) + chars::words(rest@) == chars::words(s@),
            rest@ == chars::trim_start(rest@),
        decreases rest@.len(),
    {
        let test = |c: char| -> (b: bool)
            ensures
                b == !chars::is_space(c),
        {
            !is_space(c)
        };
        let n: usize = leading(rest, test, Ghost(chars::not_space()));
        let word: &str = take(rest, n);
        let next: &str = skip(rest, n);
        proof {
            lemma_words_step(rest@);
        }
        let ghost before_out = out@;
        out.push(word);
        proof {
            assert(chars::strs(out@) =~= chars::strs(before_out).push(word@));
            lemma_push_front(
                chars::strs(before_out),
                word@,
                chars::words(chars::trim_start(next@)),
            );
        }
        rest = trim_start(next);
    }
    assert(chars::strs(out@) + chars::words(rest@) =~= chars::strs(out@));
    out
}

/// The first word of a text that starts with one, and the others.
proof fn lemma_words_step(s: Seq<char>)
    requires
        s == chars::trim_start(s),
        s.len() > 0,
    ensures
        chars::words(s) == seq![chars::take_while(s, chars::not_space())] + chars::words(
            chars::trim_start(chars::skip_while(s, chars::not_space())),
        ),
        chars::trim_start(chars::skip_while(s, chars::not_space())).len() < s.len(),
        chars::trim_start(chars::trim_start(chars::skip_while(s, chars::not_space())))
            == chars::trim_start(chars::skip_while(s, chars::not_space())),
{
    chars::lemma_leading(s, chars::space());
    chars::lemma_leading(s, chars::not_space());
    assert(!chars::is_space(s[0])) by {
        if chars::is_space(s[0]) {
            assert(chars::leading(s, chars::space()) > 0);
            assert(chars::trim_start(s).len() < s.len());
        }
    }
    assert(chars::leading(s, chars::not_space()) > 0);
    chars::lemma_trim_start_twice(chars::skip_while(s, chars::not_space()));
}

proof fn lemma_push_front<A>(a: Seq<A>, x: A, b: Seq<A>)
    ensures
        a + (seq![x] + b) == a.push(x) + b,
{
    assert(a + (seq![x] + b) =~= a.push(x) + b);
}

/// `s` without one carriage return at its end.
fn strip_return(s: &str) -> (r: &str)
    ensures
        r@ == chars::strip_return(s@),
{
    if ends_with_char(s, '\r') {
        let r: &str = take(s, s.unicode_len() - 1);
        assert(r@ =~= s@.drop_last());
        r
    } else {
        s
    }
}

/// The lines of `s`.
pub fn lines(s: &str) -> (r: Vec<&str>)
    ensures
        chars::strs(r@) == chars::lines(s@),
{
    let mut out: Vec<&str> = Vec::new();
    let mut rest: &str = s;
    assert(chars::strs(out@) + chars::lines(rest@) =~= chars::lines(s@));
    while has_char(rest, '\n')
        invariant
            chars::strs(out@) + chars::lines(rest@) == chars::lines(s@),
        decreases rest@.len(),
    {
        proof {
            lemma_after(rest@, '\n');
        }
        let len: usize = rest.unicode_len();
        let next: &str = skip(rest, index_of(rest, '\n') + 1);
        assert(next@.len() < len);
        let ghost before_out = out@;
        let line: &str = strip_return(before(rest, '\n'));
        out.push(line);
        assert(chars::strs(out@) =~= chars::strs(before_out).push(line@));
        assert(chars::strs(before_out) + (seq![line@] + chars::lines(next@)) =~= chars::strs(out@)
            + chars::lines(next@));
        rest = next;
    }
    proof {
        lemma_after(rest@, '\n');
    }
    if !rest.is_empty() {
        let ghost before_out = out@;
        out.push(rest);
        assert(chars::strs(out@) =~= chars::strs(before_out) + seq![rest@]);
    } else {
        assert(chars::strs(out@) + chars::lines(rest@) =~= chars::strs(out@));
    }
    out
}

/// The strings one after another, with `sep` between each two.
pub fn join(parts: &Vec<String>, sep: &str) -> (r: String)
    ensures
        r@ == chars::join(chars::views(parts@), sep@),
{
    let mut out: String = String::new();
    for i in 0..parts.len()
        invariant
            out@ == chars::join(chars::views(parts@).take(i as int), sep@),
    {
        if i > 0 {
            out.append(sep);
        }
        out.append(parts[i].as_str());
        proof {
            let done = chars::views(parts@).take(i as int);
            assert(chars::views(parts@).take(i + 1) =~= done.push(parts@[i as int]@));
            chars::lemma_join_push(done, parts@[i as int]@, sep@);
            assert(i == 0 ==> out@ =~= parts@[i as int]@);
        }
    }
    assert(chars::views(parts@).take(parts@.len() as int) =~= chars::views(parts@));
    out
}

/// `s` with `with` in place of each `k`.
pub fn replace(s: &str, k: char, with: &str) -> (r: String)
    ensures
        r@ == chars::replace(s@, k, with@),
{
    let mut out: String = String::new();
    for c in it: s.chars()
        invariant
            it.seq() == s@,
            out@ == chars::replace(s@.take(it.index() as int), k, with@),
    {
        let ghost i = it.index() as int;
        if c == k {
            out.append(with);
        } else {
            let ghost sofar = out@;
            out.push(c);
            assert(out@ =~= sofar + seq![c]);
        }
        assert(s@.take(i + 1).drop_last() =~= s@.take(i));
        assert(s@.take(i + 1).last() == c);
    }
    assert(s@.take(s@.len() as int) =~= s@);
    out
}

fn lower_char(c: char) -> (r: char)
    ensures
        r == chars::lower_char(c),
{
    if 'A' <= c && c <= 'Z' {
        ((c as u8) + 32) as char
    } else {
        c
    }
}

/// `s` with its ASCII capitals in lower case.
pub fn lower(s: &str) -> (r: String)
    ensures
        r@ == chars::lower(s@),
{
    let mut out: String = String::new();
    for c in it: s.chars()
        invariant
            it.seq() == s@,
            out@ == chars::lower(s@.take(it.index() as int)),
    {
        let ghost i = it.index() as int;
        out.push(lower_char(c));
        assert(chars::lower(s@.take(i + 1)) =~= chars::lower(s@.take(i)).push(
            chars::lower_char(c),
        ));
    }
    assert(s@.take(s@.len() as int) =~= s@);
    out
}

/// The two strings hold the same text but for the case of ASCII letters.
pub fn eq_ignore_case(a: &str, b: &str) -> (r: bool)
    ensures
        r == (chars::lower(a@) == chars::lower(b@)),
{
    eq(lower(a).as_str(), lower(b).as_str())
}

/// The number that `s` stands for, where it is decimal digits and fits.
pub fn parse_u64(s: &str) -> (r: Option<u64>)
    ensures
        r == (if chars::is_number(s@) && chars::value(s@) <= u64::MAX {
            Some(chars::value(s@) as u64)
        } else {
            None
        }),
{
    let v: Vec<char> = to_vec(s);
    if v.len() == 0 {
        return None;
    }
    let mut n: u64 = 0;
    let mut fits: bool = true;
    for i in 0..v.len()
        invariant
            v@ == s@,
            forall|j: int| 0 <= j < i ==> chars::is_digit(#[trigger] s@[j]),
            fits ==> n == chars::value(s@.take(i as int)),
            !fits ==> chars::value(s@.take(i as int)) > u64::MAX,
    {
        if !is_digit(v[i]) {
            assert(!chars::is_number(s@));
            return None;
        }
        proof {
            assert(s@.take(i + 1).drop_last() =~= s@.take(i as int));
        }
        let d: u64 = (v[i] as u32 - '0' as u32) as u64;
        if fits {
            if n > u64::MAX / 10 || n * 10 > u64::MAX - d {
                fits = false;
            } else {
                n = n * 10 + d;
            }
        }
    }
    assert(s@.take(s@.len() as int) =~= s@);
    assert(chars::is_number(s@));
    if fits {
        Some(n)
    } else {
        None
    }
}

/// The decimal digits of `n`.
pub fn decimal(n: u64) -> (r: String)
    ensures
        r@ == chars::decimal(n as nat),
    decreases n,
{
    let d: char = ((n % 10) as u8 + 48u8) as char;
    if n < 10 {
        let mut out: String = String::new();
        out.push(d);
        assert(out@ =~= seq![d]);
        out
    } else {
        let mut out: String = decimal(n / 10);
        let ghost sofar = out@;
        out.push(d);
        assert(out@ =~= sofar + seq![d]);
        out
    }
}

/// How many bytes `s` takes.
pub fn byte_len(s: &str) -> (n: usize)
    ensures
        n == chars::bytes(s@),
{
    s.as_bytes().len()
}

/// `s`, followed by as many blanks as it needs to have `width` characters.
pub fn pad(s: &str, width: usize) -> (r: String)
    ensures
        r@ == chars::pad(s@, width as nat),
{
    let len: usize = s.unicode_len();
    let mut out: String = s.to_owned();
    if len < width {
        let mut n: usize = 0;
        while n < width - len
            invariant
                len == s@.len(),
                len < width,
                n <= width - len,
                out@ == s@ + chars::blanks(n as nat),
            decreases width - len - n,
        {
            out.push(' ');
            n = n + 1;
            assert(out@ =~= s@ + chars::blanks(n as nat));
        }
    }
    out
}

/// `a` does not come after `b` in the order of the code points.
pub fn le(a: &str, b: &str) -> (r: bool)
    ensures
        r == chars::le(a@, b@),
{
    let x: Vec<char> = to_vec(a);
    let y: Vec<char> = to_vec(b);
    let mut i: usize = 0;
    assert(a@.skip(0) =~= a@ && b@.skip(0) =~= b@);
    while i < x.len() && i < y.len()
        invariant
            x@ == a@,
            y@ == b@,
            i <= x.len(),
            i <= y.len(),
            chars::le(a@, b@) == chars::le(a@.skip(i as int), b@.skip(i as int)),
        decreases x.len() - i,
    {
        if x[i] != y[i] {
            return x[i] < y[i];
        }
        assert(a@.skip(i as int).skip(1) =~= a@.skip(i + 1));
        assert(b@.skip(i as int).skip(1) =~= b@.skip(i + 1));
        i = i + 1;
    }
    i == x.len()
}

/// One of the strings holds the text of `s`.
pub fn contains(items: &Vec<String>, s: &str) -> (r: bool)
    ensures
        r == chars::views(items@).contains(s@),
{
    for i in 0..items.len()
        invariant
            forall|j: int| 0 <= j < i ==> chars::views(items@)[j] != s@,
    {
        if eq(items[i].as_str(), s) {
            assert(chars::views(items@)[i as int] == s@);
            return true;
        }
    }
    false
}

/// The text of the given lines, which ends with a line feed where `content` does.
pub fn relined(content: &str, lines: &Vec<String>) -> (r: String)
    ensures
        r@ == chars::relined(content@, chars::views(lines@)),
{
    proof {
        reveal_strlit("\n");
        assert("\n"@ =~= seq!['\n']);
    }
    let mut out: String = join(lines, "\n");
    if ends_with_char(content, '\n') {
        out.append("\n");
    }
    out
}

/// The strings in order.
pub fn sort(items: Vec<String>) -> (r: Vec<String>)
    ensures
        chars::views(r@) == chars::sort(chars::views(items@)),
{
    let mut out: Vec<String> = Vec::new();
    let ghost all = chars::views(items@);
    proof {
        assert(chars::views(out@) =~= all.take(0));
    }
    for i in 0..items.len()
        invariant
            all == chars::views(items@),
            chars::sorted(chars::views(out@)),
            chars::views(out@).to_multiset() == all.take(i as int).to_multiset(),
    {
        let mut k: usize = 0;
        let ghost sofar = chars::views(out@);
        let ghost new = items@[i as int]@;
        while k < out.len() && le(out[k].as_str(), items[i].as_str())
            invariant
                k <= out.len(),
                i < items.len(),
                sofar == chars::views(out@),
                new == items@[i as int]@,
                forall|j: int| 0 <= j < k ==> chars::le(#[trigger] sofar[j], new),
            decreases out.len() - k,
        {
            k = k + 1;
        }
        proof {
            if k < out.len() {
                chars::lemma_le_total(sofar[k as int], new);
            }
            assert(k < out.len() ==> chars::le(new, sofar[k as int]));
            lemma_insert_sorted(sofar, k as int, new);
            vstd::seq_lib::to_multiset_insert(sofar, k as int, new);
            assert(all.take(i + 1) =~= all.take(i as int).push(new));
            vstd::seq_lib::to_multiset_build(all.take(i as int), new);
        }
        out.insert(k, items[i].clone());
        assert(chars::views(out@) =~= sofar.insert(k as int, new));
    }
    proof {
        assert(all.take(all.len() as int) =~= all);
        chars::lemma_sort_is(chars::views(out@), all);
    }
    out
}

proof fn lemma_insert_sorted(s: Seq<Seq<char>>, k: int, x: Seq<char>)
    requires
        chars::sorted(s),
        0 <= k <= s.len(),
        forall|j: int| 0 <= j < k ==> chars::le(#[trigger] s[j], x),
        k < s.len() ==> chars::le(x, s[k]),
    ensures
        chars::sorted(s.insert(k, x)),
{
    let r = s.insert(k, x);
    assert forall|i: int, j: int| 0 <= i <= j < r.len() implies #[trigger] chars::le(
        r[i],
        r[j],
    ) by {
        if i == j {
            chars::lemma_le_reflexive(r[i]);
        } else if j < k {
            assert(chars::le(s[i], s[j]));
        } else if j == k {
            assert(chars::le(s[i], x));
        } else if i < k {
            assert(chars::le(s[i], s[j - 1]));
        } else if i == k {
            assert(chars::le(s[k], s[j - 1]));
            chars::lemma_le_transitive(x, s[k], s[j - 1]);
        } else {
            assert(chars::le(s[i - 1], s[j - 1]));
        }
    }
}

/// The strings, each text where it first occurs.
pub fn distinct(items: &Vec<String>) -> (r: Vec<String>)
    ensures
        chars::views(r@) == chars::distinct(chars::views(items@)),
{
    let mut out: Vec<String> = Vec::new();
    let ghost all = chars::views(items@);
    assert(chars::views(out@) =~= seq![]);
    for i in 0..items.len()
        invariant
            all == chars::views(items@),
            chars::views(out@) == chars::distinct(all.take(i as int)),
    {
        assert(all.take(i + 1).drop_last() =~= all.take(i as int));
        assert(all.take(i + 1).last() == items@[i as int]@);
        if !contains(&out, items[i].as_str()) {
            let ghost sofar = out@;
            out.push(items[i].clone());
            assert(chars::views(out@) =~= chars::views(sofar).push(items@[i as int]@));
        }
    }
    assert(all.take(all.len() as int) =~= all);
    out
}

/// The texts that satisfy `f`, which decides `p`.
pub(crate) fn keep<F: Fn(&str) -> bool>(
    items: &Vec<String>,
    f: F,
    Ghost(p): Ghost<spec_fn(Seq<char>) -> bool>,
) -> (r: Vec<String>)
    requires
        forall|s: &str| f.requires((s,)),
        forall|s: &str, b: bool| f.ensures((s,), b) ==> b == p(s@),
    ensures
        chars::views(r@) == chars::views(items@).filter(p),
{
    let mut out: Vec<String> = Vec::new();
    let ghost all = chars::views(items@);
    proof {
        reveal(Seq::filter);
        assert(chars::views(out@) =~= all.take(0).filter(p));
    }
    for i in 0..items.len()
        invariant
            forall|s: &str| f.requires((s,)),
            forall|s: &str, b: bool| f.ensures((s,), b) ==> b == p(s@),
            all == chars::views(items@),
            chars::views(out@) == all.take(i as int).filter(p),
    {
        proof {
            reveal(Seq::filter);
            assert(all.take(i + 1).drop_last() =~= all.take(i as int));
            assert(all.take(i + 1).last() == items@[i as int]@);
        }
        if f(items[i].as_str()) {
            let ghost sofar = out@;
            out.push(items[i].clone());
            assert(chars::views(out@) =~= chars::views(sofar).push(items@[i as int]@));
        }
    }
    assert(all.take(all.len() as int) =~= all);
    out
}

/// What follows the last dot of a file name, where something precedes it.
pub fn extension(name: &str) -> (r: Option<&str>)
    ensures
        match r {
            Some(s) => chars::extension(name@) == Some(s@),
            None => chars::extension(name@) is None,
        },
{
    match before_last(name, '.') {
        Some(stem) => {
            if stem.is_empty() {
                None
            } else {
                Some(after_last(name, '.'))
            }
        },
        None => None,
    }
}

} // verus!
