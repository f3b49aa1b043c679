//! Version ranges, as the crates that know each ecosystem's rules read them.
use std::str::FromStr;
use vstd::prelude::*;
use vstd::string::*;
use crate::chars;
use crate::text;

verus! {

/// Whether a Cargo requirement admits a version, where both can be read.
pub uninterp spec fn semver_admits(req: Seq<char>, version: Seq<char>) -> Option<bool>;

/// The major, minor and patch numbers of a semantic version.
pub uninterp spec fn semver_numbers(version: Seq<char>) -> Option<(u64, u64, u64)>;

/// Whether an npm range admits a version, where both can be read.
pub uninterp spec fn npm_admits(range: Seq<char>, version: Seq<char>) -> Option<bool>;

/// The text is a Python version.
pub uninterp spec fn is_python_version(version: Seq<char>) -> bool;

/// Whether Python version specifiers admit a version, where both can be read.
pub uninterp spec fn python_admits(specifiers: Seq<char>, version: Seq<char>) -> Option<bool>;

/// `semver::VersionReq::matches`, where `VersionReq::parse` and `Version::parse`
/// both read their texts. The answer is a function of the two texts.
#[verifier::external_body]
pub(crate) fn semver_matches(req: &str, version: &str) -> (r: Option<bool>)
    ensures
        r == semver_admits(req@, version@),
{
    match (semver::VersionReq::parse(req), semver::Version::parse(version)) {
        (Ok(req), Ok(version)) => Some(req.matches(&version)),
        _ => None,
    }
}

/// `semver::Version::parse`, and the three numbers of the version that it reads,
/// which are a function of the text.
#[verifier::external_body]
pub(crate) fn semver_parse(version: &str) -> (r: Option<(u64, u64, u64)>)
    ensures
        r == semver_numbers(version@),
{
    match semver::Version::parse(version) {
        Ok(version) => Some((version.major, version.minor, version.patch)),
        Err(_) => None,
    }
}

/// `node_semver::Range::satisfies`, where `Range::parse` and `Version::parse` both
/// read their texts. The answer is a function of the two texts. `Range::parse`
/// gives no answer on an equals sign or a tilde before a wildcard, and on a tilde
/// before a version whose only wildcard is its minor number.
#[verifier::external_body]
pub(crate) fn npm_satisfies(range: &str, version: &str) -> (r: Option<bool>)
    requires
        readable(range@),
    ensures
        r == npm_admits(range@, version@),
{
    match (node_semver::Range::parse(range), node_semver::Version::parse(version)) {
        (Ok(range), Ok(version)) => Some(range.satisfies(&version)),
        _ => None,
    }
}

/// `pep440_rs::Version::from_str` reads the text or not, which depends on the
/// text alone.
#[verifier::external_body]
pub(crate) fn python_version(version: &str) -> (r: bool)
    ensures
        r == is_python_version(version@),
{
    pep440_rs::Version::from_str(version).is_ok()
}

/// `pep440_rs::VersionSpecifiers::contains`, where `VersionSpecifiers::from_str`
/// and `Version::from_str` both read their texts. The answer is a function of the
/// two texts.
#[verifier::external_body]
pub(crate) fn python_contains(specifiers: &str, version: &str) -> (r: Option<bool>)
    ensures
        r == python_admits(specifiers@, version@),
{
    match (
        pep440_rs::VersionSpecifiers::from_str(specifiers),
        pep440_rs::Version::from_str(version),
    ) {
        (Ok(specifiers), Ok(version)) => Some(specifiers.contains(&version)),
        _ => None,
    }
}

/// A blank or a tab.
pub open spec fn is_blank(c: char) -> bool {
    c == ' ' || c == '\t'
}

pub open spec fn blank() -> spec_fn(char) -> bool {
    |c: char| is_blank(c)
}

pub open spec fn skip_blanks(s: Seq<char>) -> Seq<char> {
    chars::skip_while(s, blank())
}

/// `s` without one `k` in front.
pub open spec fn skip_one(s: Seq<char>, k: char) -> Seq<char> {
    if s.len() > 0 && s[0] == k {
        s.skip(1)
    } else {
        s
    }
}

/// `s` from its first number on: blanks, a `v` and more blanks may stand before it.
pub open spec fn skip_v(s: Seq<char>) -> Seq<char> {
    skip_blanks(skip_one(skip_blanks(s), 'v'))
}

/// `s` starts with a wildcard.
pub open spec fn is_wild(s: Seq<char>) -> bool {
    s.len() > 0 && (s[0] == 'x' || s[0] == 'X' || s[0] == '*')
}

/// How many digits `s` starts with.
pub open spec fn digits(s: Seq<char>) -> nat {
    chars::leading(s, chars::digit())
}

/// The greatest number that a part of an npm version can be.
pub const MAX_PART: u64 = 900_719_925_474_099;

/// `s` starts with a number that can be a part of an npm version.
pub open spec fn is_part(s: Seq<char>) -> bool {
    digits(s) > 0 && chars::value(s.take(digits(s) as int)) <= MAX_PART
}

/// `s` starts with a version whose only wildcard is its minor number.
pub open spec fn is_gapped(s: Seq<char>) -> bool {
    let rest = s.skip(digits(s) as int);
    &&& is_part(s)
    &&& rest.len() > 2
    &&& rest[0] == '.'
    &&& is_wild(rest.skip(1))
    &&& rest[2] == '.'
    &&& is_part(rest.skip(3))
}

/// `s` starts with a comparator that cannot be read.
pub open spec fn is_trap(s: Seq<char>) -> bool {
    if s.len() == 0 {
        false
    } else if s[0] == '=' {
        is_wild(skip_v(s.skip(1)))
    } else if s[0] == '~' {
        let rest = skip_v(skip_one(skip_blanks(s.skip(1)), '>'));
        is_wild(rest) || is_gapped(rest)
    } else {
        false
    }
}

/// A comparator of `s` cannot be read. Comparators stand behind blanks and behind
/// `||`, and at the start of `s` where `fresh`.
pub open spec fn has_trap(s: Seq<char>, fresh: bool) -> bool
    decreases s.len(),
{
    if s.len() == 0 {
        false
    } else if fresh && is_trap(s) {
        true
    } else if s.len() > 1 && s[0] == '|' && s[1] == '|' {
        has_trap(s.skip(2), true)
    } else {
        has_trap(s.skip(1), is_blank(s[0]))
    }
}

/// All comparators of an npm range can be read.
pub open spec fn readable(range: Seq<char>) -> bool {
    !has_trap(range, true)
}

fn drop_blanks(s: &str) -> (r: &str)
    ensures
        r@ == skip_blanks(s@),
{
    let test = |c: char| -> (b: bool)
        ensures
            b == is_blank(c),
    {
        c == ' ' || c == '\t'
    };
    let n: usize = text::leading(s, test, Ghost(blank()));
    text::skip(s, n)
}

fn drop_one(s: &str, k: char) -> (r: &str)
    ensures
        r@ == skip_one(s@, k),
{
    if text::starts_with_char(s, k) {
        text::skip(s, 1)
    } else {
        s
    }
}

fn drop_v(s: &str) -> (r: &str)
    ensures
        r@ == skip_v(s@),
{
    drop_blanks(drop_one(drop_blanks(s), 'v'))
}

fn wild(s: &str) -> (r: bool)
    ensures
        r == is_wild(s@),
{
    text::starts_with_char(s, 'x') || text::starts_with_char(s, 'X') || text::starts_with_char(
        s,
        '*',
    )
}

fn count_digits(s: &str) -> (n: usize)
    ensures
        n == digits(s@),
        n <= s@.len(),
{
    text::leading(s, text::is_digit, Ghost(chars::digit()))
}

fn part(s: &str) -> (r: bool)
    ensures
        r == is_part(s@),
{
    let n: usize = count_digits(s);
    let number: &str = text::take(s, n);
    proof {
        chars::lemma_leading(s@, chars::digit());
        assert forall|i: int| 0 <= i < n implies chars::is_digit(#[trigger] number@[i]) by {
            assert(chars::digit()(s@[i]));
        }
    }
    match text::parse_u64(number) {
        Some(v) => v <= MAX_PART,
        None => false,
    }
}

fn gapped(s: &str) -> (r: bool)
    ensures
        r == is_gapped(s@),
{
    if !part(s) {
        return false;
    }
    let rest: &str = text::skip(s, count_digits(s));
    rest.unicode_len() > 2 && rest.get_char(0) == '.' && wild(text::skip(rest, 1))
        && rest.get_char(2) == '.' && part(text::skip(rest, 3))
}

fn trap(s: &str) -> (r: bool)
    ensures
        r == is_trap(s@),
{
    if text::starts_with_char(s, '=') {
        wild(drop_v(text::skip(s, 1)))
    } else if text::starts_with_char(s, '~') {
        let rest: &str = drop_v(drop_one(drop_blanks(text::skip(s, 1)), '>'));
        wild(rest) || gapped(rest)
    } else {
        false
    }
}

/// All comparators of an npm range can be read.
pub fn is_readable(range: &str) -> (r: bool)
    ensures
        r == readable(range@),
{
    let len: usize = range.unicode_len();
    let mut i: usize = 0;
    let mut fresh: bool = true;
    assert(range@.skip(0) =~= range@);
    while i < len
        invariant
            i <= len,
            len == range@.len(),
            has_trap(range@, true) == has_trap(range@.skip(i as int), fresh),
        decreases len - i,
    {
        let rest: &str = text::skip(range, i);
        if fresh && trap(rest) {
            return false;
        }
        let c: char = rest.get_char(0);
        if len - i > 1 && c == '|' && rest.get_char(1) == '|' {
            assert(rest@.skip(2) =~= range@.skip(i + 2));
            fresh = true;
            i = i + 2;
        } else {
            assert(rest@.skip(1) =~= range@.skip(i + 1));
            fresh = c == ' ' || c == '\t';
            i = i + 1;
        }
    }
    true
}

/// A range without a wildcard can be read.
pub proof fn law_plain_ranges_are_readable(range: Seq<char>)
    requires
        !range.contains('x') && !range.contains('X') && !range.contains('*'),
    ensures
        readable(range),
{
    lemma_no_trap(range, true);
}

proof fn lemma_no_trap(s: Seq<char>, fresh: bool)
    requires
        !s.contains('x') && !s.contains('X') && !s.contains('*'),
    ensures
        !has_trap(s, fresh),
    decreases s.len(),
{
    if s.len() > 0 {
        lemma_part_of(s, s.skip(1), 1);
        lemma_no_trap(s.skip(1), is_blank(s[0]));
        if s.len() > 1 {
            lemma_part_of(s, s.skip(2), 2);
            lemma_no_trap(s.skip(2), true);
        }
        lemma_is_no_trap(s);
    }
}

/// What is left of a text has no character that the text does not have.
proof fn lemma_part_of(s: Seq<char>, t: Seq<char>, n: int)
    requires
        0 <= n <= s.len(),
        t == s.skip(n),
        !s.contains('x') && !s.contains('X') && !s.contains('*'),
    ensures
        !t.contains('x') && !t.contains('X') && !t.contains('*'),
{
    assert forall|i: int| 0 <= i < t.len() implies #[trigger] t[i] != 'x' && t[i] != 'X' && t[i]
        != '*' by {
        assert(t[i] == s[i + n]);
        assert(s.contains(s[i + n]));
    }
}

proof fn lemma_skipped(s: Seq<char>)
    requires
        !s.contains('x') && !s.contains('X') && !s.contains('*'),
    ensures
        ({
            let t = skip_v(s);
            !t.contains('x') && !t.contains('X') && !t.contains('*')
        }),
        ({
            let t = skip_blanks(s);
            !t.contains('x') && !t.contains('X') && !t.contains('*')
        }),
{
    let a = skip_blanks(s);
    chars::lemma_leading(s, blank());
    lemma_part_of(s, a, chars::leading(s, blank()) as int);
    let b = skip_one(a, 'v');
    if a.len() > 0 && a[0] == 'v' {
        lemma_part_of(a, b, 1);
    }
    chars::lemma_leading(b, blank());
    lemma_part_of(b, skip_blanks(b), chars::leading(b, blank()) as int);
}

proof fn lemma_is_no_trap(s: Seq<char>)
    requires
        s.len() > 0,
        !s.contains('x') && !s.contains('X') && !s.contains('*'),
    ensures
        !is_trap(s),
{
    let rest = s.skip(1);
    lemma_part_of(s, rest, 1);
    lemma_skipped(rest);
    lemma_is_not_wild(skip_v(rest));
    let a = skip_blanks(rest);
    let b = skip_one(a, '>');
    if a.len() > 0 && a[0] == '>' {
        lemma_part_of(a, b, 1);
    }
    lemma_skipped(b);
    let c = skip_v(b);
    lemma_is_not_wild(c);
    chars::lemma_leading(c, chars::digit());
    let d = c.skip(digits(c) as int);
    lemma_part_of(c, d, digits(c) as int);
    if d.len() > 0 {
        lemma_part_of(d, d.skip(1), 1);
        lemma_is_not_wild(d.skip(1));
    }
}

proof fn lemma_is_not_wild(s: Seq<char>)
    requires
        !s.contains('x') && !s.contains('X') && !s.contains('*'),
    ensures
        !is_wild(s),
{
    if s.len() > 0 {
        assert(s.contains(s[0]));
    }
}

/// A range that starts with an equals sign or a tilde before a wildcard cannot be read.
pub proof fn law_wild_ranges_are_not_readable(sign: char, wild: char, rest: Seq<char>)
    requires
        sign == '=' || sign == '~',
        wild == 'x' || wild == 'X' || wild == '*',
    ensures
        !readable(seq![sign, wild] + rest),
{
    let s = seq![sign, wild] + rest;
    let t = s.skip(1);
    assert(t[0] == wild);
    assert(chars::leading(t, blank()) == 0);
    assert(t.skip(0) =~= t);
    assert(skip_v(t) == t);
    assert(skip_one(skip_blanks(t), '>') == t);
}

} // verus!
