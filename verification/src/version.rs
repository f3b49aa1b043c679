//! Version numbers of dotted decimal parts.
use vstd::prelude::*;
use vstd::string::*;
use crate::chars;
use crate::text;

verus! {

/// The numbers that the non-empty pieces stand for, where each is one that fits.
pub open spec fn numbers(pieces: Seq<Seq<char>>) -> Option<Seq<u64>>
    decreases pieces.len(),
{
    if pieces.len() == 0 {
        Some(seq![])
    } else {
        match numbers(pieces.drop_last()) {
            None => None,
            Some(ns) => if pieces.last().len() == 0 {
                Some(ns)
            } else if chars::is_number(pieces.last()) && chars::value(pieces.last()) <= u64::MAX {
                Some(ns.push(chars::value(pieces.last()) as u64))
            } else {
                None
            },
        }
    }
}

/// The parts of a dotted version, where there is at least one and all fit.
pub open spec fn dotted(s: Seq<char>) -> Option<Seq<u64>> {
    match numbers(chars::split(s, '.')) {
        Some(ns) => if ns.len() > 0 {
            Some(ns)
        } else {
            None
        },
        None => None,
    }
}

pub open spec fn digit_or_dot() -> spec_fn(char) -> bool {
    |c: char| chars::is_digit(c) || c == '.'
}

/// What parts of a version were read.
pub open spec fn parts_of(r: Option<Vec<u64>>) -> Option<Seq<u64>> {
    match r {
        Some(v) => Some(v@),
        None => None,
    }
}

/// The parts of a dotted version.
pub fn parse_dotted(s: &str) -> (r: Option<Vec<u64>>)
    ensures
        parts_of(r) == dotted(s@),
{
    let pieces: Vec<&str> = text::split(s, '.');
    let mut out: Vec<u64> = Vec::new();
    let ghost all = chars::strs(pieces@);
    for i in 0..pieces.len()
        invariant
            all == chars::strs(pieces@),
            all == chars::split(s@, '.'),
            numbers(all.take(i as int)) == Some(out@),
    {
        proof {
            assert(all.take(i + 1).drop_last() =~= all.take(i as int));
            assert(all.take(i + 1).last() == pieces@[i as int]@);
        }
        if !pieces[i].is_empty() {
            match text::parse_u64(pieces[i]) {
                Some(n) => {
                    out.push(n);
                },
                None => {
                    proof {
                        lemma_numbers_none(all, i + 1);
                    }
                    return None;
                },
            }
        }
    }
    assert(all.take(all.len() as int) =~= all);
    if out.len() > 0 {
        Some(out)
    } else {
        None
    }
}

proof fn lemma_numbers_none(pieces: Seq<Seq<char>>, n: int)
    requires
        0 <= n <= pieces.len(),
        numbers(pieces.take(n)) is None,
    ensures
        numbers(pieces) is None,
    decreases pieces.len() - n,
{
    if n < pieces.len() {
        assert(pieces.take(n + 1).drop_last() =~= pieces.take(n));
        lemma_numbers_none(pieces, n + 1);
    } else {
        assert(pieces.take(n) =~= pieces);
    }
}

/// The part at `i`; a version that ends before has a zero there.
pub open spec fn part(v: Seq<u64>, i: int) -> u64 {
    if 0 <= i < v.len() {
        v[i]
    } else {
        0
    }
}

/// The two versions agree before `k`.
pub open spec fn agree(left: Seq<u64>, right: Seq<u64>, k: int) -> bool {
    forall|i: int| 0 <= i < k ==> #[trigger] part(left, i) == part(right, i)
}

/// `left` has the greater part where the two first differ.
pub open spec fn newer(left: Seq<u64>, right: Seq<u64>) -> bool {
    exists|k: int| 0 <= k && #[trigger] agree(left, right, k) && part(left, k) > part(right, k)
}

/// The two versions have the same parts.
pub open spec fn same(left: Seq<u64>, right: Seq<u64>) -> bool {
    forall|i: int| 0 <= i ==> #[trigger] part(left, i) == part(right, i)
}

/// Of two versions exactly one is newer, or they are the same.
pub proof fn lemma_trichotomy(a: Seq<u64>, b: Seq<u64>)
    ensures
        same(a, b) || newer(a, b) || newer(b, a),
        !(newer(a, b) && newer(b, a)),
        !(same(a, b) && newer(a, b)),
{
    if !same(a, b) {
        let j = choose|j: int| 0 <= j && #[trigger] part(a, j) != part(b, j);
        lemma_first_difference(a, b, j);
    }
    if newer(a, b) && newer(b, a) {
        let k = choose|k: int|
            0 <= k && #[trigger] agree(a, b, k) && part(a, k) > part(b, k);
        let m = choose|m: int|
            0 <= m && #[trigger] agree(b, a, m) && part(b, m) > part(a, m);
        if k < m {
            assert(part(b, k) == part(a, k));
        } else if m < k {
            assert(part(a, m) == part(b, m));
        }
    }
    if same(a, b) && newer(a, b) {
        let k = choose|k: int|
            0 <= k && #[trigger] agree(a, b, k) && part(a, k) > part(b, k);
        assert(part(a, k) == part(b, k));
    }
}

proof fn lemma_first_difference(a: Seq<u64>, b: Seq<u64>, j: int)
    requires
        0 <= j,
        part(a, j) != part(b, j),
    ensures
        newer(a, b) || newer(b, a),
    decreases j,
{
    if agree(a, b, j) {
        assert(agree(b, a, j)) by {
            assert forall|i: int| 0 <= i < j implies #[trigger] part(b, i) == part(a, i) by {
                assert(part(a, i) == part(b, i));
            }
        }
    } else {
        let i = choose|i: int| 0 <= i < j && #[trigger] part(a, i) != part(b, i);
        lemma_first_difference(a, b, i);
    }
}

/// A version that is newer than a newer one is newer.
pub proof fn lemma_newer_transitive(a: Seq<u64>, b: Seq<u64>, c: Seq<u64>)
    requires
        newer(a, b),
        newer(b, c),
    ensures
        newer(a, c),
{
    let k = choose|k: int| 0 <= k && #[trigger] agree(a, b, k) && part(a, k) > part(b, k);
    let m = choose|m: int| 0 <= m && #[trigger] agree(b, c, m) && part(b, m) > part(c, m);
    let n = if k < m { k } else { m };
    assert(agree(a, c, n)) by {
        assert forall|i: int| 0 <= i < n implies #[trigger] part(a, i) == part(c, i) by {
            assert(part(a, i) == part(b, i));
            assert(part(b, i) == part(c, i));
        }
    }
    if k < m {
        assert(part(b, k) == part(c, k));
    } else if m < k {
        assert(part(a, m) == part(b, m));
    }
    assert(part(a, n) > part(c, n));
}

/// A version is newer than all versions of the same parts.
pub proof fn lemma_newer_same(a: Seq<u64>, b: Seq<u64>, c: Seq<u64>)
    requires
        newer(a, b),
        same(c, b),
    ensures
        newer(a, c),
{
    let m = choose|m: int| 0 <= m && #[trigger] agree(a, b, m) && part(a, m) > part(b, m);
    assert(agree(a, c, m)) by {
        assert forall|i: int| 0 <= i < m implies #[trigger] part(a, i) == part(c, i) by {
            assert(part(a, i) == part(b, i));
            assert(part(c, i) == part(b, i));
        }
    }
    assert(part(c, m) == part(b, m));
}

/// Two versions that agree up to a place where one has the greater number: it is the
/// newer one, whatever follows.
pub proof fn law_first_difference_decides(left: Seq<u64>, right: Seq<u64>, k: int)
    requires
        0 <= k < left.len(),
        k < right.len(),
        left.take(k) == right.take(k),
        left[k] > right[k],
    ensures
        newer(left, right),
        !newer(right, left),
        !same(left, right),
{
    assert forall|i: int| 0 <= i < k implies #[trigger] part(left, i) == part(right, i) by {
        assert(left.take(k)[i] == left[i]);
        assert(right.take(k)[i] == right[i]);
    }
    assert(agree(left, right, k));
    assert(part(left, k) > part(right, k));
    lemma_trichotomy(left, right);
}

/// A version with more numbers is newer than the one that it continues where one of
/// them is not zero, and the same where all are.
pub proof fn law_missing_numbers_are_zeros(version: Seq<u64>, more: Seq<u64>)
    ensures
        newer(version + more, version) <==> exists|i: int|
            0 <= i < more.len() && #[trigger] more[i] > 0,
        same(version + more, version) <==> forall|i: int|
            0 <= i < more.len() ==> #[trigger] more[i] == 0,
        !newer(version, version + more),
{
    let long = version + more;
    let n = version.len() as int;
    lemma_trichotomy(long, version);
    if newer(version, long) {
        let k = choose|k: int|
            0 <= k && #[trigger] agree(version, long, k) && part(version, k) > part(long, k);
        assert(part(version, k) > part(long, k));
    }
    if forall|i: int| 0 <= i < more.len() ==> #[trigger] more[i] == 0 {
        assert forall|i: int| 0 <= i implies #[trigger] part(long, i) == part(version, i) by {
            if n <= i < long.len() {
                assert(long[i] == more[i - n]);
            }
        }
        assert(same(long, version));
    } else {
        let i = choose|i: int| 0 <= i < more.len() && #[trigger] more[i] != 0;
        assert(part(long, n + i) == more[i]);
        assert(part(version, n + i) == 0);
        assert(!same(long, version));
    }
}

/// The numbers with dots between them.
pub open spec fn written(parts: Seq<u64>) -> Seq<char> {
    chars::join(parts.map_values(|n: u64| chars::decimal(n as nat)), seq!['.'])
}

proof fn lemma_numbers(parts: Seq<u64>)
    ensures
        numbers(parts.map_values(|n: u64| chars::decimal(n as nat))) == Some(parts),
    decreases parts.len(),
{
    let texts = parts.map_values(|n: u64| chars::decimal(n as nat));
    if parts.len() > 0 {
        let front = parts.drop_last();
        lemma_numbers(front);
        assert(texts.drop_last() =~= front.map_values(|n: u64| chars::decimal(n as nat)));
        assert(texts.last() == chars::decimal(parts.last() as nat));
        chars::lemma_decimal(parts.last() as nat);
        assert(front.push(parts.last()) =~= parts);
    } else {
        assert(parts =~= seq![]);
    }
}

/// A version that is written out reads back: the numbers between the dots, in order.
pub proof fn law_written_numbers_read_back(parts: Seq<u64>)
    requires
        parts.len() > 0,
    ensures
        dotted(written(parts)) == Some(parts),
{
    let texts = parts.map_values(|n: u64| chars::decimal(n as nat));
    lemma_numbers(parts);
    assert forall|i: int| 0 <= i < texts.len() implies !(#[trigger] texts[i]).contains('.') by {
        chars::lemma_decimal(parts[i] as nat);
    }
    chars::lemma_split_joined(texts, '.');
}

/// A version that is written out is made of digits and dots, and starts with a digit.
pub proof fn lemma_written(parts: Seq<u64>)
    requires
        parts.len() > 0,
    ensures
        written(parts).len() > 0,
        chars::is_digit(written(parts)[0]),
        forall|i: int|
            0 <= i < written(parts).len() ==> chars::is_digit(#[trigger] written(parts)[i])
                || written(parts)[i] == '.',
    decreases parts.len(),
{
    let texts = parts.map_values(|n: u64| chars::decimal(n as nat));
    chars::lemma_decimal(parts.last() as nat);
    let last = chars::decimal(parts.last() as nat);
    assert(texts.last() == last);
    if parts.len() > 1 {
        let front = parts.drop_last();
        lemma_written(front);
        assert(texts.drop_last() =~= front.map_values(|n: u64| chars::decimal(n as nat)));
        assert(written(parts) == written(front) + seq!['.'] + last);
        assert forall|i: int| 0 <= i < written(parts).len() implies chars::is_digit(
            #[trigger] written(parts)[i],
        ) || written(parts)[i] == '.' by {
            let a = written(front);
            if i < a.len() {
                assert(written(parts)[i] == a[i]);
            } else if i > a.len() {
                assert(written(parts)[i] == last[i - a.len() - 1]);
            }
        }
        assert(written(parts)[0] == written(front)[0]);
    } else {
        assert(texts[0] == last);
        assert(written(parts) == last);
    }
}

/// No version without a digit, and none with anything but digits and dots.
pub proof fn law_no_version(s: Seq<char>)
    requires
        dotted(s) is Some,
    ensures
        exists|i: int| 0 <= i < s.len() && chars::is_digit(#[trigger] s[i]),
        forall|i: int| 0 <= i < s.len() ==> chars::is_digit(#[trigger] s[i]) || s[i] == '.',
{
    let pieces = chars::split(s, '.');
    lemma_split_holds(s, '.');
    lemma_numbers_hold(pieces);
    let j = choose|j: int| 0 <= j < pieces.len() && (#[trigger] pieces[j]).len() > 0;
    let c = pieces[j][0];
    assert(chars::is_digit(c));
    assert(pieces[j].contains(c));
    assert(in_pieces(pieces, c));
    let at = choose|at: int| 0 <= at < s.len() && s[at] == c;
    assert(chars::is_digit(s[at]));
    assert forall|i: int| 0 <= i < s.len() implies chars::is_digit(#[trigger] s[i]) || s[i]
        == '.' by {
        if s[i] != '.' {
            assert(s.contains(s[i]));
            let j = choose|j: int| 0 <= j < pieces.len() && (#[trigger] pieces[j]).contains(s[i]);
            let x = choose|x: int| 0 <= x < pieces[j].len() && pieces[j][x] == s[i];
            assert(chars::is_digit(pieces[j][x]));
        }
    }
}

/// One of the pieces holds the character.
spec fn in_pieces(pieces: Seq<Seq<char>>, c: char) -> bool {
    exists|j: int| 0 <= j < pieces.len() && (#[trigger] pieces[j]).contains(c)
}

/// What is split stands in the pieces, but for what parts them.
proof fn lemma_split_holds(s: Seq<char>, k: char)
    ensures
        forall|c: char| c != k && #[trigger] s.contains(c) ==> in_pieces(chars::split(s, k), c),
        forall|c: char| #[trigger] in_pieces(chars::split(s, k), c) ==> s.contains(c),
    decreases s.len(),
{
    let n = chars::leading(s, chars::is_not(k)) as int;
    let pieces = chars::split(s, k);
    chars::lemma_leading(s, chars::is_not(k));
    if n < s.len() {
        let head = s.take(n);
        let rest = s.skip(n + 1);
        lemma_split_holds(rest, k);
        let more = chars::split(rest, k);
        assert(pieces == seq![head] + more);
        assert forall|c: char| c != k && #[trigger] s.contains(c) implies in_pieces(pieces, c) by {
            let i = choose|i: int| 0 <= i < s.len() && s[i] == c;
            if i < n {
                assert(head[i] == c);
                assert(pieces[0].contains(c));
            } else {
                assert(rest[i - n - 1] == c);
                assert(rest.contains(c));
                let j = choose|j: int| 0 <= j < more.len() && (#[trigger] more[j]).contains(c);
                assert(pieces[j + 1].contains(c));
            }
        }
        assert forall|c: char| #[trigger] in_pieces(pieces, c) implies s.contains(c) by {
            let j = choose|j: int| 0 <= j < pieces.len() && (#[trigger] pieces[j]).contains(c);
            if j == 0 {
                let i = choose|i: int| 0 <= i < head.len() && head[i] == c;
                assert(s[i] == c);
            } else {
                assert(more[j - 1].contains(c));
                assert(in_pieces(more, c));
                let i = choose|i: int| 0 <= i < rest.len() && rest[i] == c;
                assert(s[i + n + 1] == c);
            }
        }
    } else {
        assert(pieces =~= seq![s]);
        assert forall|c: char| c != k && #[trigger] s.contains(c) implies in_pieces(pieces, c) by {
            assert(pieces[0].contains(c));
        }
    }
}

proof fn lemma_numbers_hold(pieces: Seq<Seq<char>>)
    requires
        numbers(pieces) is Some,
    ensures
        forall|j: int, x: int|
            0 <= j < pieces.len() && 0 <= x < pieces[j].len() ==> chars::is_digit(
                #[trigger] pieces[j][x],
            ),
        numbers(pieces)->0.len() > 0 ==> exists|j: int|
            0 <= j < pieces.len() && (#[trigger] pieces[j]).len() > 0,
    decreases pieces.len(),
{
    if pieces.len() > 0 {
        let front = pieces.drop_last();
        lemma_numbers_hold(front);
        assert forall|j: int, x: int|
            0 <= j < pieces.len() && 0 <= x < pieces[j].len() implies chars::is_digit(
            #[trigger] pieces[j][x],
        ) by {
            if j < front.len() {
                assert(front[j][x] == pieces[j][x]);
            } else {
                assert(pieces.last()[x] == pieces[j][x]);
            }
        }
        if numbers(pieces)->0.len() > 0 {
            if pieces.last().len() > 0 {
                assert(pieces[pieces.len() - 1].len() > 0);
            } else {
                let j = choose|j: int| 0 <= j < front.len() && (#[trigger] front[j]).len() > 0;
                assert(pieces[j] == front[j]);
            }
        }
    }
}

proof fn lemma_split_add(x: Seq<char>, k: char, y: Seq<char>)
    ensures
        chars::split(x + seq![k] + y, k) == chars::split(x, k) + chars::split(y, k),
    decreases x.len(),
{
    let all = x + seq![k] + y;
    let n = chars::leading(x, chars::is_not(k)) as int;
    chars::lemma_leading(x, chars::is_not(k));
    assert forall|i: int| 0 <= i < n implies #[trigger] all[i] != k by {
        assert(all[i] == x[i]);
        assert(chars::is_not(k)(x[i]));
    }
    if n < x.len() {
        let rest = x.skip(n + 1);
        assert(all[n] == k);
        chars::lemma_before(all, k, n);
        assert(all.take(n) =~= x.take(n));
        assert(all.skip(n + 1) =~= rest + seq![k] + y);
        lemma_split_add(rest, k, y);
        assert(chars::split(all, k) =~= chars::split(x, k) + chars::split(y, k));
    } else {
        assert(all[n] == k);
        chars::lemma_before(all, k, n);
        assert(all.take(n) =~= x);
        assert(all.skip(n + 1) =~= y);
        assert(chars::split(x, k) =~= seq![x]);
    }
}

proof fn lemma_numbers_add(a: Seq<Seq<char>>, b: Seq<Seq<char>>)
    ensures
        numbers(a + b) == match (numbers(a), numbers(b)) {
            (Some(x), Some(y)) => Some(x + y),
            _ => None,
        },
    decreases b.len(),
{
    if b.len() == 0 {
        assert(a + b =~= a);
        if numbers(a) is Some {
            assert(numbers(a)->0 + Seq::<u64>::empty() =~= numbers(a)->0);
        }
    } else {
        lemma_numbers_add(a, b.drop_last());
        assert((a + b).drop_last() =~= a + b.drop_last());
        assert((a + b).last() == b.last());
        if numbers(a) is Some && numbers(b) is Some {
            assert(numbers(a + b)->0 =~= numbers(a)->0 + numbers(b)->0);
        }
    }
}

/// Dots with nothing between them, and a dot at either end, do not count.
pub proof fn law_empty_numbers_are_left_out(a: Seq<u64>, b: Seq<u64>)
    requires
        a.len() > 0,
        b.len() > 0,
    ensures
        dotted(written(a) + seq!['.'] + written(b)) == Some(a + b),
        dotted(written(a) + seq!['.'] + (seq!['.'] + written(b))) == Some(a + b),
        dotted(written(a) + seq!['.']) == Some(a),
        dotted(seq!['.'] + written(a)) == Some(a),
{
    let none = Seq::<char>::empty();
    let x = written(a);
    let y = written(b);
    law_written_numbers_read_back(a);
    law_written_numbers_read_back(b);
    chars::lemma_before_all(none, '.');
    assert(chars::split(none, '.') =~= seq![none]);
    assert(seq![none].drop_last() =~= seq![]);
    assert(numbers(Seq::<Seq<char>>::empty()) == Some(Seq::<u64>::empty()));
    assert(numbers(seq![none]) == Some(Seq::<u64>::empty()));
    lemma_split_add(x, '.', y);
    lemma_numbers_add(chars::split(x, '.'), chars::split(y, '.'));
    let z = seq!['.'] + y;
    lemma_split_add(none, '.', y);
    assert(none + seq!['.'] + y =~= z);
    lemma_numbers_add(chars::split(none, '.'), chars::split(y, '.'));
    assert(Seq::<u64>::empty() + b =~= b);
    lemma_split_add(x, '.', z);
    lemma_numbers_add(chars::split(x, '.'), chars::split(z, '.'));
    lemma_split_add(x, '.', none);
    assert(x + seq!['.'] + none =~= x + seq!['.']);
    lemma_numbers_add(chars::split(x, '.'), chars::split(none, '.'));
    assert(a + Seq::<u64>::empty() =~= a);
    lemma_split_add(none, '.', x);
    assert(none + seq!['.'] + x =~= seq!['.'] + x);
    lemma_numbers_add(chars::split(none, '.'), chars::split(x, '.'));
    assert(Seq::<u64>::empty() + a =~= a);
}

/// A version with a number that is too large is none.
pub proof fn law_large_numbers(n: nat, a: Seq<u64>)
    requires
        n > u64::MAX,
        a.len() > 0,
    ensures
        dotted(chars::decimal(n)) is None,
        dotted(written(a) + seq!['.'] + chars::decimal(n)) is None,
{
    let s = chars::decimal(n);
    chars::lemma_decimal(n);
    assert forall|i: int| 0 <= i < s.len() implies #[trigger] s[i] != '.' by {
        assert(chars::is_digit(s[i]));
    }
    chars::lemma_before_all(s, '.');
    assert(chars::split(s, '.') =~= seq![s]);
    assert(seq![s].last() == s);
    assert(numbers(seq![s]) is None);
    lemma_split_add(written(a), '.', s);
    lemma_numbers_add(chars::split(written(a), '.'), chars::split(s, '.'));
}

} // verus!
