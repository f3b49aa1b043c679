//! How the dependencies of two versions differ.
use vstd::prelude::*;
use vstd::string::*;
use crate::chars;
use crate::plugin::copy_opt;
use crate::plugins::requirements::{not_operator, operator_index};
use crate::plugins::requirements_laws::{is_marker, is_pieces, lemma_pieces};
use crate::text;

verus! {

#[derive(Debug)]
pub struct SupplyChainDelta {
    pub added: Vec<String>,
    pub removed: Vec<String>,
    pub changed: Vec<String>,
    pub note: Option<String>,
}

/// What a `SupplyChainDelta` says.
#[verifier::ext_equal]
pub struct Delta {
    pub added: Seq<Seq<char>>,
    pub removed: Seq<Seq<char>>,
    pub changed: Seq<Seq<char>>,
    pub note: Option<Seq<char>>,
}

impl View for SupplyChainDelta {
    type V = Delta;

    open spec fn view(&self) -> Delta {
        Delta {
            added: chars::views(self.added@),
            removed: chars::views(self.removed@),
            changed: chars::views(self.changed@),
            note: chars::opt(self.note),
        }
    }
}

/// A copy of strings.
pub fn copy_strings(items: &Vec<String>) -> (r: Vec<String>)
    ensures
        chars::views(r@) == chars::views(items@),
{
    let mut out: Vec<String> = Vec::new();
    let ghost all = chars::views(items@);
    for i in 0..items.len()
        invariant
            all == chars::views(items@),
            chars::views(out@) == all.take(i as int),
    {
        let ghost sofar = out@;
        out.push(items[i].clone());
        assert(chars::views(out@) =~= chars::views(sofar).push(all[i as int]));
        assert(all.take(i + 1) =~= all.take(i as int).push(all[i as int]));
    }
    assert(all.take(all.len() as int) =~= all);
    out
}

impl Clone for SupplyChainDelta {
    fn clone(&self) -> (r: Self)
        ensures
            r@ == self@,
    {
        let r = SupplyChainDelta {
            added: copy_strings(&self.added),
            removed: copy_strings(&self.removed),
            changed: copy_strings(&self.changed),
            note: copy_opt(&self.note),
        };
        assert(r@ =~= self@);
        r
    }
}

impl Delta {
    /// Nothing is said.
    pub open spec fn is_silent(self) -> bool {
        self.added.len() == 0 && self.removed.len() == 0 && self.changed.len() == 0
    }

    /// The same, with a note where otherwise nothing is said.
    pub open spec fn normalized(self) -> Delta {
        if self.is_silent() && self.note is None {
            Delta { note: Some("No transitive dependency changes detected."@), ..self }
        } else {
            self
        }
    }
}

pub fn normalize_supply_chain(delta: SupplyChainDelta) -> (r: SupplyChainDelta)
    ensures
        r@ == delta@.normalized(),
{
    if delta.added.len() == 0 && delta.removed.len() == 0 && delta.changed.len() == 0
        && delta.note.is_none() {
        let r = SupplyChainDelta {
            note: Some("No transitive dependency changes detected.".to_owned()),
            ..delta
        };
        assert(r@ =~= delta@.normalized());
        r
    } else {
        delta
    }
}

/// A normalized delta says something.
pub proof fn law_normalized_says_something(delta: Delta)
    ensures
        !delta.normalized().is_silent() || delta.normalized().note is Some,
{
}

/// The value of a key in a list of pairs; where it occurs more than once, the
/// last counts.
pub open spec fn lookup(map: Seq<(Seq<char>, Seq<char>)>, key: Seq<char>) -> Option<Seq<char>>
    decreases map.len(),
{
    if map.len() == 0 {
        None
    } else if map.last().0 == key {
        Some(map.last().1)
    } else {
        lookup(map.drop_last(), key)
    }
}

pub fn find_value<'a>(map: &'a Vec<(String, String)>, key: &str) -> (r: Option<&'a str>)
    ensures
        match r {
            Some(s) => lookup(chars::pairs(map@), key@) == Some(s@),
            None => lookup(chars::pairs(map@), key@) is None,
        },
{
    let ghost all = chars::pairs(map@);
    let mut n: usize = map.len();
    assert(all.take(n as int) =~= all);
    while n > 0
        invariant
            n <= map.len(),
            all == chars::pairs(map@),
            lookup(all, key@) == lookup(all.take(n as int), key@),
        decreases n,
    {
        assert(all.take(n as int).last() == chars::pair(map@[n - 1]));
        if text::eq(map[n - 1].0.as_str(), key) {
            return Some(map[n - 1].1.as_str());
        }
        assert(all.take(n as int).drop_last() =~= all.take(n - 1));
        n = n - 1;
    }
    None
}

/// The keys of a list of pairs.
pub open spec fn keys_of(map: Seq<(Seq<char>, Seq<char>)>) -> Seq<Seq<char>> {
    map.map_values(|p: (Seq<char>, Seq<char>)| p.0)
}

/// The keys, each once and in order.
pub open spec fn key_order(map: Seq<(Seq<char>, Seq<char>)>) -> Seq<Seq<char>> {
    chars::sort(chars::distinct(keys_of(map)))
}

fn sorted_keys(map: &Vec<(String, String)>) -> (r: Vec<String>)
    ensures
        chars::views(r@) == key_order(chars::pairs(map@)),
{
    let mut out: Vec<String> = Vec::new();
    let ghost all = keys_of(chars::pairs(map@));
    for i in 0..map.len()
        invariant
            all == keys_of(chars::pairs(map@)),
            chars::views(out@) == all.take(i as int),
    {
        let ghost sofar = out@;
        out.push(map[i].0.clone());
        assert(chars::views(out@) =~= chars::views(sofar).push(all[i as int]));
        assert(all.take(i + 1) =~= all.take(i as int).push(all[i as int]));
    }
    assert(all.take(all.len() as int) =~= all);
    text::sort(text::distinct(&out))
}

/// The entries of `map` under those of the keys that `other` does not have.
pub open spec fn only_in(
    keys: Seq<Seq<char>>,
    map: Seq<(Seq<char>, Seq<char>)>,
    other: Seq<(Seq<char>, Seq<char>)>,
) -> Seq<Seq<char>>
    decreases keys.len(),
{
    if keys.len() == 0 {
        seq![]
    } else {
        let before = only_in(keys.drop_last(), map, other);
        let key = keys.last();
        match (lookup(map, key), lookup(other, key)) {
            (Some(value), None) => before.push(key + "@"@ + value),
            _ => before,
        }
    }
}

/// The changes under those of the keys that both have with different values.
pub open spec fn changes(
    keys: Seq<Seq<char>>,
    old: Seq<(Seq<char>, Seq<char>)>,
    new: Seq<(Seq<char>, Seq<char>)>,
) -> Seq<Seq<char>>
    decreases keys.len(),
{
    if keys.len() == 0 {
        seq![]
    } else {
        let before = changes(keys.drop_last(), old, new);
        let key = keys.last();
        match (lookup(old, key), lookup(new, key)) {
            (Some(a), Some(b)) => if a != b {
                before.push(key + ": "@ + a + " -> "@ + b)
            } else {
                before
            },
            _ => before,
        }
    }
}

/// How two lists of dependencies differ: what the latest adds, what it drops, and
/// what it asks for in another version.
pub open spec fn difference(
    current: Seq<(Seq<char>, Seq<char>)>,
    latest: Seq<(Seq<char>, Seq<char>)>,
) -> Delta {
    Delta {
        added: only_in(key_order(latest), latest, current),
        removed: only_in(key_order(current), current, latest),
        changed: changes(key_order(latest), current, latest),
        note: None,
    }.normalized()
}

fn collect_only(
    keys: &Vec<String>,
    map: &Vec<(String, String)>,
    other: &Vec<(String, String)>,
) -> (r: Vec<String>)
    ensures
        chars::views(r@) == only_in(chars::views(keys@), chars::pairs(map@), chars::pairs(other@)),
{
    let mut out: Vec<String> = Vec::new();
    let ghost all = chars::views(keys@);
    assert(chars::views(out@) =~= seq![]);
    for i in 0..keys.len()
        invariant
            all == chars::views(keys@),
            chars::views(out@) == only_in(
                all.take(i as int),
                chars::pairs(map@),
                chars::pairs(other@),
            ),
    {
        assert(all.take(i + 1).drop_last() =~= all.take(i as int));
        assert(all.take(i + 1).last() == keys@[i as int]@);
        if let Some(value) = find_value(map, keys[i].as_str()) {
            if find_value(other, keys[i].as_str()).is_none() {
                let ghost sofar = out@;
                let mut item: String = keys[i].clone();
                item.append("@");
                item.append(value);
                out.push(item);
                assert(chars::views(out@) =~= chars::views(sofar).push(item@));
            }
        }
    }
    assert(all.take(all.len() as int) =~= all);
    out
}

fn collect_changes(
    keys: &Vec<String>,
    old: &Vec<(String, String)>,
    new: &Vec<(String, String)>,
) -> (r: Vec<String>)
    ensures
        chars::views(r@) == changes(chars::views(keys@), chars::pairs(old@), chars::pairs(new@)),
{
    let mut out: Vec<String> = Vec::new();
    let ghost all = chars::views(keys@);
    assert(chars::views(out@) =~= seq![]);
    for i in 0..keys.len()
        invariant
            all == chars::views(keys@),
            chars::views(out@) == changes(
                all.take(i as int),
                chars::pairs(old@),
                chars::pairs(new@),
            ),
    {
        assert(all.take(i + 1).drop_last() =~= all.take(i as int));
        assert(all.take(i + 1).last() == keys@[i as int]@);
        if let Some(a) = find_value(old, keys[i].as_str()) {
            if let Some(b) = find_value(new, keys[i].as_str()) {
                if !text::eq(a, b) {
                    let ghost sofar = out@;
                    let mut item: String = keys[i].clone();
                    item.append(": ");
                    item.append(a);
                    item.append(" -> ");
                    item.append(b);
                    out.push(item);
                    assert(chars::views(out@) =~= chars::views(sofar).push(item@));
                }
            }
        }
    }
    assert(all.take(all.len() as int) =~= all);
    out
}

pub fn diff_dependency_maps(
    current: &Vec<(String, String)>,
    latest: &Vec<(String, String)>,
) -> (r: SupplyChainDelta)
    ensures
        r@ == difference(chars::pairs(current@), chars::pairs(latest@)),
{
    let new_keys: Vec<String> = sorted_keys(latest);
    let old_keys: Vec<String> = sorted_keys(current);
    let delta = SupplyChainDelta {
        added: collect_only(&new_keys, latest, current),
        removed: collect_only(&old_keys, current, latest),
        changed: collect_changes(&new_keys, current, latest),
        note: None,
    };
    assert(delta@ =~= (Delta {
        added: only_in(
            key_order(chars::pairs(latest@)),
            chars::pairs(latest@),
            chars::pairs(current@),
        ),
        removed: only_in(
            key_order(chars::pairs(current@)),
            chars::pairs(current@),
            chars::pairs(latest@),
        ),
        changed: changes(
            key_order(chars::pairs(latest@)),
            chars::pairs(current@),
            chars::pairs(latest@),
        ),
        note: None,
    }));
    normalize_supply_chain(delta)
}

/// A version does not differ from itself.
pub proof fn law_no_difference_to_itself(map: Seq<(Seq<char>, Seq<char>)>)
    ensures
        difference(map, map).is_silent(),
        difference(map, map).note == Some("No transitive dependency changes detected."@),
{
    lemma_nothing_new(key_order(map), map);
}

proof fn lemma_nothing_new(keys: Seq<Seq<char>>, map: Seq<(Seq<char>, Seq<char>)>)
    ensures
        only_in(keys, map, map).len() == 0,
        changes(keys, map, map).len() == 0,
    decreases keys.len(),
{
    if keys.len() > 0 {
        lemma_nothing_new(keys.drop_last(), map);
    }
}

/// What one direction adds, the other removes.
pub proof fn law_added_and_removed_are_opposites(
    a: Seq<(Seq<char>, Seq<char>)>,
    b: Seq<(Seq<char>, Seq<char>)>,
)
    ensures
        difference(a, b).added == difference(b, a).removed,
        difference(a, b).removed == difference(b, a).added,
{
}

/// A required distribution: its name and what versions of it will do. A name
/// that is missing makes it none.
pub open spec fn distribution(raw: Seq<char>) -> Option<(Seq<char>, Seq<char>)> {
    let r = chars::trim(chars::before(raw, ';'));
    let n = chars::leading(r, not_operator()) as int;
    let name = chars::trim(chars::before(r.take(n), '['));
    if name.len() == 0 {
        None
    } else if n < r.len() {
        Some((name, chars::trim(r.skip(n))))
    } else {
        Some((name, "*"@))
    }
}

/// The distributions that are required.
pub open spec fn distributions(items: Seq<Seq<char>>) -> Seq<(Seq<char>, Seq<char>)>
    decreases items.len(),
{
    if items.len() == 0 {
        seq![]
    } else {
        let before = distributions(items.drop_last());
        match distribution(items.last()) {
            Some(entry) => before.push(entry),
            None => before,
        }
    }
}

fn parse_distribution(raw: &str) -> (r: Option<(String, String)>)
    ensures
        match r {
            Some(p) => distribution(raw@) == Some(chars::pair(p)),
            None => distribution(raw@) is None,
        },
{
    let r: &str = text::trim(text::before(raw, ';'));
    let n: usize = operator_index(r);
    let name: &str = text::trim(text::before(text::take(r, n), '['));
    if name.is_empty() {
        return None;
    }
    if n < r.unicode_len() {
        Some((name.to_owned(), text::trim(text::skip(r, n)).to_owned()))
    } else {
        Some((name.to_owned(), "*".to_owned()))
    }
}

pub fn parse_requires_dist(items: &Vec<String>) -> (r: Vec<(String, String)>)
    ensures
        chars::pairs(r@) == distributions(chars::views(items@)),
{
    let mut out: Vec<(String, String)> = Vec::new();
    let ghost all = chars::views(items@);
    assert(chars::pairs(out@) =~= seq![]);
    for i in 0..items.len()
        invariant
            all == chars::views(items@),
            chars::pairs(out@) == distributions(all.take(i as int)),
    {
        assert(all.take(i + 1).drop_last() =~= all.take(i as int));
        assert(all.take(i + 1).last() == items@[i as int]@);
        if let Some(entry) = parse_distribution(items[i].as_str()) {
            let ghost sofar = out@;
            out.push(entry);
            assert(chars::pairs(out@) =~= chars::pairs(sofar).push(chars::pair(entry)));
        }
    }
    assert(all.take(all.len() as int) =~= all);
    out
}

/// The value of a key is that of the last pair with the key.
pub proof fn law_last_pair_counts(map: Seq<(Seq<char>, Seq<char>)>, key: Seq<char>)
    ensures
        match lookup(map, key) {
            Some(value) => exists|k: int|
                0 <= k < map.len() && #[trigger] map[k] == (key, value) && forall|j: int|
                    k < j < map.len() ==> (#[trigger] map[j]).0 != key,
            None => forall|j: int| 0 <= j < map.len() ==> (#[trigger] map[j]).0 != key,
        },
    decreases map.len(),
{
    if map.len() > 0 {
        let n = map.len() - 1;
        if map.last().0 == key {
            assert(map[n] == (key, map.last().1));
        } else {
            let front = map.drop_last();
            law_last_pair_counts(front, key);
            match lookup(front, key) {
                Some(value) => {
                    let k = choose|k: int|
                        0 <= k < front.len() && #[trigger] front[k] == (key, value) && forall|j: int|
                            k < j < front.len() ==> (#[trigger] front[j]).0 != key;
                    assert forall|j: int| k < j < map.len() implies (#[trigger] map[j]).0 != key by {
                        if j < n {
                            assert(map[j] == front[j]);
                        }
                    }
                    assert(map[k] == (key, value));
                },
                None => {
                    assert forall|j: int| 0 <= j < map.len() implies (#[trigger] map[j]).0 != key by {
                        if j < n {
                            assert(map[j] == front[j]);
                        }
                    }
                },
            }
        }
    }
}

proof fn lemma_key_order(map: Seq<(Seq<char>, Seq<char>)>, key: Seq<char>)
    ensures
        key_order(map).contains(key) <==> lookup(map, key) is Some,
{
    let keys = keys_of(map);
    let once = chars::distinct(keys);
    chars::lemma_distinct(keys);
    chars::lemma_sort(once);
    once.to_multiset_ensures();
    key_order(map).to_multiset_ensures();
    assert(once.contains(key) <==> once.to_multiset().count(key) > 0);
    assert(key_order(map).contains(key) <==> key_order(map).to_multiset().count(key) > 0);
    law_last_pair_counts(map, key);
    if keys.contains(key) {
        let i = choose|i: int| 0 <= i < keys.len() && keys[i] == key;
        assert(map[i].0 == key);
    }
    if lookup(map, key) is Some {
        let k = choose|k: int|
            0 <= k < map.len() && #[trigger] map[k] == (key, lookup(map, key)->0) && forall|j: int|
                k < j < map.len() ==> (#[trigger] map[j]).0 != key;
        assert(keys[k] == key);
    }
}

proof fn lemma_only_in(
    keys: Seq<Seq<char>>,
    map: Seq<(Seq<char>, Seq<char>)>,
    other: Seq<(Seq<char>, Seq<char>)>,
    text: Seq<char>,
)
    ensures
        only_in(keys, map, other).contains(text) <==> exists|i: int|
            0 <= i < keys.len() && #[trigger] lookup(map, keys[i]) is Some && lookup(other, keys[i]) is None
                && text == keys[i] + "@"@ + lookup(map, keys[i])->0,
    decreases keys.len(),
{
    if keys.len() > 0 {
        let front = keys.drop_last();
        let before = only_in(front, map, other);
        let all = only_in(keys, map, other);
        let n = keys.len() - 1;
        let key = keys.last();
        lemma_only_in(front, map, other, text);
        if before.contains(text) {
            let i = choose|i: int|
                0 <= i < front.len() && #[trigger] lookup(map, front[i]) is Some && lookup(
                    other,
                    front[i],
                ) is None && text == front[i] + "@"@ + lookup(map, front[i])->0;
            assert(lookup(map, keys[i]) is Some);
            let k = choose|k: int| 0 <= k < before.len() && before[k] == text;
            assert(all[k] == text);
        }
        if lookup(map, key) is Some && lookup(other, key) is None {
            assert(all[all.len() - 1] == key + "@"@ + lookup(map, key)->0);
            if all.contains(text) && !before.contains(text) {
                let k = choose|k: int| 0 <= k < all.len() && all[k] == text;
                if k < before.len() {
                    assert(before[k] == text);
                }
                assert(lookup(map, keys[n]) is Some);
            }
        }
        if exists|i: int|
            0 <= i < keys.len() && #[trigger] lookup(map, keys[i]) is Some && lookup(other, keys[i]) is None
                && text == keys[i] + "@"@ + lookup(map, keys[i])->0 {
            let i = choose|i: int|
                0 <= i < keys.len() && #[trigger] lookup(map, keys[i]) is Some && lookup(
                    other,
                    keys[i],
                ) is None && text == keys[i] + "@"@ + lookup(map, keys[i])->0;
            if i < n {
                assert(lookup(map, front[i]) is Some);
            }
        }
    }
}

proof fn lemma_changes(
    keys: Seq<Seq<char>>,
    old: Seq<(Seq<char>, Seq<char>)>,
    new: Seq<(Seq<char>, Seq<char>)>,
    text: Seq<char>,
)
    ensures
        changes(keys, old, new).contains(text) <==> exists|i: int|
            0 <= i < keys.len() && #[trigger] lookup(old, keys[i]) is Some && lookup(new, keys[i]) is Some
                && lookup(old, keys[i]) != lookup(new, keys[i]) && text == keys[i] + ": "@ + lookup(
                old,
                keys[i],
            )->0 + " -> "@ + lookup(new, keys[i])->0,
    decreases keys.len(),
{
    if keys.len() > 0 {
        let front = keys.drop_last();
        let before = changes(front, old, new);
        let all = changes(keys, old, new);
        let n = keys.len() - 1;
        let key = keys.last();
        lemma_changes(front, old, new, text);
        if before.contains(text) {
            let i = choose|i: int|
                0 <= i < front.len() && #[trigger] lookup(old, front[i]) is Some && lookup(
                    new,
                    front[i],
                ) is Some && lookup(old, front[i]) != lookup(new, front[i]) && text == front[i]
                    + ": "@ + lookup(old, front[i])->0 + " -> "@ + lookup(new, front[i])->0;
            assert(lookup(old, keys[i]) is Some);
            let k = choose|k: int| 0 <= k < before.len() && before[k] == text;
            assert(all[k] == text);
        }
        if lookup(old, key) is Some && lookup(new, key) is Some && lookup(old, key) != lookup(
            new,
            key,
        ) {
            assert(all[all.len() - 1] == key + ": "@ + lookup(old, key)->0 + " -> "@ + lookup(
                new,
                key,
            )->0);
            if all.contains(text) && !before.contains(text) {
                let k = choose|k: int| 0 <= k < all.len() && all[k] == text;
                if k < before.len() {
                    assert(before[k] == text);
                }
                assert(lookup(old, keys[n]) is Some);
            }
        }
        if exists|i: int|
            0 <= i < keys.len() && #[trigger] lookup(old, keys[i]) is Some && lookup(new, keys[i]) is Some
                && lookup(old, keys[i]) != lookup(new, keys[i]) && text == keys[i] + ": "@ + lookup(
                old,
                keys[i],
            )->0 + " -> "@ + lookup(new, keys[i])->0 {
            let i = choose|i: int|
                0 <= i < keys.len() && #[trigger] lookup(old, keys[i]) is Some && lookup(
                    new,
                    keys[i],
                ) is Some && lookup(old, keys[i]) != lookup(new, keys[i]) && text == keys[i]
                    + ": "@ + lookup(old, keys[i])->0 + " -> "@ + lookup(new, keys[i])->0;
            if i < n {
                assert(lookup(old, front[i]) is Some);
            }
        }
    }
}

/// What the difference says: the dependencies that only the latest version has were
/// added, those that only the current one has were removed, and those that both have
/// in different versions were changed.
pub proof fn law_difference(
    current: Seq<(Seq<char>, Seq<char>)>,
    latest: Seq<(Seq<char>, Seq<char>)>,
    text: Seq<char>,
)
    ensures
        ({
            let r = difference(current, latest);
            &&& r.added.contains(text) <==> exists|key: Seq<char>|
                (#[trigger] lookup(latest, key)) is Some && lookup(current, key) is None && text
                    == key + "@"@ + lookup(latest, key)->0
            &&& r.removed.contains(text) <==> exists|key: Seq<char>|
                (#[trigger] lookup(current, key)) is Some && lookup(latest, key) is None && text
                    == key + "@"@ + lookup(current, key)->0
            &&& r.changed.contains(text) <==> exists|key: Seq<char>|
                (#[trigger] lookup(current, key)) is Some && lookup(latest, key) is Some && lookup(
                    current,
                    key,
                ) != lookup(latest, key) && text == key + ": "@ + lookup(current, key)->0 + " -> "@
                    + lookup(latest, key)->0
        }),
{
    let ours = key_order(current);
    let theirs = key_order(latest);
    lemma_only_in(theirs, latest, current, text);
    lemma_only_in(ours, current, latest, text);
    lemma_changes(theirs, current, latest, text);
    assert forall|key: Seq<char>| (#[trigger] lookup(latest, key)) is Some implies exists|i: int|
        0 <= i < theirs.len() && theirs[i] == key by {
        lemma_key_order(latest, key);
    }
    assert forall|key: Seq<char>| (#[trigger] lookup(current, key)) is Some implies exists|i: int|
        0 <= i < ours.len() && ours[i] == key by {
        lemma_key_order(current, key);
    }
    if exists|key: Seq<char>|
        (#[trigger] lookup(latest, key)) is Some && lookup(current, key) is None && text == key
            + "@"@ + lookup(latest, key)->0 {
        let key = choose|key: Seq<char>|
            (#[trigger] lookup(latest, key)) is Some && lookup(current, key) is None && text == key
                + "@"@ + lookup(latest, key)->0;
        let i = choose|i: int| 0 <= i < theirs.len() && theirs[i] == key;
        assert(lookup(latest, theirs[i]) is Some);
    }
    if exists|key: Seq<char>|
        (#[trigger] lookup(current, key)) is Some && lookup(latest, key) is None && text == key
            + "@"@ + lookup(current, key)->0 {
        let key = choose|key: Seq<char>|
            (#[trigger] lookup(current, key)) is Some && lookup(latest, key) is None && text == key
                + "@"@ + lookup(current, key)->0;
        let i = choose|i: int| 0 <= i < ours.len() && ours[i] == key;
        assert(lookup(current, ours[i]) is Some);
    }
    if exists|key: Seq<char>|
        (#[trigger] lookup(current, key)) is Some && lookup(latest, key) is Some && lookup(
            current,
            key,
        ) != lookup(latest, key) && text == key + ": "@ + lookup(current, key)->0 + " -> "@
            + lookup(latest, key)->0 {
        let key = choose|key: Seq<char>|
            (#[trigger] lookup(current, key)) is Some && lookup(latest, key) is Some && lookup(
                current,
                key,
            ) != lookup(latest, key) && text == key + ": "@ + lookup(current, key)->0 + " -> "@
                + lookup(latest, key)->0;
        assert(lookup(latest, key) is Some);
        let i = choose|i: int| 0 <= i < theirs.len() && theirs[i] == key;
        assert(lookup(current, theirs[i]) is Some);
    }
}

/// A dependency of a distribution is a name with its extras and the specifiers behind
/// it. A marker does not count, and without specifiers any version will do.
pub proof fn law_distribution(
    name: Seq<char>,
    extras: Seq<char>,
    gap: Seq<char>,
    spec: Seq<char>,
    mark: Seq<char>,
)
    requires
        is_pieces(name, extras, gap, spec),
        is_marker(mark),
    ensures
        distribution(name + extras + gap + spec + mark) == Some(
            (
                name,
                if spec.len() == 0 {
                    "*"@
                } else {
                    spec
                },
            ),
        ),
{
    let core = name + extras + gap + spec;
    let all = core + mark;
    lemma_pieces(name, extras, gap, spec);
    assert forall|i: int| 0 <= i < core.len() implies #[trigger] all[i] != ';' by {
        assert(all[i] == core[i]);
    }
    if mark.len() > 0 {
        assert(all[core.len() as int] == ';');
        chars::lemma_before(all, ';', core.len() as int);
        assert(all.take(core.len() as int) =~= core);
    } else {
        assert(all =~= core);
        chars::lemma_before_all(all, ';');
    }
    let r = chars::trim(core);
    let n = chars::leading(r, not_operator()) as int;
    assert(chars::trim(r.skip(n)) == spec || spec.len() == 0);
}

/// Every dependency of a distribution that can be read is kept, in order.
pub proof fn law_distributions(items: Seq<Seq<char>>, entry: (Seq<char>, Seq<char>))
    ensures
        distributions(items).contains(entry) <==> exists|i: int|
            0 <= i < items.len() && #[trigger] distribution(items[i]) == Some(entry),
    decreases items.len(),
{
    if items.len() > 0 {
        let front = items.drop_last();
        let before = distributions(front);
        let all = distributions(items);
        let n = items.len() - 1;
        law_distributions(front, entry);
        if before.contains(entry) {
            let i = choose|i: int|
                0 <= i < front.len() && #[trigger] distribution(front[i]) == Some(entry);
            assert(distribution(items[i]) == Some(entry));
            let k = choose|k: int| 0 <= k < before.len() && before[k] == entry;
            assert(all[k] == entry);
        }
        if let Some(last) = distribution(items.last()) {
            assert(all[all.len() - 1] == last);
            if all.contains(entry) && !before.contains(entry) {
                let k = choose|k: int| 0 <= k < all.len() && all[k] == entry;
                if k < before.len() {
                    assert(before[k] == entry);
                }
                assert(distribution(items[n]) == Some(entry));
            }
        }
        if exists|i: int| 0 <= i < items.len() && #[trigger] distribution(items[i]) == Some(entry) {
            let i = choose|i: int|
                0 <= i < items.len() && #[trigger] distribution(items[i]) == Some(entry);
            if i < n {
                assert(distribution(front[i]) == Some(entry));
            }
        }
    }
}

/// Only where there is nothing to say does a note say so; else all stays as it is.
pub proof fn law_normalized(delta: Delta)
    ensures
        delta.added.len() > 0 || delta.removed.len() > 0 || delta.changed.len() > 0
            || delta.note is Some ==> delta.normalized() == delta,
        delta.added.len() == 0 && delta.removed.len() == 0 && delta.changed.len() == 0
            && delta.note is None ==> delta.normalized() == (Delta {
            note: Some("No transitive dependency changes detected."@),
            ..delta
        }),
{
}

/// The keys of a map are in order, each once.
pub proof fn law_keys_in_order(map: Seq<(Seq<char>, Seq<char>)>, key: Seq<char>)
    ensures
        chars::sorted(key_order(map)),
        key_order(map).no_duplicates(),
        key_order(map).contains(key) <==> exists|i: int|
            0 <= i < map.len() && (#[trigger] map[i]).0 == key,
{
    let keys = keys_of(map);
    let once = chars::distinct(keys);
    chars::lemma_distinct(keys);
    chars::lemma_sort(once);
    lemma_key_order(map, key);
    law_last_pair_counts(map, key);
    once.lemma_multiset_has_no_duplicates();
    key_order(map).lemma_multiset_has_no_duplicates_conv();
    if exists|i: int| 0 <= i < map.len() && (#[trigger] map[i]).0 == key {
        let i = choose|i: int| 0 <= i < map.len() && (#[trigger] map[i]).0 == key;
        assert(keys[i] == key);
    }
}

} // verus!
