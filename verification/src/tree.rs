//! Structured data as the manifests hold it.
use vstd::prelude::*;
use crate::text;

verus! {

/// A value of a JSON or TOML document. Whatever is no text, list or table is
/// `Other`, with the text that is printed of it.
pub enum Node {
    Text(String),
    List(Vec<Node>),
    Table(Vec<(String, Node)>),
    /// A table that is written inline.
    Inline(Vec<(String, Node)>),
    Other(String),
}

/// What a `Node` holds.
#[verifier::ext_equal]
pub enum Tree {
    Text(Seq<char>),
    List(Seq<Tree>),
    Table(Seq<(Seq<char>, Tree)>),
    Inline(Seq<(Seq<char>, Tree)>),
    Other(Seq<char>),
}

pub open spec fn tree(node: Node) -> Tree
    decreases node,
{
    match node {
        Node::Text(s) => Tree::Text(s@),
        Node::List(items) => Tree::List(
            Seq::new(
                items@.len(),
                |i: int|
                    if 0 <= i < items@.len() {
                        tree(items@[i])
                    } else {
                        arbitrary()
                    },
            ),
        ),
        Node::Table(entries) => Tree::Table(
            Seq::new(
                entries@.len(),
                |i: int|
                    if 0 <= i < entries@.len() {
                        (entries@[i].0@, tree(entries@[i].1))
                    } else {
                        arbitrary()
                    },
            ),
        ),
        Node::Inline(entries) => Tree::Inline(
            Seq::new(
                entries@.len(),
                |i: int|
                    if 0 <= i < entries@.len() {
                        (entries@[i].0@, tree(entries@[i].1))
                    } else {
                        arbitrary()
                    },
            ),
        ),
        Node::Other(s) => Tree::Other(s@),
    }
}

impl View for Node {
    type V = Tree;

    open spec fn view(&self) -> Tree {
        tree(*self)
    }
}

/// The two hold the same keys and texts in the same places.
pub open spec fn alike(a: Tree, b: Tree) -> bool
    decreases a,
{
    match (a, b) {
        (Tree::Text(x), Tree::Text(y)) => x == y,
        (Tree::List(x), Tree::List(y)) => x.len() == y.len() && forall|i: int|
            0 <= i < x.len() ==> alike(#[trigger] x[i], y[i]),
        (Tree::Table(x), Tree::Table(y)) => x.len() == y.len() && forall|i: int|
            0 <= i < x.len() ==> (#[trigger] x[i]).0 == y[i].0 && alike(x[i].1, y[i].1),
        (Tree::Inline(x), Tree::Inline(y)) => x.len() == y.len() && forall|i: int|
            0 <= i < x.len() ==> (#[trigger] x[i]).0 == y[i].0 && alike(x[i].1, y[i].1),
        (Tree::Other(_), Tree::Other(_)) => true,
        _ => false,
    }
}

/// What the nodes hold.
pub open spec fn trees(items: Seq<Node>) -> Seq<Tree> {
    Seq::new(items.len(), |i: int| items[i]@)
}

/// What the entries of a table hold.
pub open spec fn entry_trees(entries: Seq<(String, Node)>) -> Seq<(Seq<char>, Tree)> {
    Seq::new(entries.len(), |i: int| (entries[i].0@, entries[i].1@))
}

/// Where the first entry of the given key stands; behind all where there is none.
pub open spec fn key_index(entries: Seq<(Seq<char>, Tree)>, key: Seq<char>) -> int
    decreases entries.len(),
{
    if entries.len() == 0 || entries[0].0 == key {
        0
    } else {
        1 + key_index(entries.skip(1), key)
    }
}

/// No two entries have the same key.
pub open spec fn keyed(entries: Seq<(Seq<char>, Tree)>) -> bool {
    forall|i: int, j: int|
        0 <= i < j < entries.len() ==> #[trigger] entries[i].0 != #[trigger] entries[j].0
}

/// The entries of a table of either kind.
pub open spec fn entries_of(t: Tree) -> Seq<(Seq<char>, Tree)> {
    match t {
        Tree::Table(entries) => entries,
        Tree::Inline(entries) => entries,
        _ => seq![],
    }
}

/// The value of a key in a table of either kind.
pub open spec fn child(t: Tree, key: Seq<char>) -> Option<Tree> {
    let entries = entries_of(t);
    let i = key_index(entries, key);
    if i < entries.len() {
        Some(entries[i].1)
    } else {
        None
    }
}

/// The value that a chain of keys leads to.
pub open spec fn descend(t: Tree, keys: Seq<Seq<char>>) -> Option<Tree>
    decreases keys.len(),
{
    if keys.len() == 0 {
        Some(t)
    } else {
        match child(t, keys[0]) {
            Some(c) => descend(c, keys.skip(1)),
            None => None,
        }
    }
}

/// What a search in a `Node` gave.
pub open spec fn found(r: Option<&Node>) -> Option<Tree> {
    match r {
        Some(node) => Some(node@),
        None => None,
    }
}

/// `key_index` is where the first entry of the key stands, or the number of
/// entries.
pub proof fn lemma_key_index(entries: Seq<(Seq<char>, Tree)>, key: Seq<char>)
    ensures
        0 <= key_index(entries, key) <= entries.len(),
        key_index(entries, key) < entries.len() ==> entries[key_index(entries, key)].0 == key,
        forall|i: int| 0 <= i < key_index(entries, key) ==> (#[trigger] entries[i]).0 != key,
    decreases entries.len(),
{
    if entries.len() > 0 && entries[0].0 != key {
        let rest = entries.skip(1);
        lemma_key_index(rest, key);
        assert forall|i: int| 0 <= i < key_index(entries, key) implies (#[trigger] entries[i]).0
            != key by {
            if i > 0 {
                assert(entries[i] == rest[i - 1]);
            }
        }
    }
}

/// The same keys lead to values that are alike.
pub proof fn lemma_alike_child(a: Tree, b: Tree, key: Seq<char>)
    requires
        alike(a, b),
    ensures
        match (child(a, key), child(b, key)) {
            (Some(x), Some(y)) => alike(x, y),
            (None, None) => true,
            _ => false,
        },
{
    let (x, y) = (entries_of(a), entries_of(b));
    lemma_key_index(x, key);
    let k = key_index(x, key);
    assert forall|i: int| 0 <= i < k implies (#[trigger] y[i]).0 != key by {
        assert(x[i].0 != key);
    }
    if k < x.len() {
        assert(y[k].0 == x[k].0);
    }
    lemma_key_index_is(y, key, k);
}

/// No other number is.
pub proof fn lemma_key_index_is(entries: Seq<(Seq<char>, Tree)>, key: Seq<char>, n: int)
    requires
        0 <= n <= entries.len(),
        n < entries.len() ==> entries[n].0 == key,
        forall|i: int| 0 <= i < n ==> (#[trigger] entries[i]).0 != key,
    ensures
        key_index(entries, key) == n,
{
    lemma_key_index(entries, key);
    let k = key_index(entries, key);
    if k < n {
        assert(entries[k].0 != key);
    } else if n < k {
        assert(entries[n].0 != key);
    }
}

impl Node {
    /// The text, where the value is one.
    pub fn as_text(&self) -> (r: Option<&str>)
        ensures
            match r {
                Some(s) => self@ == Tree::Text(s@),
                None => !(self@ is Text),
            },
    {
        match self {
            Node::Text(s) => Some(s.as_str()),
            _ => None,
        }
    }

    /// The items, where the value is a list.
    pub fn as_list(&self) -> (r: Option<&Vec<Node>>)
        ensures
            match r {
                Some(items) => self@ == Tree::List(trees(items@)),
                None => !(self@ is List),
            },
    {
        match self {
            Node::List(items) => {
                assert(self@->List_0 =~= trees(items@));
                Some(items)
            },
            _ => None,
        }
    }

    /// The entries, where the value is a table of either kind.
    pub fn as_entries(&self) -> (r: Option<&Vec<(String, Node)>>)
        ensures
            match r {
                Some(entries) => (self@ is Table || self@ is Inline) && entries_of(self@)
                    == entry_trees(entries@),
                None => !(self@ is Table) && !(self@ is Inline),
            },
    {
        match self {
            Node::Table(entries) => {
                assert(entries_of(self@) =~= entry_trees(entries@));
                Some(entries)
            },
            Node::Inline(entries) => {
                assert(entries_of(self@) =~= entry_trees(entries@));
                Some(entries)
            },
            _ => None,
        }
    }

    /// The value of a key.
    pub fn get(&self, key: &str) -> (r: Option<&Node>)
        ensures
            found(r) == child(self@, key@),
    {
        match self.as_entries() {
            Some(entries) => {
                let ghost all = entry_trees(entries@);
                for i in 0..entries.len()
                    invariant
                        all == entry_trees(entries@),
                        all == entries_of(self@),
                        forall|j: int| 0 <= j < i ==> (#[trigger] all[j]).0 != key@,
                {
                    if text::eq(entries[i].0.as_str(), key) {
                        proof {
                            lemma_key_index_is(all, key@, i as int);
                        }
                        return Some(&entries[i].1);
                    }
                    assert(all[i as int].0 != key@);
                }
                proof {
                    lemma_key_index_is(all, key@, all.len() as int);
                }
                None
            },
            None => None,
        }
    }

    /// The value that two keys lead to.
    pub fn get2(&self, first: &str, second: &str) -> (r: Option<&Node>)
        ensures
            found(r) == descend(self@, seq![first@, second@]),
    {
        proof {
            reveal_with_fuel(descend, 3);
            assert(seq![first@, second@].skip(1) =~= seq![second@]);
            assert(seq![second@].skip(1) =~= seq![]);
        }
        match self.get(first) {
            Some(node) => node.get(second),
            None => None,
        }
    }

    /// The value that three keys lead to.
    pub fn get3(&self, first: &str, second: &str, third: &str) -> (r: Option<&Node>)
        ensures
            found(r) == descend(self@, seq![first@, second@, third@]),
    {
        proof {
            reveal_with_fuel(descend, 2);
            assert(seq![first@, second@, third@].skip(1) =~= seq![second@, third@]);
        }
        match self.get(first) {
            Some(node) => node.get2(second, third),
            None => None,
        }
    }
}

/// A step from a value to one in it.
pub enum Step {
    Key(String),
    At(usize),
}

/// What a `Step` says.
pub enum Stride {
    Key(Seq<char>),
    At(int),
}

impl View for Step {
    type V = Stride;

    open spec fn view(&self) -> Stride {
        match self {
            Step::Key(key) => Stride::Key(key@),
            Step::At(i) => Stride::At(*i as int),
        }
    }
}

pub open spec fn strides(path: Seq<Step>) -> Seq<Stride> {
    path.map_values(|step: Step| step@)
}

/// The value that a step leads to.
pub open spec fn step_to(t: Tree, step: Stride) -> Option<Tree> {
    match step {
        Stride::Key(key) => child(t, key),
        Stride::At(i) => match t {
            Tree::List(items) => if 0 <= i < items.len() {
                Some(items[i])
            } else {
                None
            },
            _ => None,
        },
    }
}

/// The value that a path leads to.
pub open spec fn at(t: Tree, path: Seq<Stride>) -> Option<Tree>
    decreases path.len(),
{
    if path.len() == 0 {
        Some(t)
    } else {
        match step_to(t, path[0]) {
            Some(c) => at(c, path.skip(1)),
            None => None,
        }
    }
}

/// The text that a path leads to.
pub open spec fn text_at(t: Tree, path: Seq<Stride>) -> Option<Seq<char>> {
    match at(t, path) {
        Some(Tree::Text(s)) => Some(s),
        _ => None,
    }
}

/// A text can be put at the path: it leads to a value, or its last step names a
/// key that a table does not have yet.
pub open spec fn reachable(t: Tree, path: Seq<Stride>) -> bool
    decreases path.len(),
{
    if path.len() == 0 {
        true
    } else {
        match step_to(t, path[0]) {
            Some(c) => reachable(c, path.skip(1)),
            None => path.len() == 1 && t is Table && path[0] is Key,
        }
    }
}

/// The entries with `value` under the key: in the place of its old value, or
/// behind all.
pub open spec fn put_entry(
    entries: Seq<(Seq<char>, Tree)>,
    key: Seq<char>,
    value: Tree,
) -> Seq<(Seq<char>, Tree)> {
    let i = key_index(entries, key);
    if i < entries.len() {
        entries.update(i, (key, value))
    } else {
        entries.push((key, value))
    }
}

/// The value with one of its parts in place of what the step leads to.
pub open spec fn put_step(t: Tree, step: Stride, value: Tree) -> Tree {
    match (step, t) {
        (Stride::Key(key), Tree::Table(entries)) => Tree::Table(put_entry(entries, key, value)),
        (Stride::Key(key), Tree::Inline(entries)) => Tree::Inline(put_entry(entries, key, value)),
        (Stride::At(i), Tree::List(items)) => Tree::List(items.update(i, value)),
        _ => t,
    }
}

/// The value with the text at the path.
pub open spec fn put(t: Tree, path: Seq<Stride>, s: Seq<char>) -> Tree
    decreases path.len(),
{
    if path.len() == 0 {
        Tree::Text(s)
    } else {
        let part = match step_to(t, path[0]) {
            Some(c) => put(c, path.skip(1), s),
            None => Tree::Text(s),
        };
        put_step(t, path[0], part)
    }
}

/// Two different steps, as far as this shows in what they lead to.
pub open spec fn apart(a: Stride, b: Stride) -> bool {
    match (a, b) {
        (Stride::Key(x), Stride::Key(y)) => x != y,
        (Stride::At(i), Stride::At(j)) => i != j,
        _ => false,
    }
}

/// The paths part somewhere.
pub open spec fn diverge(p: Seq<Stride>, q: Seq<Stride>) -> bool
    decreases p.len(),
{
    if p.len() == 0 || q.len() == 0 {
        false
    } else {
        apart(p[0], q[0]) || (p[0] == q[0] && diverge(p.skip(1), q.skip(1)))
    }
}

/// What was put at a path stands there, and what other paths lead to stays.
pub proof fn law_put(t: Tree, path: Seq<Stride>, s: Seq<char>)
    requires
        reachable(t, path),
    ensures
        at(put(t, path, s), path) == Some(Tree::Text(s)),
        forall|q: Seq<Stride>|
            #![trigger at(put(t, path, s), q)]
            diverge(path, q) ==> at(put(t, path, s), q) == at(t, q),
    decreases path.len(),
{
    if path.len() > 0 {
        let step = path[0];
        let rest = path.skip(1);
        let part = match step_to(t, step) {
            Some(c) => put(c, rest, s),
            None => Tree::Text(s),
        };
        lemma_put_step(t, step, part);
        match step_to(t, step) {
            Some(c) => {
                law_put(c, rest, s);
            },
            None => {
                assert(rest.len() == 0);
                assert(at(part, rest) == Some(Tree::Text(s)));
            },
        }
        assert(at(put(t, path, s), path) == at(part, rest));
        assert forall|q: Seq<Stride>|
            #![trigger at(put(t, path, s), q)]
            diverge(path, q) implies at(put(t, path, s), q) == at(t, q) by {
            if apart(step, q[0]) {
                lemma_put_apart(t, step, part, q[0]);
            } else {
                assert(diverge(rest, q.skip(1)));
                if let Some(c) = step_to(t, step) {
                    assert(at(put(c, rest, s), q.skip(1)) == at(c, q.skip(1)));
                }
            }
        }
    }
}

proof fn lemma_put_step(t: Tree, step: Stride, part: Tree)
    requires
        step_to(t, step) is Some || (t is Table && step is Key),
    ensures
        step_to(put_step(t, step, part), step) == Some(part),
{
    if let Stride::Key(key) = step {
        let entries = entries_of(t);
        let new = put_entry(entries, key, part);
        lemma_key_index(entries, key);
        let i = key_index(entries, key);
        assert forall|j: int| 0 <= j < i implies (#[trigger] new[j]).0 != key by {
            assert(new[j] == entries[j]);
        }
        lemma_key_index_is(new, key, i);
    }
}

proof fn lemma_put_apart(t: Tree, step: Stride, part: Tree, other: Stride)
    requires
        step_to(t, step) is Some || (t is Table && step is Key),
        apart(step, other),
    ensures
        step_to(put_step(t, step, part), other) == step_to(t, other),
{
    if let (Stride::Key(key), Stride::Key(name)) = (step, other) {
        let entries = entries_of(t);
        let new = put_entry(entries, key, part);
        lemma_key_index(entries, key);
        lemma_key_index(entries, name);
        let i = key_index(entries, key);
        let k = key_index(entries, name);
        if k < entries.len() {
            assert(new[k] == entries[k]);
            assert forall|j: int| 0 <= j < k implies (#[trigger] new[j]).0 != name by {
                if j != i {
                    assert(new[j] == entries[j]);
                }
            }
            lemma_key_index_is(new, name, k);
        } else {
            assert forall|j: int| 0 <= j < new.len() implies (#[trigger] new[j]).0 != name by {
                if j < entries.len() && j != i {
                    assert(new[j] == entries[j]);
                }
            }
            lemma_key_index_is(new, name, new.len() as int);
        }
    }
}

/// What was put behind a key changes the value of the key alone.
pub proof fn lemma_put_child(t: Tree, key: Seq<char>, rest: Seq<Stride>, s: Seq<char>)
    requires
        child(t, key) is Some,
    ensures
        ({
            let part = put(child(t, key)->0, rest, s);
            let new = put(t, seq![Stride::Key(key)] + rest, s);
            &&& new == put_step(t, Stride::Key(key), part)
            &&& child(new, key) == Some(part)
            &&& forall|other: Seq<char>|
                other != key ==> #[trigger] child(new, other) == child(t, other)
        }),
{
    let path = seq![Stride::Key(key)] + rest;
    let part = put(child(t, key)->0, rest, s);
    let new = put(t, path, s);
    assert(path.skip(1) =~= rest);
    assert(step_to(t, path[0]) == child(t, key));
    lemma_put_step(t, Stride::Key(key), part);
    assert(step_to(new, Stride::Key(key)) == Some(part));
    assert forall|other: Seq<char>| other != key implies #[trigger] child(new, other) == child(
        t,
        other,
    ) by {
        lemma_put_apart(t, Stride::Key(key), part, Stride::Key(other));
        assert(step_to(new, Stride::Key(other)) == step_to(t, Stride::Key(other)));
    }
}

/// One step more leads on from where the path leads.
pub proof fn lemma_at_push(t: Tree, path: Seq<Stride>, step: Stride)
    ensures
        at(t, path.push(step)) == match at(t, path) {
            Some(c) => step_to(c, step),
            None => None,
        },
    decreases path.len(),
{
    let all = path.push(step);
    if path.len() == 0 {
        assert(all.skip(1) =~= seq![]);
        if let Some(c) = step_to(t, step) {
            assert(at(c, all.skip(1)) == Some(c));
        }
    } else {
        assert(all[0] == path[0]);
        assert(all.skip(1) =~= path.skip(1).push(step));
        if let Some(c) = step_to(t, path[0]) {
            lemma_at_push(c, path.skip(1), step);
        }
    }
}

} // verus!
