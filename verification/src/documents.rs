//! JSON and TOML documents, read, edited and printed by the crates that know
//! these formats.
use toml_edit::{Item, Value};
use vstd::prelude::*;
use crate::tree::{Node, Step, Stride, Tree, alike, at, put, reachable, strides, text_at};

verus! {

/// A JSON value.
#[verifier::external_type_specification]
#[verifier::external_body]
pub struct ExJsonValue(serde_json::Value);

/// A TOML value.
#[verifier::external_type_specification]
#[verifier::external_body]
pub struct ExTomlValue(toml::Value);

/// A TOML document that keeps its layout.
#[verifier::external_type_specification]
#[verifier::external_body]
pub struct ExDocument(toml_edit::DocumentMut);

/// An item of such a document.
#[verifier::external_type_specification]
#[verifier::external_body]
pub struct ExItem(toml_edit::Item);

/// The value that a JSON text stands for, where it is one that can be read.
pub uninterp spec fn json_of(text: Seq<char>) -> Option<serde_json::Value>;

/// A JSON value with a text under a key of a section.
pub uninterp spec fn json_with(
    value: serde_json::Value,
    section: Seq<char>,
    name: Seq<char>,
    text: Seq<char>,
) -> serde_json::Value;

/// What a JSON value holds.
pub uninterp spec fn json_held(value: serde_json::Value) -> Tree;

/// What is printed of a JSON value can be read, and has the keys and texts of the
/// value.
pub uninterp spec fn json_faithful(value: serde_json::Value) -> bool;

/// The indented text of a JSON value.
pub uninterp spec fn json_pretty(value: serde_json::Value) -> Seq<char>;

/// What a TOML text says, where it is one that can be read.
pub uninterp spec fn toml_tree(text: Seq<char>) -> Option<Tree>;

/// What a TOML value holds.
pub uninterp spec fn toml_held(value: toml::Value) -> Tree;

/// The document that a TOML text is, where it is one that can be read.
pub uninterp spec fn document_of(text: Seq<char>) -> Option<toml_edit::DocumentMut>;

/// A TOML document with a text at a path.
pub uninterp spec fn document_with(
    document: toml_edit::DocumentMut,
    path: Seq<Stride>,
    text: Seq<char>,
) -> toml_edit::DocumentMut;

/// What a TOML document holds.
pub uninterp spec fn document_held(document: toml_edit::DocumentMut) -> Tree;

/// A TOML document can be printed, and what is printed of it can be read and leads
/// from every path to the text that the document has there.
pub uninterp spec fn document_faithful(document: toml_edit::DocumentMut) -> bool;

/// The text of a TOML document.
pub uninterp spec fn document_text(document: toml_edit::DocumentMut) -> Seq<char>;

/// What an item of a TOML document holds.
pub uninterp spec fn item_held(item: toml_edit::Item) -> Tree;

/// An item of a TOML document can be displayed, and so can all its parts.
pub uninterp spec fn item_printable(item: toml_edit::Item) -> bool;

/// What a JSON text says, where it is one that can be read.
pub open spec fn json_tree(text: Seq<char>) -> Option<Tree> {
    match json_of(text) {
        Some(value) => Some(json_held(value)),
        None => None,
    }
}

/// What a TOML text says, with its inline tables told apart.
pub open spec fn document_tree(text: Seq<char>) -> Option<Tree> {
    match document_of(text) {
        Some(document) => Some(document_held(document)),
        None => None,
    }
}

/// From `i` on, `s` holds the character `n` times in a row.
pub open spec fn runs(s: Seq<char>, c: char, i: int, n: int) -> bool {
    0 <= i && i + n <= s.len() && forall|j: int| i <= j < i + n ==> #[trigger] s[j] == c
}

/// Nowhere in `s` does the character stand more than 255 times in a row.
pub open spec fn short_runs(s: Seq<char>, c: char) -> bool {
    forall|i: int| !#[trigger] runs(s, c, i, 256)
}

/// Nowhere in `s` do more than 255 quotes of one kind stand in a row, which is as
/// far as `toml_edit` counts them when it prints a text.
pub open spec fn short_quotes(s: Seq<char>) -> bool {
    short_runs(s, '\'') && short_runs(s, '"')
}

fn has_short_runs(s: &str, c: char) -> (r: bool)
    ensures
        r == short_runs(s@, c),
{
    let mut n: usize = 0;
    for d in it: s.chars()
        invariant
            it.seq() == s@,
            n < 256,
            n <= it.index(),
            runs(s@, c, it.index() - n, n as int),
            n < it.index() ==> s@[it.index() - n - 1] != c,
            forall|i: int| i + 256 <= it.index() ==> !#[trigger] runs(s@, c, i, 256),
    {
        let ghost k = it.index() as int;
        assert(s@[k] == d);
        if d == c {
            n = n + 1;
            if n == 256 {
                assert(runs(s@, c, k - 255, 256));
                return false;
            }
        } else {
            n = 0;
        }
        assert forall|i: int| i + 256 <= k + 1 implies !#[trigger] runs(s@, c, i, 256) by {
            if i + 256 == k + 1 && runs(s@, c, i, 256) {
                assert(s@[k] == c);
                assert(s@[k - n] == c);
            }
        }
    }
    true
}

/// The text can be put in a TOML document that is to be printed.
pub fn has_short_quotes(s: &str) -> (r: bool)
    ensures
        r == short_quotes(s@),
{
    has_short_runs(s, '\'') && has_short_runs(s, '"')
}

/// No key in the tree is the one that stands for a date in a `toml::Value`.
pub open spec fn undated(t: Tree) -> bool {
    forall|path: Seq<Stride>|
        path.len() > 0 && path.last() == Stride::Key("$__toml_private_datetime"@)
            ==> #[trigger] at(t, path) is None
}

/// Where `toml` can read the text, it finds there each text that the tree holds.
pub open spec fn toml_finds(s: Seq<char>, t: Tree) -> bool {
    toml_tree(s) is Some && undated(t) ==> forall|path: Seq<Stride>|
        text_at(t, path) is Some ==> #[trigger] text_at(toml_tree(s)->0, path) == text_at(t, path)
}

/// A JSON text can be read, and has the keys and texts of the tree.
pub open spec fn json_says(s: Seq<char>, t: Tree) -> bool {
    json_tree(s) is Some && alike(json_tree(s)->0, t)
}

/// `serde_json::from_str` reads a JSON text. Its value is a function of the
/// text, and a value that was read can be printed and read again. What an error
/// says is left open.
#[verifier::external_body]
pub(crate) fn parse_json(text: &str) -> (r: Result<serde_json::Value, String>)
    ensures
        match r {
            Ok(value) => json_of(text@) == Some(value) && json_faithful(value),
            Err(_) => json_of(text@) is None,
        },
{
    serde_json::from_str::<serde_json::Value>(text).map_err(|e| e.to_string())
}

/// The parts of a `serde_json::Value`: its string, the items of its array, or the
/// entries of its object in the order of their iteration; all else is `Other`, with
/// what is displayed of it.
#[verifier::external_body]
pub(crate) fn json_node(value: &serde_json::Value) -> (r: Node)
    ensures
        r@ == json_held(*value),
{
    match value {
        serde_json::Value::String(s) => Node::Text(s.clone()),
        serde_json::Value::Array(items) => Node::List(items.iter().map(json_node).collect()),
        serde_json::Value::Object(entries) => Node::Table(
            entries.iter().map(|(key, item)| (key.clone(), json_node(item))).collect(),
        ),
        _ => Node::Other(value.to_string()),
    }
}

/// `IndexMut` of `serde_json::Value` leads by two keys of objects to a value, and
/// assigning a string puts it in that value's place. The outcome is a function of
/// the value, the keys and the string. A value that could be printed and read again
/// still can.
#[verifier::external_body]
pub(crate) fn json_set(value: &mut serde_json::Value, section: &str, name: &str, text: &str)
    requires
        at(json_held(*old(value)), seq![Stride::Key(section@), Stride::Key(name@)]) is Some,
    ensures
        *final(value) == json_with(*old(value), section@, name@, text@),
        json_held(*final(value)) == put(
            json_held(*old(value)),
            seq![Stride::Key(section@), Stride::Key(name@)],
            text@,
        ),
        json_faithful(*old(value)) ==> json_faithful(*final(value)),
{
    value[section][name] = serde_json::Value::String(text.to_owned());
}

/// `serde_json::to_string_pretty` prints a value. What it prints is a function of
/// the value, and reads back with or without a line feed behind it, which
/// `serde_json::from_str` skips. A number with a fraction may be read with another
/// last digit, so what `Other` holds is left open.
#[verifier::external_body]
pub(crate) fn json_print(value: &serde_json::Value) -> (r: String)
    ensures
        r@ == json_pretty(*value),
        json_faithful(*value) ==> json_says(r@, json_held(*value)),
        json_faithful(*value) ==> json_says(r@ + "\n"@, json_held(*value)),
{
    serde_json::to_string_pretty(value).unwrap_or_default()
}

/// `toml::from_str` reads a TOML text. What it says is a function of the text.
/// What an error says is left open.
#[verifier::external_body]
pub(crate) fn parse_toml(text: &str) -> (r: Result<toml::Value, String>)
    ensures
        match r {
            Ok(value) => toml_tree(text@) == Some(toml_held(value)),
            Err(_) => toml_tree(text@) is None,
        },
{
    toml::from_str::<toml::Value>(text).map_err(|e| e.to_string())
}

/// The parts of a `toml::Value`: its string, the items of its array, or the
/// entries of its table in the order of their iteration; all else is `Other`, with
/// what is displayed of it.
#[verifier::external_body]
pub(crate) fn toml_node(value: &toml::Value) -> (r: Node)
    ensures
        r@ == toml_held(*value),
{
    match value {
        toml::Value::String(s) => Node::Text(s.clone()),
        toml::Value::Array(items) => Node::List(items.iter().map(toml_node).collect()),
        toml::Value::Table(entries) => Node::Table(
            entries.iter().map(|(key, item)| (key.clone(), toml_node(item))).collect(),
        ),
        _ => Node::Other(value.to_string()),
    }
}

/// Parsing a `toml_edit::DocumentMut` reads a TOML text with its layout. The
/// document is a function of the text, and one that was read can be printed and
/// read again. What an error says is left open.
#[verifier::external_body]
pub(crate) fn parse_document(text: &str) -> (r: Result<toml_edit::DocumentMut, String>)
    ensures
        match r {
            Ok(document) => document_of(text@) == Some(document) && document_faithful(document),
            Err(_) => document_of(text@) is None,
        },
{
    text.parse::<toml_edit::DocumentMut>().map_err(|e| e.to_string())
}

/// `DocumentMut::as_item` gives the root of a document, which holds all of it and
/// can be displayed where the document can.
#[verifier::external_body]
pub(crate) fn document_root(document: &toml_edit::DocumentMut) -> (r: &toml_edit::Item)
    ensures
        item_held(*r) == document_held(*document),
        document_faithful(*document) ==> item_printable(*r),
{
    document.as_item()
}

/// The parts of a `toml_edit::Item`: its string, the items of its array, or the
/// entries of its table or inline table in the order of their iteration; all
/// else is `Other`, with what is displayed of it; that of a plain value has the
/// white space and the comment around it.
#[verifier::external_body]
pub(crate) fn item_node(item: &toml_edit::Item) -> (r: Node)
    requires
        item_printable(*item),
    ensures
        r@ == item_held(*item),
{
    let inner = |value: &Value| item_node(&Item::Value(value.clone()));
    match item {
        Item::Value(Value::String(s)) => Node::Text(s.value().clone()),
        Item::Value(Value::Array(a)) => Node::List(
            a.iter().map(inner).collect(),
        ),
        Item::Value(Value::InlineTable(t)) => Node::Inline(
            t.iter().map(|(key, value)| (key.to_owned(), inner(value))).collect(),
        ),
        Item::Table(t) => Node::Table(
            t.iter().map(|(key, value)| (key.to_owned(), item_node(value))).collect(),
        ),
        _ => Node::Other(item.to_string()),
    }
}

/// `IndexMut` of `toml_edit::Item` leads along a path to an item, which in a
/// table it adds where there is none, and assigning `toml_edit::value` of a text
/// puts that in its place. The outcome is a function of the document, the path and
/// the text. A document that could be printed and read again still can where the text
/// holds no long run of quotes: printing it counts these in a `u8`.
#[verifier::external_body]
pub(crate) fn document_set(document: &mut toml_edit::DocumentMut, path: &Vec<Step>, text: &str)
    requires
        path@.len() > 0,
        reachable(document_held(*old(document)), strides(path@)),
    ensures
        *final(document) == document_with(*old(document), strides(path@), text@),
        document_held(*final(document)) == put(
            document_held(*old(document)),
            strides(path@),
            text@,
        ),
        document_faithful(*old(document)) && short_quotes(text@) ==> document_faithful(
            *final(document),
        ),
{
    let mut item = document.as_item_mut();
    for step in path {
        item = match step {
            Step::Key(key) => &mut item[key.as_str()],
            Step::At(i) => &mut item[*i],
        };
    }
    *item = toml_edit::value(text);
}

/// Displaying a `toml_edit::DocumentMut` that was read, or edited with texts that it
/// can print, gives its text, which is a function of the document. `toml::from_str` reads that text with the parser of `toml_edit`,
/// and gives an error or the same texts.
#[verifier::external_body]
pub(crate) fn document_print(document: &toml_edit::DocumentMut) -> (r: String)
    requires
        document_faithful(*document),
    ensures
        r@ == document_text(*document),
        document_tree(r@) is Some,
        forall|path: Seq<Stride>| #[trigger]
            text_at(document_tree(r@)->0, path) == text_at(document_held(*document), path),
        toml_finds(r@, document_held(*document)),
{
    document.to_string()
}

/// What a JSON text says.
pub fn read_json(text: &str) -> (r: Result<Node, String>)
    ensures
        match r {
            Ok(node) => json_tree(text@) == Some(node@),
            Err(_) => json_tree(text@) is None,
        },
{
    match parse_json(text) {
        Ok(value) => Ok(json_node(&value)),
        Err(e) => Err(e),
    }
}

/// What a TOML text says.
pub fn read_toml(text: &str) -> (r: Result<Node, String>)
    ensures
        match r {
            Ok(node) => toml_tree(text@) == Some(node@),
            Err(_) => toml_tree(text@) is None,
        },
{
    match parse_toml(text) {
        Ok(value) => Ok(toml_node(&value)),
        Err(e) => Err(e),
    }
}

/// What a TOML document holds.
pub(crate) fn document_node(document: &toml_edit::DocumentMut) -> (r: Node)
    requires
        document_faithful(*document),
    ensures
        r@ == document_held(*document),
{
    item_node(document_root(document))
}

/// A text with fewer than 256 quotes of either kind has none too many in a row, and one
/// that is 256 of them has.
pub proof fn law_short_quotes(s: Seq<char>, q: char)
    requires
        q == '"' || q == '\'',
    ensures
        s.len() < 256 ==> short_quotes(s),
        !s.contains('"') && !s.contains('\'') ==> short_quotes(s),
        s.len() >= 256 && (forall|i: int| 0 <= i < s.len() ==> #[trigger] s[i] == q)
            ==> !short_quotes(s),
{
    assert forall|c: char, i: int| c == '"' || c == '\'' implies !#[trigger] runs(s, c, i, 256)
        || (s.len() >= 256 && s.contains(c)) by {
        if runs(s, c, i, 256) {
            assert(s[i] == c);
        }
    }
    if s.len() >= 256 && (forall|i: int| 0 <= i < s.len() ==> #[trigger] s[i] == q) {
        assert(runs(s, q, 0, 256));
    }
}

} // verus!
