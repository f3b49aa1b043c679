//! Styled text for a terminal.
use vstd::prelude::*;

verus! {

/// How a piece of text looks.
#[derive(Debug, Clone, Copy, PartialEq, Eq, Structural)]
pub enum Style {
    Plain,
    Bold,
    Dimmed,
    Green,
    Red,
    Yellow,
    BoldYellow,
}

/// A piece of text in one style.
#[derive(Debug)]
pub struct Run {
    pub style: Style,
    pub text: String,
}

/// What pieces of text say, and how they look.
pub open spec fn runs(items: Seq<Run>) -> Seq<(Style, Seq<char>)> {
    items.map_values(|r: Run| (r.style, r.text@))
}

/// What lines of pieces say.
pub open spec fn lines(items: Seq<Vec<Run>>) -> Seq<Seq<(Style, Seq<char>)>> {
    items.map_values(|line: Vec<Run>| runs(line@))
}

/// One piece more.
pub fn say(out: &mut Vec<Run>, style: Style, text: &str)
    ensures
        runs(final(out)@) == runs(old(out)@).push((style, text@)),
{
    let ghost first = runs(out@);
    out.push(Run { style, text: text.to_owned() });
    assert(runs(out@) =~= first.push((style, text@)));
}

/// The pieces of another list behind those of this one.
pub fn say_all(out: &mut Vec<Run>, more: &Vec<Run>)
    ensures
        runs(final(out)@) == runs(old(out)@) + runs(more@),
{
    let ghost first = runs(out@);
    assert(runs(out@) =~= first + runs(more@).take(0));
    for i in 0..more.len()
        invariant
            runs(out@) == first + runs(more@).take(i as int),
    {
        say(out, more[i].style, more[i].text.as_str());
        assert(runs(out@) =~= first + runs(more@).take(i + 1));
    }
    assert(runs(more@).take(more@.len() as int) =~= runs(more@));
}

} // verus!
