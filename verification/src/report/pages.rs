//! Reports as pages of lines.
use vstd::prelude::*;
use vstd::string::*;
use crate::chars;
use crate::text;

verus! {

/// Lines that are full, and the line that is being filled, after one word more:
/// it goes on the same line unless that would exceed `max` bytes.
pub open spec fn wrap_word(
    state: (Seq<Seq<char>>, Seq<char>),
    word: Seq<char>,
    max: nat,
) -> (Seq<Seq<char>>, Seq<char>) {
    let (full, line) = state;
    if line.len() == 0 {
        (full, word)
    } else if chars::bytes(line) + 1 + chars::bytes(word) > max {
        (full.push(line), word)
    } else {
        (full, line + " "@ + word)
    }
}

/// Lines that are full, and the line that is being filled, after all words.
pub open spec fn wrap_words(words: Seq<Seq<char>>, max: nat) -> (Seq<Seq<char>>, Seq<char>)
    decreases words.len(),
{
    if words.len() == 0 {
        (seq![], seq![])
    } else {
        wrap_word(wrap_words(words.drop_last(), max), words.last(), max)
    }
}

/// The lines that a line is written on: itself where it does not exceed `max`
/// bytes, else its words, as many on each line as go there.
pub open spec fn wrap_line(line: Seq<char>, max: nat) -> Seq<Seq<char>> {
    if chars::bytes(line) <= max {
        seq![line]
    } else {
        let (full, last) = wrap_words(chars::words(line), max);
        if last.len() > 0 {
            full.push(last)
        } else {
            full
        }
    }
}

/// The lines that lines are written on.
pub open spec fn wrap_lines(lines: Seq<Seq<char>>, max: nat) -> Seq<Seq<char>>
    decreases lines.len(),
{
    if lines.len() == 0 {
        seq![]
    } else {
        wrap_lines(lines.drop_last(), max) + wrap_line(lines.last(), max)
    }
}

/// One word more would make the line too long.
fn overflows(line: &str, word: &str, max: usize) -> (r: bool)
    ensures
        r == (chars::bytes(line@) + 1 + chars::bytes(word@) > max),
{
    let a: usize = text::byte_len(line);
    let b: usize = text::byte_len(word);
    a >= max || b > max - a - 1
}

fn push_wrapped(out: &mut Vec<String>, line: &str, max: usize)
    ensures
        chars::views(final(out)@) == chars::views(old(out)@) + wrap_line(line@, max as nat),
{
    let ghost first = chars::views(out@);
    if text::byte_len(line) <= max {
        out.push(line.to_owned());
        assert(chars::views(out@) =~= first + wrap_line(line@, max as nat));
        return ;
    }
    let words: Vec<&str> = text::words(line);
    let ghost all = chars::strs(words@);
    let mut current: String = String::new();
    assert(chars::views(out@) =~= first + wrap_words(all.take(0), max as nat).0);
    assert(current@ =~= wrap_words(all.take(0), max as nat).1);
    for i in 0..words.len()
        invariant
            all == chars::strs(words@),
            chars::views(out@) == first + wrap_words(all.take(i as int), max as nat).0,
            current@ == wrap_words(all.take(i as int), max as nat).1,
    {
        assert(all.take(i + 1).drop_last() =~= all.take(i as int));
        assert(all.take(i + 1).last() == words@[i as int]@);
        let word: &str = words[i];
        if current.as_str().is_empty() {
            current = word.to_owned();
        } else if overflows(current.as_str(), word, max) {
            let ghost sofar = out@;
            out.push(current);
            assert(chars::views(out@) =~= chars::views(sofar).push(current@));
            assert(chars::views(out@) =~= first + wrap_words(all.take(i + 1), max as nat).0);
            current = word.to_owned();
        } else {
            current.append(" ");
            current.append(word);
        }
    }
    assert(all.take(all.len() as int) =~= all);
    if !current.as_str().is_empty() {
        let ghost sofar = out@;
        out.push(current);
        assert(chars::views(out@) =~= chars::views(sofar).push(current@));
    }
    assert(chars::views(out@) =~= first + wrap_line(line@, max as nat));
}

/// The lines that the lines of a text are written on.
pub fn wrap_text_lines(content: &str, max_chars: usize) -> (r: Vec<String>)
    ensures
        chars::views(r@) == wrap_lines(chars::lines(content@), max_chars as nat),
{
    let lines: Vec<&str> = text::lines(content);
    let ghost all = chars::strs(lines@);
    let mut out: Vec<String> = Vec::new();
    assert(chars::views(out@) =~= seq![]);
    for i in 0..lines.len()
        invariant
            all == chars::strs(lines@),
            chars::views(out@) == wrap_lines(all.take(i as int), max_chars as nat),
    {
        assert(all.take(i + 1).drop_last() =~= all.take(i as int));
        assert(all.take(i + 1).last() == lines@[i as int]@);
        push_wrapped(&mut out, lines[i], max_chars);
    }
    assert(all.take(all.len() as int) =~= all);
    out
}

/// A line goes on a page: it does not exceed `max` bytes, or is one word.
pub open spec fn fits(line: Seq<char>, max: nat) -> bool {
    chars::bytes(line) <= max || chars::words(line) == seq![line]
}

/// No line is too long, unless it is a word that cannot be broken.
pub proof fn law_wrapped_lines_fit(lines: Seq<Seq<char>>, max: nat)
    ensures
        forall|i: int|
            0 <= i < wrap_lines(lines, max).len() ==> fits(
                #[trigger] wrap_lines(lines, max)[i],
                max,
            ),
    decreases lines.len(),
{
    if lines.len() > 0 {
        law_wrapped_lines_fit(lines.drop_last(), max);
        let before = wrap_lines(lines.drop_last(), max);
        let new = wrap_line(lines.last(), max);
        lemma_line_fits(lines.last(), max);
        assert forall|i: int| 0 <= i < wrap_lines(lines, max).len() implies fits(
            #[trigger] wrap_lines(lines, max)[i],
            max,
        ) by {
            if i < before.len() {
                assert(wrap_lines(lines, max)[i] == before[i]);
            } else {
                assert(wrap_lines(lines, max)[i] == new[i - before.len()]);
            }
        }
    }
}

proof fn lemma_line_fits(line: Seq<char>, max: nat)
    ensures
        forall|i: int|
            0 <= i < wrap_line(line, max).len() ==> fits(#[trigger] wrap_line(line, max)[i], max),
{
    if chars::bytes(line) > max {
        let words = chars::words(line);
        assert forall|i: int| 0 <= i < words.len() implies is_word(#[trigger] words[i]) by {
            chars::lemma_word(line, i);
        }
        lemma_words_fit(words, max);
    }
}

/// A text that is not empty and holds no white space.
spec fn is_word(w: Seq<char>) -> bool {
    w.len() > 0 && forall|j: int| 0 <= j < w.len() ==> !chars::is_space(#[trigger] w[j])
}

proof fn lemma_words_fit(words: Seq<Seq<char>>, max: nat)
    requires
        forall|i: int| 0 <= i < words.len() ==> is_word(#[trigger] words[i]),
    ensures
        forall|i: int|
            0 <= i < wrap_words(words, max).0.len() ==> fits(
                #[trigger] wrap_words(words, max).0[i],
                max,
            ),
        wrap_words(words, max).1.len() > 0 ==> fits(wrap_words(words, max).1, max),
    decreases words.len(),
{
    if words.len() > 0 {
        let init = words.drop_last();
        let word = words.last();
        assert forall|i: int| 0 <= i < init.len() implies is_word(#[trigger] init[i]) by {
            assert(init[i] == words[i]);
        }
        lemma_words_fit(init, max);
        assert(is_word(words[words.len() - 1]));
        chars::lemma_words_one(word);
        let (full, line) = wrap_words(init, max);
        reveal_strlit(" ");
        chars::lemma_bytes_add(line, " "@);
        chars::lemma_bytes_add(line + " "@, word);
        lemma_blank();
    }
}

proof fn lemma_blank()
    ensures
        chars::bytes(" "@) == 1,
{
    reveal_strlit(" ");
    reveal_with_fuel(vstd::utf8::encode_utf8, 2);
    assert(" "@.drop_first() =~= seq![]);
}

/// The words of all lines.
pub open spec fn all_words(lines: Seq<Seq<char>>) -> Seq<Seq<char>>
    decreases lines.len(),
{
    if lines.len() == 0 {
        seq![]
    } else {
        all_words(lines.drop_last()) + chars::words(lines.last())
    }
}

/// Wrapping loses no word, and keeps their order.
pub proof fn law_wrapping_keeps_words(lines: Seq<Seq<char>>, max: nat)
    ensures
        all_words(wrap_lines(lines, max)) == all_words(lines),
    decreases lines.len(),
{
    if lines.len() > 0 {
        law_wrapping_keeps_words(lines.drop_last(), max);
        lemma_line_words(lines.last(), max);
        lemma_all_words_add(wrap_lines(lines.drop_last(), max), wrap_line(lines.last(), max));
    }
}

proof fn lemma_all_words_add(a: Seq<Seq<char>>, b: Seq<Seq<char>>)
    ensures
        all_words(a + b) == all_words(a) + all_words(b),
    decreases b.len(),
{
    if b.len() == 0 {
        assert(a + b =~= a);
        assert(all_words(a) + all_words(b) =~= all_words(a));
    } else {
        assert((a + b).drop_last() =~= a + b.drop_last());
        lemma_all_words_add(a, b.drop_last());
        assert(all_words(a + b) =~= all_words(a) + all_words(b));
    }
}

proof fn lemma_line_words(line: Seq<char>, max: nat)
    ensures
        all_words(wrap_line(line, max)) == chars::words(line),
{
    reveal_with_fuel(all_words, 2);
    if chars::bytes(line) <= max {
        assert(seq![line].drop_last() =~= seq![]);
        assert(all_words(seq![line]) =~= chars::words(line));
    } else {
        let words = chars::words(line);
        assert forall|i: int| 0 <= i < words.len() implies is_word(#[trigger] words[i]) by {
            chars::lemma_word(line, i);
        }
        lemma_words_kept(words, max);
        let (full, last) = wrap_words(words, max);
        if last.len() > 0 {
            assert(full.push(last).drop_last() =~= full);
        } else {
            assert(chars::words(last) =~= seq![]);
            assert(all_words(full) + chars::words(last) =~= all_words(full));
        }
    }
}

proof fn lemma_words_kept(words: Seq<Seq<char>>, max: nat)
    requires
        forall|i: int| 0 <= i < words.len() ==> is_word(#[trigger] words[i]),
    ensures
        all_words(wrap_words(words, max).0) + chars::words(wrap_words(words, max).1) == words,
    decreases words.len(),
{
    if words.len() == 0 {
        assert(chars::words(Seq::<char>::empty()) =~= seq![]);
        assert(all_words(wrap_words(words, max).0) + chars::words(wrap_words(words, max).1)
            =~= words);
    } else {
        let init = words.drop_last();
        let word = words.last();
        assert forall|i: int| 0 <= i < init.len() implies is_word(#[trigger] init[i]) by {
            assert(init[i] == words[i]);
        }
        lemma_words_kept(init, max);
        assert(is_word(words[words.len() - 1]));
        chars::lemma_words_one(word);
        let (full, line) = wrap_words(init, max);
        let (new_full, new_line) = wrap_words(words, max);
        assert(words =~= init.push(word));
        if line.len() == 0 {
            assert(chars::words(line) =~= seq![]);
            assert(all_words(full) + seq![word] =~= words);
        } else if chars::bytes(line) + 1 + chars::bytes(word) > max {
            assert(full.push(line).drop_last() =~= full);
            assert(all_words(new_full) =~= init);
            assert(init + seq![word] =~= words);
        } else {
            reveal_strlit(" ");
            assert(line + " "@ + word =~= line + (" "@ + word));
            chars::lemma_words_add(line, " "@ + word);
            chars::lemma_words_add(" "@, word);
            assert(chars::leading(" "@, chars::space()) == 1) by {
                chars::lemma_leading_is(" "@, chars::space(), 1);
            }
            assert(chars::words(" "@) =~= seq![]);
            assert(chars::words(" "@ + word) =~= seq![word]);
            assert(all_words(full) + (chars::words(line) + seq![word]) =~= words);
        }
    }
}

/// The lines of one page, at most `n`.
pub open spec fn page_len(lines: Seq<Seq<char>>, n: nat) -> int {
    if lines.len() < n {
        lines.len() as int
    } else {
        n as int
    }
}

/// The lines by pages: each has `n` of them, the last what is left.
pub open spec fn pages(lines: Seq<Seq<char>>, n: nat) -> Seq<Seq<Seq<char>>>
    decreases lines.len(),
{
    if lines.len() == 0 || n == 0 {
        seq![]
    } else {
        seq![lines.take(page_len(lines, n))] + pages(lines.skip(page_len(lines, n)), n)
    }
}

pub open spec fn page_views(items: Seq<Vec<String>>) -> Seq<Seq<Seq<char>>> {
    items.map_values(|page: Vec<String>| chars::views(page@))
}

/// How many lines go on a page.
pub const LINES_PER_PAGE: usize = 55;

/// How many bytes go on a line.
pub const LINE_WIDTH: usize = 110;

/// The lines by pages.
pub fn paginate(lines: &Vec<String>) -> (r: Vec<Vec<String>>)
    ensures
        page_views(r@) == pages(chars::views(lines@), LINES_PER_PAGE as nat),
{
    let ghost all = chars::views(lines@);
    let ghost n = LINES_PER_PAGE as nat;
    let mut out: Vec<Vec<String>> = Vec::new();
    let mut start: usize = 0;
    assert(all.skip(0) =~= all);
    assert(page_views(out@) + pages(all.skip(0), n) =~= pages(all, n));
    while start < lines.len()
        invariant
            start <= lines.len(),
            all == chars::views(lines@),
            n == LINES_PER_PAGE,
            page_views(out@) + pages(all.skip(start as int), n) == pages(all, n),
        decreases lines.len() - start,
    {
        let end: usize = if lines.len() - start < LINES_PER_PAGE {
            lines.len()
        } else {
            start + LINES_PER_PAGE
        };
        let mut page: Vec<String> = Vec::new();
        let ghost rest = all.skip(start as int);
        assert(chars::views(page@) =~= rest.take(0));
        for i in start..end
            invariant
                start <= end <= lines.len(),
                all == chars::views(lines@),
                rest == all.skip(start as int),
                chars::views(page@) == rest.take(i - start),
        {
            let ghost sofar = page@;
            page.push(lines[i].clone());
            assert(chars::views(page@) =~= chars::views(sofar).push(all[i as int]));
            assert(rest.take(i + 1 - start) =~= rest.take(i - start).push(all[i as int]));
        }
        let ghost sofar = out@;
        out.push(page);
        proof {
            assert(page_len(rest, n) == end - start);
            assert(rest.skip(end - start) =~= all.skip(end as int));
            assert(page_views(out@) =~= page_views(sofar).push(chars::views(page@)));
            assert(page_views(sofar) + (seq![rest.take(end - start)] + pages(
                all.skip(end as int),
                n,
            )) =~= page_views(out@) + pages(all.skip(end as int), n));
        }
        start = end;
    }
    assert(page_views(out@) + pages(all.skip(start as int), n) =~= page_views(out@));
    out
}

/// The pages one after another are the lines, and no page is empty or has too
/// many lines.
pub proof fn law_pages_hold_all_lines(lines: Seq<Seq<char>>, n: nat)
    requires
        n > 0,
    ensures
        pages(lines, n).flatten() == lines,
        forall|i: int|
            0 <= i < pages(lines, n).len() ==> 0 < (#[trigger] pages(lines, n)[i]).len() <= n,
    decreases lines.len(),
{
    if lines.len() == 0 {
        assert(pages(lines, n).flatten() =~= lines);
    } else {
        let k = page_len(lines, n);
        let head = lines.take(k);
        let rest = lines.skip(k);
        law_pages_hold_all_lines(rest, n);
        let all = pages(lines, n);
        assert(all.first() == head);
        assert(all.drop_first() =~= pages(rest, n));
        assert(all.flatten() == head + pages(rest, n).flatten());
        assert(lines =~= head + rest);
        assert forall|i: int| 0 <= i < all.len() implies 0 < (#[trigger] all[i]).len() <= n by {
            if i > 0 {
                assert(all[i] == pages(rest, n)[i - 1]);
            }
        }
    }
}

/// What to do to write a page.
pub enum PageOp {
    /// Begin a text.
    Begin,
    /// Choose the font and its size.
    Font,
    /// Choose the distance of lines.
    Leading,
    /// Go to the first line.
    Start,
    /// Go to the next line.
    NextLine,
    /// Show a line.
    Show(String),
    /// End the text.
    End,
}

/// What a `PageOp` says.
pub enum Mark {
    Begin,
    Font,
    Leading,
    Start,
    NextLine,
    Show(Seq<char>),
    End,
}

impl View for PageOp {
    type V = Mark;

    open spec fn view(&self) -> Mark {
        match self {
            PageOp::Begin => Mark::Begin,
            PageOp::Font => Mark::Font,
            PageOp::Leading => Mark::Leading,
            PageOp::Start => Mark::Start,
            PageOp::NextLine => Mark::NextLine,
            PageOp::Show(line) => Mark::Show(line@),
            PageOp::End => Mark::End,
        }
    }
}

pub open spec fn marks(items: Seq<PageOp>) -> Seq<Mark> {
    items.map_values(|op: PageOp| op@)
}

/// The lines of a page shown one below another.
pub open spec fn shown(lines: Seq<Seq<char>>) -> Seq<Mark>
    decreases lines.len(),
{
    if lines.len() == 0 {
        seq![]
    } else if lines.len() == 1 {
        seq![Mark::Show(lines[0])]
    } else {
        shown(lines.drop_last()) + seq![Mark::NextLine, Mark::Show(lines.last())]
    }
}

/// A page.
pub fn page_ops(lines: &Vec<String>) -> (r: Vec<PageOp>)
    ensures
        marks(r@) == seq![Mark::Begin, Mark::Font, Mark::Leading, Mark::Start] + shown(
            chars::views(lines@),
        ) + seq![Mark::End],
{
    let mut out: Vec<PageOp> = Vec::new();
    out.push(PageOp::Begin);
    out.push(PageOp::Font);
    out.push(PageOp::Leading);
    out.push(PageOp::Start);
    let ghost head = seq![Mark::Begin, Mark::Font, Mark::Leading, Mark::Start];
    let ghost all = chars::views(lines@);
    assert(marks(out@) =~= head + shown(all.take(0)));
    for i in 0..lines.len()
        invariant
            all == chars::views(lines@),
            marks(out@) == head + shown(all.take(i as int)),
    {
        let ghost sofar = out@;
        assert(all.take(i + 1).drop_last() =~= all.take(i as int));
        assert(all.take(i + 1).last() == lines@[i as int]@);
        if i > 0 {
            out.push(PageOp::NextLine);
        }
        out.push(PageOp::Show(lines[i].clone()));
        if i > 0 {
            assert(marks(out@) =~= marks(sofar) + seq![
                Mark::NextLine,
                Mark::Show(lines@[i as int]@),
            ]);
        } else {
            assert(marks(out@) =~= marks(sofar).push(Mark::Show(lines@[i as int]@)));
        }
        assert(marks(out@) =~= head + shown(all.take(i + 1)));
    }
    assert(all.take(all.len() as int) =~= all);
    let ghost sofar = out@;
    out.push(PageOp::End);
    assert(marks(out@) =~= marks(sofar) + seq![Mark::End]);
    out
}

/// A line that is not too long stays as it is, with the white space in it.
pub proof fn law_short_lines_stay(line: Seq<char>, max: nat)
    requires
        chars::bytes(line) <= max,
    ensures
        wrap_line(line, max) == seq![line],
{
}

/// The first word of a line that starts with it.
proof fn lemma_first_word(word: Seq<char>, rest: Seq<char>)
    requires
        is_word(word),
        rest.len() == 0 || chars::is_space(rest[0]),
    ensures
        chars::words(word + rest).len() > 0,
        chars::words(word + rest)[0] == word,
{
    chars::lemma_words_add(word, rest);
    chars::lemma_words_one(word);
    assert(chars::words(word + rest)[0] == word);
}

/// The line starts with the word, and white space or nothing follows it.
spec fn leads(line: Seq<char>, word: Seq<char>) -> bool {
    &&& is_word(word)
    &&& chars::starts_with(line, word)
    &&& line.len() > word.len() ==> chars::is_space(line[word.len() as int])
}

proof fn lemma_leads(line: Seq<char>, word: Seq<char>)
    requires
        leads(line, word),
    ensures
        chars::words(line).len() > 0,
        chars::words(line)[0] == word,
{
    let rest = line.skip(word.len() as int);
    assert(line =~= word + rest);
    if rest.len() > 0 {
        assert(rest[0] == line[word.len() as int]);
    }
    lemma_first_word(word, rest);
}

/// Of each line but the first, its first word did not fit behind the line before it.
spec fn is_greedy(lines: Seq<Seq<char>>, heads: Seq<Seq<char>>, max: nat) -> bool {
    &&& heads.len() == lines.len()
    &&& forall|i: int| 0 <= i < lines.len() ==> leads(#[trigger] lines[i], heads[i])
    &&& forall|i: int|
        #![trigger lines[i]]
        0 <= i < lines.len() - 1 ==> chars::bytes(lines[i]) + 1 + chars::bytes(heads[i + 1]) > max
}

proof fn lemma_greedy(words: Seq<Seq<char>>, max: nat) -> (heads: Seq<Seq<char>>)
    requires
        words.len() > 0,
        forall|i: int| 0 <= i < words.len() ==> is_word(#[trigger] words[i]),
    ensures
        wrap_words(words, max).1.len() > 0,
        is_greedy(wrap_words(words, max).0.push(wrap_words(words, max).1), heads, max),
    decreases words.len(),
{
    let front = words.drop_last();
    let word = words.last();
    assert(is_word(words[words.len() - 1]));
    assert(word.take(word.len() as int) =~= word);
    if front.len() == 0 {
        assert(wrap_words(front, max) == (Seq::<Seq<char>>::empty(), Seq::<char>::empty()));
        let all = Seq::<Seq<char>>::empty().push(word);
        assert(leads(word, word));
        seq![word]
    } else {
        assert forall|i: int| 0 <= i < front.len() implies is_word(#[trigger] front[i]) by {
            assert(front[i] == words[i]);
        }
        let heads = lemma_greedy(front, max);
        let (full, line) = wrap_words(front, max);
        let before = full.push(line);
        let n = full.len() as int;
        assert(before[n] == line);
        assert(leads(before[n], heads[n]));
        if chars::bytes(line) + 1 + chars::bytes(word) > max {
            let all = before.push(word);
            let more = heads.push(word);
            assert(leads(word, word));
            assert forall|i: int| 0 <= i < all.len() implies leads(#[trigger] all[i], more[i]) by {
                if i <= n {
                    assert(all[i] == before[i]);
                }
            }
            assert forall|i: int| #![trigger all[i]] 0 <= i < all.len() - 1 implies chars::bytes(all[i])
                + 1 + chars::bytes(more[i + 1]) > max by {
                assert(all[i] == before[i]);
                if i < n {
                    assert(more[i + 1] == heads[i + 1]);
                }
            }
            more
        } else {
            reveal_strlit(" ");
            let longer = line + " "@ + word;
            let all = full.push(longer);
            let head = heads[n];
            assert(longer.take(head.len() as int) =~= line.take(head.len() as int));
            if line.len() > head.len() {
                assert(longer[head.len() as int] == line[head.len() as int]);
            } else {
                assert(longer[head.len() as int] == ' ');
            }
            assert(leads(longer, head));
            assert forall|i: int| 0 <= i < all.len() implies leads(#[trigger] all[i], heads[i]) by {
                if i < n {
                    assert(all[i] == before[i]);
                }
            }
            assert forall|i: int| #![trigger all[i]] 0 <= i < all.len() - 1 implies chars::bytes(all[i])
                + 1 + chars::bytes(heads[i + 1]) > max by {
                assert(all[i] == before[i]);
            }
            heads
        }
    }
}

/// A line is broken only where it has to be: the first word of what follows would have
/// made it too long.
pub proof fn law_lines_are_filled(line: Seq<char>, max: nat, i: int)
    requires
        0 <= i < wrap_line(line, max).len() - 1,
    ensures
        chars::words(wrap_line(line, max)[i + 1]).len() > 0,
        chars::bytes(wrap_line(line, max)[i]) + 1 + chars::bytes(
            chars::words(wrap_line(line, max)[i + 1])[0],
        ) > max,
{
    let words = chars::words(line);
    assert forall|i: int| 0 <= i < words.len() implies is_word(#[trigger] words[i]) by {
        chars::lemma_word(line, i);
    }
    if words.len() > 0 {
        let heads = lemma_greedy(words, max);
        let all = wrap_words(words, max).0.push(wrap_words(words, max).1);
        assert(wrap_line(line, max) == all);
        assert(leads(all[i + 1], heads[i + 1]));
        lemma_leads(all[i + 1], heads[i + 1]);
        assert(chars::bytes(all[i]) + 1 + chars::bytes(heads[i + 1]) > max);
    } else {
        assert(words =~= seq![]);
        assert(wrap_words(words, max).0.len() == 0);
    }
}

/// Every page but the last is full.
pub proof fn law_pages_are_full(lines: Seq<Seq<char>>, n: nat, i: int)
    requires
        n > 0,
        0 <= i < pages(lines, n).len() - 1,
    ensures
        pages(lines, n)[i].len() == n,
    decreases lines.len(),
{
    let rest = lines.skip(page_len(lines, n));
    if i > 0 {
        law_pages_are_full(rest, n, i - 1);
        assert(pages(lines, n)[i] == pages(rest, n)[i - 1]);
    } else if lines.len() < n {
        assert(rest =~= seq![]);
        assert(pages(rest, n) =~= seq![]);
    }
}

/// Each line of a page is shown, one after the other, with a step to the next line
/// between them.
pub proof fn law_lines_shown(lines: Seq<Seq<char>>)
    ensures
        lines.len() == 0 ==> shown(lines).len() == 0,
        lines.len() > 0 ==> shown(lines).len() == 2 * lines.len() - 1,
        forall|k: int|
            0 <= k < shown(lines).len() ==> #[trigger] shown(lines)[k] == if k % 2 == 0 {
                Mark::Show(lines[k / 2])
            } else {
                Mark::NextLine
            },
    decreases lines.len(),
{
    if lines.len() > 1 {
        let front = lines.drop_last();
        let before = shown(front);
        law_lines_shown(front);
        assert forall|k: int| 0 <= k < shown(lines).len() implies #[trigger] shown(lines)[k] == (
        if k % 2 == 0 {
            Mark::Show(lines[k / 2])
        } else {
            Mark::NextLine
        }) by {
            if k < before.len() {
                assert(shown(lines)[k] == before[k]);
                assert(front[k / 2] == lines[k / 2]);
            }
        }
    }
}

} // verus!
