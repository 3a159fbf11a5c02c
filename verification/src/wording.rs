//! How texts are put together from lines, words and parts, and that taking them
//! apart gives the same lines, words and parts.
//!
//! The words of this module describe text alone. They are not used to define
//! how text is taken apart.
use crate::text::{
    after_last, filled_lines, first_chars, index_of, is_whitespace, join, leading,
    lemma_filled_lines_cons, lemma_join_cons, lemma_leading_is, lemma_trailing_is, lines, split,
    strip_return, trim, trim_start, words, CharClass,
};
use crate::written::is_white;
use vstd::prelude::*;

verus! {

/// Whether the text does not hold the character.
pub open spec fn is_without(s: Seq<char>, c: char) -> bool {
    forall|i: int| 0 <= i < s.len() ==> s[i] != c
}

/// Lines, each with its ending: a line feed, or a carriage return and a line
/// feed where `with_returns` says so.
pub open spec fn ended_lines(ls: Seq<Seq<char>>, with_returns: Seq<bool>) -> Seq<char>
    decreases ls.len(),
{
    if ls.len() == 0 {
        seq![]
    } else {
        ls[0] + (if with_returns[0] {
            seq!['\r', '\n']
        } else {
            seq!['\n']
        }) + ended_lines(ls.drop_first(), with_returns.drop_first())
    }
}

/// Whether the line can stand before such an ending: it holds no line feed, and
/// before a line feed alone it does not end in a carriage return.
pub open spec fn can_be_ended(l: Seq<char>, with_return: bool) -> bool {
    &&& is_without(l, '\n')
    &&& with_return || l.len() == 0 || l.last() != '\r'
}

/// The lines of an output are reported as they are, character for character and
/// in order, but for the empty ones, which are left out. A last line without an
/// ending is reported like the others.
pub proof fn filled_lines_are_the_lines(
    ls: Seq<Seq<char>>,
    with_returns: Seq<bool>,
    last: Seq<char>,
)
    requires
        ls.len() == with_returns.len(),
        forall|i: int| 0 <= i < ls.len() ==> can_be_ended(#[trigger] ls[i], with_returns[i]),
        is_without(last, '\n'),
    ensures
        filled_lines(ended_lines(ls, with_returns) + last) == ls.push(last).filter(
            |l: Seq<char>| l.len() > 0,
        ),
    decreases ls.len(),
{
    let text = ended_lines(ls, with_returns) + last;
    let keep = |l: Seq<char>| l.len() > 0;
    if ls.len() == 0 {
        assert(text =~= last);
        assert(ls.push(last) =~= seq![last] + Seq::<Seq<char>>::empty());
        lemma_filled_lines_cons(last, seq![]);
        assert forall|i: int| 0 <= i < text.len() implies CharClass::Except('\n').has(
            #[trigger] text[i],
        ) by {
            assert(last[i] != '\n');
        }
        lemma_leading_is(text, CharClass::Except('\n'), text.len());
        reveal(Seq::filter);
        if last.len() > 0 {
            assert(lines(text) == seq![text]);
            assert(seq![text] + Seq::<Seq<char>>::empty() =~= seq![text]);
        } else {
            assert(lines(text) == Seq::<Seq<char>>::empty());
        }
        assert(filled_lines(text) =~= ls.push(last).filter(keep));
    } else {
        let first = ls[0];
        let more = ls.drop_first();
        let ends = with_returns.drop_first();
        assert(can_be_ended(ls[0], with_returns[0]));
        assert forall|i: int| 0 <= i < more.len() implies can_be_ended(
            #[trigger] more[i],
            ends[i],
        ) by {
            assert(can_be_ended(ls[i + 1], with_returns[i + 1]));
        }
        filled_lines_are_the_lines(more, ends, last);
        let rest = ended_lines(more, ends) + last;
        let body = if with_returns[0] {
            first + seq!['\r']
        } else {
            first
        };
        assert(text =~= body + seq!['\n'] + rest);
        assert forall|i: int| 0 <= i < body.len() implies CharClass::Except('\n').has(
            #[trigger] text[i],
        ) by {
            if i < first.len() {
                assert(text[i] == first[i]);
            }
        }
        assert(text[body.len() as int] == '\n');
        lemma_leading_is(text, CharClass::Except('\n'), body.len());
        assert(text.take(body.len() as int) =~= body);
        assert(text.skip(body.len() as int + 1) =~= rest);
        assert(strip_return(body) =~= first);
        assert(lines(text) == seq![first] + lines(rest));
        lemma_filled_lines_cons(first, lines(rest));
        lemma_filled_lines_cons(first, more.push(last));
        assert(ls.push(last) =~= seq![first] + more.push(last));
    }
}

/// Whether the text is one word: not empty and without white space.
pub open spec fn is_word(w: Seq<char>) -> bool {
    w.len() > 0 && forall|i: int| 0 <= i < w.len() ==> !is_whitespace(#[trigger] w[i])
}

/// Words with gaps before, between and behind them.
pub open spec fn spaced(ws: Seq<Seq<char>>, gaps: Seq<Seq<char>>) -> Seq<char>
    decreases ws.len(),
{
    if ws.len() == 0 {
        gaps[0]
    } else {
        gaps[0] + ws[0] + spaced(ws.drop_first(), gaps.drop_first())
    }
}

/// Whether these are words, with white space for gaps, and a gap between each
/// two words.
pub open spec fn is_spacing(ws: Seq<Seq<char>>, gaps: Seq<Seq<char>>) -> bool {
    &&& gaps.len() == ws.len() + 1
    &&& forall|i: int| 0 <= i < ws.len() ==> is_word(#[trigger] ws[i])
    &&& forall|i: int| 0 <= i < gaps.len() ==> is_white(#[trigger] gaps[i])
    &&& forall|i: int| 0 < i < ws.len() ==> (#[trigger] gaps[i]).len() > 0
}

/// Whether the text is made of the words, in this order, with white space
/// between them.
pub open spec fn is_made_of(s: Seq<char>, ws: Seq<Seq<char>>) -> bool {
    exists|gaps: Seq<Seq<char>>| #[trigger] is_spacing(ws, gaps) && s == spaced(ws, gaps)
}

/// The words of a text are those that it was made of, character for character
/// and in order.
pub proof fn words_are_the_words(s: Seq<char>, ws: Seq<Seq<char>>)
    requires
        is_made_of(s, ws),
    ensures
        words(s) == ws,
{
    let gaps = choose|gaps: Seq<Seq<char>>| #[trigger]
        is_spacing(ws, gaps) && s == spaced(ws, gaps);
    lemma_words_of_spaced(ws, gaps);
}

proof fn lemma_words_of_spaced(ws: Seq<Seq<char>>, gaps: Seq<Seq<char>>)
    requires
        is_spacing(ws, gaps),
    ensures
        words(spaced(ws, gaps)) == ws,
    decreases ws.len(),
{
    let s = spaced(ws, gaps);
    let white = gaps[0];
    assert(is_white(white));
    if ws.len() == 0 {
        assert forall|i: int| 0 <= i < s.len() implies CharClass::White.has(#[trigger] s[i]) by {
            assert(is_whitespace(white[i]));
        }
        lemma_leading_is(s, CharClass::White, s.len());
        assert(s.skip(s.len() as int) =~= seq![]);
        assert(leading(Seq::<char>::empty(), CharClass::Visible) == 0);
        assert(words(s) =~= ws);
    } else {
        let first = ws[0];
        let more = ws.drop_first();
        let later = gaps.drop_first();
        assert(is_word(ws[0]));
        assert(is_spacing(more, later)) by {
            assert forall|i: int| 0 <= i < more.len() implies is_word(#[trigger] more[i]) by {
                assert(is_word(ws[i + 1]));
            }
            assert forall|i: int| 0 <= i < later.len() implies is_white(#[trigger] later[i]) by {
                assert(is_white(gaps[i + 1]));
            }
            assert forall|i: int| 0 < i < more.len() implies (#[trigger] later[i]).len() > 0 by {
                assert(gaps[i + 1].len() > 0);
            }
        }
        lemma_words_of_spaced(more, later);
        let rest = spaced(more, later);
        assert(s =~= white + first + rest);
        assert forall|i: int| 0 <= i < white.len() implies CharClass::White.has(
            #[trigger] s[i],
        ) by {
            assert(is_whitespace(white[i]));
        }
        assert(s[white.len() as int] == first[0]);
        lemma_leading_is(s, CharClass::White, white.len());
        let t = s.skip(white.len() as int);
        assert(t =~= first + rest);
        assert forall|i: int| 0 <= i < first.len() implies CharClass::Visible.has(
            #[trigger] t[i],
        ) by {
            assert(!is_whitespace(first[i]));
        }
        if rest.len() > 0 {
            let gap = later[0];
            assert(gap == gaps[1]);
            assert(is_white(gaps[1]));
            if more.len() > 0 {
                assert(gaps[1].len() > 0);
            }
            assert(rest[0] == gap[0]);
            assert(t[first.len() as int] == rest[0]);
            assert(is_whitespace(gap[0]));
        }
        lemma_leading_is(t, CharClass::Visible, first.len());
        assert(t.take(first.len() as int) =~= first);
        assert(t.skip(first.len() as int) =~= rest);
        assert(words(s) == seq![first] + words(rest));
        assert(seq![first] + more =~= ws);
    }
}

/// Whether the code point is one of those that Unicode counts as white space.
pub open spec fn is_space_code(n: u32) -> bool {
    9 <= n <= 13 || n == 32 || n == 0x85 || n == 0xa0 || n == 0x1680 || 0x2000 <= n <= 0x200a || n
        == 0x2028 || n == 0x2029 || n == 0x202f || n == 0x205f || n == 0x3000
}

/// Each set of characters holds those that its name says, by their code points.
pub proof fn classes_hold_their_characters(c: char, x: char)
    ensures
        is_whitespace(c) == is_space_code(c as u32),
        CharClass::White.has(c) == is_space_code(c as u32),
        CharClass::Visible.has(c) == !is_space_code(c as u32),
        CharClass::Except(x).has(c) == (c as u32 != x as u32),
        CharClass::Numeric.has(c) == (48 <= c as u32 <= 57 || c as u32 == 45),
        CharClass::Brace.has(c) == (c as u32 == 123 || c as u32 == 125),
{
}

/// The first place of a character is the one with none of it in front.
pub proof fn first_place_is_found(front: Seq<char>, c: char, back: Seq<char>)
    requires
        is_without(front, c),
    ensures
        index_of(front + seq![c] + back, c) == Some(front.len()),
        index_of(front, c) is None,
{
    let s = front + seq![c] + back;
    assert forall|i: int| 0 <= i < front.len() implies CharClass::Except(c).has(
        #[trigger] s[i],
    ) by {
        assert(s[i] == front[i]);
    }
    assert(s[front.len() as int] == c);
    lemma_leading_is(s, CharClass::Except(c), front.len());
    assert forall|i: int| 0 <= i < front.len() implies CharClass::Except(c).has(
        #[trigger] front[i],
    ) by {
        assert(front[i] != c);
    }
    lemma_leading_is(front, CharClass::Except(c), front.len());
}

/// Trimming takes the characters of the class at both ends and nothing else, and
/// trimming the start leaves the end.
pub proof fn trim_takes_class_alone(
    front: Seq<char>,
    middle: Seq<char>,
    back: Seq<char>,
    class: CharClass,
)
    requires
        forall|i: int| 0 <= i < front.len() ==> class.has(#[trigger] front[i]),
        forall|i: int| 0 <= i < back.len() ==> class.has(#[trigger] back[i]),
        middle.len() > 0 ==> !class.has(middle[0]) && !class.has(middle.last()),
    ensures
        trim(front + middle + back, class) == middle,
        middle.len() > 0 ==> trim_start(front + middle + back, class) == middle + back,
        middle.len() == 0 ==> trim_start(front + middle + back, class).len() == 0,
{
    let s = front + middle + back;
    assert forall|i: int| 0 <= i < front.len() implies class.has(#[trigger] s[i]) by {
        assert(s[i] == front[i]);
    }
    if middle.len() == 0 {
        assert forall|i: int| 0 <= i < s.len() implies class.has(#[trigger] s[i]) by {
            if i >= front.len() {
                assert(s[i] == back[i - front.len()]);
            }
        }
        lemma_leading_is(s, class, s.len());
        assert(s.skip(s.len() as int) =~= seq![]);
        assert(trim(s, class) =~= middle);
    } else {
        assert(s[front.len() as int] == middle[0]);
        lemma_leading_is(s, class, front.len());
        let t = s.skip(front.len() as int);
        assert(t =~= middle + back);
        assert forall|i: int| t.len() - back.len() <= i < t.len() implies class.has(
            #[trigger] t[i],
        ) by {
            assert(t[i] == back[i - middle.len()]);
        }
        assert(t[t.len() - back.len() - 1] == middle.last());
        lemma_trailing_is(t, class, back.len());
        assert(t.take(middle.len() as int) =~= middle);
    }
}

/// Trimming takes the white space at both ends and nothing else.
pub proof fn trim_takes_ends_alone(front: Seq<char>, middle: Seq<char>, back: Seq<char>)
    requires
        is_white(front),
        is_white(back),
        middle.len() > 0 ==> !is_whitespace(middle[0]) && !is_whitespace(middle.last()),
    ensures
        trim(front + middle + back, CharClass::White) == middle,
{
    trim_takes_class_alone(front, middle, back, CharClass::White);
}

/// What stands behind the last `c` is what was written behind it, and a text
/// without `c` is kept whole.
pub proof fn after_last_is_what_follows(front: Seq<char>, c: char, back: Seq<char>)
    requires
        is_without(back, c),
    ensures
        after_last(front + seq![c] + back, c) == back,
        after_last(back, c) == back,
{
    let s = front + seq![c] + back;
    assert forall|i: int| s.len() - back.len() <= i < s.len() implies CharClass::Except(c).has(
        #[trigger] s[i],
    ) by {
        assert(s[i] == back[i - front.len() - 1]);
    }
    assert(s[s.len() - back.len() - 1] == c);
    lemma_trailing_is(s, CharClass::Except(c), back.len());
    assert(s.skip(front.len() as int + 1) =~= back);
    assert forall|i: int| 0 <= i < back.len() implies CharClass::Except(c).has(
        #[trigger] back[i],
    ) by {
        assert(back[i] != c);
    }
    lemma_trailing_is(back, CharClass::Except(c), back.len());
    assert(back.skip(0) =~= back);
}

/// The parts one after another, with `c` between each two.
pub open spec fn parted_by(parts: Seq<Seq<char>>, c: char) -> Seq<char>
    decreases parts.len(),
{
    if parts.len() == 0 {
        seq![]
    } else if parts.len() == 1 {
        parts[0]
    } else {
        parts[0] + seq![c] + parted_by(parts.drop_first(), c)
    }
}

/// Splitting a text at a character gives the parts that it was put together
/// from, and joining them gives the text.
pub proof fn split_gives_the_parts(parts: Seq<Seq<char>>, c: char)
    requires
        parts.len() > 0,
        forall|i: int| 0 <= i < parts.len() ==> is_without(#[trigger] parts[i], c),
    ensures
        split(parted_by(parts, c), c) == parts,
    decreases parts.len(),
{
    let s = parted_by(parts, c);
    let first = parts[0];
    assert(is_without(parts[0], c));
    assert forall|i: int| 0 <= i < first.len() implies CharClass::Except(c).has(
        #[trigger] s[i],
    ) by {
        assert(s[i] == first[i]);
    }
    if parts.len() == 1 {
        lemma_leading_is(s, CharClass::Except(c), s.len());
        assert(parts =~= seq![s]);
    } else {
        let more = parts.drop_first();
        assert forall|i: int| 0 <= i < more.len() implies is_without(#[trigger] more[i], c) by {
            assert(is_without(parts[i + 1], c));
        }
        split_gives_the_parts(more, c);
        assert(s[first.len() as int] == c);
        lemma_leading_is(s, CharClass::Except(c), first.len());
        assert(s.take(first.len() as int) =~= first);
        assert(s.skip(first.len() as int + 1) =~= parted_by(more, c));
        assert(seq![first] + more =~= parts);
    }
}

/// Joining puts the separator between each two parts.
pub proof fn join_parts_by(parts: Seq<Seq<char>>, c: char)
    ensures
        join(parts, seq![c]) == parted_by(parts, c),
    decreases parts.len(),
{
    if parts.len() > 1 {
        let more = parts.drop_first();
        join_parts_by(more, c);
        lemma_join_cons(parts[0], more, seq![c]);
        assert(seq![parts[0]] + more =~= parts);
    }
}

/// The first characters of a text are its start, and all of a shorter text.
pub proof fn first_chars_are_the_start(s: Seq<char>, more: Seq<char>, n: nat)
    ensures
        s.len() == n ==> first_chars(s + more, n) == s,
        s.len() <= n ==> first_chars(s, n) == s,
{
    if s.len() == n {
        assert((s + more).take(n as int) =~= s);
        assert(more.len() == 0 ==> s + more =~= s);
    }
}

} // verus!
