//! Lines of a written text: how often a given line occurs in a text that is
//! made of pieces, each ending in a line feed.

use vstd::prelude::*;
use crate::text::{
    cleaned, first_non_space, first_space, index_from, lemma_first_non_space_bounds,
    lemma_index_from_bounds, lemma_index_from_found, lemma_trimmed_end_bounds, lines_of, pieces,
    tokens, trimmed,
};

verus! {

/// Whether a text holds no line feed.
pub open spec fn no_line_break(s: Seq<char>) -> bool {
    forall|i: int| 0 <= i < s.len() ==> s[i] != '\n'
}

/// Whether none of the texts holds a line feed.
pub open spec fn all_on_single_lines(texts: Seq<Seq<char>>) -> bool {
    forall|i: int| 0 <= i < texts.len() ==> no_line_break(#[trigger] texts[i])
}

/// Whether a text is empty or ends in a line feed, so that what is written
/// after it starts a new line.
pub open spec fn closed(s: Seq<char>) -> bool {
    s.len() == 0 || s.last() == '\n'
}

/// How many of the lines equal `target`.
pub open spec fn count_of(lines: Seq<Seq<char>>, target: Seq<char>) -> nat
    decreases lines.len(),
{
    if lines.len() == 0 {
        0
    } else {
        count_of(lines.drop_first(), target) + if lines[0] == target {
            1nat
        } else {
            0nat
        }
    }
}

/// How many lines of the text equal `target`.
pub open spec fn occurrences(text: Seq<char>, target: Seq<char>) -> nat {
    count_of(lines_of(text), target)
}

/// The lines of a closed text followed by another are the lines of the one
/// followed by the lines of the other.
pub proof fn lemma_lines_of_concat(a: Seq<char>, b: Seq<char>)
    requires
        closed(a),
    ensures
        lines_of(a + b) == lines_of(a) + lines_of(b),
    decreases a.len(),
{
    if a.len() == 0 {
        assert(a + b =~= b);
        assert(lines_of(a) + lines_of(b) =~= lines_of(b));
    } else {
        let k = index_from(a, '\n', 0);
        lemma_index_from_bounds(a, '\n', 0);
        assert(k < a.len()) by {
            if k >= a.len() {
                assert(a[a.len() - 1] != '\n');
            }
        }
        lemma_index_from_found(a + b, '\n', k);
        let rest = a.skip(k + 1);
        assert((a + b).take(k) =~= a.take(k));
        assert((a + b).skip(k + 1) =~= rest + b);
        assert(closed(rest)) by {
            if rest.len() > 0 {
                assert(rest.last() == a.last());
            }
        }
        lemma_lines_of_concat(rest, b);
        assert(seq![a.take(k)] + (lines_of(rest) + lines_of(b)) =~= (seq![a.take(k)] + lines_of(
            rest,
        )) + lines_of(b));
    }
}

/// Counting over two sequences of lines, one after the other, adds up.
pub proof fn lemma_count_of_concat(a: Seq<Seq<char>>, b: Seq<Seq<char>>, target: Seq<char>)
    ensures
        count_of(a + b, target) == count_of(a, target) + count_of(b, target),
    decreases a.len(),
{
    if a.len() == 0 {
        assert(a + b =~= b);
    } else {
        lemma_count_of_concat(a.drop_first(), b, target);
        assert((a + b).drop_first() =~= a.drop_first() + b);
    }
}

/// The occurrences in a closed text followed by another add up, and the two
/// together are closed where the second is.
pub proof fn lemma_occurrences_concat(a: Seq<char>, b: Seq<char>, target: Seq<char>)
    requires
        closed(a),
    ensures
        occurrences(a + b, target) == occurrences(a, target) + occurrences(b, target),
        closed(b) ==> closed(a + b),
{
    lemma_lines_of_concat(a, b);
    lemma_count_of_concat(lines_of(a), lines_of(b), target);
    if closed(b) && b.len() > 0 {
        assert((a + b).last() == b.last());
    }
    if b.len() == 0 {
        assert(a + b =~= a);
    }
}

/// A text without line feed, followed by one, is one line: that text.
pub proof fn lemma_one_line(body: Seq<char>, target: Seq<char>)
    requires
        no_line_break(body),
    ensures
        lines_of(body + seq!['\n']) == seq![body],
        closed(body + seq!['\n']),
        occurrences(body + seq!['\n'], target) == if body == target {
            1nat
        } else {
            0nat
        },
{
    let text = body + seq!['\n'];
    lemma_index_from_found(text, '\n', body.len() as int);
    assert(text.take(body.len() as int) =~= body);
    assert(text.skip(body.len() as int + 1) =~= Seq::<char>::empty());
    assert(lines_of(Seq::<char>::empty()) =~= Seq::<Seq<char>>::empty());
    assert(lines_of(text) =~= seq![body]);
    assert(seq![body].drop_first() =~= Seq::<Seq<char>>::empty());
    assert(count_of(Seq::<Seq<char>>::empty(), target) == 0);
}

/// The lines of a text hold no line feed.
pub proof fn lemma_lines_on_single_lines(text: Seq<char>)
    ensures
        all_on_single_lines(lines_of(text)),
    decreases text.len(),
{
    let k = index_from(text, '\n', 0);
    lemma_index_from_bounds(text, '\n', 0);
    if text.len() > 0 && 0 <= k < text.len() {
        let rest = text.skip(k + 1);
        lemma_lines_on_single_lines(rest);
        let all = lines_of(text);
        assert forall|i: int| 0 <= i < all.len() implies no_line_break(#[trigger] all[i]) by {
            if i > 0 {
                assert(all[i] == lines_of(rest)[i - 1]);
            }
        }
    }
}

/// The pieces of a text without line feed hold none.
pub proof fn lemma_pieces_on_single_lines(s: Seq<char>, sep: char)
    requires
        no_line_break(s),
    ensures
        all_on_single_lines(pieces(s, sep)),
    decreases s.len(),
{
    let k = index_from(s, sep, 0);
    lemma_index_from_bounds(s, sep, 0);
    if 0 <= k < s.len() {
        let rest = s.skip(k + 1);
        lemma_pieces_on_single_lines(rest, sep);
        let all = pieces(s, sep);
        assert forall|i: int| 0 <= i < all.len() implies no_line_break(#[trigger] all[i]) by {
            if i > 0 {
                assert(all[i] == pieces(rest, sep)[i - 1]);
            }
        }
    }
}

/// A text without line feed, trimmed, holds none.
pub proof fn lemma_trimmed_on_single_line(s: Seq<char>)
    requires
        no_line_break(s),
    ensures
        no_line_break(trimmed(s)),
{
    lemma_first_non_space_bounds(s, 0);
    lemma_trimmed_end_bounds(s, first_non_space(s, 0), s.len() as int);
}

/// A line without line feed, cleaned, holds none.
pub proof fn lemma_cleaned_on_single_line(line: Seq<char>)
    requires
        no_line_break(line),
    ensures
        no_line_break(cleaned(line)),
{
    lemma_index_from_bounds(line, ';', 0);
    lemma_trimmed_on_single_line(line.take(index_from(line, ';', 0)));
}

/// The tokens of a text without line feed hold none.
pub proof fn lemma_tokens_on_single_lines(s: Seq<char>)
    requires
        no_line_break(s),
    ensures
        all_on_single_lines(tokens(s)),
    decreases s.len(),
{
    let a = first_non_space(s, 0);
    let b = first_space(s, a);
    if 0 <= a < b <= s.len() {
        let rest = s.skip(b);
        lemma_tokens_on_single_lines(rest);
        let all = tokens(s);
        assert forall|i: int| 0 <= i < all.len() implies no_line_break(#[trigger] all[i]) by {
            if i > 0 {
                assert(all[i] == tokens(rest)[i - 1]);
            }
        }
    }
}

/// Whether a string holds no line feed.
pub fn on_single_line(s: &str) -> (b: bool)
    ensures
        b == no_line_break(s@),
{
    for c in it: s.chars()
        invariant
            it.seq() == s@,
            forall|k: int| 0 <= k < it.index() ==> s@[k] != '\n',
    {
        if c == '\n' {
            assert(s@[it.index() as int] == '\n');
            return false;
        }
    }
    true
}

} // verus!
