//! Section patterns: the comma-separated text of a placement rule, and the
//! section-name stems that it stands for.

use vstd::prelude::*;
use vstd::string::StringExecFns;
use crate::ast::{texts, SagFile};
use crate::text::{
    equals, index_from, lemma_index_from_bounds, lemma_index_from_found, lemma_trimmed_fixed,
    pieces, split, to_chars, to_string, trim, trimmed, views,
};

verus! {

/// The stems that one trimmed token of a pattern stands for: the fixed lists
/// of the four shorthands; a name without its leading dot; any other text as
/// it is.
pub open spec fn stems_of(token: Seq<char>) -> Seq<Seq<char>> {
    if token == "+ISR"@ {
        seq!["vectors"@, "isr"@]
    } else if token == "+RO"@ {
        seq!["text"@, "rodata"@, "srodata"@]
    } else if token == "+RW"@ {
        seq!["data"@, "sdata"@]
    } else if token == "+ZI"@ {
        seq!["bss"@, "sbss"@]
    } else if token.len() > 0 && token[0] == '.' {
        seq![token.skip(1)]
    } else {
        seq![token]
    }
}

/// The stems of a sequence of tokens, each trimmed first: those of the first
/// token, then those of the second, and so on.
pub open spec fn stems_of_all(parts: Seq<Seq<char>>) -> Seq<Seq<char>>
    decreases parts.len(),
{
    if parts.len() == 0 {
        Seq::empty()
    } else {
        stems_of_all(parts.drop_last()) + stems_of(trimmed(parts.last()))
    }
}

/// The stems that a pattern stands for: those of its tokens between commas,
/// from left to right.
pub open spec fn expansion(pattern: Seq<char>) -> Seq<Seq<char>> {
    stems_of_all(pieces(pattern, ','))
}

/// The stems of two sequences of tokens, one after the other, are the stems of
/// the first followed by those of the second.
pub proof fn lemma_stems_of_all_concat(a: Seq<Seq<char>>, b: Seq<Seq<char>>)
    ensures
        stems_of_all(a + b) == stems_of_all(a) + stems_of_all(b),
    decreases b.len(),
{
    if b.len() == 0 {
        assert(a + b =~= a);
        assert(stems_of_all(a) + stems_of_all(b) =~= stems_of_all(a));
    } else {
        lemma_stems_of_all_concat(a, b.drop_last());
        assert((a + b).drop_last() =~= a + b.drop_last());
        assert((a + b).last() == b.last());
        assert((stems_of_all(a) + stems_of_all(b.drop_last())) + stems_of(trimmed(b.last()))
            =~= stems_of_all(a) + (stems_of_all(b.drop_last()) + stems_of(trimmed(b.last()))));
    }
}

/// The pieces of two texts joined by the separator are the pieces of the first
/// followed by the pieces of the second.
pub proof fn lemma_pieces_concat(a: Seq<char>, b: Seq<char>, sep: char)
    ensures
        pieces(a + seq![sep] + b, sep) == pieces(a, sep) + pieces(b, sep),
    decreases a.len(),
{
    let joined = a + seq![sep] + b;
    let k = index_from(a, sep, 0);
    lemma_index_from_bounds(a, sep, 0);
    if k < a.len() {
        lemma_index_from_found(joined, sep, k);
        let rest = a.skip(k + 1);
        lemma_pieces_concat(rest, b, sep);
        assert(joined.take(k) =~= a.take(k));
        assert(joined.skip(k + 1) =~= rest + seq![sep] + b);
        assert(seq![a.take(k)] + (pieces(rest, sep) + pieces(b, sep)) =~= (seq![a.take(k)]
            + pieces(rest, sep)) + pieces(b, sep));
    } else {
        lemma_index_from_found(joined, sep, a.len() as int);
        assert(joined.take(a.len() as int) =~= a);
        assert(joined.skip(a.len() as int + 1) =~= b);
    }
}

/// A pattern made of two patterns with a comma between them stands for the
/// stems of the first followed by the stems of the second.
pub proof fn law_expansion_splits_at_comma(left: Seq<char>, right: Seq<char>)
    ensures
        expansion(left + seq![','] + right) == expansion(left) + expansion(right),
{
    lemma_pieces_concat(left, right, ',');
    lemma_stems_of_all_concat(pieces(left, ','), pieces(right, ','));
}

/// `+RO` alone stands for the stems of code, read-only data and small
/// read-only data, in that order.
pub proof fn law_ro_alone()
    ensures
        expansion("+RO"@) == seq!["text"@, "rodata"@, "srodata"@],
{
    reveal_strlit("+RO");
    reveal_strlit("+ISR");
    let ro = "+RO"@;
    lemma_index_from_found(ro, ',', 3);
    lemma_trimmed_fixed(ro);
    assert(pieces(ro, ',') =~= seq![ro]);
    assert(seq![ro].drop_last() =~= Seq::<Seq<char>>::empty());
    assert(stems_of_all(Seq::<Seq<char>>::empty()) =~= Seq::<Seq<char>>::empty());
    assert(seq![ro].last() == ro);
    assert(stems_of_all(seq![ro]) =~= stems_of(ro));
}

/// `+RO` between two commas stands for the stems of code, read-only data and
/// small read-only data, in that order, whatever stands to its left and to its
/// right: the pattern's stems are those of the left part, these three, and
/// those of the right part.
pub proof fn law_ro_expands_in_place(left: Seq<char>, right: Seq<char>)
    ensures
        expansion(left + seq![','] + "+RO"@ + seq![','] + right) == expansion(left) + seq![
            "text"@,
            "rodata"@,
            "srodata"@,
        ] + expansion(right),
{
    let tail = "+RO"@ + seq![','] + right;
    law_expansion_splits_at_comma("+RO"@, right);
    law_expansion_splits_at_comma(left, tail);
    law_ro_alone();
    assert(left + seq![','] + "+RO"@ + seq![','] + right =~= left + seq![','] + tail);
    assert(expansion(left) + (expansion("+RO"@) + expansion(right)) =~= expansion(left)
        + expansion("+RO"@) + expansion(right));
}

/// Appends the stems that one trimmed token stands for.
fn push_stems(sections: &mut Vec<String>, token: &[char])
    ensures
        texts(final(sections)@) == texts(old(sections)@) + stems_of(token@),
{
    let ghost before = texts(sections@);
    if equals(token, "+ISR") {
        sections.push(String::from_str("vectors"));
        sections.push(String::from_str("isr"));
    } else if equals(token, "+RO") {
        sections.push(String::from_str("text"));
        sections.push(String::from_str("rodata"));
        sections.push(String::from_str("srodata"));
    } else if equals(token, "+RW") {
        sections.push(String::from_str("data"));
        sections.push(String::from_str("sdata"));
    } else if equals(token, "+ZI") {
        sections.push(String::from_str("bss"));
        sections.push(String::from_str("sbss"));
    } else if token.len() > 0 && token[0] == '.' {
        sections.push(to_string(vstd::slice::slice_subrange(token, 1, token.len())));
    } else {
        sections.push(to_string(token));
    }
    assert(texts(sections@) =~= before + stems_of(token@));
}

impl SagFile {
    /// The section-name stems that a pattern stands for.
    pub fn expand_section_pattern(&self, pattern: &str) -> (sections: Vec<String>)
        ensures
            texts(sections@) == expansion(pattern@),
    {
        let chars = to_chars(pattern);
        let parts = split(chars.as_slice(), ',');
        let mut sections: Vec<String> = Vec::new();
        let n = parts.len();
        let mut i: usize = 0;
        assert(views(parts@).take(0) =~= Seq::<Seq<char>>::empty());
        assert(texts(sections@) =~= Seq::<Seq<char>>::empty());
        while i < n
            invariant
                n == parts@.len(),
                0 <= i <= n,
                texts(sections@) == stems_of_all(views(parts@).take(i as int)),
            decreases n - i,
        {
            proof {
                let done = views(parts@).take(i + 1);
                assert(done.drop_last() =~= views(parts@).take(i as int));
                assert(done.last() == parts@[i as int]@);
            }
            push_stems(&mut sections, trim(parts[i]));
            i += 1;
        }
        assert(views(parts@).take(n as int) =~= views(parts@));
        sections
    }
}

} // verus!
