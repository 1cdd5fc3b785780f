//! What a SAG description means: the syntax tree, or the first failure, that
//! its lines stand for. The functions here are specifications; the parser is
//! proved to compute them.
//!
//! Every line is read cleaned: without its `;` comment and trimmed. A line
//! that is empty once cleaned counts nowhere. A description is a list of
//! `USER_SECTIONS` lines and blocks; a block is a header line, `{`, regions and
//! `}`; a region is a header line, `{`, directives and `}`.

use vstd::prelude::*;
use crate::address::{address_of, Address};
use crate::ast::{
    directives_on_single_lines, is_reserved, BlockView, DirectiveView, RegionView, SagFileView,
};
use crate::lines::{
    all_on_single_lines, lemma_cleaned_on_single_line, lemma_lines_on_single_lines,
    lemma_tokens_on_single_lines, lemma_trimmed_on_single_line, no_line_break,
};
use crate::error::Failure;
use crate::number::unsigned_of;
use crate::text::{
    cleaned, end_of_last, index_from, is_ascii_uppercase, lemma_end_of_last_bounds,
    lemma_index_from_bounds, lines_of, same_ignoring_ascii_case, tokens, trimmed,
};

verus! {

/// The number by which a failure cites the line at `index`: counted from 1,
/// and no larger than a `usize` can hold.
pub open spec fn line_number(index: int) -> nat {
    if index < usize::MAX {
        (index + 1) as nat
    } else {
        usize::MAX as nat
    }
}

/// Index of the first line at or after `i` that is not empty once cleaned; the
/// number of lines if there is none.
pub open spec fn next_content(lines: Seq<Seq<char>>, i: int) -> int
    decreases lines.len() - i,
{
    if 0 <= i < lines.len() && cleaned(lines[i]).len() == 0 {
        next_content(lines, i + 1)
    } else {
        i
    }
}

/// Whether the cleaned line at `i` starts with `c`.
pub open spec fn starts_line(lines: Seq<Seq<char>>, i: int, c: char) -> bool {
    cleaned(lines[i]).len() > 0 && cleaned(lines[i])[0] == c
}

/// What follows `ADDR` or `LOADADDR`: whether `NEXT` stands first, and the
/// symbol's name.
pub open spec fn next_and_symbol(rest: Seq<char>) -> (bool, Seq<char>) {
    if "NEXT"@.is_prefix_of(rest) {
        (true, trimmed(rest.skip(4)))
    } else {
        (false, rest)
    }
}

/// The value that follows `STACK`: after an optional `=`, a hexadecimal number
/// behind `0x` or `0X`, else a decimal one.
pub open spec fn stack_value(rest: Seq<char>) -> Option<u64> {
    let rest = trimmed(rest);
    let value = trimmed(
        if rest.len() > 0 && rest[0] == '=' {
            rest.skip(1)
        } else {
            rest
        },
    );
    if "0x"@.is_prefix_of(value) || "0X"@.is_prefix_of(value) {
        unsigned_of(value.skip(2), 16)
    } else {
        unsigned_of(value, 10)
    }
}

/// The pattern of a placement rule: what stands between the first `(` and the
/// last `)`, trimmed, where the `)` comes after the `(`.
pub open spec fn section_pattern(rest: Seq<char>) -> Option<Seq<char>> {
    let open = index_from(rest, '(', 0);
    let close = end_of_last(rest, ')', rest.len() as int) - 1;
    if open < rest.len() && open < close {
        Some(trimmed(rest.subrange(open + 1, close)))
    } else {
        None
    }
}

/// The directive that a trimmed line writes. The forms are tried in this
/// order: `ADDR`, `LOADADDR`, `STACK`, then a line that starts with `*`. A line
/// of no form, or a `*` line without its parentheses, is no directive. Only a
/// `STACK` line whose value cannot be read is a failure, at `line_no`.
#[verifier::opaque]
pub open spec fn directive_of(line: Seq<char>, line_no: nat) -> Result<
    Option<DirectiveView>,
    Failure,
> {
    if "ADDR"@.is_prefix_of(line) {
        let (next, symbol) = next_and_symbol(trimmed(line.skip(4)));
        Ok(Some(DirectiveView::Addr { symbol, next }))
    } else if "LOADADDR"@.is_prefix_of(line) {
        let (next, symbol) = next_and_symbol(trimmed(line.skip(8)));
        Ok(Some(DirectiveView::LoadAddr { symbol, next }))
    } else if "STACK"@.is_prefix_of(line) {
        match stack_value(line.skip(5)) {
            Some(addr) => Ok(Some(DirectiveView::Stack(addr))),
            None => Err(Failure::Parse { line: line_no, message: "Invalid stack address"@ }),
        }
    } else if line.len() > 0 && line[0] == '*' {
        let rest = trimmed(line.skip(1));
        let keep = "KEEP"@.is_prefix_of(rest);
        let rest = if keep {
            trimmed(rest.skip(4))
        } else {
            rest
        };
        match section_pattern(rest) {
            Some(pattern) => Ok(Some(DirectiveView::Section { pattern, keep })),
            None => Ok(None),
        }
    } else {
        Ok(None)
    }
}

/// The name and address of the region that a line opens, if it opens one: at
/// least two tokens, the first starting with an ASCII capital letter and not
/// reserved, the second an address.
#[verifier::opaque]
pub open spec fn region_header(line: Seq<char>) -> Option<(Seq<char>, Address)> {
    let parts = tokens(line);
    if parts.len() >= 2 && parts[0].len() > 0 && is_ascii_uppercase(parts[0][0]) && !is_reserved(
        parts[0],
    ) {
        match address_of(parts[1]) {
            Some(vma) => Some((parts[0], vma)),
            None => None,
        }
    } else {
        None
    }
}

/// The keyword of the block that a line opens, if it starts with one.
pub open spec fn block_keyword(line: Seq<char>) -> Option<Seq<char>> {
    if "HEAD"@.is_prefix_of(line) {
        Some("HEAD"@)
    } else if "MEM"@.is_prefix_of(line) {
        Some("MEM"@)
    } else if "LDSECTION"@.is_prefix_of(line) {
        Some("LDSECTION"@)
    } else if "EXEC"@.is_prefix_of(line) {
        Some("EXEC"@)
    } else if "DATA"@.is_prefix_of(line) {
        Some("DATA"@)
    } else {
        None
    }
}

/// What a block's header line declares.
pub struct BlockHeader {
    pub block_type: Seq<char>,
    pub lma: Address,
    pub alignment: Option<u64>,
}

/// The header that a line writes, if it starts with a block keyword: after the
/// keyword an address must follow; where the two tokens after that are `ALIGN`,
/// in any case, and a value, the value must be an unsigned decimal number.
/// Failures cite `line_no`.
#[verifier::opaque]
pub open spec fn block_header(line: Seq<char>, line_no: nat) -> Result<Option<BlockHeader>, Failure> {
    match block_keyword(line) {
        None => Ok(None),
        Some(keyword) => {
            let parts = tokens(trimmed(line.skip(keyword.len() as int)));
            if parts.len() == 0 {
                Err(
                    Failure::Parse {
                        line: line_no,
                        message: "Expected address after block type"@,
                    },
                )
            } else {
                match address_of(parts[0]) {
                    None => Err(Failure::InvalidAddress(trimmed(parts[0]))),
                    Some(lma) => {
                        if parts.len() >= 3 && same_ignoring_ascii_case(parts[1], "ALIGN"@) {
                            match unsigned_of(parts[2], 10) {
                                Some(alignment) => Ok(
                                    Some(
                                        BlockHeader {
                                            block_type: keyword,
                                            lma,
                                            alignment: Some(alignment),
                                        },
                                    ),
                                ),
                                None => Err(
                                    Failure::Parse {
                                        line: line_no,
                                        message: "Invalid alignment value"@,
                                    },
                                ),
                            }
                        } else {
                            Ok(Some(BlockHeader { block_type: keyword, lma, alignment: None }))
                        }
                    },
                }
            }
        },
    }
}

/// The directives of a region's body from line `i` on, added to `found`, with
/// the index of the line after the closing `}`. A body that the text ends
/// without closing is a failure.
pub open spec fn directives_from(lines: Seq<Seq<char>>, i: int, found: Seq<DirectiveView>) -> Result<
    (Seq<DirectiveView>, int),
    Failure,
>
    decreases lines.len() - i,
    via directives_from_decreases
{
    let j = next_content(lines, i);
    if 0 <= j < lines.len() {
        if starts_line(lines, j, '}') {
            Ok((found, j + 1))
        } else {
            match directive_of(cleaned(lines[j]), line_number(j)) {
                Err(e) => Err(e),
                Ok(Some(d)) => directives_from(lines, j + 1, found.push(d)),
                Ok(None) => directives_from(lines, j + 1, found),
            }
        }
    } else {
        Err(
            Failure::Parse {
                line: line_number(j),
                message: "Unexpected end of file in region"@,
            },
        )
    }
}

#[via_fn]
proof fn directives_from_decreases(lines: Seq<Seq<char>>, i: int, found: Seq<DirectiveView>) {
    lemma_next_content(lines, i);
}

/// The region that the line at `i` opens, with the index of the line after its
/// closing `}`; `None` where the line opens no region. After the header the
/// next line that counts must start with `{`.
pub open spec fn region_at(lines: Seq<Seq<char>>, i: int) -> Result<Option<(RegionView, int)>, Failure> {
    match region_header(cleaned(lines[i])) {
        None => Ok(None),
        Some((name, vma)) => {
            let j = next_content(lines, i + 1);
            if !(0 <= j < lines.len()) {
                Err(Failure::Parse { line: line_number(j), message: "Expected '{'"@ })
            } else if !starts_line(lines, j, '{') {
                Err(Failure::Parse { line: line_number(j), message: "Expected '{' after region"@ })
            } else {
                match directives_from(lines, j + 1, Seq::empty()) {
                    Err(e) => Err(e),
                    Ok((directives, k)) => Ok(Some((RegionView { name, vma, directives }, k))),
                }
            }
        },
    }
}

/// The regions of a block's body from line `i` on, added to `found`, with the
/// index of the line after the closing `}`. A line that opens no region is
/// passed over. A body that the text ends without closing is a failure.
pub open spec fn regions_from(lines: Seq<Seq<char>>, i: int, found: Seq<RegionView>) -> Result<
    (Seq<RegionView>, int),
    Failure,
>
    decreases lines.len() - i,
    via regions_from_decreases
{
    let j = next_content(lines, i);
    if 0 <= j < lines.len() {
        if starts_line(lines, j, '}') {
            Ok((found, j + 1))
        } else {
            match region_at(lines, j) {
                Err(e) => Err(e),
                Ok(Some((region, k))) => regions_from(lines, k, found.push(region)),
                Ok(None) => regions_from(lines, j + 1, found),
            }
        }
    } else {
        Err(
            Failure::Parse {
                line: line_number(j),
                message: "Unexpected end of file, expected '}'"@,
            },
        )
    }
}

#[via_fn]
proof fn regions_from_decreases(lines: Seq<Seq<char>>, i: int, found: Seq<RegionView>) {
    lemma_next_content(lines, i);
    let j = next_content(lines, i);
    if 0 <= j < lines.len() {
        lemma_region_at_advances(lines, j);
    }
}

/// The block that the line at `i` opens, with the index of the line after its
/// closing `}`; `None` where the line opens no block. After the header the next
/// line that counts must start with `{`.
pub open spec fn block_at(lines: Seq<Seq<char>>, i: int) -> Result<Option<(BlockView, int)>, Failure> {
    match block_header(cleaned(lines[i]), line_number(i)) {
        Err(e) => Err(e),
        Ok(None) => Ok(None),
        Ok(Some(header)) => {
            let j = next_content(lines, i + 1);
            if !(0 <= j < lines.len() && starts_line(lines, j, '{')) {
                Err(Failure::Parse { line: line_number(j), message: "Expected '{'"@ })
            } else {
                match regions_from(lines, j + 1, Seq::empty()) {
                    Err(e) => Err(e),
                    Ok((regions, k)) => Ok(
                        Some(
                            (
                                BlockView {
                                    block_type: header.block_type,
                                    lma: header.lma,
                                    alignment: header.alignment,
                                    regions,
                                },
                                k,
                            ),
                        ),
                    ),
                }
            }
        },
    }
}

/// The description that the lines from `i` on complete, given the user
/// sections and blocks found before. A `USER_SECTIONS` line adds what follows
/// the keyword, trimmed; a line that opens a block adds the block; any other
/// line is passed over.
pub open spec fn document_from(
    lines: Seq<Seq<char>>,
    i: int,
    user_sections: Seq<Seq<char>>,
    blocks: Seq<BlockView>,
) -> Result<SagFileView, Failure>
    decreases lines.len() - i,
    via document_from_decreases
{
    let j = next_content(lines, i);
    if 0 <= j < lines.len() {
        let line = cleaned(lines[j]);
        if "USER_SECTIONS"@.is_prefix_of(line) {
            document_from(lines, j + 1, user_sections.push(trimmed(line.skip(13))), blocks)
        } else {
            match block_at(lines, j) {
                Err(e) => Err(e),
                Ok(Some((block, k))) => document_from(lines, k, user_sections, blocks.push(block)),
                Ok(None) => document_from(lines, j + 1, user_sections, blocks),
            }
        }
    } else {
        Ok(SagFileView { user_sections, blocks })
    }
}

#[via_fn]
proof fn document_from_decreases(
    lines: Seq<Seq<char>>,
    i: int,
    user_sections: Seq<Seq<char>>,
    blocks: Seq<BlockView>,
) {
    lemma_next_content(lines, i);
    let j = next_content(lines, i);
    if 0 <= j < lines.len() {
        lemma_block_at_advances(lines, j);
    }
}

/// The description that a sequence of lines writes, or the first failure.
pub open spec fn parse_lines(lines: Seq<Seq<char>>) -> Result<SagFileView, Failure> {
    document_from(lines, 0, Seq::empty(), Seq::empty())
}

/// The description that a text writes, or the first failure.
pub open spec fn parse_text(text: Seq<char>) -> Result<SagFileView, Failure> {
    parse_lines(lines_of(text))
}

/// `next_content` goes forward, stays within the lines, and stops at a line
/// that is not empty once cleaned.
pub proof fn lemma_next_content(lines: Seq<Seq<char>>, i: int)
    ensures
        i <= next_content(lines, i),
        0 <= i <= lines.len() ==> next_content(lines, i) <= lines.len(),
        0 <= next_content(lines, i) < lines.len() ==> cleaned(lines[next_content(lines, i)]).len()
            > 0,
    decreases lines.len() - i,
{
    if 0 <= i < lines.len() && cleaned(lines[i]).len() == 0 {
        lemma_next_content(lines, i + 1);
    }
}

/// A region's body that is read to its end ends after line `i`, within the
/// lines.
pub proof fn lemma_directives_from_advances(
    lines: Seq<Seq<char>>,
    i: int,
    found: Seq<DirectiveView>,
)
    requires
        0 <= i,
    ensures
        directives_from(lines, i, found) matches Ok((_, k)) ==> i < k <= lines.len(),
    decreases lines.len() - i,
{
    lemma_next_content(lines, i);
    let j = next_content(lines, i);
    if 0 <= j < lines.len() && !starts_line(lines, j, '}') {
        match directive_of(cleaned(lines[j]), line_number(j)) {
            Err(e) => {},
            Ok(Some(d)) => lemma_directives_from_advances(lines, j + 1, found.push(d)),
            Ok(None) => lemma_directives_from_advances(lines, j + 1, found),
        }
    }
}

/// A region that is read to its end ends after line `i`, within the lines.
pub proof fn lemma_region_at_advances(lines: Seq<Seq<char>>, i: int)
    requires
        0 <= i,
    ensures
        region_at(lines, i) matches Ok(Some((_, k))) ==> i < k <= lines.len(),
{
    lemma_next_content(lines, i + 1);
    let j = next_content(lines, i + 1);
    lemma_directives_from_advances(lines, j + 1, Seq::empty());
}

/// A block's body that is read to its end ends after line `i`, within the
/// lines.
pub proof fn lemma_regions_from_advances(lines: Seq<Seq<char>>, i: int, found: Seq<RegionView>)
    requires
        0 <= i,
    ensures
        regions_from(lines, i, found) matches Ok((_, k)) ==> i < k <= lines.len(),
    decreases lines.len() - i,
{
    lemma_next_content(lines, i);
    let j = next_content(lines, i);
    if 0 <= j < lines.len() && !starts_line(lines, j, '}') {
        lemma_region_at_advances(lines, j);
        match region_at(lines, j) {
            Err(e) => {},
            Ok(Some((region, k))) => lemma_regions_from_advances(lines, k, found.push(region)),
            Ok(None) => lemma_regions_from_advances(lines, j + 1, found),
        }
    }
}

/// A block that is read to its end ends after line `i`, within the lines.
pub proof fn lemma_block_at_advances(lines: Seq<Seq<char>>, i: int)
    requires
        0 <= i,
    ensures
        block_at(lines, i) matches Ok(Some((_, k))) ==> i < k <= lines.len(),
{
    lemma_next_content(lines, i + 1);
    let j = next_content(lines, i + 1);
    lemma_regions_from_advances(lines, j + 1, Seq::empty());
}

/// Whether no line from `i` on starts, once cleaned, with `}`.
pub open spec fn no_closing_brace_from(lines: Seq<Seq<char>>, i: int) -> bool {
    forall|j: int| i <= j < lines.len() ==> !starts_line(lines, j, '}')
}

/// Whether a failure is one of the structure, and, where it reports that the
/// text ended inside a region or a block, cites the line after the last of
/// `count` lines.
pub open spec fn cites_end_of_input(e: Failure, count: int) -> bool {
    e matches Failure::Parse { line, message } && (cites_end_message(message) ==> line
        == line_number(count))
}

/// Whether a message reports that the text ended inside a region or a block.
pub open spec fn cites_end_message(message: Seq<char>) -> bool {
    message == "Unexpected end of file in region"@ || message
        == "Unexpected end of file, expected '}'"@
}

/// The messages of the failures that do not report the end of the text differ
/// from those that do.
proof fn lemma_messages_differ()
    ensures
        !cites_end_message("Invalid stack address"@),
        !cites_end_message("Expected '{'"@),
        !cites_end_message("Expected '{' after region"@),
{
    reveal_strlit("Unexpected end of file in region");
    reveal_strlit("Unexpected end of file, expected '}'");
    reveal_strlit("Invalid stack address");
    reveal_strlit("Expected '{'");
    reveal_strlit("Expected '{' after region");
    assert("Unexpected end of file in region"@.len() == 32);
    assert("Unexpected end of file, expected '}'"@.len() == 36);
    assert("Invalid stack address"@.len() == 21);
    assert("Expected '{'"@.len() == 12);
    assert("Expected '{' after region"@.len() == 25);
}

/// A region's body is read to its end only through a line that starts with
/// `}`. Where no such line follows, reading it fails; and every failure in it
/// is one of the structure, which cites the line after the last one where it
/// reports the end of the text.
pub proof fn law_region_body_needs_closing_brace(
    lines: Seq<Seq<char>>,
    i: int,
    found: Seq<DirectiveView>,
)
    requires
        0 <= i <= lines.len(),
    ensures
        directives_from(lines, i, found) matches Ok((_, k)) ==> i < k <= lines.len()
            && starts_line(lines, k - 1, '}'),
        no_closing_brace_from(lines, i) ==> directives_from(lines, i, found) is Err,
        directives_from(lines, i, found) matches Err(e) ==> cites_end_of_input(
            e,
            lines.len() as int,
        ),
    decreases lines.len() - i,
{
    lemma_messages_differ();
    lemma_next_content(lines, i);
    let j = next_content(lines, i);
    if 0 <= j < lines.len() {
        if !starts_line(lines, j, '}') {
            assert(no_closing_brace_from(lines, i) ==> no_closing_brace_from(lines, j + 1));
            match directive_of(cleaned(lines[j]), line_number(j)) {
                Err(e) => {
                    reveal(directive_of);
                    assert(e == Failure::Parse {
                        line: line_number(j),
                        message: "Invalid stack address"@,
                    });
                },
                Ok(Some(d)) => law_region_body_needs_closing_brace(lines, j + 1, found.push(d)),
                Ok(None) => law_region_body_needs_closing_brace(lines, j + 1, found),
            }
        } else {
            assert(!no_closing_brace_from(lines, i));
        }
    }
}

/// A block's body is read to its end only through a line that starts with
/// `}`. Where no such line follows, reading it fails; and every failure in it
/// is one of the structure, which cites the line after the last one where it
/// reports the end of the text.
pub proof fn law_block_body_needs_closing_brace(
    lines: Seq<Seq<char>>,
    i: int,
    found: Seq<RegionView>,
)
    requires
        0 <= i <= lines.len(),
    ensures
        regions_from(lines, i, found) matches Ok((_, k)) ==> i < k <= lines.len() && starts_line(
            lines,
            k - 1,
            '}',
        ),
        no_closing_brace_from(lines, i) ==> regions_from(lines, i, found) is Err,
        regions_from(lines, i, found) matches Err(e) ==> cites_end_of_input(
            e,
            lines.len() as int,
        ),
    decreases lines.len() - i,
{
    lemma_messages_differ();
    lemma_next_content(lines, i);
    let j = next_content(lines, i);
    if 0 <= j < lines.len() {
        if !starts_line(lines, j, '}') {
            assert(no_closing_brace_from(lines, i) ==> no_closing_brace_from(lines, j + 1));
            lemma_region_at_advances(lines, j);
            lemma_next_content(lines, j + 1);
            let open = next_content(lines, j + 1);
            if 0 <= open < lines.len() {
                law_region_body_needs_closing_brace(lines, open + 1, Seq::empty());
            }
            match region_at(lines, j) {
                Err(e) => {},
                Ok(Some((region, k))) => {
                    assert(no_closing_brace_from(lines, i) ==> no_closing_brace_from(lines, k));
                    law_block_body_needs_closing_brace(lines, k, found.push(region));
                },
                Ok(None) => law_block_body_needs_closing_brace(lines, j + 1, found),
            }
        } else {
            assert(!no_closing_brace_from(lines, i));
        }
    }
}

/// A line that opens a block after which no line starts with `}` gives no
/// block: reading it fails.
pub proof fn law_unclosed_block_fails(lines: Seq<Seq<char>>, i: int)
    requires
        0 <= i < lines.len(),
        no_closing_brace_from(lines, i + 1),
    ensures
        !(block_at(lines, i) matches Ok(Some(_))),
{
    lemma_next_content(lines, i + 1);
    let j = next_content(lines, i + 1);
    if 0 <= j < lines.len() {
        law_block_body_needs_closing_brace(lines, j + 1, Seq::empty());
    }
}

/// A block header whose `ALIGN` value is no unsigned decimal number fails the
/// block with a failure that cites the header's own line.
pub proof fn law_bad_alignment_cites_header(lines: Seq<Seq<char>>, i: int)
    requires
        0 <= i < lines.len(),
        block_keyword(cleaned(lines[i])) is Some,
        ({
            let line = cleaned(lines[i]);
            let parts = tokens(trimmed(line.skip(block_keyword(line)->0.len() as int)));
            &&& parts.len() >= 3
            &&& address_of(parts[0]) is Some
            &&& same_ignoring_ascii_case(parts[1], "ALIGN"@)
            &&& unsigned_of(parts[2], 10) is None
        }),
    ensures
        block_at(lines, i) == Err::<Option<(BlockView, int)>, Failure>(
            Failure::Parse { line: line_number(i), message: "Invalid alignment value"@ },
        ),
{
    reveal(block_header);
}

/// Reading the lines from `i` on fails only with a failure of the structure
/// or with an invalid address.
pub proof fn lemma_document_failures(
    lines: Seq<Seq<char>>,
    i: int,
    user_sections: Seq<Seq<char>>,
    blocks: Seq<BlockView>,
)
    requires
        0 <= i <= lines.len(),
    ensures
        document_from(lines, i, user_sections, blocks) matches Err(e) ==> e is Parse
            || e is InvalidAddress,
    decreases lines.len() - i,
{
    lemma_next_content(lines, i);
    let j = next_content(lines, i);
    if 0 <= j < lines.len() {
        let line = cleaned(lines[j]);
        if "USER_SECTIONS"@.is_prefix_of(line) {
            lemma_document_failures(
                lines,
                j + 1,
                user_sections.push(trimmed(line.skip(13))),
                blocks,
            );
        } else {
            lemma_block_at_advances(lines, j);
            lemma_next_content(lines, j + 1);
            let open = next_content(lines, j + 1);
            if 0 <= open < lines.len() {
                law_block_body_needs_closing_brace(lines, open + 1, Seq::empty());
            }
            assert(block_at(lines, j) matches Err(e) ==> e is Parse || e is InvalidAddress) by {
                reveal(block_header);
            }
            match block_at(lines, j) {
                Err(e) => {},
                Ok(Some((block, k))) => lemma_document_failures(
                    lines,
                    k,
                    user_sections,
                    blocks.push(block),
                ),
                Ok(None) => lemma_document_failures(lines, j + 1, user_sections, blocks),
            }
        }
    }
}

/// A text is read to a description, or to a failure of the structure, or to
/// an invalid address: never to a failure to read the source.
pub proof fn law_failures_of_reading(text: Seq<char>)
    ensures
        parse_text(text) matches Err(e) ==> e is Parse || e is InvalidAddress,
{
    lemma_document_failures(lines_of(text), 0, Seq::empty(), Seq::empty());
}

/// The regions that a block's body is read to are well formed, where those
/// found before are.
pub proof fn lemma_regions_well_formed(lines: Seq<Seq<char>>, i: int, found: Seq<RegionView>)
    requires
        0 <= i,
        forall|n: int| 0 <= n < found.len() ==> (#[trigger] found[n]).wf(),
    ensures
        regions_from(lines, i, found) matches Ok((regions, _)) ==> forall|n: int|
            0 <= n < regions.len() ==> (#[trigger] regions[n]).wf(),
    decreases lines.len() - i,
{
    lemma_next_content(lines, i);
    let j = next_content(lines, i);
    if 0 <= j < lines.len() && !starts_line(lines, j, '}') {
        lemma_region_at_advances(lines, j);
        match region_at(lines, j) {
            Err(e) => {},
            Ok(Some((region, k))) => {
                assert(region.wf()) by {
                    reveal(region_header);
                }
                lemma_regions_well_formed(lines, k, found.push(region));
            },
            Ok(None) => lemma_regions_well_formed(lines, j + 1, found),
        }
    }
}

/// The description that the lines are read to is well formed, where the
/// blocks found before are.
pub proof fn lemma_document_well_formed(
    lines: Seq<Seq<char>>,
    i: int,
    user_sections: Seq<Seq<char>>,
    blocks: Seq<BlockView>,
)
    requires
        0 <= i,
        forall|n: int| 0 <= n < blocks.len() ==> (#[trigger] blocks[n]).wf(),
    ensures
        document_from(lines, i, user_sections, blocks) matches Ok(file) ==> file.wf(),
    decreases lines.len() - i,
{
    lemma_next_content(lines, i);
    let j = next_content(lines, i);
    if 0 <= j < lines.len() {
        let line = cleaned(lines[j]);
        if "USER_SECTIONS"@.is_prefix_of(line) {
            lemma_document_well_formed(
                lines,
                j + 1,
                user_sections.push(trimmed(line.skip(13))),
                blocks,
            );
        } else {
            lemma_block_at_advances(lines, j);
            match block_at(lines, j) {
                Err(e) => {},
                Ok(Some((block, k))) => {
                    assert(block.wf()) by {
                        reveal(block_header);
                        let open = next_content(lines, j + 1);
                        lemma_next_content(lines, j + 1);
                        lemma_regions_well_formed(lines, open + 1, Seq::empty());
                    }
                    lemma_document_well_formed(lines, k, user_sections, blocks.push(block));
                },
                Ok(None) => lemma_document_well_formed(lines, j + 1, user_sections, blocks),
            }
        }
    }
}

/// A description that a text is read to is well formed: each block's type is
/// a block keyword, and each region's name starts with an ASCII capital letter
/// and is no keyword of a directive.
pub proof fn law_parsed_is_well_formed(text: Seq<char>)
    ensures
        parse_text(text) matches Ok(file) ==> file.wf(),
{
    lemma_document_well_formed(lines_of(text), 0, Seq::empty(), Seq::empty());
}

/// What follows the first `n` characters of a text without line feed,
/// trimmed, holds none.
proof fn lemma_rest_on_single_line(s: Seq<char>, n: int)
    requires
        no_line_break(s),
        0 <= n <= s.len(),
    ensures
        no_line_break(trimmed(s.skip(n))),
{
    lemma_trimmed_on_single_line(s.skip(n));
}

/// The directive that a line without line feed writes holds none.
proof fn lemma_directive_on_single_line(line: Seq<char>, line_no: nat)
    requires
        no_line_break(line),
    ensures
        directive_of(line, line_no) matches Ok(Some(d)) ==> d.on_single_line(),
{
    reveal(directive_of);
    reveal_strlit("ADDR");
    reveal_strlit("LOADADDR");
    reveal_strlit("NEXT");
    reveal_strlit("KEEP");
    if "ADDR"@.is_prefix_of(line) {
        lemma_rest_on_single_line(line, 4);
        let rest = trimmed(line.skip(4));
        if "NEXT"@.is_prefix_of(rest) {
            lemma_rest_on_single_line(rest, 4);
        }
    } else if "LOADADDR"@.is_prefix_of(line) {
        lemma_rest_on_single_line(line, 8);
        let rest = trimmed(line.skip(8));
        if "NEXT"@.is_prefix_of(rest) {
            lemma_rest_on_single_line(rest, 4);
        }
    } else if "STACK"@.is_prefix_of(line) {
    } else if line.len() > 0 && line[0] == '*' {
        lemma_rest_on_single_line(line, 1);
        let rest = trimmed(line.skip(1));
        if "KEEP"@.is_prefix_of(rest) {
            lemma_rest_on_single_line(rest, 4);
        }
        let rest = if "KEEP"@.is_prefix_of(rest) {
            trimmed(rest.skip(4))
        } else {
            rest
        };
        let open = index_from(rest, '(', 0);
        let close = end_of_last(rest, ')', rest.len() as int) - 1;
        lemma_index_from_bounds(rest, '(', 0);
        lemma_end_of_last_bounds(rest, ')', rest.len() as int);
        if open < rest.len() && open < close {
            lemma_trimmed_on_single_line(rest.subrange(open + 1, close));
        }
    }
}

/// The directives that a region's body is read to hold no line feed, where
/// the lines and the directives found before hold none.
proof fn lemma_directives_on_single_lines(
    lines: Seq<Seq<char>>,
    i: int,
    found: Seq<DirectiveView>,
)
    requires
        0 <= i,
        all_on_single_lines(lines),
        directives_on_single_lines(found),
    ensures
        directives_from(lines, i, found) matches Ok((directives, _))
            ==> directives_on_single_lines(directives),
    decreases lines.len() - i,
{
    lemma_next_content(lines, i);
    let j = next_content(lines, i);
    if 0 <= j < lines.len() && !starts_line(lines, j, '}') {
        lemma_cleaned_on_single_line(lines[j]);
        lemma_directive_on_single_line(cleaned(lines[j]), line_number(j));
        match directive_of(cleaned(lines[j]), line_number(j)) {
            Err(e) => {},
            Ok(Some(d)) => lemma_directives_on_single_lines(lines, j + 1, found.push(d)),
            Ok(None) => lemma_directives_on_single_lines(lines, j + 1, found),
        }
    }
}

/// The regions that a block's body is read to hold no line feed, where the
/// lines and the regions found before hold none.
proof fn lemma_regions_on_single_lines(lines: Seq<Seq<char>>, i: int, found: Seq<RegionView>)
    requires
        0 <= i,
        all_on_single_lines(lines),
        forall|n: int| 0 <= n < found.len() ==> (#[trigger] found[n]).on_single_lines(),
    ensures
        regions_from(lines, i, found) matches Ok((regions, _)) ==> forall|n: int|
            0 <= n < regions.len() ==> (#[trigger] regions[n]).on_single_lines(),
    decreases lines.len() - i,
{
    lemma_next_content(lines, i);
    let j = next_content(lines, i);
    if 0 <= j < lines.len() && !starts_line(lines, j, '}') {
        lemma_region_at_advances(lines, j);
        match region_at(lines, j) {
            Err(e) => {},
            Ok(Some((region, k))) => {
                assert(region.on_single_lines()) by {
                    reveal(region_header);
                    lemma_cleaned_on_single_line(lines[j]);
                    lemma_tokens_on_single_lines(cleaned(lines[j]));
                    let open = next_content(lines, j + 1);
                    lemma_next_content(lines, j + 1);
                    lemma_directives_on_single_lines(lines, open + 1, Seq::empty());
                }
                lemma_regions_on_single_lines(lines, k, found.push(region));
            },
            Ok(None) => lemma_regions_on_single_lines(lines, j + 1, found),
        }
    }
}

/// The description that the lines are read to holds no line feed, where the
/// lines and the blocks found before hold none.
proof fn lemma_document_on_single_lines(
    lines: Seq<Seq<char>>,
    i: int,
    user_sections: Seq<Seq<char>>,
    blocks: Seq<BlockView>,
)
    requires
        0 <= i,
        all_on_single_lines(lines),
        forall|n: int| 0 <= n < blocks.len() ==> (#[trigger] blocks[n]).on_single_lines(),
    ensures
        document_from(lines, i, user_sections, blocks) matches Ok(file) ==> file.on_single_lines(),
    decreases lines.len() - i,
{
    lemma_next_content(lines, i);
    let j = next_content(lines, i);
    if 0 <= j < lines.len() {
        let line = cleaned(lines[j]);
        if "USER_SECTIONS"@.is_prefix_of(line) {
            lemma_document_on_single_lines(
                lines,
                j + 1,
                user_sections.push(trimmed(line.skip(13))),
                blocks,
            );
        } else {
            lemma_block_at_advances(lines, j);
            match block_at(lines, j) {
                Err(e) => {},
                Ok(Some((block, k))) => {
                    assert(block.on_single_lines()) by {
                        reveal(block_header);
                        reveal_strlit("HEAD");
                        reveal_strlit("MEM");
                        reveal_strlit("LDSECTION");
                        reveal_strlit("EXEC");
                        reveal_strlit("DATA");
                        let open = next_content(lines, j + 1);
                        lemma_next_content(lines, j + 1);
                        lemma_regions_on_single_lines(lines, open + 1, Seq::empty());
                    }
                    lemma_document_on_single_lines(lines, k, user_sections, blocks.push(block));
                },
                Ok(None) => lemma_document_on_single_lines(lines, j + 1, user_sections, blocks),
            }
        }
    }
}

/// A description that a text is read to holds no line feed in its block
/// types, its regions' names, its symbols and its patterns: each of them
/// stood on one line of the text.
pub proof fn law_parsed_on_single_lines(text: Seq<char>)
    ensures
        parse_text(text) matches Ok(file) ==> file.on_single_lines(),
{
    lemma_lines_on_single_lines(text);
    lemma_document_on_single_lines(lines_of(text), 0, Seq::empty(), Seq::empty());
}

} // verus!
