//! The parser: a cursor over the lines of a SAG description that builds the
//! syntax tree in one pass, and stops at the first failure.

use vstd::prelude::*;
use vstd::slice::slice_subrange;
use vstd::string::StringExecFns;
use crate::address::Address;
use crate::ast::{
    block_views, directive_views, region_views, texts, Block, BlockView, Directive, DirectiveView,
    Region, RegionView, SagFile, SagFileView,
};
use crate::error::{Failure, SagError};
use crate::grammar::{
    block_at, block_header, block_keyword, directive_of, directives_from, document_from,
    law_failures_of_reading, law_parsed_is_well_formed, law_parsed_on_single_lines,
    lemma_block_at_advances,
    lemma_next_content, lemma_region_at_advances, line_number, next_and_symbol, next_content,
    parse_text, region_at, region_header, regions_from, section_pattern, stack_value, starts_line,
};
use crate::number::parse_unsigned;
use crate::text::{
    clean, eq_ignore_ascii_case, equals, find, lemma_end_of_last_bounds, lemma_index_from_bounds,
    lines_of, rfind, rows, split_lines, split_whitespace, starts_with, strip_prefix, to_chars,
    to_string, trim, trimmed,
};

verus! {

/// Parser state machine
pub struct Parser {
    pub lines: Vec<Vec<char>>,
    pub current: usize,
}

impl Parser {
    /// The lines that the parser reads.
    pub open spec fn text(&self) -> Seq<Seq<char>> {
        rows(self.lines@)
    }

    /// A parser at the first line of `content`.
    pub fn new(content: &str) -> (p: Parser)
        ensures
            p.text() == lines_of(content@),
            p.current == 0,
    {
        let chars = to_chars(content);
        Parser { lines: split_lines(chars.as_slice()), current: 0 }
    }

    /// The line at the cursor, if the cursor is not past the last line.
    pub fn current_line(&self) -> (r: Option<&[char]>)
        ensures
            match r {
                Some(line) => self.current < self.text().len() && line@ == self.text().index(
                    self.current as int,
                ),
                None => self.current >= self.text().len(),
            },
    {
        if self.current < self.lines.len() {
            Some(self.lines[self.current].as_slice())
        } else {
            None
        }
    }

    /// Moves the cursor to the next line; past the last line it stays.
    pub fn advance(&mut self)
        ensures
            final(self).lines == old(self).lines,
            final(self).current == if old(self).current < old(self).text().len() {
                old(self).current + 1
            } else {
                old(self).current as int
            },
    {
        if self.current < self.lines.len() {
            self.current += 1;
        }
    }

    /// The number of the line at the cursor, counted from 1.
    pub fn line_number(&self) -> (n: usize)
        ensures
            n == line_number(self.current as int),
    {
        if self.current < usize::MAX {
            self.current + 1
        } else {
            usize::MAX
        }
    }

    /// Moves the cursor over the lines that are empty once cleaned.
    pub fn skip_empty_and_comments(&mut self)
        ensures
            final(self).lines == old(self).lines,
            final(self).current == next_content(old(self).text(), old(self).current as int),
    {
        loop
            invariant
                self.lines == old(self).lines,
                next_content(self.text(), self.current as int) == next_content(
                    old(self).text(),
                    old(self).current as int,
                ),
            ensures
                self.lines == old(self).lines,
                self.current == next_content(old(self).text(), old(self).current as int),
            decreases self.lines.len() - self.current,
        {
            match self.current_line() {
                Some(line) => {
                    if clean(line).len() == 0 {
                        self.advance();
                    } else {
                        break ;
                    }
                },
                None => {
                    break ;
                },
            }
        }
    }

    /// A failure at the line at the cursor.
    pub fn parse_error(&self, message: &str) -> (e: SagError)
        ensures
            e@ == (Failure::Parse { line: line_number(self.current as int), message: message@ }),
    {
        SagError::Parse { line: self.line_number(), message: String::from_str(message) }
    }

    /// Whether the line at the cursor, cleaned, starts with `c`.
    fn at_line_starting_with(&self, c: char) -> (b: bool)
        ensures
            b == (self.current < self.text().len() && starts_line(
                self.text(),
                self.current as int,
                c,
            )),
    {
        match self.current_line() {
            Some(line) => {
                let line = clean(line);
                line.len() > 0 && line[0] == c
            },
            None => false,
        }
    }

    /// Reads the directive that `line` writes, if it writes one. A failure
    /// cites the line at the cursor.
    pub fn parse_directive(&self, line: &[char]) -> (r: Result<Option<Directive>, SagError>)
        ensures
            match directive_of(trimmed(line@), line_number(self.current as int)) {
                Err(e) => r is Err && r->Err_0@ == e,
                Ok(None) => r is Ok && r->Ok_0 is None,
                Ok(Some(d)) => r is Ok && r->Ok_0 is Some && r->Ok_0->0@ == d,
            },
    {
        let line = trim(line);
        proof {
            reveal(directive_of);
            reveal_strlit("ADDR");
            reveal_strlit("LOADADDR");
            reveal_strlit("STACK");
            reveal_strlit("KEEP");
        }
        if let Some(rest) = strip_prefix(line, "ADDR") {
            let (next, symbol) = read_symbol(trim(rest));
            return Ok(Some(Directive::Addr { symbol, next }));
        }
        if let Some(rest) = strip_prefix(line, "LOADADDR") {
            let (next, symbol) = read_symbol(trim(rest));
            return Ok(Some(Directive::LoadAddr { symbol, next }));
        }
        if let Some(rest) = strip_prefix(line, "STACK") {
            return match read_stack_value(rest) {
                Some(addr) => Ok(Some(Directive::Stack(addr))),
                None => Err(self.parse_error("Invalid stack address")),
            };
        }
        if line.len() > 0 && line[0] == '*' {
            let rest = trim(slice_subrange(line, 1, line.len()));
            let (keep, rest) = match strip_prefix(rest, "KEEP") {
                Some(tail) => (true, trim(tail)),
                None => (false, rest),
            };
            return match read_section_pattern(rest) {
                Some(pattern) => Ok(Some(Directive::Section { pattern, keep })),
                None => Ok(None),
            };
        }
        Ok(None)
    }

    /// Reads the region that the line at the cursor opens, through its closing
    /// `}`. Where the line opens no region, the cursor stays.
    pub fn try_parse_region(&mut self) -> (r: Result<Option<Region>, SagError>)
        requires
            old(self).current < old(self).lines.len(),
        ensures
            final(self).lines == old(self).lines,
            match region_at(old(self).text(), old(self).current as int) {
                Err(e) => r is Err && r->Err_0@ == e,
                Ok(None) => r is Ok && r->Ok_0 is None && final(self).current == old(self).current,
                Ok(Some((region, k))) => r is Ok && r->Ok_0 is Some && r->Ok_0->0@ == region
                    && final(self).current == k,
            },
    {
        let header = match self.current_line() {
            Some(line) => read_region_header(clean(line)),
            None => None,
        };
        let (name, vma) = match header {
            Some(found) => found,
            None => {
                return Ok(None);
            },
        };
        self.advance();
        self.skip_empty_and_comments();
        if self.current >= self.lines.len() {
            return Err(self.parse_error("Expected '{'"));
        }
        if !self.at_line_starting_with('{') {
            return Err(self.parse_error("Expected '{' after region"));
        }
        self.advance();
        let ghost start = self.current as int;
        let mut directives: Vec<Directive> = Vec::new();
        assert(directive_views(directives@) =~= Seq::<DirectiveView>::empty());
        loop
            invariant_except_break
                directives_from(self.text(), start, Seq::empty()) == directives_from(
                    self.text(),
                    self.current as int,
                    directive_views(directives@),
                ),
            invariant
                self.lines == old(self).lines,
                0 <= start,
                region_at(old(self).text(), old(self).current as int) == (match directives_from(
                    self.text(),
                    start,
                    Seq::empty(),
                ) {
                    Err(e) => Err(e),
                    Ok((found, k)) => Ok(
                        Some((RegionView { name: name@, vma, directives: found }, k)),
                    ),
                }),
            ensures
                self.lines == old(self).lines,
                directives_from(self.text(), start, Seq::empty()) == Ok::<_, Failure>(
                    (directive_views(directives@), self.current as int),
                ),
            decreases self.lines.len() - self.current,
        {
            proof {
                lemma_next_content(self.text(), self.current as int);
            }
            self.skip_empty_and_comments();
            if self.current >= self.lines.len() {
                return Err(self.parse_error("Unexpected end of file in region"));
            }
            if self.at_line_starting_with('}') {
                self.advance();
                break ;
            }
            let line = clean(self.lines[self.current].as_slice());
            match self.parse_directive(line) {
                Err(e) => {
                    return Err(e);
                },
                Ok(Some(directive)) => {
                    assert(directive_views(directives@.push(directive)) =~= directive_views(
                        directives@,
                    ).push(directive@));
                    directives.push(directive);
                },
                Ok(None) => {},
            }
            self.advance();
        }
        Ok(Some(Region { name, vma, directives }))
    }

    /// Reads what a cleaned line declares as a block's header: the block's type,
    /// its load address and its alignment. A failure cites the line at the
    /// cursor.
    pub fn read_block_header(&self, line: &[char]) -> (r: Result<
        Option<(String, Address, Option<u64>)>,
        SagError,
    >)
        ensures
            match block_header(line@, line_number(self.current as int)) {
                Err(e) => r is Err && r->Err_0@ == e,
                Ok(None) => r matches Ok(None),
                Ok(Some(header)) => r matches Ok(Some((block_type, lma, alignment)))
                    && block_type@ == header.block_type && lma == header.lma && alignment
                    == header.alignment,
            },
    {
        proof {
            reveal(block_header);
        }
        let (block_type, rest) = match strip_block_keyword(line) {
            Some(found) => found,
            None => {
                return Ok(None);
            },
        };
        // Parse address and optional ALIGN
        let parts = split_whitespace(trim(rest));
        if parts.len() == 0 {
            return Err(self.parse_error("Expected address after block type"));
        }
        let lma = match Address::from_chars(parts[0]) {
            Ok(address) => address,
            Err(e) => {
                return Err(e);
            },
        };
        let mut alignment: Option<u64> = None;
        if parts.len() >= 3 && eq_ignore_ascii_case(parts[1], "ALIGN") {
            match parse_unsigned(parts[2], 10) {
                Some(value) => {
                    alignment = Some(value);
                },
                None => {
                    return Err(self.parse_error("Invalid alignment value"));
                },
            }
        }
        Ok(Some((block_type, lma, alignment)))
    }

    /// Reads the block that the line at the cursor opens, through its closing
    /// `}`. Where the line opens no block, the cursor stays.
    pub fn try_parse_block(&mut self) -> (r: Result<Option<Block>, SagError>)
        requires
            old(self).current < old(self).lines.len(),
        ensures
            final(self).lines == old(self).lines,
            match block_at(old(self).text(), old(self).current as int) {
                Err(e) => r is Err && r->Err_0@ == e,
                Ok(None) => r is Ok && r->Ok_0 is None && final(self).current == old(self).current,
                Ok(Some((block, k))) => r is Ok && r->Ok_0 is Some && r->Ok_0->0@ == block
                    && final(self).current == k,
            },
    {
        let header = self.read_block_header(clean(self.lines[self.current].as_slice()));
        let (block_type, lma, alignment) = match header {
            Ok(Some(found)) => found,
            Ok(None) => {
                return Ok(None);
            },
            Err(e) => {
                return Err(e);
            },
        };
        self.advance();
        self.skip_empty_and_comments();
        // Expect opening brace
        if !self.at_line_starting_with('{') {
            return Err(self.parse_error("Expected '{'"));
        }
        self.advance();
        // Parse regions
        let ghost start = self.current as int;
        let mut regions: Vec<Region> = Vec::new();
        assert(region_views(regions@) =~= Seq::<RegionView>::empty());
        loop
            invariant_except_break
                regions_from(self.text(), start, Seq::empty()) == regions_from(
                    self.text(),
                    self.current as int,
                    region_views(regions@),
                ),
            invariant
                self.lines == old(self).lines,
                0 <= start,
                block_at(old(self).text(), old(self).current as int) == (match regions_from(
                    self.text(),
                    start,
                    Seq::empty(),
                ) {
                    Err(e) => Err(e),
                    Ok((found, k)) => Ok(
                        Some(
                            (
                                BlockView {
                                    block_type: block_type@,
                                    lma,
                                    alignment,
                                    regions: found,
                                },
                                k,
                            ),
                        ),
                    ),
                }),
            ensures
                self.lines == old(self).lines,
                regions_from(self.text(), start, Seq::empty()) == Ok::<_, Failure>(
                    (region_views(regions@), self.current as int),
                ),
            decreases self.lines.len() - self.current,
        {
            proof {
                lemma_next_content(self.text(), self.current as int);
            }
            self.skip_empty_and_comments();
            if self.current >= self.lines.len() {
                return Err(self.parse_error("Unexpected end of file, expected '}'"));
            }
            if self.at_line_starting_with('}') {
                self.advance();
                break ;
            }
            proof {
                lemma_region_at_advances(self.text(), self.current as int);
            }
            // Try to parse a region
            match self.try_parse_region() {
                Err(e) => {
                    return Err(e);
                },
                Ok(Some(region)) => {
                    assert(region_views(regions@.push(region)) =~= region_views(regions@).push(
                        region@,
                    ));
                    regions.push(region);
                },
                Ok(None) => {
                    self.advance();
                },
            }
        }
        Ok(Some(Block { block_type, lma, alignment, regions }))
    }

    /// Reads the description from the cursor to the last line.
    pub fn parse(&mut self) -> (r: Result<SagFile, SagError>)
        ensures
            final(self).lines == old(self).lines,
            match document_from(
                old(self).text(),
                old(self).current as int,
                Seq::empty(),
                Seq::empty(),
            ) {
                Ok(file) => r is Ok && r->Ok_0@ == file,
                Err(e) => r is Err && r->Err_0@ == e,
            },
    {
        let ghost start = self.current as int;
        let mut user_sections: Vec<String> = Vec::new();
        let mut blocks: Vec<Block> = Vec::new();
        assert(texts(user_sections@) =~= Seq::<Seq<char>>::empty());
        assert(block_views(blocks@) =~= Seq::<BlockView>::empty());
        loop
            invariant_except_break
                document_from(self.text(), start, Seq::empty(), Seq::empty()) == document_from(
                    self.text(),
                    self.current as int,
                    texts(user_sections@),
                    block_views(blocks@),
                ),
            invariant
                self.lines == old(self).lines,
                start == old(self).current,
            ensures
                self.lines == old(self).lines,
                document_from(self.text(), start, Seq::empty(), Seq::empty()) == Ok::<_, Failure>(
                    SagFileView {
                        user_sections: texts(user_sections@),
                        blocks: block_views(blocks@),
                    },
                ),
            decreases self.lines.len() - self.current,
        {
            proof {
                lemma_next_content(self.text(), self.current as int);
            }
            self.skip_empty_and_comments();
            if self.current >= self.lines.len() {
                break ;
            }
            let line = clean(self.lines[self.current].as_slice());
            // Parse USER_SECTIONS
            if let Some(rest) = strip_prefix(line, "USER_SECTIONS") {
                let section = to_string(trim(rest));
                proof {
                    reveal_strlit("USER_SECTIONS");
                    assert(texts(user_sections@.push(section)) =~= texts(user_sections@).push(
                        section@,
                    ));
                }
                user_sections.push(section);
                self.advance();
                continue ;
            }
            proof {
                lemma_block_at_advances(self.text(), self.current as int);
            }
            // Parse block (HEAD, MEM, LDSECTION, EXEC, DATA)
            match self.try_parse_block() {
                Err(e) => {
                    return Err(e);
                },
                Ok(Some(block)) => {
                    assert(block_views(blocks@.push(block)) =~= block_views(blocks@).push(block@));
                    blocks.push(block);
                },
                Ok(None) => {
                    self.advance();
                },
            }
        }
        Ok(SagFile { user_sections, blocks })
    }
}

impl SagFile {
    /// Parse a SAG file from a string
    pub fn parse(content: &str) -> (r: Result<SagFile, SagError>)
        ensures
            match parse_text(content@) {
                Ok(file) => r is Ok && r->Ok_0@ == file,
                Err(e) => r is Err && r->Err_0@ == e,
            },
            r matches Err(e) ==> e is Parse || e is InvalidAddress,
            r matches Ok(file) ==> file@.wf() && file@.on_single_lines(),
    {
        proof {
            law_failures_of_reading(content@);
            law_parsed_is_well_formed(content@);
            law_parsed_on_single_lines(content@);
        }
        let mut parser = Parser::new(content);
        parser.parse()
    }

    /// The description that the outcome of reading a source stands for: the
    /// source parsed where it was read, and the failure to read it, as it is,
    /// where it was not.
    pub fn from_read(read: Result<String, std::io::Error>) -> (r: Result<SagFile, SagError>)
        ensures
            match read {
                Ok(content) => match parse_text(content@) {
                    Ok(file) => r is Ok && r->Ok_0@ == file,
                    Err(e) => r is Err && r->Err_0@ == e,
                },
                Err(failure) => r is Err && r->Err_0@ == Failure::Io(failure),
            },
    {
        match read {
            Ok(content) => SagFile::parse(content.as_str()),
            Err(failure) => Err(SagError::Io(failure)),
        }
    }
}

/// What follows `ADDR` or `LOADADDR`: whether `NEXT` stands first, and the
/// symbol's name.
fn read_symbol(rest: &[char]) -> (r: (bool, String))
    ensures
        r.0 == next_and_symbol(rest@).0,
        r.1@ == next_and_symbol(rest@).1,
{
    proof {
        reveal_strlit("NEXT");
    }
    match strip_prefix(rest, "NEXT") {
        Some(tail) => (true, to_string(trim(tail))),
        None => (false, to_string(rest)),
    }
}

/// The value that follows `STACK`.
fn read_stack_value(rest: &[char]) -> (r: Option<u64>)
    ensures
        r == stack_value(rest@),
{
    let rest = trim(rest);
    let value = if rest.len() > 0 && rest[0] == '=' {
        trim(slice_subrange(rest, 1, rest.len()))
    } else {
        trim(rest)
    };
    proof {
        reveal_strlit("0x");
        reveal_strlit("0X");
    }
    if starts_with(value, "0x") || starts_with(value, "0X") {
        parse_unsigned(slice_subrange(value, 2, value.len()), 16)
    } else {
        parse_unsigned(value, 10)
    }
}

/// The pattern of a placement rule: what stands between the first `(` and the
/// last `)`.
fn read_section_pattern(rest: &[char]) -> (r: Option<String>)
    ensures
        match section_pattern(rest@) {
            Some(pattern) => r is Some && r->0@ == pattern,
            None => r is None,
        },
{
    proof {
        lemma_index_from_bounds(rest@, '(', 0);
        lemma_end_of_last_bounds(rest@, ')', rest@.len() as int);
    }
    let open = match find(rest, '(') {
        Some(k) => k,
        None => {
            return None;
        },
    };
    let close = match rfind(rest, ')') {
        Some(k) => k,
        None => {
            return None;
        },
    };
    if open < close {
        Some(to_string(trim(slice_subrange(rest, open + 1, close))))
    } else {
        None
    }
}

/// The name and address of the region that a cleaned line opens.
fn read_region_header(line: &[char]) -> (r: Option<(String, Address)>)
    ensures
        match region_header(line@) {
            Some((name, vma)) => r matches Some((found, address)) && found@ == name && address
                == vma,
            None => r is None,
        },
{
    // Region line format: NAME 0xADDRESS
    proof {
        reveal(region_header);
    }
    let parts = split_whitespace(line);
    if parts.len() < 2 {
        return None;
    }
    let name = parts[0];
    if name.len() == 0 || !(name[0] >= 'A' && name[0] <= 'Z') {
        return None;
    }
    // Skip directive keywords
    if equals(name, "ADDR") || equals(name, "LOADADDR") || equals(name, "STACK") {
        return None;
    }
    match Address::from_chars(parts[1]) {
        Ok(vma) => Some((to_string(name), vma)),
        Err(_) => None,
    }
}

/// The keyword that a cleaned line starts with, if it is a block's, and what
/// follows the keyword.
fn strip_block_keyword<'a>(line: &'a [char]) -> (r: Option<(String, &'a [char])>)
    ensures
        match block_keyword(line@) {
            Some(keyword) => r matches Some((found, rest)) && found@ == keyword && rest@
                == line@.skip(keyword.len() as int),
            None => r is None,
        },
{
    if let Some(rest) = strip_prefix(line, "HEAD") {
        Some((String::from_str("HEAD"), rest))
    } else if let Some(rest) = strip_prefix(line, "MEM") {
        Some((String::from_str("MEM"), rest))
    } else if let Some(rest) = strip_prefix(line, "LDSECTION") {
        Some((String::from_str("LDSECTION"), rest))
    } else if let Some(rest) = strip_prefix(line, "EXEC") {
        Some((String::from_str("EXEC"), rest))
    } else if let Some(rest) = strip_prefix(line, "DATA") {
        Some((String::from_str("DATA"), rest))
    } else {
        None
    }
}

} // verus!
