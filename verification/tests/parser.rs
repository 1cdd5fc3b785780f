use sag_parser::parser::Parser;
use sag_parser::{Address, Directive, SagError, SagFile};

fn parse_failure(source: &str) -> (usize, String) {
    match SagFile::parse(source) {
        Err(SagError::Parse { line, message }) => (line, message),
        other => panic!("expected a parse failure, got {:?}", other),
    }
}

const BOOTLOADER: &str = "HEAD 0\n{\n    BOOTLOADER 0x80000000\n    {\n        * KEEP ( .bootloader )\n    }\n}\n";

#[test]
fn bootloader_block_has_one_kept_section() {
    let sag = SagFile::parse(BOOTLOADER).unwrap();
    assert!(sag.user_sections.is_empty());
    assert_eq!(sag.blocks.len(), 1);
    let block = &sag.blocks[0];
    assert_eq!(block.block_type, "HEAD");
    assert!(matches!(block.lma, Address::Absolute(0)));
    assert_eq!(block.alignment, None);
    assert_eq!(block.regions.len(), 1);
    let region = &block.regions[0];
    assert_eq!(region.name, "BOOTLOADER");
    assert!(matches!(region.vma, Address::Absolute(0x8000_0000)));
    assert_eq!(region.directives.len(), 1);
    match &region.directives[0] {
        Directive::Section { pattern, keep } => {
            assert_eq!(pattern, ".bootloader");
            assert!(*keep);
        }
        other => panic!("unexpected directive {:?}", other),
    }
}

#[test]
fn simple_description_is_read_in_full() {
    let content = "\nUSER_SECTIONS .bootloader\n\nHEAD 0x00000000\n{\n    BOOTLOADER 0x80000000\n    {\n        ADDR __flash_start\n        * KEEP ( .bootloader )\n    }\n}\n";
    let sag = SagFile::parse(content).unwrap();
    assert_eq!(sag.user_sections, vec![".bootloader".to_string()]);
    let region = &sag.blocks[0].regions[0];
    assert_eq!(region.directives.len(), 2);
    match &region.directives[0] {
        Directive::Addr { symbol, next } => {
            assert_eq!(symbol, "__flash_start");
            assert!(!*next);
        }
        other => panic!("unexpected directive {:?}", other),
    }
}

#[test]
fn empty_text_is_an_empty_description() {
    for source in ["", "\n", "   \n\t\n", "; comment only\n ; another"] {
        let sag = SagFile::parse(source).unwrap();
        assert!(sag.user_sections.is_empty());
        assert!(sag.blocks.is_empty());
    }
}

#[test]
fn stray_lines_at_top_level_are_passed_over() {
    let sag = SagFile::parse("hello world\n}\n{\nUSER_SECTIONS a b  ; c\nfoo\nUSER_SECTIONS\n").unwrap();
    assert_eq!(sag.user_sections, vec!["a b".to_string(), String::new()]);
    assert!(sag.blocks.is_empty());
}

#[test]
fn every_block_keyword_opens_a_block() {
    let source = "HEAD 0\n{\n}\nMEM +4\n{\n}\nLDSECTION -4\n{\n}\nEXEC 0x10\n{\n}\nDATA 7\n{\n}\n";
    let sag = SagFile::parse(source).unwrap();
    let kinds: Vec<&str> = sag.blocks.iter().map(|b| b.block_type.as_str()).collect();
    assert_eq!(kinds, vec!["HEAD", "MEM", "LDSECTION", "EXEC", "DATA"]);
    assert!(matches!(sag.blocks[0].lma, Address::Absolute(0)));
    assert!(matches!(sag.blocks[1].lma, Address::Relative(4)));
    assert!(matches!(sag.blocks[2].lma, Address::Relative(-4)));
    assert!(matches!(sag.blocks[3].lma, Address::Absolute(16)));
    assert!(matches!(sag.blocks[4].lma, Address::Absolute(7)));
}

#[test]
fn block_keyword_is_matched_as_a_prefix() {
    let sag = SagFile::parse("MEMORY0x10 0x20\n{\n}\n");
    match sag {
        Err(SagError::InvalidAddress(text)) => assert_eq!(text, "ORY0x10"),
        other => panic!("unexpected {:?}", other),
    }
    let sag = SagFile::parse("EXEC0x10\n{\n}\n").unwrap();
    assert_eq!(sag.blocks[0].block_type, "EXEC");
    assert!(matches!(sag.blocks[0].lma, Address::Absolute(16)));
}

#[test]
fn alignment_is_read_in_any_case() {
    for keyword in ["ALIGN", "align", "Align"] {
        let source = format!("MEM +0 {} 4096\n{{\n}}\n", keyword);
        let sag = SagFile::parse(&source).unwrap();
        assert_eq!(sag.blocks[0].alignment, Some(4096));
    }
    let sag = SagFile::parse("MEM +0 ALIGN\n{\n}\n").unwrap();
    assert_eq!(sag.blocks[0].alignment, None);
    let sag = SagFile::parse("MEM +0 ALIGNED 16\n{\n}\n").unwrap();
    assert_eq!(sag.blocks[0].alignment, None);
    let sag = SagFile::parse("MEM +0 ALIGN +16 extra\n{\n}\n").unwrap();
    assert_eq!(sag.blocks[0].alignment, Some(16));
}

#[test]
fn malformed_alignment_cites_the_block_header() {
    let source = "; layout\n\nMEM 0x0 ALIGN abc\n{\n    RAM 0x0\n    {\n    }\n}\n";
    assert_eq!(parse_failure(source), (3, "Invalid alignment value".to_string()));
    assert_eq!(parse_failure("HEAD 0 ALIGN -4\n{\n}\n"), (1, "Invalid alignment value".to_string()));
    assert_eq!(parse_failure("HEAD 0 ALIGN 0x10\n{\n}\n"), (1, "Invalid alignment value".to_string()));
}

#[test]
fn block_without_address_fails() {
    assert_eq!(parse_failure("\nHEAD\n{\n}\n"), (2, "Expected address after block type".to_string()));
    assert_eq!(parse_failure("DATA   ; none\n"), (1, "Expected address after block type".to_string()));
}

#[test]
fn block_with_malformed_address_is_an_invalid_address() {
    match SagFile::parse("HEAD zero\n{\n}\n") {
        Err(SagError::InvalidAddress(text)) => assert_eq!(text, "zero"),
        other => panic!("unexpected {:?}", other),
    }
}

#[test]
fn block_needs_an_opening_brace() {
    assert_eq!(parse_failure("HEAD 0\n\n; c\nfoo\n{\n}\n"), (4, "Expected '{'".to_string()));
    assert_eq!(parse_failure("HEAD 0\n"), (2, "Expected '{'".to_string()));
    assert_eq!(parse_failure("HEAD 0\n\n\n"), (4, "Expected '{'".to_string()));
}

#[test]
fn unclosed_block_fails_at_end_of_input() {
    assert_eq!(
        parse_failure("HEAD 0\n{\n"),
        (3, "Unexpected end of file, expected '}'".to_string())
    );
    assert_eq!(
        parse_failure("HEAD 0\n{\n    stray\n\n"),
        (5, "Unexpected end of file, expected '}'".to_string())
    );
    assert_eq!(
        parse_failure("HEAD 0\n{\n  R 0\n  {\n  }\n"),
        (6, "Unexpected end of file, expected '}'".to_string())
    );
}

#[test]
fn unclosed_region_fails_at_end_of_input() {
    assert_eq!(
        parse_failure("HEAD 0\n{\n  R 0\n  {\n    ADDR a\n"),
        (6, "Unexpected end of file in region".to_string())
    );
    assert_eq!(
        parse_failure("HEAD 0\n{\n  R 0\n  {"),
        (5, "Unexpected end of file in region".to_string())
    );
}

#[test]
fn region_needs_an_opening_brace() {
    assert_eq!(
        parse_failure("HEAD 0\n{\n  R 0\n  ADDR a\n}\n"),
        (4, "Expected '{' after region".to_string())
    );
    assert_eq!(parse_failure("HEAD 0\n{\n  R 0\n"), (4, "Expected '{'".to_string()));
}

#[test]
fn lines_that_open_no_region_are_passed_over() {
    let source = "HEAD 0\n{\n  lower 0x10\n  Name\n  Name notanaddress\n  ADDR 0x10\n  LOADADDR 0x10\n  STACK 0x10\n  * ( .x )\n  9R 0x10\n  Real +8 trailing words\n  {\n  }\n}\n";
    let sag = SagFile::parse(source).unwrap();
    assert_eq!(sag.blocks[0].regions.len(), 1);
    assert_eq!(sag.blocks[0].regions[0].name, "Real");
    assert!(matches!(sag.blocks[0].regions[0].vma, Address::Relative(8)));
}

#[test]
fn directives_are_read_in_order() {
    let source = "EXEC 0x1000\n{\n  CODE 0x2000\n  {\n    ADDR start ; first\n    ADDR NEXT after\n    ADDRESS\n    LOADADDR load\n    LOADADDR NEXT  load next \n    LOADADDRNEXT\n    STACK = 0x9FF00000\n    STACK 4096\n    STACK=0X10\n    * ( +RO, .data )\n    *KEEP(*(x))\n    * KEEP\n    * )(\n    * ()\n    unknown words\n  }\n}\n";
    let sag = SagFile::parse(source).unwrap();
    let shown: Vec<String> =
        sag.blocks[0].regions[0].directives.iter().map(|d| format!("{:?}", d)).collect();
    assert_eq!(
        shown,
        vec![
            "Addr { symbol: \"start\", next: false }",
            "Addr { symbol: \"after\", next: true }",
            "Addr { symbol: \"ESS\", next: false }",
            "LoadAddr { symbol: \"load\", next: false }",
            "LoadAddr { symbol: \"load next\", next: true }",
            "LoadAddr { symbol: \"\", next: true }",
            "Stack(2683305984)",
            "Stack(4096)",
            "Stack(16)",
            "Section { pattern: \"+RO, .data\", keep: false }",
            "Section { pattern: \"*(x)\", keep: true }",
            "Section { pattern: \"\", keep: false }",
        ]
    );
}

#[test]
fn malformed_stack_value_fails_at_its_line() {
    let source = "EXEC 0\n{\n  CODE 0\n  {\n\n    STACK = top\n  }\n}\n";
    assert_eq!(parse_failure(source), (6, "Invalid stack address".to_string()));
    let source = "EXEC 0\n{\n  CODE 0\n  {\n    STACK\n  }\n}\n";
    assert_eq!(parse_failure(source), (5, "Invalid stack address".to_string()));
    let source = "EXEC 0\n{\n  CODE 0\n  {\n    STACK = +5\n    STACK = -5\n  }\n}\n";
    assert_eq!(parse_failure(source), (6, "Invalid stack address".to_string()));
}

#[test]
fn first_failure_wins() {
    let source = "HEAD 0 ALIGN x\n{\n  R 0\n  {\n    STACK = bad\n";
    assert_eq!(parse_failure(source), (1, "Invalid alignment value".to_string()));
    let source = "HEAD 0\n{\n  R 0\n  {\n    STACK = bad\n";
    assert_eq!(parse_failure(source), (5, "Invalid stack address".to_string()));
}

#[test]
fn carriage_returns_and_comments_do_not_matter() {
    let plain = SagFile::parse(BOOTLOADER).unwrap();
    let noisy = "HEAD 0 ; head\r\n{ ; open\r\n\r\n    BOOTLOADER 0x80000000\r\n ; c\r\n    {\r\n        * KEEP ( .bootloader ) ; kept\r\n    } ; close\r\n}";
    let noisy = SagFile::parse(noisy).unwrap();
    assert_eq!(format!("{:?}", plain), format!("{:?}", noisy));
}

#[test]
fn parser_cursor_moves_over_empty_lines() {
    let mut parser = Parser::new("\n ; c\nHEAD 0\n\n{\n}\n");
    assert_eq!(parser.lines.len(), 6);
    assert_eq!(parser.current, 0);
    assert_eq!(parser.line_number(), 1);
    parser.skip_empty_and_comments();
    assert_eq!(parser.current, 2);
    assert_eq!(parser.line_number(), 3);
    let line: String = parser.current_line().unwrap().iter().collect();
    assert_eq!(line, "HEAD 0");
    let block = parser.try_parse_block().unwrap().unwrap();
    assert_eq!(block.block_type, "HEAD");
    assert_eq!(parser.current, 6);
    assert!(parser.current_line().is_none());
    parser.advance();
    assert_eq!(parser.current, 6);
    parser.skip_empty_and_comments();
    assert_eq!(parser.current, 6);
    match parser.parse_error("at the end") {
        SagError::Parse { line, message } => {
            assert_eq!(line, 7);
            assert_eq!(message, "at the end");
        }
        other => panic!("unexpected {:?}", other),
    }
}

#[test]
fn parser_leaves_cursor_where_nothing_opens() {
    let mut parser = Parser::new("foo bar\nR 0x10\n{\n}\n");
    assert!(parser.try_parse_block().unwrap().is_none());
    assert_eq!(parser.current, 0);
    assert!(parser.try_parse_region().unwrap().is_none());
    assert_eq!(parser.current, 0);
    parser.advance();
    let region = parser.try_parse_region().unwrap().unwrap();
    assert_eq!(region.name, "R");
    assert_eq!(parser.current, 4);
    let chars: Vec<char> = "  STACK = 0x20  ".chars().collect();
    assert!(matches!(parser.parse_directive(&chars), Ok(Some(Directive::Stack(32)))));
    let sag = parser.parse().unwrap();
    assert!(sag.blocks.is_empty());
}

#[test]
fn from_read_parses_what_was_read() {
    let sag = SagFile::from_read(Ok(BOOTLOADER.to_string())).unwrap();
    assert_eq!(format!("{:?}", sag), format!("{:?}", SagFile::parse(BOOTLOADER).unwrap()));
    match SagFile::from_read(Ok("HEAD\n".to_string())) {
        Err(SagError::Parse { line, message }) => {
            assert_eq!(line, 1);
            assert_eq!(message, "Expected address after block type");
        }
        other => panic!("unexpected {:?}", other),
    }
    match SagFile::from_read(Ok("HEAD +-5\n{\n}\n".to_string())) {
        Err(SagError::InvalidAddress(text)) => assert_eq!(text, "+-5"),
        other => panic!("unexpected {:?}", other),
    }
}

#[test]
fn from_read_passes_the_read_failure_on() {
    let failure = std::io::Error::new(std::io::ErrorKind::NotFound, "no such description");
    match SagFile::from_read(Err(failure)) {
        Err(SagError::Io(inner)) => {
            assert_eq!(inner.kind(), std::io::ErrorKind::NotFound);
            assert_eq!(inner.to_string(), "no such description");
        }
        other => panic!("unexpected {:?}", other),
    }
}

#[test]
fn lenient_addresses_open_nothing() {
    let sag = SagFile::parse("HEAD 0\n{\n  RAM 0x+F\n  ROM + 5\n  Real 0xF\n  {\n  }\n}\n").unwrap();
    assert_eq!(sag.blocks[0].regions.len(), 1);
    assert_eq!(sag.blocks[0].regions[0].name, "Real");
    match SagFile::parse("HEAD 0x+F\n{\n}\n") {
        Err(SagError::InvalidAddress(text)) => assert_eq!(text, "0x+F"),
        other => panic!("unexpected {:?}", other),
    }
}
