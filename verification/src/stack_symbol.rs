//! The stack symbol in the script: how often its assignment is written, and
//! where. The statements here count lines, so they speak of scripts whose
//! texts hold no line feed of their own.

use vstd::prelude::*;
use crate::ast::{
    directive_views, directives_on_single_lines, region_views, BlockView, Directive,
    DirectiveView, Region, RegionView, SagFile, SagFileView,
};
use crate::config::{holder_from, ConfigView, LinkerScriptConfig, RegionEntry};
use crate::generator::{
    block_text, blocks_text, cursor_after, debug_text, directive_text, directives_text,
    first_stack, footer_text, format_debug, header_text, lowercase, memory_line, memory_lines,
    memory_text, region_text, region_text_named, regions_text, runs_in_place, script_text,
    script_with_name, section_body, section_head, section_text, sections_text, stack_line,
    stack_text, target_region, to_lowercase,
};
use crate::lines::{
    all_on_single_lines, closed, lemma_occurrences_concat, lemma_one_line,
    lemma_pieces_on_single_lines, lemma_trimmed_on_single_line, no_line_break, occurrences,
    on_single_line,
};
use crate::number::{
    all_digit_chars, decimal, hex_text, is_digit_char, lemma_decimal_is_digits,
    lemma_hex_text_tells_apart, lemma_upper_hex_reads_back, size_text, upper_hex, GIB, KIB, MIB,
};
use crate::pattern::{expansion, stems_of, stems_of_all};
use crate::text::{pieces, trimmed};

verus! {

/// What the fixed texts of the head of a script hold.
proof fn lemma_head_literals()
    ensures
        "/* Auto-generated from SAG file */\n"@ == "/* Auto-generated from SAG file */"@ + seq!['\n'],
        no_line_break("/* Auto-generated from SAG file */"@),
        "/* Auto-generated from SAG file */"@.len() == 34,
        "/* Auto-generated from SAG file */"@[0] == '/',
        no_line_break("/* Config: "@),
        "/* Config: "@.len() == 11,
        "/* Config: "@[0] == '/',
        " */\n"@ == " */"@ + seq!['\n'],
        no_line_break(" */"@),
        " */"@.len() == 3,
        " */"@[0] == ' ',
        "\n"@ == seq!['\n'],
        "OUTPUT_ARCH(riscv)\n"@ == "OUTPUT_ARCH(riscv)"@ + seq!['\n'],
        no_line_break("OUTPUT_ARCH(riscv)"@),
        "OUTPUT_ARCH(riscv)"@.len() == 18,
        "OUTPUT_ARCH(riscv)"@[0] == 'O',
        "ENTRY(_start)\n"@ == "ENTRY(_start)"@ + seq!['\n'],
        no_line_break("ENTRY(_start)"@),
        "ENTRY(_start)"@.len() == 13,
        "ENTRY(_start)"@[0] == 'E',
        "MEMORY\n"@ == "MEMORY"@ + seq!['\n'],
        no_line_break("MEMORY"@),
        "MEMORY"@.len() == 6,
        "MEMORY"@[0] == 'M',
        "{\n"@ == "{"@ + seq!['\n'],
        no_line_break("{"@),
        "{"@.len() == 1,
        "{"@[0] == '{',
        "}\n"@ == "}"@ + seq!['\n'],
        no_line_break("}"@),
        "}"@.len() == 1,
        "}"@[0] == '}',
        no_line_break("    "@),
        "    "@.len() == 4,
        "    "@[0] == ' ',
        no_line_break(" ("@),
        " ("@.len() == 2,
        " ("@[0] == ' ',
        no_line_break(") : ORIGIN = "@),
        ") : ORIGIN = "@.len() == 13,
        ") : ORIGIN = "@[0] == ')',
        no_line_break(", LENGTH = "@),
        ", LENGTH = "@.len() == 11,
        ", LENGTH = "@[0] == ',',
{
    reveal_strlit("/* Auto-generated from SAG file */");
    reveal_strlit("/* Auto-generated from SAG file */\n");
    assert("/* Auto-generated from SAG file */\n"@ =~= "/* Auto-generated from SAG file */"@ + seq!['\n']);
    reveal_strlit("/* Config: ");
    reveal_strlit(" */");
    reveal_strlit(" */\n");
    assert(" */\n"@ =~= " */"@ + seq!['\n']);
    reveal_strlit("\n");
    assert("\n"@ =~= seq!['\n']);
    reveal_strlit("OUTPUT_ARCH(riscv)");
    reveal_strlit("OUTPUT_ARCH(riscv)\n");
    assert("OUTPUT_ARCH(riscv)\n"@ =~= "OUTPUT_ARCH(riscv)"@ + seq!['\n']);
    reveal_strlit("ENTRY(_start)");
    reveal_strlit("ENTRY(_start)\n");
    assert("ENTRY(_start)\n"@ =~= "ENTRY(_start)"@ + seq!['\n']);
    reveal_strlit("MEMORY");
    reveal_strlit("MEMORY\n");
    assert("MEMORY\n"@ =~= "MEMORY"@ + seq!['\n']);
    reveal_strlit("{");
    reveal_strlit("{\n");
    assert("{\n"@ =~= "{"@ + seq!['\n']);
    reveal_strlit("}");
    reveal_strlit("}\n");
    assert("}\n"@ =~= "}"@ + seq!['\n']);
    reveal_strlit("    ");
    reveal_strlit(" (");
    reveal_strlit(") : ORIGIN = ");
    reveal_strlit(", LENGTH = ");
}

/// What the fixed texts around numbers hold.
proof fn lemma_number_literals()
    ensures
        no_line_break("__stack_top = "@),
        "__stack_top = "@.len() == 14,
        "__stack_top = "@[0] == '_',
        ";\n"@ == ";"@ + seq!['\n'],
        no_line_break(";"@),
        ";"@.len() == 1,
        ";"@[0] == ';',
        no_line_break("0x"@),
        "0x"@.len() == 2,
        "0x"@[0] == '0',
        no_line_break("G"@),
        "G"@.len() == 1,
        "G"@[0] == 'G',
        no_line_break("M"@),
        "M"@.len() == 1,
        "M"@[0] == 'M',
        no_line_break("K"@),
        "K"@.len() == 1,
        "K"@[0] == 'K',
        no_line_break("    "@),
        "    "@.len() == 4,
        "    "@[0] == ' ',
{
    reveal_strlit("__stack_top = ");
    reveal_strlit(";");
    reveal_strlit(";\n");
    assert(";\n"@ =~= ";"@ + seq!['\n']);
    reveal_strlit("0x");
    reveal_strlit("G");
    reveal_strlit("M");
    reveal_strlit("K");
    reveal_strlit("    ");
}

/// What the fixed texts of a placement rule hold.
proof fn lemma_section_literals()
    ensures
        no_line_break("    ."@),
        "    ."@.len() == 5,
        "    ."@[0] == ' ',
        "    ."@[4] == '.',
        " :\n"@ == " :"@ + seq!['\n'],
        no_line_break(" :"@),
        " :"@.len() == 2,
        " :"@[0] == ' ',
        no_line_break(" : AT("@),
        " : AT("@.len() == 6,
        " : AT("@[0] == ' ',
        " : AT("@[4] == 'T',
        ")\n"@ == ")"@ + seq!['\n'],
        no_line_break(")"@),
        ")"@.len() == 1,
        ")"@[0] == ')',
        "    {\n"@ == "    {"@ + seq!['\n'],
        no_line_break("    {"@),
        "    {"@.len() == 5,
        "    {"@[0] == ' ',
        "    {"@[4] == '{',
        no_line_break("        KEEP(*(."@),
        "        KEEP(*(."@.len() == 16,
        "        KEEP(*(."@[0] == ' ',
        "        KEEP(*(."@[4] == ' ',
        "))\n"@ == "))"@ + seq!['\n'],
        no_line_break("))"@),
        "))"@.len() == 2,
        "))"@[0] == ')',
        "*))\n"@ == "*))"@ + seq!['\n'],
        no_line_break("*))"@),
        "*))"@.len() == 3,
        "*))"@[0] == '*',
        no_line_break("        *(."@),
        "        *(."@.len() == 11,
        "        *(."@[0] == ' ',
        "        *(."@[4] == ' ',
        "*)\n"@ == "*)"@ + seq!['\n'],
        no_line_break("*)"@),
        "*)"@.len() == 2,
        "*)"@[0] == '*',
        no_line_break("    } > "@),
        "    } > "@.len() == 8,
        "    } > "@[0] == ' ',
        "    } > "@[4] == '}',
        "\n"@ == seq!['\n'],
{
    reveal_strlit("    .");
    reveal_strlit(" :");
    reveal_strlit(" :\n");
    assert(" :\n"@ =~= " :"@ + seq!['\n']);
    reveal_strlit(" : AT(");
    reveal_strlit(")");
    reveal_strlit(")\n");
    assert(")\n"@ =~= ")"@ + seq!['\n']);
    reveal_strlit("    {");
    reveal_strlit("    {\n");
    assert("    {\n"@ =~= "    {"@ + seq!['\n']);
    reveal_strlit("        KEEP(*(.");
    reveal_strlit("))");
    reveal_strlit("))\n");
    assert("))\n"@ =~= "))"@ + seq!['\n']);
    reveal_strlit("*))");
    reveal_strlit("*))\n");
    assert("*))\n"@ =~= "*))"@ + seq!['\n']);
    reveal_strlit("        *(.");
    reveal_strlit("*)");
    reveal_strlit("*)\n");
    assert("*)\n"@ =~= "*)"@ + seq!['\n']);
    reveal_strlit("    } > ");
    reveal_strlit("\n");
    assert("\n"@ =~= seq!['\n']);
}

/// What the fixed texts of a symbol's assignment hold.
proof fn lemma_symbol_literals()
    ensures
        no_line_break("    "@),
        "    "@.len() == 4,
        "    "@[0] == ' ',
        " = .;\n"@ == " = .;"@ + seq!['\n'],
        no_line_break(" = .;"@),
        " = .;"@.len() == 5,
        " = .;"@[0] == ' ',
        " = .;"@[3] == '.',
        no_line_break(" = LOADADDR(."@),
        " = LOADADDR(."@.len() == 13,
        " = LOADADDR(."@[0] == ' ',
        " = LOADADDR(."@[4] == 'O',
        ");\n"@ == ");"@ + seq!['\n'],
        no_line_break(");"@),
        ");"@.len() == 2,
        ");"@[0] == ')',
        ");"@[0] == ')',
{
    reveal_strlit("    ");
    reveal_strlit(" = .;");
    reveal_strlit(" = .;\n");
    assert(" = .;\n"@ =~= " = .;"@ + seq!['\n']);
    reveal_strlit(" = LOADADDR(.");
    reveal_strlit(");");
    reveal_strlit(");\n");
    assert(");\n"@ =~= ");"@ + seq!['\n']);
}

/// The fixed stems and the fallback region hold no line feed.
proof fn lemma_stem_literals()
    ensures
        no_line_break("vectors"@),
        "vectors"@.len() == 7,
        "vectors"@[0] == 'v',
        no_line_break("isr"@),
        "isr"@.len() == 3,
        "isr"@[0] == 'i',
        no_line_break("text"@),
        "text"@.len() == 4,
        "text"@[0] == 't',
        no_line_break("rodata"@),
        "rodata"@.len() == 6,
        "rodata"@[0] == 'r',
        no_line_break("srodata"@),
        "srodata"@.len() == 7,
        "srodata"@[0] == 's',
        no_line_break("data"@),
        "data"@.len() == 4,
        "data"@[0] == 'd',
        no_line_break("sdata"@),
        "sdata"@.len() == 5,
        "sdata"@[0] == 's',
        no_line_break("bss"@),
        "bss"@.len() == 3,
        "bss"@[0] == 'b',
        no_line_break("sbss"@),
        "sbss"@.len() == 4,
        "sbss"@[0] == 's',
        no_line_break("RAM"@),
        "RAM"@.len() == 3,
        "RAM"@[0] == 'R',
{
    reveal_strlit("vectors");
    reveal_strlit("isr");
    reveal_strlit("text");
    reveal_strlit("rodata");
    reveal_strlit("srodata");
    reveal_strlit("data");
    reveal_strlit("sdata");
    reveal_strlit("bss");
    reveal_strlit("sbss");
    reveal_strlit("RAM");
}

/// What the fixed texts of the comments and of the `SECTIONS` block hold.
proof fn lemma_comment_literals()
    ensures
        no_line_break("    /* Region: "@),
        "    /* Region: "@.len() == 15,
        "    /* Region: "@[0] == ' ',
        "    /* Region: "@[4] == '/',
        no_line_break(" VMA="@),
        " VMA="@.len() == 5,
        " VMA="@[0] == ' ',
        " VMA="@[4] == '=',
        no_line_break(" LMA="@),
        " LMA="@.len() == 5,
        " LMA="@[0] == ' ',
        " LMA="@[4] == '=',
        " */\n"@ == " */"@ + seq!['\n'],
        no_line_break(" */"@),
        " */"@.len() == 3,
        " */"@[0] == ' ',
        no_line_break("    /* Block: "@),
        "    /* Block: "@.len() == 14,
        "    /* Block: "@[0] == ' ',
        "    /* Block: "@[4] == '/',
        no_line_break(" @ LMA "@),
        " @ LMA "@.len() == 7,
        " @ LMA "@[0] == ' ',
        " @ LMA "@[4] == 'M',
        "SECTIONS\n"@ == "SECTIONS"@ + seq!['\n'],
        no_line_break("SECTIONS"@),
        "SECTIONS"@.len() == 8,
        "SECTIONS"@[0] == 'S',
        "{\n"@ == "{"@ + seq!['\n'],
        no_line_break("{"@),
        "{"@.len() == 1,
        "{"@[0] == '{',
        "}\n"@ == "}"@ + seq!['\n'],
        no_line_break("}"@),
        "}"@.len() == 1,
        "}"@[0] == '}',
        "\n"@ == seq!['\n'],
        "    PROVIDE(_end = .);\n"@ == "    PROVIDE(_end = .);"@ + seq!['\n'],
        no_line_break("    PROVIDE(_end = .);"@),
        "    PROVIDE(_end = .);"@.len() == 22,
        "    PROVIDE(_end = .);"@[0] == ' ',
        "    PROVIDE(_end = .);"@[4] == 'P',
        "    PROVIDE(end = .);\n"@ == "    PROVIDE(end = .);"@ + seq!['\n'],
        no_line_break("    PROVIDE(end = .);"@),
        "    PROVIDE(end = .);"@.len() == 21,
        "    PROVIDE(end = .);"@[0] == ' ',
        "    PROVIDE(end = .);"@[4] == 'P',
{
    reveal_strlit("    /* Region: ");
    reveal_strlit(" VMA=");
    reveal_strlit(" LMA=");
    reveal_strlit(" */");
    reveal_strlit(" */\n");
    assert(" */\n"@ =~= " */"@ + seq!['\n']);
    reveal_strlit("    /* Block: ");
    reveal_strlit(" @ LMA ");
    reveal_strlit("SECTIONS");
    reveal_strlit("SECTIONS\n");
    assert("SECTIONS\n"@ =~= "SECTIONS"@ + seq!['\n']);
    reveal_strlit("{");
    reveal_strlit("{\n");
    assert("{\n"@ =~= "{"@ + seq!['\n']);
    reveal_strlit("}");
    reveal_strlit("}\n");
    assert("}\n"@ =~= "}"@ + seq!['\n']);
    reveal_strlit("\n");
    assert("\n"@ =~= seq!['\n']);
    reveal_strlit("    PROVIDE(_end = .);");
    reveal_strlit("    PROVIDE(_end = .);\n");
    assert("    PROVIDE(_end = .);\n"@ =~= "    PROVIDE(_end = .);"@ + seq!['\n']);
    reveal_strlit("    PROVIDE(end = .);");
    reveal_strlit("    PROVIDE(end = .);\n");
    assert("    PROVIDE(end = .);\n"@ =~= "    PROVIDE(end = .);"@ + seq!['\n']);
}


/// The line that assigns the stack top, as the global step writes it.
pub open spec fn stack_assignment(addr: u64) -> Seq<char> {
    "__stack_top = "@ + hex_text(addr) + ";"@
}

/// The line that assigns the stack top inside a region.
pub open spec fn local_stack_assignment(addr: u64) -> Seq<char> {
    "    "@ + stack_assignment(addr)
}

/// How many of the directives are `STACK` directives of the value `addr`.
pub open spec fn stack_directives(directives: Seq<DirectiveView>, addr: u64) -> nat
    decreases directives.len(),
{
    if directives.len() == 0 {
        0
    } else {
        stack_directives(directives.drop_last(), addr) + if directives.last()
            == DirectiveView::Stack(addr) {
            1nat
        } else {
            0nat
        }
    }
}

/// Whether the names and attributes of a layout's regions hold no line feed.
pub open spec fn layout_on_single_lines(regions: Seq<RegionEntry>) -> bool {
    forall|i: int|
        0 <= i < regions.len() ==> no_line_break((#[trigger] regions[i]).name) && no_line_break(
            regions[i].attributes,
        )
}

/// Whether the names of the regions' sections hold no line feed.
pub open spec fn sections_on_single_lines(regions: Seq<RegionView>) -> bool {
    forall|i: int| 0 <= i < regions.len() ==> no_line_break(lowercase((#[trigger] regions[i]).name))
}

/// Whether the texts that a script takes from a description and a layout hold
/// no line feed: the texts of every block, the name of every region's section,
/// the layout's name as it is quoted, and the names and attributes of the
/// layout's regions.
pub open spec fn script_on_single_lines(
    file: SagFileView,
    config: ConfigView,
    quoted_name: Seq<char>,
) -> bool {
    &&& file.on_single_lines()
    &&& forall|i: int|
        0 <= i < file.blocks.len() ==> sections_on_single_lines((#[trigger] file.blocks[i]).regions)
    &&& no_line_break(quoted_name)
    &&& layout_on_single_lines(config.memory_regions)
}

/// Whether a text is closed and none of its lines is `target`.
spec fn without(text: Seq<char>, target: Seq<char>) -> bool {
    closed(text) && occurrences(text, target) == 0
}

/// Whether a line is one of the two assignments in shape: it starts with `_`,
/// or with four characters and then `_`.
spec fn assignment_shaped(target: Seq<char>) -> bool {
    target.len() > 0 && (target[0] == '_' || (target.len() >= 5 && target[4] == '_'))
}

/// Whether a line is empty, or starts with a blank and has no `_` as its
/// fifth character: the shape of every line of a placement rule and of every
/// comment.
spec fn rule_shaped(line: Seq<char>) -> bool {
    line.len() == 0 || (line[0] == ' ' && (line.len() < 5 || line[4] != '_'))
}

/// Writing one more line after a closed text adds that line to its lines.
proof fn lemma_append_line(acc: Seq<char>, body: Seq<char>, target: Seq<char>)
    requires
        closed(acc),
        no_line_break(body),
    ensures
        closed(acc + (body + seq!['\n'])),
        occurrences(acc + (body + seq!['\n']), target) == occurrences(acc, target) + if body
            == target {
            1nat
        } else {
            0nat
        },
{
    lemma_one_line(body, target);
    lemma_occurrences_concat(acc, body + seq!['\n'], target);
}

/// Writing a line other than `target` after a text without it gives a text
/// without it.
proof fn lemma_append_other(acc: Seq<char>, body: Seq<char>, target: Seq<char>)
    requires
        without(acc, target),
        no_line_break(body),
        body != target,
    ensures
        without(acc + (body + seq!['\n']), target),
{
    lemma_append_line(acc, body, target);
}

/// Two texts without the line, one after the other, are without it.
proof fn lemma_without_concat(a: Seq<char>, b: Seq<char>, target: Seq<char>)
    requires
        without(a, target),
        without(b, target),
    ensures
        without(a + b, target),
{
    lemma_occurrences_concat(a, b, target);
}

/// The empty text is without any line.
proof fn lemma_without_nothing(target: Seq<char>)
    ensures
        without(Seq::<char>::empty(), target),
{
    assert(occurrences(Seq::<char>::empty(), target) == 0);
}

/// Digits hold no line feed.
proof fn lemma_digits_on_one_line(s: Seq<char>)
    requires
        all_digit_chars(s),
    ensures
        no_line_break(s),
{
    assert forall|i: int| 0 <= i < s.len() implies s[i] != '\n' by {
        assert(is_digit_char(s[i]));
    }
}

/// An address as the script shows it holds no line feed, and ends in a digit.
proof fn lemma_hex_text_on_one_line(addr: u64)
    ensures
        no_line_break(hex_text(addr)),
        hex_text(addr).len() >= 3,
        is_digit_char(hex_text(addr).last()),
{
    lemma_number_literals();
    lemma_upper_hex_reads_back(addr as nat, 8);
    lemma_digits_on_one_line(upper_hex(addr as nat, 8));
    let digits = upper_hex(addr as nat, 8);
    assert(hex_text(addr).last() == digits.last());
}

/// A number in decimal holds no line feed.
proof fn lemma_decimal_on_one_line(v: nat)
    ensures
        no_line_break(decimal(v)),
{
    lemma_decimal_is_digits(v);
    lemma_digits_on_one_line(decimal(v));
}

/// A size as the script shows it holds no line feed.
proof fn lemma_size_text_on_one_line(bytes: u64)
    ensures
        no_line_break(size_text(bytes)),
{
    lemma_number_literals();
    lemma_decimal_on_one_line(bytes as nat);
    lemma_decimal_on_one_line((bytes / GIB) as nat);
    lemma_decimal_on_one_line((bytes / MIB) as nat);
    lemma_decimal_on_one_line((bytes / KIB) as nat);
}

/// The assignment of the stack top holds no line feed, starts with `_`, and
/// ends in a digit and `;`. Written as a line, it is that one line.
proof fn lemma_stack_line(addr: u64)
    ensures
        no_line_break(stack_assignment(addr)),
        stack_line(addr) == stack_assignment(addr) + seq!['\n'],
        stack_assignment(addr).len() == 15 + hex_text(addr).len(),
        stack_assignment(addr)[0] == '_',
        stack_assignment(addr).subrange(14, stack_assignment(addr).len() - 1) == hex_text(addr),
        is_digit_char(stack_assignment(addr)[stack_assignment(addr).len() - 2]),
{
    lemma_number_literals();
    lemma_hex_text_on_one_line(addr);
    let line = stack_assignment(addr);
    assert(stack_line(addr) =~= line + seq!['\n']);
    assert(line.subrange(14, line.len() - 1) =~= hex_text(addr));
    assert(line[line.len() - 2] == hex_text(addr).last());
}

/// The assignment of the stack top inside a region holds no line feed, has `_`
/// as its fifth character, and ends in a digit and `;`. Two such lines are the
/// same only for the same value.
proof fn lemma_local_stack_line(addr: u64)
    ensures
        no_line_break(local_stack_assignment(addr)),
        "    "@ + stack_line(addr) == local_stack_assignment(addr) + seq!['\n'],
        local_stack_assignment(addr).len() == 19 + hex_text(addr).len(),
        local_stack_assignment(addr)[0] == ' ',
        local_stack_assignment(addr)[4] == '_',
        is_digit_char(local_stack_assignment(addr)[local_stack_assignment(addr).len() - 2]),
        forall|other: u64|
            local_stack_assignment(other) == local_stack_assignment(addr) ==> other == addr,
{
    lemma_number_literals();
    lemma_stack_line(addr);
    let line = local_stack_assignment(addr);
    assert("    "@ + stack_line(addr) =~= line + seq!['\n']);
    assert(line[line.len() - 2] == stack_assignment(addr)[stack_assignment(addr).len() - 2]);
    assert forall|other: u64| local_stack_assignment(other) == line implies other == addr by {
        lemma_stack_line(other);
        let theirs = local_stack_assignment(other);
        assert(theirs.skip(4) =~= stack_assignment(other));
        assert(line.skip(4) =~= stack_assignment(addr));
        lemma_hex_text_tells_apart(other, addr);
    }
}

/// The head of the script is closed and holds no line that starts with `_`.
proof fn lemma_header_lines(quoted_name: Seq<char>, target: Seq<char>)
    requires
        no_line_break(quoted_name),
        target.len() > 0,
        target[0] == '_',
    ensures
        without(header_text(quoted_name), target),
{
    lemma_head_literals();
    lemma_without_nothing(target);
    let nl = seq!['\n'];
    let none = Seq::<char>::empty();
    let b1 = "/* Auto-generated from SAG file */"@;
    let b2 = "/* Config: "@ + quoted_name + " */"@;
    let b4 = "OUTPUT_ARCH(riscv)"@;
    let b5 = "ENTRY(_start)"@;
    assert(b2[0] == '/');
    let a1 = none + (b1 + nl);
    let a2 = a1 + (b2 + nl);
    let a3 = a2 + (none + nl);
    let a4 = a3 + (b4 + nl);
    let a5 = a4 + (b5 + nl);
    let a6 = a5 + (none + nl);
    lemma_append_other(none, b1, target);
    lemma_append_other(a1, b2, target);
    lemma_append_other(a2, none, target);
    lemma_append_other(a3, b4, target);
    lemma_append_other(a4, b5, target);
    lemma_append_other(a5, none, target);
    assert(header_text(quoted_name) =~= a6);
}

/// The line of one memory region is closed and starts with a blank.
proof fn lemma_memory_line(region: RegionEntry, target: Seq<char>)
    requires
        no_line_break(region.name),
        no_line_break(region.attributes),
        target.len() > 0,
        target[0] == '_',
    ensures
        without(memory_line(region), target),
{
    lemma_head_literals();
    lemma_without_nothing(target);
    lemma_hex_text_on_one_line(region.origin);
    lemma_size_text_on_one_line(region.length);
    let none = Seq::<char>::empty();
    let body = "    "@ + region.name + " ("@ + region.attributes + ") : ORIGIN = "@ + hex_text(
        region.origin,
    ) + ", LENGTH = "@ + size_text(region.length);
    assert(body[0] == ' ');
    lemma_append_other(none, body, target);
    assert(memory_line(region) =~= none + (body + seq!['\n']));
}

/// The lines of the memory regions are closed and start with blanks.
proof fn lemma_memory_lines(regions: Seq<RegionEntry>, target: Seq<char>)
    requires
        layout_on_single_lines(regions),
        target.len() > 0,
        target[0] == '_',
    ensures
        without(memory_lines(regions), target),
    decreases regions.len(),
{
    lemma_without_nothing(target);
    if regions.len() > 0 {
        let before = regions.drop_last();
        assert forall|i: int| 0 <= i < before.len() implies no_line_break(
            (#[trigger] before[i]).name,
        ) && no_line_break(before[i].attributes) by {
            assert(before[i] == regions[i]);
        }
        lemma_memory_lines(before, target);
        lemma_memory_line(regions.last(), target);
        lemma_without_concat(memory_lines(before), memory_line(regions.last()), target);
    }
}

/// The `MEMORY` block is closed and holds no line that starts with `_`.
proof fn lemma_memory_text(regions: Seq<RegionEntry>, target: Seq<char>)
    requires
        layout_on_single_lines(regions),
        target.len() > 0,
        target[0] == '_',
    ensures
        without(memory_text(regions), target),
{
    lemma_head_literals();
    lemma_without_nothing(target);
    lemma_memory_lines(regions, target);
    let nl = seq!['\n'];
    let none = Seq::<char>::empty();
    let a1 = none + ("MEMORY"@ + nl);
    let a2 = a1 + ("{"@ + nl);
    let a3 = a2 + memory_lines(regions);
    let a4 = a3 + ("}"@ + nl);
    let a5 = a4 + (none + nl);
    lemma_append_other(none, "MEMORY"@, target);
    lemma_append_other(a1, "{"@, target);
    lemma_without_concat(a2, memory_lines(regions), target);
    lemma_append_other(a3, "}"@, target);
    lemma_append_other(a4, none, target);
    assert(memory_text(regions) =~= a5);
}

/// Where a description holds a `STACK` directive, and the layout's name as it
/// is quoted and the names and attributes of its regions hold no line feed,
/// the script up to its `SECTIONS` block holds exactly one line that assigns
/// the stack top without indentation: the line that gives the value of the
/// first `STACK` directive. The `SECTIONS` block follows that part.
pub proof fn law_one_global_stack_assignment(
    file: SagFileView,
    config: ConfigView,
    quoted_name: Seq<char>,
)
    requires
        first_stack(file) is Some,
        no_line_break(quoted_name),
        layout_on_single_lines(config.memory_regions),
    ensures
        ({
            let before_sections = header_text(quoted_name) + memory_text(config.memory_regions)
                + stack_text(file);
            let sections = "SECTIONS\n"@ + "{\n"@ + blocks_text(file.blocks, config)
                + footer_text();
            &&& script_with_name(file, config, quoted_name) == before_sections + sections
            &&& closed(before_sections)
            &&& occurrences(before_sections, stack_assignment(first_stack(file)->0)) == 1
        }),
{
    lemma_head_literals();
    let addr = first_stack(file)->0;
    let target = stack_assignment(addr);
    let nl = seq!['\n'];
    let none = Seq::<char>::empty();
    let head = header_text(quoted_name);
    let memory = memory_text(config.memory_regions);
    lemma_stack_line(addr);
    lemma_header_lines(quoted_name, target);
    lemma_memory_text(config.memory_regions, target);
    lemma_without_concat(head, memory, target);
    lemma_append_line(head + memory, target, target);
    lemma_append_line(head + memory + (target + nl), none, target);
    assert(stack_text(file) =~= (target + nl) + (none + nl));
    let before_sections = head + memory + stack_text(file);
    assert(before_sections =~= head + memory + (target + nl) + (none + nl));
    let sections = "SECTIONS\n"@ + "{\n"@ + blocks_text(file.blocks, config) + footer_text();
    assert(script_with_name(file, config, quoted_name) =~= before_sections + sections);
}

/// The header line of the rule that places one stem.
spec fn section_head_line(stem: Seq<char>, in_place: bool, lma: u64) -> Seq<char> {
    if in_place {
        "    ."@ + stem + " :"@
    } else {
        "    ."@ + stem + " : AT("@ + decimal(lma as nat) + ")"@
    }
}

/// The first of the two lines that say what a rule takes in.
spec fn section_exact_line(stem: Seq<char>, keep: bool) -> Seq<char> {
    if keep {
        "        KEEP(*(."@ + stem + "))"@
    } else {
        "        *(."@ + stem + ")"@
    }
}

/// The second of the two lines that say what a rule takes in.
spec fn section_prefix_line(stem: Seq<char>, keep: bool) -> Seq<char> {
    if keep {
        "        KEEP(*(."@ + stem + "*))"@
    } else {
        "        *(."@ + stem + "*)"@
    }
}

/// The header of a rule is one line of the shape of a rule's lines.
proof fn lemma_section_head(stem: Seq<char>, in_place: bool, lma: u64)
    requires
        no_line_break(stem),
    ensures
        section_head(stem, in_place, lma) == section_head_line(stem, in_place, lma) + seq!['\n'],
        no_line_break(section_head_line(stem, in_place, lma)),
        rule_shaped(section_head_line(stem, in_place, lma)),
{
    lemma_section_literals();
    lemma_decimal_on_one_line(lma as nat);
    let line = section_head_line(stem, in_place, lma);
    assert(line[0] == ' ' && line[4] == '.');
    assert(section_head(stem, in_place, lma) =~= line + seq!['\n']);
}

/// What a rule takes in are two lines of the shape of a rule's lines.
proof fn lemma_section_body(stem: Seq<char>, keep: bool)
    requires
        no_line_break(stem),
    ensures
        section_body(stem, keep) == (section_exact_line(stem, keep) + seq!['\n']) + (
        section_prefix_line(stem, keep) + seq!['\n']),
        no_line_break(section_exact_line(stem, keep)),
        no_line_break(section_prefix_line(stem, keep)),
        rule_shaped(section_exact_line(stem, keep)),
        rule_shaped(section_prefix_line(stem, keep)),
{
    lemma_section_literals();
    let first = section_exact_line(stem, keep);
    let second = section_prefix_line(stem, keep);
    assert(first[0] == ' ' && first[4] == ' ');
    assert(second[0] == ' ' && second[4] == ' ');
    assert(section_body(stem, keep) =~= (first + seq!['\n']) + (second + seq!['\n']));
}

/// The braces of a rule are two lines of the shape of a rule's lines.
proof fn lemma_section_braces(mem_region: Seq<char>)
    requires
        no_line_break(mem_region),
    ensures
        "    {\n"@ == "    {"@ + seq!['\n'],
        "\n"@ == seq!['\n'],
        no_line_break("    {"@),
        no_line_break("    } > "@ + mem_region),
        rule_shaped("    {"@),
        rule_shaped("    } > "@ + mem_region),
{
    lemma_section_literals();
    let last = "    } > "@ + mem_region;
    assert(last[0] == ' ' && last[4] == '}');
}

/// The rule that places one stem holds no line of the shape of an assignment.
proof fn lemma_section_without(
    stem: Seq<char>,
    keep: bool,
    in_place: bool,
    lma: u64,
    mem_region: Seq<char>,
    target: Seq<char>,
)
    requires
        no_line_break(stem),
        no_line_break(mem_region),
        assignment_shaped(target),
    ensures
        without(section_text(stem, keep, in_place, lma, mem_region), target),
{
    lemma_section_head(stem, in_place, lma);
    lemma_section_body(stem, keep);
    lemma_section_braces(mem_region);
    lemma_without_nothing(target);
    let nl = seq!['\n'];
    let none = Seq::<char>::empty();
    let b1 = section_head_line(stem, in_place, lma);
    let b2 = "    {"@;
    let b3 = section_exact_line(stem, keep);
    let b4 = section_prefix_line(stem, keep);
    let b5 = "    } > "@ + mem_region;
    let a1 = none + (b1 + nl);
    let a2 = a1 + (b2 + nl);
    let a3 = a2 + (b3 + nl);
    let a4 = a3 + (b4 + nl);
    let a5 = a4 + (b5 + nl);
    lemma_append_other(none, b1, target);
    lemma_append_other(a1, b2, target);
    lemma_append_other(a2, b3, target);
    lemma_append_other(a3, b4, target);
    lemma_append_other(a4, b5, target);
    assert(section_text(stem, keep, in_place, lma, mem_region) =~= a5);
}

/// The rules that place stems hold no line of the shape of an assignment.
proof fn lemma_sections_without(
    stems: Seq<Seq<char>>,
    keep: bool,
    in_place: bool,
    lma: u64,
    mem_region: Seq<char>,
    target: Seq<char>,
)
    requires
        all_on_single_lines(stems),
        no_line_break(mem_region),
        assignment_shaped(target),
    ensures
        without(sections_text(stems, keep, in_place, lma, mem_region), target),
    decreases stems.len(),
{
    lemma_without_nothing(target);
    if stems.len() > 0 {
        let before = stems.drop_last();
        assert forall|i: int| 0 <= i < before.len() implies no_line_break(
            #[trigger] before[i],
        ) by {
            assert(before[i] == stems[i]);
        }
        lemma_sections_without(before, keep, in_place, lma, mem_region, target);
        lemma_section_without(stems.last(), keep, in_place, lma, mem_region, target);
        lemma_without_concat(
            sections_text(before, keep, in_place, lma, mem_region),
            section_text(stems.last(), keep, in_place, lma, mem_region),
            target,
        );
    }
}

/// The stems of tokens without line feed hold none.
proof fn lemma_stems_on_single_lines(parts: Seq<Seq<char>>)
    requires
        all_on_single_lines(parts),
    ensures
        all_on_single_lines(stems_of_all(parts)),
    decreases parts.len(),
{
    if parts.len() > 0 {
        lemma_stem_literals();
        let before = parts.drop_last();
        assert forall|i: int| 0 <= i < before.len() implies no_line_break(
            #[trigger] before[i],
        ) by {
            assert(before[i] == parts[i]);
        }
        lemma_stems_on_single_lines(before);
        let token = trimmed(parts.last());
        lemma_trimmed_on_single_line(parts.last());
        assert(all_on_single_lines(stems_of(token)));
    }
}

/// The line that assigns a symbol.
spec fn symbol_line(directive: DirectiveView, section_name: Seq<char>) -> Seq<char> {
    match directive {
        DirectiveView::Addr { symbol, next } => "    "@ + symbol + " = .;"@,
        DirectiveView::LoadAddr { symbol, next } => "    "@ + symbol + " = LOADADDR(."@
            + section_name + ");"@,
        _ => Seq::empty(),
    }
}

/// What `ADDR` and `LOADADDR` write is one line, which starts with a blank and
/// does not end in a digit and `;`.
proof fn lemma_symbol_line(
    directive: DirectiveView,
    section_name: Seq<char>,
    in_place: bool,
    lma: u64,
    mem_region: Seq<char>,
)
    requires
        directive is Addr || directive is LoadAddr,
        directive.on_single_line(),
        no_line_break(section_name),
    ensures
        directive_text(directive, section_name, in_place, lma, mem_region) == symbol_line(
            directive,
            section_name,
        ) + seq!['\n'],
        no_line_break(symbol_line(directive, section_name)),
        symbol_line(directive, section_name).len() >= 9,
        symbol_line(directive, section_name)[0] == ' ',
        !is_digit_char(
            symbol_line(directive, section_name)[symbol_line(directive, section_name).len() - 2],
        ),
{
    lemma_symbol_literals();
    let line = symbol_line(directive, section_name);
    let text = directive_text(directive, section_name, in_place, lma, mem_region);
    match directive {
        DirectiveView::Addr { symbol, next } => {
            assert(line[line.len() - 2] == '.');
        },
        DirectiveView::LoadAddr { symbol, next } => {
            assert(line[line.len() - 2] == ')');
        },
        _ => {},
    }
    assert(text =~= line + seq!['\n']);
}

/// What one directive writes is closed. It holds the assignment of the stack
/// top to `addr` inside a region once where the directive is `STACK` with that
/// value, and else not at all; and it holds no line that starts with `_`.
proof fn lemma_directive_lines(
    directive: DirectiveView,
    section_name: Seq<char>,
    in_place: bool,
    lma: u64,
    mem_region: Seq<char>,
    addr: u64,
    unindented: Seq<char>,
)
    requires
        directive.on_single_line(),
        no_line_break(section_name),
        no_line_break(mem_region),
        unindented.len() > 0,
        unindented[0] == '_',
    ensures
        closed(directive_text(directive, section_name, in_place, lma, mem_region)),
        occurrences(
            directive_text(directive, section_name, in_place, lma, mem_region),
            local_stack_assignment(addr),
        ) == if directive == DirectiveView::Stack(addr) {
            1nat
        } else {
            0nat
        },
        without(directive_text(directive, section_name, in_place, lma, mem_region), unindented),
{
    let target = local_stack_assignment(addr);
    let nl = seq!['\n'];
    let none = Seq::<char>::empty();
    let text = directive_text(directive, section_name, in_place, lma, mem_region);
    lemma_without_nothing(target);
    lemma_without_nothing(unindented);
    lemma_local_stack_line(addr);
    match directive {
        DirectiveView::Section { pattern, keep } => {
            lemma_pieces_on_single_lines(pattern, ',');
            lemma_stems_on_single_lines(pieces(pattern, ','));
            lemma_sections_without(expansion(pattern), keep, in_place, lma, mem_region, target);
            lemma_sections_without(
                expansion(pattern),
                keep,
                in_place,
                lma,
                mem_region,
                unindented,
            );
        },
        DirectiveView::Stack(value) => {
            let body = local_stack_assignment(value);
            lemma_local_stack_line(value);
            lemma_append_line(none, body, target);
            lemma_append_other(none, body, unindented);
            assert(text =~= none + (body + nl));
        },
        _ => {
            let body = symbol_line(directive, section_name);
            lemma_symbol_line(directive, section_name, in_place, lma, mem_region);
            lemma_append_other(none, body, target);
            lemma_append_other(none, body, unindented);
            assert(text =~= none + (body + nl));
        },
    }
}

/// What directives write into their region is closed; as many of its lines
/// assign the stack top to `addr` as there are `STACK` directives of that
/// value; and none of its lines starts with `_`.
proof fn lemma_directives_lines(
    directives: Seq<DirectiveView>,
    section_name: Seq<char>,
    in_place: bool,
    lma: u64,
    mem_region: Seq<char>,
    addr: u64,
    unindented: Seq<char>,
)
    requires
        directives_on_single_lines(directives),
        no_line_break(section_name),
        no_line_break(mem_region),
        unindented.len() > 0,
        unindented[0] == '_',
    ensures
        closed(directives_text(directives, section_name, in_place, lma, mem_region)),
        occurrences(
            directives_text(directives, section_name, in_place, lma, mem_region),
            local_stack_assignment(addr),
        ) == stack_directives(directives, addr),
        without(directives_text(directives, section_name, in_place, lma, mem_region), unindented),
    decreases directives.len(),
{
    let target = local_stack_assignment(addr);
    lemma_without_nothing(target);
    lemma_without_nothing(unindented);
    if directives.len() > 0 {
        let before = directives.drop_last();
        assert forall|i: int| 0 <= i < before.len() implies (#[trigger] before[i]).on_single_line() by {
            assert(before[i] == directives[i]);
        }
        lemma_directives_lines(before, section_name, in_place, lma, mem_region, addr, unindented);
        lemma_directive_lines(
            directives.last(),
            section_name,
            in_place,
            lma,
            mem_region,
            addr,
            unindented,
        );
        let first = directives_text(before, section_name, in_place, lma, mem_region);
        let second = directive_text(directives.last(), section_name, in_place, lma, mem_region);
        lemma_occurrences_concat(first, second, target);
        lemma_occurrences_concat(first, second, unindented);
    }
}

/// Among the lines that directives write into their region, as many assign
/// the stack top to a value as there are `STACK` directives of that value:
/// each such directive writes its own line, and no other line is one. This
/// holds where the symbols, the patterns, the section's name and the memory
/// region's name hold no line feed.
pub proof fn law_each_stack_directive_writes_its_line(
    directives: Seq<DirectiveView>,
    section_name: Seq<char>,
    in_place: bool,
    lma: u64,
    mem_region: Seq<char>,
    addr: u64,
)
    requires
        directives_on_single_lines(directives),
        no_line_break(section_name),
        no_line_break(mem_region),
    ensures
        closed(directives_text(directives, section_name, in_place, lma, mem_region)),
        occurrences(
            directives_text(directives, section_name, in_place, lma, mem_region),
            local_stack_assignment(addr),
        ) == stack_directives(directives, addr),
{
    lemma_stack_line(addr);
    lemma_directives_lines(
        directives,
        section_name,
        in_place,
        lma,
        mem_region,
        addr,
        stack_assignment(addr),
    );
}

/// The name of the memory region that takes a region's sections holds no line
/// feed where no name of the layout does.
proof fn lemma_target_region_on_single_line(config: ConfigView, vma: u64)
    requires
        layout_on_single_lines(config.memory_regions),
    ensures
        no_line_break(target_region(config, vma)),
{
    lemma_stem_literals();
    let i = holder_from(config.memory_regions, vma, 0);
    if 0 <= i < config.memory_regions.len() {
        assert(no_line_break(config.memory_regions[i].name));
    }
}

/// The comment that opens a region.
spec fn region_comment(region: RegionView, lma: u64, vma: u64) -> Seq<char> {
    "    /* Region: "@ + region.name + " VMA="@ + hex_text(vma) + " LMA="@ + hex_text(lma)
        + " */"@
}

/// What a region writes before its directives: an empty line and a comment.
proof fn lemma_region_opening(
    region: RegionView,
    section_name: Seq<char>,
    lma: u64,
    vma: u64,
    config: ConfigView,
    target: Seq<char>,
)
    requires
        no_line_break(region.name),
        assignment_shaped(target),
    ensures
        ({
            let opening = (Seq::<char>::empty() + seq!['\n']) + (region_comment(region, lma, vma)
                + seq!['\n']);
            &&& without(opening, target)
            &&& region_text_named(region, section_name, lma, vma, config) == opening
                + directives_text(
                region.directives,
                section_name,
                runs_in_place(config, vma, lma),
                lma,
                target_region(config, vma),
            )
        }),
{
    lemma_comment_literals();
    lemma_hex_text_on_one_line(vma);
    lemma_hex_text_on_one_line(lma);
    lemma_without_nothing(target);
    let nl = seq!['\n'];
    let none = Seq::<char>::empty();
    let comment = region_comment(region, lma, vma);
    assert(comment[0] == ' ' && comment[4] == '/');
    lemma_append_other(none, none, target);
    lemma_append_other(none + (none + nl), comment, target);
    let opening = (none + nl) + (comment + nl);
    assert(none + (none + nl) + (comment + nl) =~= opening);
    assert(region_text_named(region, section_name, lma, vma, config) =~= opening
        + directives_text(
        region.directives,
        section_name,
        runs_in_place(config, vma, lma),
        lma,
        target_region(config, vma),
    ));
}

/// Among the lines that a region writes, given the name of its section, as
/// many assign the stack top to a value as the region holds `STACK`
/// directives of that value. This holds where the region's name, its symbols
/// and patterns, the section's name and the names of the layout's regions
/// hold no line feed.
pub proof fn law_region_writes_its_stack_lines(
    region: RegionView,
    section_name: Seq<char>,
    lma: u64,
    vma: u64,
    config: ConfigView,
    addr: u64,
)
    requires
        no_line_break(region.name),
        directives_on_single_lines(region.directives),
        no_line_break(section_name),
        layout_on_single_lines(config.memory_regions),
    ensures
        closed(region_text_named(region, section_name, lma, vma, config)),
        occurrences(
            region_text_named(region, section_name, lma, vma, config),
            local_stack_assignment(addr),
        ) == stack_directives(region.directives, addr),
{
    let target = local_stack_assignment(addr);
    lemma_local_stack_line(addr);
    lemma_target_region_on_single_line(config, vma);
    lemma_region_opening(region, section_name, lma, vma, config, target);
    law_each_stack_directive_writes_its_line(
        region.directives,
        section_name,
        runs_in_place(config, vma, lma),
        lma,
        target_region(config, vma),
        addr,
    );
    let opening = (Seq::<char>::empty() + seq!['\n']) + (region_comment(region, lma, vma)
        + seq!['\n']);
    lemma_occurrences_concat(
        opening,
        directives_text(
            region.directives,
            section_name,
            runs_in_place(config, vma, lma),
            lma,
            target_region(config, vma),
        ),
        target,
    );
}

/// What the regions of a block write holds no line that starts with `_`.
proof fn lemma_regions_unindented(
    regions: Seq<RegionView>,
    lma: u64,
    config: ConfigView,
    target: Seq<char>,
)
    requires
        forall|i: int| 0 <= i < regions.len() ==> (#[trigger] regions[i]).on_single_lines(),
        sections_on_single_lines(regions),
        layout_on_single_lines(config.memory_regions),
        target.len() > 0,
        target[0] == '_',
    ensures
        without(regions_text(regions, lma, config), target),
    decreases regions.len(),
{
    lemma_without_nothing(target);
    if regions.len() > 0 {
        let before = regions.drop_last();
        assert forall|i: int| 0 <= i < before.len() implies (#[trigger] before[i]).on_single_lines()
            && no_line_break(lowercase(before[i].name)) by {
            assert(before[i] == regions[i]);
        }
        lemma_regions_unindented(before, lma, config, target);
        let region = regions.last();
        assert(region.on_single_lines() && no_line_break(lowercase(region.name)));
        let vma = region.vma.resolved(0);
        let section_name = lowercase(region.name);
        lemma_target_region_on_single_line(config, vma);
        lemma_region_opening(region, section_name, lma, vma, config, target);
        lemma_directives_lines(
            region.directives,
            section_name,
            runs_in_place(config, vma, lma),
            lma,
            target_region(config, vma),
            0,
            target,
        );
        let opening = (Seq::<char>::empty() + seq!['\n']) + (region_comment(region, lma, vma)
            + seq!['\n']);
        lemma_without_concat(
            opening,
            directives_text(
                region.directives,
                section_name,
                runs_in_place(config, vma, lma),
                lma,
                target_region(config, vma),
            ),
            target,
        );
        lemma_without_concat(
            regions_text(before, lma, config),
            region_text(region, lma, vma, config),
            target,
        );
    }
}

/// What the blocks write holds no line that starts with `_`.
proof fn lemma_blocks_unindented(blocks: Seq<BlockView>, config: ConfigView, target: Seq<char>)
    requires
        forall|i: int| 0 <= i < blocks.len() ==> (#[trigger] blocks[i]).on_single_lines(),
        forall|i: int| 0 <= i < blocks.len() ==> sections_on_single_lines((#[trigger] blocks[i]).regions),
        layout_on_single_lines(config.memory_regions),
        target.len() > 0,
        target[0] == '_',
    ensures
        without(blocks_text(blocks, config), target),
    decreases blocks.len(),
{
    lemma_without_nothing(target);
    if blocks.len() > 0 {
        lemma_comment_literals();
        let before = blocks.drop_last();
        assert forall|i: int| 0 <= i < before.len() implies (#[trigger] before[i]).on_single_lines()
            && sections_on_single_lines(before[i].regions) by {
            assert(before[i] == blocks[i]);
        }
        lemma_blocks_unindented(before, config, target);
        let block = blocks.last();
        assert(block.on_single_lines() && sections_on_single_lines(block.regions));
        let lma = cursor_after(blocks);
        lemma_hex_text_on_one_line(lma);
        let nl = seq!['\n'];
        let none = Seq::<char>::empty();
        let comment = "    /* Block: "@ + block.block_type + " @ LMA "@ + hex_text(lma) + " */"@;
        assert(comment[0] == ' ');
        let a1 = none + (none + nl);
        let a2 = a1 + (comment + nl);
        lemma_append_other(none, none, target);
        lemma_append_other(a1, comment, target);
        lemma_regions_unindented(block.regions, lma, config, target);
        lemma_without_concat(a2, regions_text(block.regions, lma, config), target);
        assert(block_text(block, lma, config) =~= a2 + regions_text(block.regions, lma, config));
        lemma_without_concat(
            blocks_text(before, config),
            block_text(block, lma, config),
            target,
        );
    }
}

/// The `SECTIONS` block holds no line that starts with `_`.
proof fn lemma_sections_block_unindented(
    blocks: Seq<BlockView>,
    config: ConfigView,
    target: Seq<char>,
)
    requires
        forall|i: int| 0 <= i < blocks.len() ==> (#[trigger] blocks[i]).on_single_lines(),
        forall|i: int| 0 <= i < blocks.len() ==> sections_on_single_lines((#[trigger] blocks[i]).regions),
        layout_on_single_lines(config.memory_regions),
        target.len() > 0,
        target[0] == '_',
    ensures
        without("SECTIONS\n"@ + "{\n"@ + blocks_text(blocks, config) + footer_text(), target),
{
    lemma_comment_literals();
    lemma_without_nothing(target);
    lemma_blocks_unindented(blocks, config, target);
    let nl = seq!['\n'];
    let none = Seq::<char>::empty();
    let a1 = none + ("SECTIONS"@ + nl);
    let a2 = a1 + ("{"@ + nl);
    let a3 = a2 + blocks_text(blocks, config);
    let a4 = a3 + (none + nl);
    let a5 = a4 + ("    PROVIDE(_end = .);"@ + nl);
    let a6 = a5 + ("    PROVIDE(end = .);"@ + nl);
    let a7 = a6 + ("}"@ + nl);
    lemma_append_other(none, "SECTIONS"@, target);
    lemma_append_other(a1, "{"@, target);
    lemma_without_concat(a2, blocks_text(blocks, config), target);
    lemma_append_other(a3, none, target);
    lemma_append_other(a4, "    PROVIDE(_end = .);"@, target);
    lemma_append_other(a5, "    PROVIDE(end = .);"@, target);
    lemma_append_other(a6, "}"@, target);
    assert("SECTIONS\n"@ + "{\n"@ + blocks_text(blocks, config) + footer_text() =~= a7);
}

/// Where a description holds a `STACK` directive, the script holds exactly
/// one line that assigns the stack top without indentation: the line that
/// gives the value of the first `STACK` directive, written before the
/// `SECTIONS` block. This holds where none of the texts that the script takes
/// from the description and the layout holds a line feed.
pub proof fn law_script_assigns_global_stack_once(
    file: SagFileView,
    config: ConfigView,
    quoted_name: Seq<char>,
)
    requires
        first_stack(file) is Some,
        script_on_single_lines(file, config, quoted_name),
    ensures
        occurrences(
            script_with_name(file, config, quoted_name),
            stack_assignment(first_stack(file)->0),
        ) == 1,
{
    let target = stack_assignment(first_stack(file)->0);
    lemma_stack_line(first_stack(file)->0);
    law_one_global_stack_assignment(file, config, quoted_name);
    lemma_sections_block_unindented(file.blocks, config, target);
    let before_sections = header_text(quoted_name) + memory_text(config.memory_regions)
        + stack_text(file);
    let sections = "SECTIONS\n"@ + "{\n"@ + blocks_text(file.blocks, config) + footer_text();
    lemma_occurrences_concat(before_sections, sections, target);
}

/// Whether the symbols and patterns of the directives hold no line feed.
fn directives_fit_lines(directives: &Vec<Directive>) -> (b: bool)
    ensures
        b == directives_on_single_lines(directive_views(directives@)),
{
    let n = directives.len();
    let mut i: usize = 0;
    while i < n
        invariant
            n == directives@.len(),
            0 <= i <= n,
            forall|k: int| 0 <= k < i ==> (#[trigger] directive_views(directives@)[k]).on_single_line(),
        decreases n - i,
    {
        let fits = match &directives[i] {
            Directive::Addr { symbol, .. } => on_single_line(symbol.as_str()),
            Directive::LoadAddr { symbol, .. } => on_single_line(symbol.as_str()),
            Directive::Section { pattern, .. } => on_single_line(pattern.as_str()),
            Directive::Stack(_) => true,
        };
        if !fits {
            assert(!directive_views(directives@)[i as int].on_single_line());
            return false;
        }
        i += 1;
    }
    true
}

/// Whether the texts of the regions, and the names of their sections, hold no
/// line feed.
fn regions_fit_lines(regions: &Vec<Region>) -> (b: bool)
    ensures
        b == ((forall|k: int|
            0 <= k < regions@.len() ==> (#[trigger] region_views(regions@)[k]).on_single_lines())
            && sections_on_single_lines(region_views(regions@))),
{
    let n = regions.len();
    let mut i: usize = 0;
    while i < n
        invariant
            n == regions@.len(),
            0 <= i <= n,
            forall|k: int| 0 <= k < i ==> (#[trigger] region_views(regions@)[k]).on_single_lines(),
            forall|k: int|
                0 <= k < i ==> no_line_break(lowercase((#[trigger] region_views(regions@)[k]).name)),
        decreases n - i,
    {
        let region = &regions[i];
        let section_name = to_lowercase(region.name.as_str());
        let fits = on_single_line(region.name.as_str()) && on_single_line(section_name.as_str())
            && directives_fit_lines(&region.directives);
        if !fits {
            let ghost view = region_views(regions@)[i as int];
            assert(!(view.on_single_lines() && no_line_break(lowercase(view.name))));
            return false;
        }
        i += 1;
    }
    true
}

/// Whether the names and attributes of the layout's regions hold no line
/// feed.
fn layout_fits_lines(config: &LinkerScriptConfig) -> (b: bool)
    ensures
        b == layout_on_single_lines(config@.memory_regions),
{
    let n = config.memory_regions.len();
    let mut i: usize = 0;
    while i < n
        invariant
            n == config.memory_regions@.len(),
            0 <= i <= n,
            forall|k: int|
                0 <= k < i ==> no_line_break((#[trigger] config@.memory_regions[k]).name)
                    && no_line_break(config@.memory_regions[k].attributes),
        decreases n - i,
    {
        let entry = &config.memory_regions[i];
        if !(on_single_line(entry.0.as_str()) && on_single_line(entry.1.attributes.as_str())) {
            let ghost view = config@.memory_regions[i as int];
            assert(!(no_line_break(view.name) && no_line_break(view.attributes)));
            return false;
        }
        i += 1;
    }
    true
}

impl SagFile {
    /// Whether none of the texts that the script takes from this description
    /// and the layout holds a line feed, so that each text that the generator
    /// writes as a line is a line of the script. Where this holds, what
    /// `law_script_assigns_global_stack_once` says is true of the script that
    /// `to_linker_script` writes.
    pub fn script_fits_lines(&self, config: &LinkerScriptConfig) -> (b: bool)
        ensures
            b == script_on_single_lines(self@, config@, debug_text(config@.name)),
            b && first_stack(self@) is Some ==> occurrences(
                script_text(self@, config@),
                stack_assignment(first_stack(self@)->0),
            ) == 1,
    {
        let quoted_name = format_debug(config.name.as_str());
        if !on_single_line(quoted_name.as_str()) || !layout_fits_lines(config) {
            return false;
        }
        let n = self.blocks.len();
        let mut i: usize = 0;
        while i < n
            invariant
                n == self.blocks@.len(),
                0 <= i <= n,
                forall|k: int| 0 <= k < i ==> (#[trigger] self@.blocks[k]).on_single_lines(),
                forall|k: int|
                    0 <= k < i ==> sections_on_single_lines((#[trigger] self@.blocks[k]).regions),
            decreases n - i,
        {
            let block = &self.blocks[i];
            if !(on_single_line(block.block_type.as_str()) && regions_fit_lines(&block.regions)) {
                let ghost view = self@.blocks[i as int];
                assert(!(view.on_single_lines() && sections_on_single_lines(view.regions)));
                return false;
            }
            i += 1;
        }
        proof {
            if first_stack(self@) is Some {
                law_script_assigns_global_stack_once(self@, config@, debug_text(config@.name));
            }
        }
        true
    }
}

} // verus!
