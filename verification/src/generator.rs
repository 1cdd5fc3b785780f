//! The generator: the linker script that a syntax tree and a memory layout
//! stand for, as a text, and the functions that write it.

use vstd::prelude::*;
use vstd::arithmetic::div_mod::{lemma_fundamental_div_mod, lemma_mod_multiples_basic};
use vstd::arithmetic::power2::{lemma_pow2_pos, pow2};
use vstd::bits::{
    lemma_u64_low_bits_mask_is_mod, lemma_u64_pow2_no_overflow, low_bits_mask,
};
use vstd::string::StringExecFns;
use crate::ast::{
    directive_views, region_views, texts, BlockView, Directive, DirectiveView, Region, RegionView,
    SagFile, SagFileView,
};
use crate::config::{entry_view, ConfigView, LinkerScriptConfig, MemoryRegion, RegionEntry};
use crate::number::{append_decimal, append_hex, decimal, format_size, hex_text, size_text};
use crate::pattern::expansion;

verus! {

/// What `{:?}` writes for a string: the string between double quotes, with
/// the characters escaped that Rust's `Debug` escapes.
pub uninterp spec fn debug_text(s: Seq<char>) -> Seq<char>;

/// What `str::to_lowercase` returns: the string with each character replaced
/// by its lower-case form as Unicode defines it.
pub uninterp spec fn lowercase(s: Seq<char>) -> Seq<char>;

/// `format!("{:?}", s)` of std, by the `Debug` impl of `str`: the result is
/// the name `debug_text` applied to the string.
#[verifier::external_body]
pub(crate) fn format_debug(s: &str) -> (r: String)
    ensures
        r@ == debug_text(s@),
{
    format!("{:?}", s)
}

/// `str::to_lowercase` of std: the result is the name `lowercase` applied to
/// the string.
#[verifier::external_body]
pub(crate) fn to_lowercase(s: &str) -> (r: String)
    ensures
        r@ == lowercase(s@),
{
    s.to_lowercase()
}

/// `addr` rounded up to a multiple of `align` by masking, in 64-bit
/// arithmetic that wraps: `(addr + align - 1) & !(align - 1)`. For an `align`
/// that is a power of two this is the next multiple of `align` at or after
/// `addr`, as long as that fits in 64 bits.
pub open spec fn aligned_up(addr: u64, align: u64) -> u64 {
    addr.wrapping_add(align).wrapping_sub(1) & !align.wrapping_sub(1)
}

/// Where a block is loaded, given where the block before it was: its address
/// resolved against that, then rounded up to the block's alignment if it has
/// one.
pub open spec fn load_address(block: BlockView, cursor: u64) -> u64 {
    let candidate = block.lma.resolved(cursor);
    match block.alignment {
        Some(align) => aligned_up(candidate, align),
        None => candidate,
    }
}

/// Where the last of the blocks is loaded; 0 for no blocks.
pub open spec fn cursor_after(blocks: Seq<BlockView>) -> u64
    decreases blocks.len(),
{
    if blocks.len() == 0 {
        0
    } else {
        load_address(blocks.last(), cursor_after(blocks.drop_last()))
    }
}

/// The first `STACK` value among the directives from index `i` on.
pub open spec fn first_stack_in(directives: Seq<DirectiveView>, i: int) -> Option<u64>
    decreases directives.len() - i,
{
    if 0 <= i < directives.len() {
        match directives[i] {
            DirectiveView::Stack(addr) => Some(addr),
            _ => first_stack_in(directives, i + 1),
        }
    } else {
        None
    }
}

/// The first `STACK` value among the regions from index `i` on.
pub open spec fn first_stack_in_regions(regions: Seq<RegionView>, i: int) -> Option<u64>
    decreases regions.len() - i,
{
    if 0 <= i < regions.len() {
        match first_stack_in(regions[i].directives, 0) {
            Some(addr) => Some(addr),
            None => first_stack_in_regions(regions, i + 1),
        }
    } else {
        None
    }
}

/// The first `STACK` value among the blocks from index `i` on.
pub open spec fn first_stack_in_blocks(blocks: Seq<BlockView>, i: int) -> Option<u64>
    decreases blocks.len() - i,
{
    if 0 <= i < blocks.len() {
        match first_stack_in_regions(blocks[i].regions, 0) {
            Some(addr) => Some(addr),
            None => first_stack_in_blocks(blocks, i + 1),
        }
    } else {
        None
    }
}

/// The value of the first `STACK` directive of the description, in document
/// order: by block, then by region, then by directive.
pub open spec fn first_stack(file: SagFileView) -> Option<u64> {
    first_stack_in_blocks(file.blocks, 0)
}

/// The head of the script: two comments, the second naming the layout as
/// `quoted_name` gives it, then the architecture and the entry point.
pub open spec fn header_text(quoted_name: Seq<char>) -> Seq<char> {
    "/* Auto-generated from SAG file */\n"@ + "/* Config: "@ + quoted_name + " */\n"@ + "\n"@
        + "OUTPUT_ARCH(riscv)\n"@ + "ENTRY(_start)\n"@ + "\n"@
}

/// The line that declares one memory region.
pub open spec fn memory_line(region: RegionEntry) -> Seq<char> {
    "    "@ + region.name + " ("@ + region.attributes + ") : ORIGIN = "@ + hex_text(region.origin)
        + ", LENGTH = "@ + size_text(region.length) + "\n"@
}

/// The lines that declare the memory regions, in their order.
pub open spec fn memory_lines(regions: Seq<RegionEntry>) -> Seq<char>
    decreases regions.len(),
{
    if regions.len() == 0 {
        Seq::empty()
    } else {
        memory_lines(regions.drop_last()) + memory_line(regions.last())
    }
}

/// The `MEMORY` block.
pub open spec fn memory_text(regions: Seq<RegionEntry>) -> Seq<char> {
    "MEMORY\n"@ + "{\n"@ + memory_lines(regions) + "}\n"@ + "\n"@
}

/// The assignment of the stack top.
pub open spec fn stack_line(addr: u64) -> Seq<char> {
    "__stack_top = "@ + hex_text(addr) + ";\n"@
}

/// The global stack symbol: one assignment, by the first `STACK` directive of
/// the description, and an empty line; nothing where there is no such
/// directive.
pub open spec fn stack_text(file: SagFileView) -> Seq<char> {
    match first_stack(file) {
        Some(addr) => stack_line(addr) + "\n"@,
        None => Seq::empty(),
    }
}

/// The header of the rule that places one stem, with the load address where
/// the region does not run in place.
pub open spec fn section_head(stem: Seq<char>, runs_in_place: bool, lma: u64) -> Seq<char> {
    if runs_in_place {
        "    ."@ + stem + " :\n"@
    } else {
        "    ."@ + stem + " : AT("@ + decimal(lma as nat) + ")\n"@
    }
}

/// What the rule that places one stem takes in: the stem's exact name and the
/// names that start with it, kept from garbage collection where `keep` says so.
pub open spec fn section_body(stem: Seq<char>, keep: bool) -> Seq<char> {
    if keep {
        "        KEEP(*(."@ + stem + "))\n"@ + "        KEEP(*(."@ + stem + "*))\n"@
    } else {
        "        *(."@ + stem + ")\n"@ + "        *(."@ + stem + "*)\n"@
    }
}

/// The rule that places one stem: its header, what it takes in between braces,
/// and the memory region that takes the section.
pub open spec fn section_text(
    stem: Seq<char>,
    keep: bool,
    runs_in_place: bool,
    lma: u64,
    mem_region: Seq<char>,
) -> Seq<char> {
    section_head(stem, runs_in_place, lma) + "    {\n"@ + section_body(stem, keep) + "    } > "@
        + mem_region + "\n"@
}

/// The rules that place the stems, in their order.
pub open spec fn sections_text(
    stems: Seq<Seq<char>>,
    keep: bool,
    runs_in_place: bool,
    lma: u64,
    mem_region: Seq<char>,
) -> Seq<char>
    decreases stems.len(),
{
    if stems.len() == 0 {
        Seq::empty()
    } else {
        sections_text(stems.drop_last(), keep, runs_in_place, lma, mem_region) + section_text(
            stems.last(),
            keep,
            runs_in_place,
            lma,
            mem_region,
        )
    }
}

/// What one directive writes into its region. `section_name` is the name by
/// which `LOADADDR` refers to the region's section.
pub open spec fn directive_text(
    directive: DirectiveView,
    section_name: Seq<char>,
    runs_in_place: bool,
    lma: u64,
    mem_region: Seq<char>,
) -> Seq<char> {
    match directive {
        DirectiveView::Addr { symbol, next } => "    "@ + symbol + " = .;\n"@,
        DirectiveView::LoadAddr { symbol, next } => "    "@ + symbol + " = LOADADDR(."@
            + section_name + ");\n"@,
        DirectiveView::Section { pattern, keep } => sections_text(
            expansion(pattern),
            keep,
            runs_in_place,
            lma,
            mem_region,
        ),
        DirectiveView::Stack(addr) => "    "@ + stack_line(addr),
    }
}

/// What the directives write into their region, in their order.
pub open spec fn directives_text(
    directives: Seq<DirectiveView>,
    section_name: Seq<char>,
    runs_in_place: bool,
    lma: u64,
    mem_region: Seq<char>,
) -> Seq<char>
    decreases directives.len(),
{
    if directives.len() == 0 {
        Seq::empty()
    } else {
        directives_text(directives.drop_last(), section_name, runs_in_place, lma, mem_region)
            + directive_text(directives.last(), section_name, runs_in_place, lma, mem_region)
    }
}

/// The name of the memory region that takes a region's sections: the first
/// one that holds the virtual address, `RAM` where none does.
pub open spec fn target_region(config: ConfigView, vma: u64) -> Seq<char> {
    match config.region_of(vma) {
        Some(name) => name,
        None => "RAM"@,
    }
}

/// Whether a region runs in place: its virtual address and its load address
/// fall to memory regions of the same name, or both to none.
pub open spec fn runs_in_place(config: ConfigView, vma: u64, lma: u64) -> bool {
    config.region_of(vma) == config.region_of(lma)
}

/// What one region writes, given the name of its section: a comment with
/// its addresses, then its directives.
pub open spec fn region_text_named(
    region: RegionView,
    section_name: Seq<char>,
    lma: u64,
    vma: u64,
    config: ConfigView,
) -> Seq<char> {
    "\n"@ + "    /* Region: "@ + region.name + " VMA="@ + hex_text(vma) + " LMA="@ + hex_text(lma)
        + " */\n"@ + directives_text(
        region.directives,
        section_name,
        runs_in_place(config, vma, lma),
        lma,
        target_region(config, vma),
    )
}

/// What one region writes: its section has the region's name in lower case.
pub open spec fn region_text(region: RegionView, lma: u64, vma: u64, config: ConfigView) -> Seq<
    char,
> {
    region_text_named(region, lowercase(region.name), lma, vma, config)
}

/// What the regions of a block write, in their order. Each region's virtual
/// address is resolved against 0.
pub open spec fn regions_text(regions: Seq<RegionView>, lma: u64, config: ConfigView) -> Seq<char>
    decreases regions.len(),
{
    if regions.len() == 0 {
        Seq::empty()
    } else {
        regions_text(regions.drop_last(), lma, config) + region_text(
            regions.last(),
            lma,
            regions.last().vma.resolved(0),
            config,
        )
    }
}

/// What one block writes, loaded at `lma`: a comment, then its regions.
pub open spec fn block_text(block: BlockView, lma: u64, config: ConfigView) -> Seq<char> {
    "\n"@ + "    /* Block: "@ + block.block_type + " @ LMA "@ + hex_text(lma) + " */\n"@
        + regions_text(block.regions, lma, config)
}

/// What the blocks write, in their order, each loaded where `load_address`
/// puts it after the blocks before it.
pub open spec fn blocks_text(blocks: Seq<BlockView>, config: ConfigView) -> Seq<char>
    decreases blocks.len(),
{
    if blocks.len() == 0 {
        Seq::empty()
    } else {
        blocks_text(blocks.drop_last(), config) + block_text(
            blocks.last(),
            cursor_after(blocks),
            config,
        )
    }
}

/// The end of the `SECTIONS` block: the two symbols for the end of the image.
pub open spec fn footer_text() -> Seq<char> {
    "\n"@ + "    PROVIDE(_end = .);\n"@ + "    PROVIDE(end = .);\n"@ + "}\n"@
}

/// The linker script, given the layout's name as `quoted_name` writes it.
pub open spec fn script_with_name(
    file: SagFileView,
    config: ConfigView,
    quoted_name: Seq<char>,
) -> Seq<char> {
    header_text(quoted_name) + memory_text(config.memory_regions) + stack_text(file)
        + "SECTIONS\n"@ + "{\n"@ + blocks_text(file.blocks, config) + footer_text()
}

/// The linker script that a description and a memory layout stand for.
pub open spec fn script_text(file: SagFileView, config: ConfigView) -> Seq<char> {
    script_with_name(file, config, debug_text(config.name))
}

/// For an alignment that is a power of two, and where the result fits in 64
/// bits, rounding up gives the least multiple of the alignment that is not
/// below the address.
pub proof fn law_aligned_up_is_next_multiple(addr: u64, exponent: nat)
    requires
        exponent < 64,
        addr + pow2(exponent) - 1 <= u64::MAX,
    ensures
        aligned_up(addr, pow2(exponent) as u64) as int % (pow2(exponent) as int) == 0,
        addr <= aligned_up(addr, pow2(exponent) as u64) < addr + pow2(exponent),
{
    lemma_u64_pow2_no_overflow(exponent);
    lemma_pow2_pos(exponent);
    let align: u64 = pow2(exponent) as u64;
    let mask: u64 = (align - 1) as u64;
    let top: u64 = (addr + mask) as u64;
    assert(addr.wrapping_add(align).wrapping_sub(1) == top);
    assert(align.wrapping_sub(1) == mask);
    assert(mask == low_bits_mask(exponent) as u64);
    lemma_u64_low_bits_mask_is_mod(top, exponent);
    assert(top & !mask == top - (top & mask)) by (bit_vector);
    let quotient = top as int / align as int;
    lemma_fundamental_div_mod(top as int, align as int);
    lemma_mod_multiples_basic(quotient, align as int);
    assert(top - top % align == quotient * align) by (nonlinear_arith)
        requires
            top == align * quotient + top % align,
    ;
}

/// The script is a function of what the description and the layout hold: on
/// equal views the text is the same, however often it is written.
pub proof fn law_script_is_stable(
    first: SagFile,
    second: SagFile,
    first_config: LinkerScriptConfig,
    second_config: LinkerScriptConfig,
)
    requires
        first@ == second@,
        first_config@ == second_config@,
    ensures
        script_text(first@, first_config@) == script_text(second@, second_config@),
{
}

/// `first_stack_in` finds the first `STACK` directive at or after `i`, and
/// finds none only where there is none.
pub proof fn lemma_first_stack_in(directives: Seq<DirectiveView>, i: int)
    requires
        0 <= i,
    ensures
        first_stack_in(directives, i) is None <==> forall|k: int|
            i <= k < directives.len() ==> !(#[trigger] directives[k] is Stack),
        first_stack_in(directives, i) matches Some(addr) ==> exists|k: int|
            i <= k < directives.len() && #[trigger] directives[k] == DirectiveView::Stack(addr),
    decreases directives.len() - i,
{
    if i < directives.len() {
        lemma_first_stack_in(directives, i + 1);
    }
}

/// Whether some directive of the description is a `STACK` directive.
pub open spec fn has_stack(file: SagFileView) -> bool {
    exists|b: int, r: int, d: int|
        0 <= b < file.blocks.len() && 0 <= r < file.blocks[b].regions.len() && 0 <= d
            < file.blocks[b].regions[r].directives.len()
            && #[trigger] file.blocks[b].regions[r].directives[d] is Stack
}

/// `first_stack_in_regions` finds none only where no region from `i` on holds
/// a `STACK` directive.
proof fn lemma_first_stack_in_regions(regions: Seq<RegionView>, i: int)
    requires
        0 <= i,
    ensures
        first_stack_in_regions(regions, i) is None <==> forall|r: int, d: int|
            i <= r < regions.len() && 0 <= d < regions[r].directives.len() ==> !(
            #[trigger] regions[r].directives[d] is Stack),
    decreases regions.len() - i,
{
    if i < regions.len() {
        lemma_first_stack_in(regions[i].directives, 0);
        lemma_first_stack_in_regions(regions, i + 1);
    }
}

/// `first_stack_in_blocks` finds none only where no block from `i` on holds a
/// `STACK` directive.
proof fn lemma_first_stack_in_blocks(blocks: Seq<BlockView>, i: int)
    requires
        0 <= i,
    ensures
        first_stack_in_blocks(blocks, i) is None <==> forall|b: int, r: int, d: int|
            i <= b < blocks.len() && 0 <= r < blocks[b].regions.len() && 0 <= d
                < blocks[b].regions[r].directives.len() ==> !(
            #[trigger] blocks[b].regions[r].directives[d] is Stack),
    decreases blocks.len() - i,
{
    if i < blocks.len() {
        lemma_first_stack_in_regions(blocks[i].regions, 0);
        lemma_first_stack_in_blocks(blocks, i + 1);
    }
}

/// The script assigns the global stack symbol exactly where the description
/// holds a `STACK` directive somewhere: then the step writes one assignment,
/// and nothing otherwise.
pub proof fn law_global_stack_symbol(file: SagFileView)
    ensures
        has_stack(file) <==> first_stack(file) is Some,
        has_stack(file) ==> stack_text(file) == stack_line(first_stack(file)->0) + "\n"@,
        !has_stack(file) ==> stack_text(file) == Seq::<char>::empty(),
{
    lemma_first_stack_in_blocks(file.blocks, 0);
}

/// `addr` rounded up to a multiple of `align`, by masking in arithmetic that
/// wraps.
pub fn align_up(addr: u64, align: u64) -> (r: u64)
    ensures
        r == aligned_up(addr, align),
{
    addr.wrapping_add(align).wrapping_sub(1) & !align.wrapping_sub(1)
}

/// Writes the head of the script.
pub fn emit_header(output: &mut String, quoted_name: &str)
    ensures
        final(output)@ == old(output)@ + header_text(quoted_name@),
{
    output.append("/* Auto-generated from SAG file */\n");
    output.append("/* Config: ");
    output.append(quoted_name);
    output.append(" */\n");
    output.append("\n");
    output.append("OUTPUT_ARCH(riscv)\n");
    output.append("ENTRY(_start)\n");
    output.append("\n");
    assert(output@ =~= old(output)@ + header_text(quoted_name@));
}

/// Writes the line that declares one memory region.
pub fn emit_memory_line(output: &mut String, name: &str, region: &MemoryRegion)
    ensures
        final(output)@ == old(output)@ + memory_line(
            RegionEntry {
                name: name@,
                origin: region.origin,
                length: region.length,
                attributes: region.attributes@,
            },
        ),
{
    output.append("    ");
    output.append(name);
    output.append(" (");
    output.append(region.attributes.as_str());
    output.append(") : ORIGIN = ");
    append_hex(output, region.origin);
    output.append(", LENGTH = ");
    let size = format_size(region.length);
    output.append(size.as_str());
    output.append("\n");
    assert(output@ =~= old(output)@ + memory_line(
        RegionEntry {
            name: name@,
            origin: region.origin,
            length: region.length,
            attributes: region.attributes@,
        },
    ));
}

/// Writes the `MEMORY` block.
pub fn emit_memory(output: &mut String, config: &LinkerScriptConfig)
    ensures
        final(output)@ == old(output)@ + memory_text(config@.memory_regions),
{
    output.append("MEMORY\n");
    output.append("{\n");
    let ghost base = output@;
    let ghost regions = config@.memory_regions;
    let n = config.memory_regions.len();
    let mut i: usize = 0;
    assert(regions.take(0) =~= Seq::<RegionEntry>::empty());
    assert(base + memory_lines(regions.take(0)) =~= base);
    while i < n
        invariant
            n == config.memory_regions@.len(),
            regions == config@.memory_regions,
            0 <= i <= n,
            output@ == base + memory_lines(regions.take(i as int)),
        decreases n - i,
    {
        proof {
            let done = regions.take(i + 1);
            assert(done.drop_last() =~= regions.take(i as int));
            assert(done.last() == entry_view(config.memory_regions@[i as int]));
        }
        let entry = &config.memory_regions[i];
        emit_memory_line(output, entry.0.as_str(), &entry.1);
        assert(output@ =~= base + memory_lines(regions.take(i + 1)));
        i += 1;
    }
    assert(regions.take(n as int) =~= regions);
    output.append("}\n");
    output.append("\n");
    assert(output@ =~= old(output)@ + memory_text(config@.memory_regions));
}

/// Writes the assignment of the stack top.
pub fn emit_stack_line(output: &mut String, addr: u64)
    ensures
        final(output)@ == old(output)@ + stack_line(addr),
{
    output.append("__stack_top = ");
    append_hex(output, addr);
    output.append(";\n");
    assert(output@ =~= old(output)@ + stack_line(addr));
}

/// Writes the header of the rule that places one stem.
fn emit_section_head(output: &mut String, stem: &str, runs_in_place: bool, lma: u64)
    ensures
        final(output)@ == old(output)@ + section_head(stem@, runs_in_place, lma),
{
    output.append("    .");
    output.append(stem);
    if runs_in_place {
        output.append(" :\n");
    } else {
        output.append(" : AT(");
        append_decimal(output, lma);
        output.append(")\n");
    }
    assert(output@ =~= old(output)@ + section_head(stem@, runs_in_place, lma));
}

/// Writes what the rule that places one stem takes in.
fn emit_section_body(output: &mut String, stem: &str, keep: bool)
    ensures
        final(output)@ == old(output)@ + section_body(stem@, keep),
{
    if keep {
        output.append("        KEEP(*(.");
        output.append(stem);
        output.append("))\n");
        output.append("        KEEP(*(.");
        output.append(stem);
        output.append("*))\n");
    } else {
        output.append("        *(.");
        output.append(stem);
        output.append(")\n");
        output.append("        *(.");
        output.append(stem);
        output.append("*)\n");
    }
    assert(output@ =~= old(output)@ + section_body(stem@, keep));
}

/// Writes the rule that places one stem.
pub fn emit_section(
    output: &mut String,
    stem: &str,
    keep: bool,
    runs_in_place: bool,
    lma: u64,
    mem_region: &str,
)
    ensures
        final(output)@ == old(output)@ + section_text(
            stem@,
            keep,
            runs_in_place,
            lma,
            mem_region@,
        ),
{
    emit_section_head(output, stem, runs_in_place, lma);
    output.append("    {\n");
    emit_section_body(output, stem, keep);
    output.append("    } > ");
    output.append(mem_region);
    output.append("\n");
    assert(output@ =~= old(output)@ + section_text(stem@, keep, runs_in_place, lma, mem_region@));
}

/// Writes the rules that place the stems, in their order.
pub fn emit_sections(
    output: &mut String,
    stems: &Vec<String>,
    keep: bool,
    runs_in_place: bool,
    lma: u64,
    mem_region: &str,
)
    ensures
        final(output)@ == old(output)@ + sections_text(
            texts(stems@),
            keep,
            runs_in_place,
            lma,
            mem_region@,
        ),
{
    let ghost all = texts(stems@);
    let n = stems.len();
    let mut i: usize = 0;
    assert(all.take(0) =~= Seq::<Seq<char>>::empty());
    assert(output@ + sections_text(all.take(0), keep, runs_in_place, lma, mem_region@)
        =~= output@);
    while i < n
        invariant
            n == stems@.len(),
            all == texts(stems@),
            0 <= i <= n,
            output@ == old(output)@ + sections_text(
                all.take(i as int),
                keep,
                runs_in_place,
                lma,
                mem_region@,
            ),
        decreases n - i,
    {
        proof {
            let done = all.take(i + 1);
            assert(done.drop_last() =~= all.take(i as int));
            assert(done.last() == stems@[i as int]@);
        }
        emit_section(output, stems[i].as_str(), keep, runs_in_place, lma, mem_region);
        assert(output@ =~= old(output)@ + sections_text(
            all.take(i + 1),
            keep,
            runs_in_place,
            lma,
            mem_region@,
        ));
        i += 1;
    }
    assert(all.take(n as int) =~= all);
}

/// The first `STACK` value among the directives.
fn find_stack_in(directives: &Vec<Directive>) -> (r: Option<u64>)
    ensures
        r == first_stack_in(directive_views(directives@), 0),
{
    let n = directives.len();
    let mut i: usize = 0;
    while i < n
        invariant
            n == directives@.len(),
            0 <= i <= n,
            first_stack_in(directive_views(directives@), 0) == first_stack_in(
                directive_views(directives@),
                i as int,
            ),
        decreases n - i,
    {
        if let Directive::Stack(addr) = &directives[i] {
            return Some(*addr);
        }
        i += 1;
    }
    None
}

/// The first `STACK` value among the regions.
fn find_stack_in_regions(regions: &Vec<Region>) -> (r: Option<u64>)
    ensures
        r == first_stack_in_regions(region_views(regions@), 0),
{
    let n = regions.len();
    let mut i: usize = 0;
    while i < n
        invariant
            n == regions@.len(),
            0 <= i <= n,
            first_stack_in_regions(region_views(regions@), 0) == first_stack_in_regions(
                region_views(regions@),
                i as int,
            ),
        decreases n - i,
    {
        if let Some(addr) = find_stack_in(&regions[i].directives) {
            return Some(addr);
        }
        i += 1;
    }
    None
}

impl SagFile {
    /// The value of the first `STACK` directive, in document order.
    pub fn find_stack(&self) -> (r: Option<u64>)
        ensures
            r == first_stack(self@),
    {
        let n = self.blocks.len();
        let mut i: usize = 0;
        while i < n
            invariant
                n == self.blocks@.len(),
                0 <= i <= n,
                first_stack(self@) == first_stack_in_blocks(self@.blocks, i as int),
            decreases n - i,
        {
            if let Some(addr) = find_stack_in_regions(&self.blocks[i].regions) {
                return Some(addr);
            }
            i += 1;
        }
        None
    }

    /// Writes what one directive writes into its region. `section_name` is the
    /// name by which `LOADADDR` refers to the region's section.
    pub fn emit_directive(
        &self,
        output: &mut String,
        directive: &Directive,
        section_name: &str,
        runs_in_place: bool,
        lma: u64,
        mem_region: &str,
    )
        ensures
            final(output)@ == old(output)@ + directive_text(
                directive@,
                section_name@,
                runs_in_place,
                lma,
                mem_region@,
            ),
    {
        match directive {
            Directive::Addr { symbol, .. } => {
                output.append("    ");
                output.append(symbol.as_str());
                output.append(" = .;\n");
            },
            Directive::LoadAddr { symbol, .. } => {
                output.append("    ");
                output.append(symbol.as_str());
                output.append(" = LOADADDR(.");
                output.append(section_name);
                output.append(");\n");
            },
            Directive::Section { pattern, keep } => {
                let sections = self.expand_section_pattern(pattern.as_str());
                emit_sections(output, &sections, *keep, runs_in_place, lma, mem_region);
            },
            Directive::Stack(addr) => {
                output.append("    ");
                emit_stack_line(output, *addr);
            },
        }
        assert(output@ =~= old(output)@ + directive_text(
            directive@,
            section_name@,
            runs_in_place,
            lma,
            mem_region@,
        ));
    }

    /// Writes what the directives write into their region, in their order.
    pub fn emit_directives(
        &self,
        output: &mut String,
        directives: &Vec<Directive>,
        section_name: &str,
        runs_in_place: bool,
        lma: u64,
        mem_region: &str,
    )
        ensures
            final(output)@ == old(output)@ + directives_text(
                directive_views(directives@),
                section_name@,
                runs_in_place,
                lma,
                mem_region@,
            ),
    {
        let ghost all = directive_views(directives@);
        let n = directives.len();
        let mut i: usize = 0;
        assert(all.take(0) =~= Seq::<DirectiveView>::empty());
        assert(output@ + directives_text(
            all.take(0),
            section_name@,
            runs_in_place,
            lma,
            mem_region@,
        ) =~= output@);
        while i < n
            invariant
                n == directives@.len(),
                all == directive_views(directives@),
                0 <= i <= n,
                output@ == old(output)@ + directives_text(
                    all.take(i as int),
                    section_name@,
                    runs_in_place,
                    lma,
                    mem_region@,
                ),
            decreases n - i,
        {
            proof {
                let done = all.take(i + 1);
                assert(done.drop_last() =~= all.take(i as int));
                assert(done.last() == directives@[i as int]@);
            }
            self.emit_directive(
                output,
                &directives[i],
                section_name,
                runs_in_place,
                lma,
                mem_region,
            );
            assert(output@ =~= old(output)@ + directives_text(
                all.take(i + 1),
                section_name@,
                runs_in_place,
                lma,
                mem_region@,
            ));
            i += 1;
        }
        assert(all.take(n as int) =~= all);
    }

    /// Writes one region, loaded at `lma` and running at `vma`, given the name
    /// of its section.
    pub fn emit_region_named(
        &self,
        output: &mut String,
        region: &Region,
        section_name: &str,
        lma: u64,
        vma: u64,
        config: &LinkerScriptConfig,
    )
        ensures
            final(output)@ == old(output)@ + region_text_named(
                region@,
                section_name@,
                lma,
                vma,
                config@,
            ),
    {
        output.append("\n");
        output.append("    /* Region: ");
        output.append(region.name.as_str());
        output.append(" VMA=");
        append_hex(output, vma);
        output.append(" LMA=");
        append_hex(output, lma);
        output.append(" */\n");
        // Determine memory region name
        let mem_region = match config.vma_to_region(vma) {
            Some(name) => name,
            None => "RAM",
        };
        // Check if this runs in place (VMA == LMA region)
        let runs_in_place = config.same_region(vma, lma);
        self.emit_directives(
            output,
            &region.directives,
            section_name,
            runs_in_place,
            lma,
            mem_region,
        );
        assert(output@ =~= old(output)@ + region_text_named(
            region@,
            section_name@,
            lma,
            vma,
            config@,
        ));
    }

    /// Writes one region, loaded at `lma` and running at `vma`.
    pub fn emit_region(
        &self,
        output: &mut String,
        region: &Region,
        lma: u64,
        vma: u64,
        config: &LinkerScriptConfig,
    )
        ensures
            final(output)@ == old(output)@ + region_text(region@, lma, vma, config@),
    {
        let section_name = to_lowercase(region.name.as_str());
        self.emit_region_named(output, region, section_name.as_str(), lma, vma, config);
    }

    /// Writes the regions of a block loaded at `lma`, in their order.
    pub fn emit_regions(
        &self,
        output: &mut String,
        regions: &Vec<Region>,
        lma: u64,
        config: &LinkerScriptConfig,
    )
        ensures
            final(output)@ == old(output)@ + regions_text(region_views(regions@), lma, config@),
    {
        let ghost all = region_views(regions@);
        let n = regions.len();
        let mut i: usize = 0;
        assert(all.take(0) =~= Seq::<RegionView>::empty());
        assert(output@ + regions_text(all.take(0), lma, config@) =~= output@);
        while i < n
            invariant
                n == regions@.len(),
                all == region_views(regions@),
                0 <= i <= n,
                output@ == old(output)@ + regions_text(all.take(i as int), lma, config@),
            decreases n - i,
        {
            proof {
                let done = all.take(i + 1);
                assert(done.drop_last() =~= all.take(i as int));
                assert(done.last() == regions@[i as int]@);
            }
            let region = &regions[i];
            let vma = region.vma.resolve(0);
            self.emit_region(output, region, lma, vma, config);
            assert(output@ =~= old(output)@ + regions_text(all.take(i + 1), lma, config@));
            i += 1;
        }
        assert(all.take(n as int) =~= all);
    }

    /// Writes the blocks, each loaded where its address and alignment put it
    /// after the block before.
    pub fn emit_blocks(&self, output: &mut String, config: &LinkerScriptConfig)
        ensures
            final(output)@ == old(output)@ + blocks_text(self@.blocks, config@),
    {
        let ghost all = self@.blocks;
        let n = self.blocks.len();
        let mut current_lma: u64 = 0;
        let mut i: usize = 0;
        assert(all.take(0) =~= Seq::<BlockView>::empty());
        assert(output@ + blocks_text(all.take(0), config@) =~= output@);
        while i < n
            invariant
                n == self.blocks@.len(),
                all == self@.blocks,
                0 <= i <= n,
                current_lma == cursor_after(all.take(i as int)),
                output@ == old(output)@ + blocks_text(all.take(i as int), config@),
            decreases n - i,
        {
            proof {
                let done = all.take(i + 1);
                assert(done.drop_last() =~= all.take(i as int));
                assert(done.last() == self.blocks@[i as int]@);
            }
            let block = &self.blocks[i];
            let block_lma = block.lma.resolve(current_lma);
            current_lma = match block.alignment {
                Some(align) => align_up(block_lma, align),
                None => block_lma,
            };
            let ghost before = output@;
            output.append("\n");
            output.append("    /* Block: ");
            output.append(block.block_type.as_str());
            output.append(" @ LMA ");
            append_hex(output, current_lma);
            output.append(" */\n");
            self.emit_regions(output, &block.regions, current_lma, config);
            assert(output@ =~= before + block_text(block@, current_lma, config@));
            assert(output@ =~= old(output)@ + blocks_text(all.take(i + 1), config@));
            i += 1;
        }
        assert(all.take(n as int) =~= all);
    }

    /// Writes the linker script, given the layout's name as `quoted_name`
    /// writes it.
    pub fn render(&self, config: &LinkerScriptConfig, quoted_name: &str) -> (script: String)
        ensures
            script@ == script_with_name(self@, config@, quoted_name@),
    {
        let mut output = String::new();
        // Header
        emit_header(&mut output, quoted_name);
        // Memory regions
        emit_memory(&mut output, config);
        // Stack symbol
        if let Some(stack) = self.find_stack() {
            emit_stack_line(&mut output, stack);
            output.append("\n");
        }
        // Sections
        output.append("SECTIONS\n");
        output.append("{\n");
        self.emit_blocks(&mut output, config);
        // Standard end symbols
        output.append("\n");
        output.append("    PROVIDE(_end = .);\n");
        output.append("    PROVIDE(end = .);\n");
        output.append("}\n");
        assert(output@ =~= script_with_name(self@, config@, quoted_name@));
        output
    }

    /// Generate a GNU LD linker script. The text is a function of the
    /// description and the layout alone: two calls on the same values give the
    /// same text.
    pub fn to_linker_script(&self, config: &LinkerScriptConfig) -> (script: String)
        ensures
            script@ == script_text(self@, config@),
    {
        let quoted_name = format_debug(config.name.as_str());
        self.render(config, quoted_name.as_str())
    }
}

} // verus!
