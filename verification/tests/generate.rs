use sag_parser::generator::align_up;
use sag_parser::{
    Address, Block, Directive, LinkerScriptConfig, MemoryRegion, Region, SagFile,
};

const HEAD_DDR: &str = "/* Auto-generated from SAG file */\n/* Config: \"AE350 DDR\" */\n\nOUTPUT_ARCH(riscv)\nENTRY(_start)\n\nMEMORY\n{\n    FLASH (rx) : ORIGIN = 0x80000000, LENGTH = 256M\n    DDR (rwx) : ORIGIN = 0x00000000, LENGTH = 128M\n}\n\n";

const FOOT: &str = "\n    PROVIDE(_end = .);\n    PROVIDE(end = .);\n}\n";

fn region(name: &str, vma: Address, directives: Vec<Directive>) -> Region {
    Region { name: name.to_string(), vma, directives }
}

fn block(kind: &str, lma: Address, alignment: Option<u64>, regions: Vec<Region>) -> Block {
    Block { block_type: kind.to_string(), lma, alignment, regions }
}

fn file(blocks: Vec<Block>) -> SagFile {
    SagFile { user_sections: Vec::new(), blocks }
}

fn section(pattern: &str, keep: bool) -> Directive {
    Directive::Section { pattern: pattern.to_string(), keep }
}

#[test]
fn empty_description_gives_the_skeleton() {
    let script = file(Vec::new()).to_linker_script(&LinkerScriptConfig::ae350_ddr());
    assert_eq!(script, format!("{}SECTIONS\n{{\n{}", HEAD_DDR, FOOT));
}

#[test]
fn ilm_preset_lists_flash_and_ilm() {
    let script = file(Vec::new()).to_linker_script(&LinkerScriptConfig::ae350_ilm());
    assert_eq!(
        script,
        "/* Auto-generated from SAG file */\n/* Config: \"AE350 ILM\" */\n\nOUTPUT_ARCH(riscv)\nENTRY(_start)\n\nMEMORY\n{\n    FLASH (rx) : ORIGIN = 0x80000000, LENGTH = 256M\n    ILM (rwx) : ORIGIN = 0xA0000000, LENGTH = 2M\n}\n\nSECTIONS\n{\n\n    PROVIDE(_end = .);\n    PROVIDE(end = .);\n}\n"
    );
}

#[test]
fn presets_hold_their_regions() {
    let ddr = LinkerScriptConfig::ae350_ddr();
    assert_eq!(ddr.name, "AE350 DDR");
    assert_eq!(ddr.memory_regions.len(), 2);
    assert_eq!(ddr.memory_regions[0].0, "FLASH");
    assert_eq!(ddr.memory_regions[0].1.origin, 0x8000_0000);
    assert_eq!(ddr.memory_regions[0].1.length, 256 * 1024 * 1024);
    assert_eq!(ddr.memory_regions[0].1.attributes, "rx");
    assert_eq!(ddr.memory_regions[1].0, "DDR");
    assert_eq!(ddr.memory_regions[1].1.origin, 0);
    assert_eq!(ddr.memory_regions[1].1.length, 128 * 1024 * 1024);
    assert_eq!(ddr.memory_regions[1].1.attributes, "rwx");
    let ilm = LinkerScriptConfig::ae350_ilm();
    assert_eq!(ilm.name, "AE350 ILM");
    assert_eq!(ilm.memory_regions.len(), 2);
    assert_eq!(ilm.memory_regions[0].0, "FLASH");
    assert_eq!(ilm.memory_regions[1].0, "ILM");
    assert_eq!(ilm.memory_regions[1].1.origin, 0xA000_0000);
    assert_eq!(ilm.memory_regions[1].1.length, 2 * 1024 * 1024);
    assert_eq!(ilm.memory_regions[1].1.attributes, "rwx");
}

#[test]
fn addresses_fall_to_the_first_region_that_holds_them() {
    let ddr = LinkerScriptConfig::ae350_ddr();
    assert_eq!(ddr.vma_to_region(0), Some("DDR"));
    assert_eq!(ddr.vma_to_region(0x07FF_FFFF), Some("DDR"));
    assert_eq!(ddr.vma_to_region(0x0800_0000), None);
    assert_eq!(ddr.vma_to_region(0x7FFF_FFFF), None);
    assert_eq!(ddr.vma_to_region(0x8000_0000), Some("FLASH"));
    assert_eq!(ddr.vma_to_region(0x8FFF_FFFF), Some("FLASH"));
    assert_eq!(ddr.vma_to_region(0x9000_0000), None);
    assert_eq!(ddr.vma_to_region(u64::MAX), None);
    assert_eq!(ddr.region_index(0x8000_0000), Some(0));
    assert_eq!(ddr.region_index(0), Some(1));
    assert!(ddr.same_region(0, 1));
    assert!(ddr.same_region(0x0900_0000, u64::MAX));
    assert!(!ddr.same_region(0, 0x8000_0000));
    assert!(!ddr.same_region(0, 0x0900_0000));
    let overlapping = LinkerScriptConfig {
        name: "two".to_string(),
        memory_regions: vec![
            ("A".to_string(), MemoryRegion { origin: 0x10, length: 0x10, attributes: "r".to_string() }),
            ("B".to_string(), MemoryRegion { origin: 0, length: 0x100, attributes: "r".to_string() }),
            ("TOP".to_string(), MemoryRegion { origin: u64::MAX - 1, length: 16, attributes: "r".to_string() }),
        ],
    };
    assert_eq!(overlapping.vma_to_region(0x18), Some("A"));
    assert_eq!(overlapping.vma_to_region(0x20), Some("B"));
    assert_eq!(overlapping.vma_to_region(u64::MAX), Some("TOP"));
    assert_eq!(overlapping.vma_to_region(u64::MAX - 2), None);
}

#[test]
fn bootloader_is_kept_and_placed_in_flash() {
    let source = "HEAD 0\n{\n    BOOTLOADER 0x80000000\n    {\n        * KEEP ( .bootloader )\n    }\n}\n";
    let sag = SagFile::parse(source).unwrap();
    let script = sag.to_linker_script(&LinkerScriptConfig::ae350_ddr());
    let body = "\n    /* Block: HEAD @ LMA 0x00000000 */\n\n    /* Region: BOOTLOADER VMA=0x80000000 LMA=0x00000000 */\n    .bootloader : AT(0)\n    {\n        KEEP(*(.bootloader))\n        KEEP(*(.bootloader*))\n    } > FLASH\n";
    assert_eq!(script, format!("{}SECTIONS\n{{\n{}{}", HEAD_DDR, body, FOOT));
}

#[test]
fn region_in_place_has_no_load_address() {
    let sag = file(vec![block(
        "EXEC",
        Address::Absolute(0x8000_0000),
        None,
        vec![region("Code", Address::Absolute(0x8000_1000), vec![section("+RO", false)])],
    )]);
    let script = sag.to_linker_script(&LinkerScriptConfig::ae350_ddr());
    let body = "\n    /* Block: EXEC @ LMA 0x80000000 */\n\n    /* Region: Code VMA=0x80001000 LMA=0x80000000 */\n    .text :\n    {\n        *(.text)\n        *(.text*)\n    } > FLASH\n    .rodata :\n    {\n        *(.rodata)\n        *(.rodata*)\n    } > FLASH\n    .srodata :\n    {\n        *(.srodata)\n        *(.srodata*)\n    } > FLASH\n";
    assert_eq!(script, format!("{}SECTIONS\n{{\n{}{}", HEAD_DDR, body, FOOT));
}

#[test]
fn region_outside_every_memory_goes_to_ram() {
    let sag = file(vec![block(
        "MEM",
        Address::Absolute(0x4000_0000),
        None,
        vec![
            region("Far", Address::Absolute(0x5000_0000), vec![section("x", true)]),
            region("Near", Address::Absolute(0x10), vec![section(".y", false)]),
        ],
    )]);
    let script = sag.to_linker_script(&LinkerScriptConfig::ae350_ddr());
    let body = "\n    /* Block: MEM @ LMA 0x40000000 */\n\n    /* Region: Far VMA=0x50000000 LMA=0x40000000 */\n    .x :\n    {\n        KEEP(*(.x))\n        KEEP(*(.x*))\n    } > RAM\n\n    /* Region: Near VMA=0x00000010 LMA=0x40000000 */\n    .y : AT(1073741824)\n    {\n        *(.y)\n        *(.y*)\n    } > DDR\n";
    assert_eq!(script, format!("{}SECTIONS\n{{\n{}{}", HEAD_DDR, body, FOOT));
}

#[test]
fn symbols_are_assigned_where_they_stand() {
    let sag = file(vec![block(
        "DATA",
        Address::Absolute(0x100),
        None,
        vec![region(
            "MixedCase",
            Address::Absolute(0x200),
            vec![
                Directive::Addr { symbol: "__start".to_string(), next: false },
                Directive::Addr { symbol: "__next".to_string(), next: true },
                Directive::LoadAddr { symbol: "__load".to_string(), next: false },
            ],
        )],
    )]);
    let script = sag.to_linker_script(&LinkerScriptConfig::ae350_ddr());
    let body = "\n    /* Block: DATA @ LMA 0x00000100 */\n\n    /* Region: MixedCase VMA=0x00000200 LMA=0x00000100 */\n    __start = .;\n    __next = .;\n    __load = LOADADDR(.mixedcase);\n";
    assert_eq!(script, format!("{}SECTIONS\n{{\n{}{}", HEAD_DDR, body, FOOT));
}

#[test]
fn load_address_section_is_lower_cased_as_unicode_does() {
    let sag = file(vec![block(
        "DATA",
        Address::Absolute(0),
        None,
        vec![region(
            "ÄΣ_Ы",
            Address::Absolute(0),
            vec![Directive::LoadAddr { symbol: "s".to_string(), next: false }],
        )],
    )]);
    let script = sag.to_linker_script(&LinkerScriptConfig::ae350_ddr());
    assert!(script.contains("    /* Region: ÄΣ_Ы VMA=0x00000000 LMA=0x00000000 */\n"));
    assert!(script.contains(&format!("    s = LOADADDR(.{});\n", "ÄΣ_Ы".to_lowercase())));
    assert!(script.contains("    s = LOADADDR(.äς_ы);\n"));
}

#[test]
fn configuration_name_is_quoted_and_escaped() {
    let config = LinkerScriptConfig {
        name: "say \"hi\"\\\n".to_string(),
        memory_regions: Vec::new(),
    };
    let script = file(Vec::new()).to_linker_script(&config);
    assert_eq!(
        script,
        "/* Auto-generated from SAG file */\n/* Config: \"say \\\"hi\\\"\\\\\\n\" */\n\nOUTPUT_ARCH(riscv)\nENTRY(_start)\n\nMEMORY\n{\n}\n\nSECTIONS\n{\n\n    PROVIDE(_end = .);\n    PROVIDE(end = .);\n}\n"
    );
}

#[test]
fn render_takes_the_name_as_given() {
    let config = LinkerScriptConfig::ae350_ddr();
    let sag = file(Vec::new());
    assert_eq!(sag.render(&config, "\"AE350 DDR\""), sag.to_linker_script(&config));
    let script = sag.render(&config, "<name>");
    assert!(script.starts_with("/* Auto-generated from SAG file */\n/* Config: <name> */\n\n"));
}

#[test]
fn memory_lines_follow_the_configuration() {
    let config = LinkerScriptConfig {
        name: "custom".to_string(),
        memory_regions: vec![
            ("ROM".to_string(), MemoryRegion { origin: 0x1_0000_0000, length: 1536, attributes: "r".to_string() }),
            ("SRAM".to_string(), MemoryRegion { origin: 0x2000, length: 3 << 30, attributes: "rw".to_string() }),
            ("TINY".to_string(), MemoryRegion { origin: 0xABCDEF, length: 0, attributes: String::new() }),
        ],
    };
    let script = file(Vec::new()).to_linker_script(&config);
    assert_eq!(
        script,
        "/* Auto-generated from SAG file */\n/* Config: \"custom\" */\n\nOUTPUT_ARCH(riscv)\nENTRY(_start)\n\nMEMORY\n{\n    ROM (r) : ORIGIN = 0x100000000, LENGTH = 1536\n    SRAM (rw) : ORIGIN = 0x00002000, LENGTH = 3G\n    TINY () : ORIGIN = 0x00ABCDEF, LENGTH = 0\n}\n\nSECTIONS\n{\n\n    PROVIDE(_end = .);\n    PROVIDE(end = .);\n}\n"
    );
}

#[test]
fn stack_directive_gives_one_global_and_one_local_assignment() {
    let source = "MEM 0\n{\n  RAM 0x100\n  {\n    ADDR a\n    STACK = 0x9FF00000\n  }\n}\n";
    let sag = SagFile::parse(source).unwrap();
    assert_eq!(sag.find_stack(), Some(0x9FF0_0000));
    let script = sag.to_linker_script(&LinkerScriptConfig::ae350_ddr());
    let body = "\n    /* Block: MEM @ LMA 0x00000000 */\n\n    /* Region: RAM VMA=0x00000100 LMA=0x00000000 */\n    a = .;\n    __stack_top = 0x9FF00000;\n";
    assert_eq!(
        script,
        format!("{}__stack_top = 0x9FF00000;\n\nSECTIONS\n{{\n{}{}", HEAD_DDR, body, FOOT)
    );
    assert_eq!(script.matches("\n__stack_top = 0x9FF00000;\n").count(), 1);
    assert_eq!(script.matches("__stack_top = 0x9FF00000;").count(), 2);
}

#[test]
fn first_stack_directive_sets_the_global_symbol() {
    let sag = file(vec![
        block("HEAD", Address::Absolute(0), None, vec![region("A", Address::Absolute(0), Vec::new())]),
        block(
            "MEM",
            Address::Relative(0),
            None,
            vec![
                region("B", Address::Absolute(0), vec![section("x", false)]),
                region(
                    "C",
                    Address::Absolute(0),
                    vec![
                        Directive::Addr { symbol: "s".to_string(), next: false },
                        Directive::Stack(0x9FF0_0000),
                        Directive::Stack(0x10),
                    ],
                ),
            ],
        ),
        block("DATA", Address::Relative(0), None, vec![region("D", Address::Absolute(0), vec![Directive::Stack(0x20)])]),
    ]);
    assert_eq!(sag.find_stack(), Some(0x9FF0_0000));
    let script = sag.to_linker_script(&LinkerScriptConfig::ae350_ddr());
    assert_eq!(script.matches("\n__stack_top = ").count(), 1);
    assert!(script.contains("}\n\n__stack_top = 0x9FF00000;\n\nSECTIONS\n{\n"));
    assert_eq!(script.matches("    __stack_top = 0x9FF00000;\n").count(), 1);
    assert_eq!(script.matches("    __stack_top = 0x00000010;\n").count(), 1);
    assert_eq!(script.matches("    __stack_top = 0x00000020;\n").count(), 1);
}

#[test]
fn no_stack_directive_gives_no_global_symbol() {
    let sag = file(vec![block("HEAD", Address::Absolute(0), None, vec![region("A", Address::Absolute(0), vec![section("x", false)])])]);
    assert_eq!(sag.find_stack(), None);
    assert_eq!(file(Vec::new()).find_stack(), None);
    let script = sag.to_linker_script(&LinkerScriptConfig::ae350_ddr());
    assert!(!script.contains("__stack_top"));
}

#[test]
fn load_addresses_run_from_block_to_block() {
    let sag = file(vec![
        block("HEAD", Address::Absolute(0x8000_0000), None, Vec::new()),
        block("MEM", Address::Relative(0x100), None, Vec::new()),
        block("DATA", Address::Relative(1), Some(0x1000), Vec::new()),
        block("EXEC", Address::Relative(0), Some(0x1000), Vec::new()),
        block("LDSECTION", Address::Relative(-0x1000), Some(16), Vec::new()),
        block("MEM", Address::Absolute(5), Some(4), Vec::new()),
        block("MEM", Address::Relative(-9), None, Vec::new()),
    ]);
    let script = sag.to_linker_script(&LinkerScriptConfig::ae350_ddr());
    let body = "\n    /* Block: HEAD @ LMA 0x80000000 */\n\n    /* Block: MEM @ LMA 0x80000100 */\n\n    /* Block: DATA @ LMA 0x80001000 */\n\n    /* Block: EXEC @ LMA 0x80001000 */\n\n    /* Block: LDSECTION @ LMA 0x80000000 */\n\n    /* Block: MEM @ LMA 0x00000008 */\n\n    /* Block: MEM @ LMA 0xFFFFFFFFFFFFFFFF */\n";
    assert_eq!(script, format!("{}SECTIONS\n{{\n{}{}", HEAD_DDR, body, FOOT));
}

#[test]
fn relative_region_address_counts_from_zero() {
    let sag = file(vec![block(
        "MEM",
        Address::Absolute(0x8000_0000),
        None,
        vec![region("R", Address::Relative(0x40), vec![section("x", false)])],
    )]);
    let script = sag.to_linker_script(&LinkerScriptConfig::ae350_ddr());
    assert!(script.contains("    /* Region: R VMA=0x00000040 LMA=0x80000000 */\n    .x : AT(2147483648)\n"));
    assert!(script.contains("    } > DDR\n"));
}

#[test]
fn rounding_up_to_a_power_of_two() {
    assert_eq!(align_up(0, 16), 0);
    assert_eq!(align_up(1, 16), 16);
    assert_eq!(align_up(16, 16), 16);
    assert_eq!(align_up(17, 16), 32);
    assert_eq!(align_up(0x8000_0001, 0x1000), 0x8000_1000);
    assert_eq!(align_up(12345, 1), 12345);
    assert_eq!(align_up(u64::MAX - 15, 16), u64::MAX - 15);
    assert_eq!(align_up(u64::MAX - 30, 16), u64::MAX - 15);
}

#[test]
fn rounding_up_wraps_and_masks_as_written() {
    // alignment 0: the mask is empty
    assert_eq!(align_up(5, 0), 0);
    // the sum leaves 64 bits
    assert_eq!(align_up(u64::MAX, 16), 0);
    // no power of two: the mask decides
    assert_eq!(align_up(10, 6), 10);
    assert_eq!(align_up(7, 3), 9);
}

#[test]
fn generating_twice_gives_the_same_script() {
    let source = "USER_SECTIONS .a\nHEAD 0 ALIGN 8\n{\n  BOOT 0x80000000\n  {\n    ADDR s\n    LOADADDR l\n    * KEEP ( +ISR, .boot )\n    STACK = 0x9FF00000\n  }\n}\nMEM +256\n{\n  RAM 0x0\n  {\n    * ( +RW, +ZI )\n  }\n}\n";
    let first = SagFile::parse(source).unwrap();
    let second = SagFile::parse(source).unwrap();
    let config = LinkerScriptConfig::ae350_ddr();
    let script = first.to_linker_script(&config);
    assert_eq!(script, first.to_linker_script(&config));
    assert_eq!(script, second.to_linker_script(&LinkerScriptConfig::ae350_ddr()));
    assert_eq!(script, first.clone().to_linker_script(&config.clone()));
}

#[test]
fn patterns_expand_to_stems() {
    let sag = file(Vec::new());
    let expand = |p: &str| sag.expand_section_pattern(p);
    assert_eq!(expand("+ISR"), vec!["vectors", "isr"]);
    assert_eq!(expand("+RO"), vec!["text", "rodata", "srodata"]);
    assert_eq!(expand("+RW"), vec!["data", "sdata"]);
    assert_eq!(expand("+ZI"), vec!["bss", "sbss"]);
    assert_eq!(expand(".bootloader"), vec!["bootloader"]);
    assert_eq!(expand("plain"), vec!["plain"]);
    assert_eq!(expand(""), vec![""]);
    assert_eq!(expand("."), vec![""]);
    assert_eq!(expand("..x"), vec![".x"]);
    assert_eq!(expand("a,,b,"), vec!["a", "", "b", ""]);
    assert_eq!(expand("+ro"), vec!["+ro"]);
    assert_eq!(expand("+RO+RW"), vec!["+RO+RW"]);
    assert_eq!(expand(" .a b "), vec!["a b"]);
}

#[test]
fn ro_expands_in_place_among_other_tokens() {
    let sag = file(Vec::new());
    assert_eq!(
        sag.expand_section_pattern(".init, +RO ,custom,+ZI"),
        vec!["init", "text", "rodata", "srodata", "custom", "bss", "sbss"]
    );
    for (left, right) in [("", ""), (".a", ".b"), ("+RW,x", "+ISR"), (" ", ",,")] {
        let mut want = sag.expand_section_pattern(left);
        want.extend(["text", "rodata", "srodata"].map(String::from));
        want.extend(sag.expand_section_pattern(right));
        assert_eq!(sag.expand_section_pattern(&format!("{},+RO,{}", left, right)), want);
    }
}

#[test]
fn emit_region_writes_comment_and_directives() {
    let sag = file(Vec::new());
    let config = LinkerScriptConfig::ae350_ilm();
    let r = region(
        "Fast",
        Address::Absolute(0xA000_0000),
        vec![section(".fast", false), Directive::Stack(0xA020_0000)],
    );
    let mut output = String::from("before");
    sag.emit_region(&mut output, &r, 0x8000_0400, 0xA000_0000, &config);
    assert_eq!(
        output,
        "before\n    /* Region: Fast VMA=0xA0000000 LMA=0x80000400 */\n    .fast : AT(2147484672)\n    {\n        *(.fast)\n        *(.fast*)\n    } > ILM\n    __stack_top = 0xA0200000;\n"
    );
}

#[test]
fn scripts_of_parsed_descriptions_fit_lines() {
    let source = "HEAD 0\n{\n  Boot 0x80000000\n  {\n    ADDR s\n    LOADADDR l\n    * KEEP ( +ISR, .boot )\n    STACK = 0x9FF00000\n    STACK = 0x9FF00000\n    STACK = 0x10\n  }\n}\n";
    let sag = SagFile::parse(source).unwrap();
    let config = LinkerScriptConfig::ae350_ddr();
    assert!(sag.script_fits_lines(&config));
    let script = sag.to_linker_script(&config);
    assert_eq!(script.lines().filter(|l| *l == "__stack_top = 0x9FF00000;").count(), 1);
    assert_eq!(script.lines().filter(|l| *l == "    __stack_top = 0x9FF00000;").count(), 2);
    assert_eq!(script.lines().filter(|l| *l == "    __stack_top = 0x00000010;").count(), 1);
    let global = script.lines().position(|l| l == "__stack_top = 0x9FF00000;").unwrap();
    let sections = script.lines().position(|l| l == "SECTIONS").unwrap();
    assert!(global < sections);
}

#[test]
fn line_feeds_in_names_are_found() {
    let config = LinkerScriptConfig::ae350_ddr();
    assert!(file(Vec::new()).script_fits_lines(&config));
    let broken_symbol = file(vec![block(
        "MEM",
        Address::Absolute(0),
        None,
        vec![region(
            "R",
            Address::Absolute(0),
            vec![Directive::Addr { symbol: "a = .;\n__stack_top = 0x00000001;\nb".to_string(), next: false }],
        )],
    )]);
    assert!(!broken_symbol.script_fits_lines(&config));
    let broken_name = file(vec![block("MEM", Address::Absolute(0), None, vec![region("R\n", Address::Absolute(0), Vec::new())])]);
    assert!(!broken_name.script_fits_lines(&config));
    let broken_type = file(vec![block("ME\nM", Address::Absolute(0), None, Vec::new())]);
    assert!(!broken_type.script_fits_lines(&config));
    let broken_pattern = file(vec![block("MEM", Address::Absolute(0), None, vec![region("R", Address::Absolute(0), vec![section("a\nb", false)])])]);
    assert!(!broken_pattern.script_fits_lines(&config));
    let plain = file(vec![block("MEM", Address::Absolute(0), None, vec![region("R", Address::Absolute(0), vec![section("a,b", true)])])]);
    assert!(plain.script_fits_lines(&config));
    let broken_layout = LinkerScriptConfig {
        name: "layout".to_string(),
        memory_regions: vec![("A\nB".to_string(), MemoryRegion { origin: 0, length: 1, attributes: "r".to_string() })],
    };
    assert!(!plain.script_fits_lines(&broken_layout));
    let broken_attributes = LinkerScriptConfig {
        name: "layout".to_string(),
        memory_regions: vec![("A".to_string(), MemoryRegion { origin: 0, length: 1, attributes: "r\n".to_string() })],
    };
    assert!(!plain.script_fits_lines(&broken_attributes));
    // a line feed in the layout's name is escaped where the name is quoted
    let escaped = LinkerScriptConfig { name: "two\nlines".to_string(), memory_regions: Vec::new() };
    assert!(plain.script_fits_lines(&escaped));
}

#[test]
fn layouts_are_filled_as_maps_are() {
    let mut config = LinkerScriptConfig::new("board");
    assert_eq!(config.name, "board");
    assert!(config.memory_regions.is_empty());
    let rom = MemoryRegion { origin: 0, length: 1024, attributes: "rx".to_string() };
    let ram = MemoryRegion { origin: 0x1000, length: 2048, attributes: "rw".to_string() };
    let bigger = MemoryRegion { origin: 0, length: 4096, attributes: "r".to_string() };
    assert!(config.insert("ROM".to_string(), rom).is_none());
    assert!(config.insert("RAM".to_string(), ram).is_none());
    assert_eq!(config.position(&"ROM".to_string()), Some(0));
    assert_eq!(config.position(&"RAM".to_string()), Some(1));
    assert_eq!(config.position(&"rom".to_string()), None);
    let replaced = config.insert("ROM".to_string(), bigger).unwrap();
    assert_eq!(replaced.length, 1024);
    assert_eq!(replaced.attributes, "rx");
    assert_eq!(config.memory_regions.len(), 2);
    assert_eq!(config.memory_regions[0].0, "ROM");
    assert_eq!(config.memory_regions[0].1.length, 4096);
    assert_eq!(config.memory_regions[0].1.attributes, "r");
    assert_eq!(config.memory_regions[1].0, "RAM");
    assert_eq!(config.vma_to_region(0x800), Some("ROM"));
    let script = file(Vec::new()).to_linker_script(&config);
    assert!(script.contains("MEMORY\n{\n    ROM (r) : ORIGIN = 0x00000000, LENGTH = 4K\n    RAM (rw) : ORIGIN = 0x00001000, LENGTH = 2K\n}\n"));
}
