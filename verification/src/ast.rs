//! The syntax tree of a SAG description, and the same tree as specifications
//! see it, with each string as the sequence of its characters.

use vstd::prelude::*;
use crate::address::Address;
use crate::lines::no_line_break;
use crate::text::is_ascii_uppercase;

verus! {

/// A directive within a region (ADDR, LOADADDR, section pattern, etc.)
#[derive(Debug, Clone)]
pub enum Directive {
    /// `ADDR symbol` or `ADDR NEXT symbol` - define symbol at current VMA
    Addr { symbol: String, next: bool },
    /// `LOADADDR symbol` or `LOADADDR NEXT symbol` - define symbol at current LMA
    LoadAddr { symbol: String, next: bool },
    /// `* ( .section )` or `* KEEP ( .section )` - place sections
    Section { pattern: String, keep: bool },
    /// `STACK = address` - set stack pointer
    Stack(u64),
}

/// A memory region within a block
#[derive(Debug, Clone)]
pub struct Region {
    pub name: String,
    pub vma: Address,
    pub directives: Vec<Directive>,
}

/// A section block (HEAD, MEM, LDSECTION, EXEC, DATA)
#[derive(Debug, Clone)]
pub struct Block {
    pub block_type: String,
    pub lma: Address,
    pub alignment: Option<u64>,
    pub regions: Vec<Region>,
}

/// Parsed SAG file
#[derive(Debug, Clone)]
pub struct SagFile {
    pub user_sections: Vec<String>,
    pub blocks: Vec<Block>,
}

/// A `Directive` as specifications see it.
pub enum DirectiveView {
    Addr { symbol: Seq<char>, next: bool },
    LoadAddr { symbol: Seq<char>, next: bool },
    Section { pattern: Seq<char>, keep: bool },
    Stack(u64),
}

/// A `Region` as specifications see it.
pub struct RegionView {
    pub name: Seq<char>,
    pub vma: Address,
    pub directives: Seq<DirectiveView>,
}

/// A `Block` as specifications see it.
pub struct BlockView {
    pub block_type: Seq<char>,
    pub lma: Address,
    pub alignment: Option<u64>,
    pub regions: Seq<RegionView>,
}

/// A `SagFile` as specifications see it.
pub struct SagFileView {
    pub user_sections: Seq<Seq<char>>,
    pub blocks: Seq<BlockView>,
}

/// The names that no region can have: the keywords of the directives.
pub open spec fn is_reserved(name: Seq<char>) -> bool {
    name == "ADDR"@ || name == "LOADADDR"@ || name == "STACK"@
}

/// The keywords that open a block.
pub open spec fn is_block_keyword(word: Seq<char>) -> bool {
    word == "HEAD"@ || word == "MEM"@ || word == "LDSECTION"@ || word == "EXEC"@ || word
        == "DATA"@
}

impl DirectiveView {
    /// Whether the text that the directive holds has no line feed.
    pub open spec fn on_single_line(self) -> bool {
        match self {
            DirectiveView::Addr { symbol, next } => no_line_break(symbol),
            DirectiveView::LoadAddr { symbol, next } => no_line_break(symbol),
            DirectiveView::Section { pattern, keep } => no_line_break(pattern),
            DirectiveView::Stack(addr) => true,
        }
    }
}

/// Whether the texts that the directives hold have no line feed.
pub open spec fn directives_on_single_lines(directives: Seq<DirectiveView>) -> bool {
    forall|i: int| 0 <= i < directives.len() ==> (#[trigger] directives[i]).on_single_line()
}

impl RegionView {
    /// A region's name starts with an ASCII capital letter and is no keyword
    /// of a directive.
    pub open spec fn wf(self) -> bool {
        self.name.len() > 0 && is_ascii_uppercase(self.name[0]) && !is_reserved(self.name)
    }

    /// Whether the region's name, symbols and patterns hold no line feed.
    pub open spec fn on_single_lines(self) -> bool {
        no_line_break(self.name) && directives_on_single_lines(self.directives)
    }
}

impl BlockView {
    /// A block's type is one of the block keywords, and its regions are well
    /// formed.
    pub open spec fn wf(self) -> bool {
        is_block_keyword(self.block_type) && forall|i: int|
            0 <= i < self.regions.len() ==> (#[trigger] self.regions[i]).wf()
    }
}

impl BlockView {
    /// Whether the block's type and the texts of its regions hold no line
    /// feed.
    pub open spec fn on_single_lines(self) -> bool {
        no_line_break(self.block_type) && forall|i: int|
            0 <= i < self.regions.len() ==> (#[trigger] self.regions[i]).on_single_lines()
    }
}

impl SagFileView {
    /// Whether the texts of the blocks hold no line feed. A description that
    /// was read from lines is such.
    pub open spec fn on_single_lines(self) -> bool {
        forall|i: int| 0 <= i < self.blocks.len() ==> (#[trigger] self.blocks[i]).on_single_lines()
    }

    /// Every block is well formed. The parser gives only such descriptions;
    /// the generator takes any.
    pub open spec fn wf(self) -> bool {
        forall|i: int| 0 <= i < self.blocks.len() ==> (#[trigger] self.blocks[i]).wf()
    }
}

/// The views of a sequence of strings.
pub open spec fn texts(items: Seq<String>) -> Seq<Seq<char>> {
    Seq::new(items.len(), |i: int| items[i]@)
}

/// The views of a sequence of directives.
pub open spec fn directive_views(items: Seq<Directive>) -> Seq<DirectiveView> {
    Seq::new(items.len(), |i: int| items[i]@)
}

/// The views of a sequence of regions.
pub open spec fn region_views(items: Seq<Region>) -> Seq<RegionView> {
    Seq::new(items.len(), |i: int| items[i]@)
}

/// The views of a sequence of blocks.
pub open spec fn block_views(items: Seq<Block>) -> Seq<BlockView> {
    Seq::new(items.len(), |i: int| items[i]@)
}

impl View for Directive {
    type V = DirectiveView;

    open spec fn view(&self) -> DirectiveView {
        match self {
            Directive::Addr { symbol, next } => DirectiveView::Addr { symbol: symbol@, next: *next },
            Directive::LoadAddr { symbol, next } => DirectiveView::LoadAddr {
                symbol: symbol@,
                next: *next,
            },
            Directive::Section { pattern, keep } => DirectiveView::Section {
                pattern: pattern@,
                keep: *keep,
            },
            Directive::Stack(addr) => DirectiveView::Stack(*addr),
        }
    }
}

impl View for Region {
    type V = RegionView;

    open spec fn view(&self) -> RegionView {
        RegionView {
            name: self.name@,
            vma: self.vma,
            directives: directive_views(self.directives@),
        }
    }
}

impl View for Block {
    type V = BlockView;

    open spec fn view(&self) -> BlockView {
        BlockView {
            block_type: self.block_type@,
            lma: self.lma,
            alignment: self.alignment,
            regions: region_views(self.regions@),
        }
    }
}

impl View for SagFile {
    type V = SagFileView;

    open spec fn view(&self) -> SagFileView {
        SagFileView {
            user_sections: texts(self.user_sections@),
            blocks: block_views(self.blocks@),
        }
    }
}

} // verus!
