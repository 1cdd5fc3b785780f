//! Memory layouts: the named regions of memory that a target offers, in the
//! order in which the linker script lists them.

use vstd::prelude::*;
use vstd::string::StringExecFns;

verus! {

/// Memory region configuration
#[derive(Debug, Clone)]
pub struct MemoryRegion {
    pub origin: u64,
    pub length: u64,
    pub attributes: String,
}

/// Configuration for linker script generation. The regions stand in a fixed
/// order, each with its name; where two regions hold an address, the earlier
/// one counts.
#[derive(Debug, Clone)]
pub struct LinkerScriptConfig {
    pub name: String,
    pub memory_regions: Vec<(String, MemoryRegion)>,
}

/// A named `MemoryRegion` as specifications see it.
pub struct RegionEntry {
    pub name: Seq<char>,
    pub origin: u64,
    pub length: u64,
    pub attributes: Seq<char>,
}

/// A `LinkerScriptConfig` as specifications see it.
pub struct ConfigView {
    pub name: Seq<char>,
    pub memory_regions: Seq<RegionEntry>,
}

/// A named region as specifications see it.
pub open spec fn entry_view(entry: (String, MemoryRegion)) -> RegionEntry {
    RegionEntry {
        name: entry.0@,
        origin: entry.1.origin,
        length: entry.1.length,
        attributes: entry.1.attributes@,
    }
}

impl View for LinkerScriptConfig {
    type V = ConfigView;

    open spec fn view(&self) -> ConfigView {
        ConfigView {
            name: self.name@,
            memory_regions: Seq::new(
                self.memory_regions@.len(),
                |i: int| entry_view(self.memory_regions@[i]),
            ),
        }
    }
}

impl RegionEntry {
    /// Whether the address lies in the region: at or after its origin and
    /// less than `length` bytes after it.
    pub open spec fn holds(self, addr: u64) -> bool {
        self.origin <= addr < self.origin + self.length
    }
}

/// Index of the first region at or after `i` that holds the address; the
/// number of regions if none does.
pub open spec fn holder_from(regions: Seq<RegionEntry>, addr: u64, i: int) -> int
    decreases regions.len() - i,
{
    if 0 <= i < regions.len() && !regions[i].holds(addr) {
        holder_from(regions, addr, i + 1)
    } else {
        i
    }
}

/// Index of the first region at or after `i` that has the name; the number of
/// regions if none has it.
pub open spec fn named_from(regions: Seq<RegionEntry>, name: Seq<char>, i: int) -> int
    decreases regions.len() - i,
{
    if 0 <= i < regions.len() && regions[i].name != name {
        named_from(regions, name, i + 1)
    } else {
        i
    }
}

/// `named_from` stays within the regions, stops at a region of the name, and
/// passes over none of that name.
pub proof fn lemma_named_from(regions: Seq<RegionEntry>, name: Seq<char>, i: int)
    requires
        0 <= i <= regions.len(),
    ensures
        i <= named_from(regions, name, i) <= regions.len(),
        named_from(regions, name, i) < regions.len() ==> regions[named_from(
            regions,
            name,
            i,
        )].name == name,
        forall|k: int| i <= k < named_from(regions, name, i) ==> (#[trigger] regions[k]).name != name,
    decreases regions.len() - i,
{
    if i < regions.len() && regions[i].name != name {
        lemma_named_from(regions, name, i + 1);
    }
}

impl ConfigView {
    /// The name of the first region that holds the address, if one does.
    pub open spec fn region_of(self, addr: u64) -> Option<Seq<char>> {
        let i = holder_from(self.memory_regions, addr, 0);
        if 0 <= i < self.memory_regions.len() {
            Some(self.memory_regions[i].name)
        } else {
            None
        }
    }

    /// No two regions have the same name.
    pub open spec fn wf(self) -> bool {
        forall|i: int, j: int|
            0 <= i < j < self.memory_regions.len() ==> (#[trigger] self.memory_regions[i]).name != (
            #[trigger] self.memory_regions[j]).name
    }
}

/// The layout for execution from DDR: flash to read and execute, DDR for
/// everything.
pub open spec fn ddr_layout() -> ConfigView {
    ConfigView {
        name: "AE350 DDR"@,
        memory_regions: seq![
            RegionEntry {
                name: "FLASH"@,
                origin: 0x8000_0000,
                length: 0x1000_0000,
                attributes: "rx"@,
            },
            RegionEntry { name: "DDR"@, origin: 0, length: 0x0800_0000, attributes: "rwx"@ },
        ],
    }
}

/// The layout for execution from instruction-local memory: the same flash,
/// and the local memory for everything.
pub open spec fn ilm_layout() -> ConfigView {
    ConfigView {
        name: "AE350 ILM"@,
        memory_regions: seq![
            RegionEntry {
                name: "FLASH"@,
                origin: 0x8000_0000,
                length: 0x1000_0000,
                attributes: "rx"@,
            },
            RegionEntry {
                name: "ILM"@,
                origin: 0xA000_0000,
                length: 0x0020_0000,
                attributes: "rwx"@,
            },
        ],
    }
}

impl LinkerScriptConfig {
    /// A layout of the given name, without regions.
    pub fn new(name: &str) -> (config: Self)
        ensures
            config@.name == name@,
            config@.memory_regions.len() == 0,
            config@.wf(),
    {
        LinkerScriptConfig { name: String::from_str(name), memory_regions: Vec::new() }
    }

    /// Index of the first region of the given name, if there is one.
    pub fn position(&self, name: &String) -> (r: Option<usize>)
        ensures
            match r {
                Some(i) => i < self@.memory_regions.len() && i == named_from(
                    self@.memory_regions,
                    name@,
                    0,
                ),
                None => named_from(self@.memory_regions, name@, 0) >= self@.memory_regions.len(),
            },
    {
        let n = self.memory_regions.len();
        let mut i: usize = 0;
        while i < n
            invariant
                n == self.memory_regions@.len(),
                0 <= i <= n,
                named_from(self@.memory_regions, name@, 0) == named_from(
                    self@.memory_regions,
                    name@,
                    i as int,
                ),
            decreases n - i,
        {
            if self.memory_regions[i].0 == *name {
                return Some(i);
            }
            i += 1;
        }
        None
    }

    /// Puts a region into the layout under a name, as a map would: where a
    /// region has the name already, the new one takes its place and the old
    /// one is given back; else the new one comes last. A layout without a
    /// name twice stays one.
    pub fn insert(&mut self, name: String, region: MemoryRegion) -> (replaced: Option<
        MemoryRegion,
    >)
        ensures
            final(self)@.name == old(self)@.name,
            ({
                let before = old(self)@.memory_regions;
                let i = named_from(before, name@, 0);
                let entry = entry_view((name, region));
                if 0 <= i < before.len() {
                    &&& final(self)@.memory_regions == before.update(i, entry)
                    &&& replaced matches Some(was) && entry_view((name, was)) == before[i]
                } else {
                    &&& final(self)@.memory_regions == before.push(entry)
                    &&& replaced is None
                }
            }),
            old(self)@.wf() ==> final(self)@.wf(),
    {
        proof {
            lemma_named_from(self@.memory_regions, name@, 0);
        }
        let ghost before = self@.memory_regions;
        let ghost entry = entry_view((name, region));
        match self.position(&name) {
            Some(i) => {
                let was = self.memory_regions.remove(i);
                self.memory_regions.insert(i, (name, region));
                proof {
                    assert(self@.memory_regions =~= before.update(i as int, entry));
                    if old(self)@.wf() {
                        assert forall|a: int, b: int|
                            0 <= a < b < self@.memory_regions.len() implies (
                        #[trigger] self@.memory_regions[a]).name != (
                        #[trigger] self@.memory_regions[b]).name by {
                            assert(self@.memory_regions[a].name == before[a].name);
                            assert(self@.memory_regions[b].name == before[b].name);
                        }
                    }
                }
                Some(was.1)
            },
            None => {
                self.memory_regions.push((name, region));
                proof {
                    assert(self@.memory_regions =~= before.push(entry));
                    if old(self)@.wf() {
                        assert forall|a: int, b: int|
                            0 <= a < b < self@.memory_regions.len() implies (
                        #[trigger] self@.memory_regions[a]).name != (
                        #[trigger] self@.memory_regions[b]).name by {
                            if b < before.len() {
                                assert(self@.memory_regions[a] == before[a]);
                                assert(self@.memory_regions[b] == before[b]);
                            } else {
                                assert(self@.memory_regions[a] == before[a]);
                            }
                        }
                    }
                }
                None
            },
        }
    }

    /// Create a default config for AE350 DDR mode
    pub fn ae350_ddr() -> (config: Self)
        ensures
            config@ == ddr_layout(),
            config@.wf(),
    {
        let mut config = LinkerScriptConfig::new("AE350 DDR");
        proof {
            reveal_strlit("FLASH");
            reveal_strlit("DDR");
            assert("FLASH"@.len() != "DDR"@.len());
        }
        config.insert(
            String::from_str("FLASH"),
            MemoryRegion {
                origin: 0x80000000,
                length: 256 * 1024 * 1024,
                attributes: String::from_str("rx"),
            },
        );
        assert(named_from(config@.memory_regions, "DDR"@, 1) == 1);
        config.insert(
            String::from_str("DDR"),
            MemoryRegion {
                origin: 0x00000000,
                length: 128 * 1024 * 1024,
                attributes: String::from_str("rwx"),
            },
        );
        assert(config@.memory_regions =~= ddr_layout().memory_regions);
        config
    }

    /// Create a default config for AE350 ILM mode
    pub fn ae350_ilm() -> (config: Self)
        ensures
            config@ == ilm_layout(),
            config@.wf(),
    {
        let mut config = LinkerScriptConfig::new("AE350 ILM");
        proof {
            reveal_strlit("FLASH");
            reveal_strlit("ILM");
            assert("FLASH"@.len() != "ILM"@.len());
        }
        config.insert(
            String::from_str("FLASH"),
            MemoryRegion {
                origin: 0x80000000,
                length: 256 * 1024 * 1024,
                attributes: String::from_str("rx"),
            },
        );
        assert(named_from(config@.memory_regions, "ILM"@, 1) == 1);
        config.insert(
            String::from_str("ILM"),
            MemoryRegion {
                origin: 0xA0000000,
                length: 2 * 1024 * 1024,
                attributes: String::from_str("rwx"),
            },
        );
        assert(config@.memory_regions =~= ilm_layout().memory_regions);
        config
    }

    /// Index of the first region that holds the address, if one does.
    pub fn region_index(&self, addr: u64) -> (r: Option<usize>)
        ensures
            match r {
                Some(i) => i < self@.memory_regions.len() && i == holder_from(
                    self@.memory_regions,
                    addr,
                    0,
                ),
                None => holder_from(self@.memory_regions, addr, 0) >= self@.memory_regions.len(),
            },
    {
        let n = self.memory_regions.len();
        let mut i: usize = 0;
        while i < n
            invariant
                n == self.memory_regions@.len(),
                0 <= i <= n,
                holder_from(self@.memory_regions, addr, 0) == holder_from(
                    self@.memory_regions,
                    addr,
                    i as int,
                ),
            decreases n - i,
        {
            let region = &self.memory_regions[i].1;
            if addr >= region.origin && addr - region.origin < region.length {
                return Some(i);
            }
            i += 1;
        }
        None
    }

    /// The name of the first region that holds the address, if one does.
    pub fn vma_to_region(&self, vma: u64) -> (r: Option<&str>)
        ensures
            match r {
                Some(name) => self@.region_of(vma) == Some(name@),
                None => self@.region_of(vma) is None,
            },
    {
        match self.region_index(vma) {
            Some(i) => Some(self.memory_regions[i].0.as_str()),
            None => None,
        }
    }

    /// Whether the two addresses fall to regions of the same name, or both to
    /// none.
    pub fn same_region(&self, a: u64, b: u64) -> (same: bool)
        ensures
            same == (self@.region_of(a) == self@.region_of(b)),
    {
        match (self.region_index(a), self.region_index(b)) {
            (Some(i), Some(j)) => self.memory_regions[i].0 == self.memory_regions[j].0,
            (None, None) => true,
            _ => false,
        }
    }
}

} // verus!
