use vstd::prelude::*;

verus! {

/// One mapped span of a process's virtual address space, as reported by the
/// OS's per-process memory map: a half-open address interval `[start_addr,
/// end_addr)` with its permission flags, its sharing flags, and an optional
/// backing name (a file path or a pseudo-label such as a heap or stack tag;
/// absent for anonymous mappings).
#[derive(Debug, Clone, PartialEq, Eq)]
pub struct MemRegion {
    pub start_addr: u64,
    pub end_addr: u64,
    pub size: usize,
    pub readable: bool,
    pub writeable: bool,
    pub execable: bool,
    pub private: bool,
    pub shared: bool,
    pub name: Option<Vec<u8>>,
}

/// The mathematical model of a `MemRegion`: the same fields, with the backing
/// name abstracted to a byte sequence.
#[verifier::ext_equal]
pub ghost struct RegionModel {
    pub start_addr: u64,
    pub end_addr: u64,
    pub size: usize,
    pub readable: bool,
    pub writeable: bool,
    pub execable: bool,
    pub private: bool,
    pub shared: bool,
    pub name: Option<Seq<u8>>,
}

impl RegionModel {
    /// A region is well formed when its interval is non-empty and its size is
    /// exactly the width of the interval.
    pub open spec fn wf(self) -> bool {
        self.start_addr < self.end_addr && self.size == self.end_addr - self.start_addr
    }
}

impl View for MemRegion {
    type V = RegionModel;

    open spec fn view(&self) -> RegionModel {
        RegionModel {
            start_addr: self.start_addr,
            end_addr: self.end_addr,
            size: self.size,
            readable: self.readable,
            writeable: self.writeable,
            execable: self.execable,
            private: self.private,
            shared: self.shared,
            name: match self.name {
                Option::Some(v) => Option::Some(v@),
                Option::None => Option::None,
            },
        }
    }
}

/// The models of a sequence of regions, element by element.
pub open spec fn region_models(rs: Seq<MemRegion>) -> Seq<RegionModel> {
    rs.map_values(|r: MemRegion| r@)
}

/// The failure of a whole map parse: a map with no usable region line is
/// anomalous and is reported, never passed off as an empty success.
#[derive(Debug, Clone, Copy, PartialEq, Eq, Structural)]
pub enum MemRegionErr {
    Empty,
}

} // verus!
