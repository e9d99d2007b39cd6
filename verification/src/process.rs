//! A handle on one target process: its display label, its numeric
//! identifier, and, once its map has been parsed, its region list.

use vstd::prelude::*;

use crate::parser::parse_maps_bytes;
use crate::parser::spec_regions;
use crate::region::MemRegion;
use crate::region::MemRegionErr;
use crate::region::region_models;
use crate::scanner::SearchResult;
use crate::scanner::read_view;
use crate::scanner::read_views;
use crate::scanner::result_models;
use crate::scanner::scan_region;
use crate::scanner::scan_spec;

verus! {

/// One candidate process, as the process locator hands it over: a display
/// label and a process identifier.  Its region list starts absent and is
/// filled in by one whole parse of the process's memory map.
#[derive(Debug)]
pub struct Proc {
    pub name: String,
    pub pid: u32,
    pub regions: Option<Vec<MemRegion>>,
}

impl Proc {
    /// Every region held is well formed; holds from construction on.
    pub open spec fn regions_wf(self) -> bool {
        self.regions matches Option::Some(v) ==> forall|k: int|
            0 <= k < v@.len() ==> (#[trigger] v@[k])@.wf()
    }

    /// A freshly discovered process: no regions yet.
    pub fn new(name: String, pid: u32) -> (p: Proc)
        ensures
            p.name == name,
            p.pid == pid,
            p.regions is None,
            p.regions_wf(),
    {
        Proc { name, pid, regions: Option::None }
    }

    /// Parse the process's memory-map text and replace the region list
    /// wholesale with the result.  A map in which no line matches the
    /// grammar yields the `Empty` error and leaves the old list in place.
    pub fn parse_maps(&mut self, maps: &[u8]) -> (r: Result<(), MemRegionErr>)
        requires
            old(self).regions_wf(),
        ensures
            final(self).name == old(self).name,
            final(self).pid == old(self).pid,
            final(self).regions_wf(),
            match r {
                Ok(()) => final(self).regions matches Option::Some(v) && region_models(v@)
                    == spec_regions(maps@) && spec_regions(maps@).len() > 0,
                Err(e) => e == MemRegionErr::Empty && spec_regions(maps@).len() == 0
                    && final(self).regions == old(self).regions,
            },
    {
        match parse_maps_bytes(maps) {
            Ok(v) => {
                self.regions = Option::Some(v);
                Ok(())
            },
            Err(e) => Err(e),
        }
    }

    /// Scan the region list for an exact byte pattern, given the outcome of
    /// reading each region's bytes (`reads[k]` belongs to the `k`-th region;
    /// `None` stands for a seek or read failure, which skips that region and
    /// only that region).  Yields one `SearchResult` per region with at
    /// least one occurrence, in region order; a scan that finds nothing
    /// yields an empty list, not an error.  Only a process whose map was
    /// never parsed is an error.
    pub fn search_new(&self, val: &[u8], reads: &[Option<Vec<u8>>]) -> (r: Result<
        Vec<SearchResult>,
        MemRegionErr,
    >)
        requires
            self.regions_wf(),
            1 <= val@.len(),
            self.regions matches Option::Some(v) ==> reads@.len() == v@.len(),
        ensures
            match r {
                Ok(out) => self.regions matches Option::Some(v) && result_models(out@)
                    == scan_spec(region_models(v@), read_views(reads@), val@),
                Err(e) => e == MemRegionErr::Empty && self.regions is None,
            },
    {
        let regs: &Vec<MemRegion> = match &self.regions {
            Option::None => {
                return Err(MemRegionErr::Empty);
            },
            Option::Some(regs) => regs,
        };
        let ghost all_regions = region_models(regs@);
        let ghost all_reads = read_views(reads@);
        let mut out: Vec<SearchResult> = Vec::new();
        let mut i: usize = 0;
        proof {
            assert(all_regions.skip(0) =~= all_regions);
            assert(all_reads.skip(0) =~= all_reads);
            assert(result_models(out@) + scan_spec(all_regions, all_reads, val@) =~= scan_spec(
                all_regions,
                all_reads,
                val@,
            ));
        }
        while i < regs.len()
            invariant
                regs@.len() == reads@.len(),
                forall|k: int| 0 <= k < regs@.len() ==> (#[trigger] regs@[k])@.wf(),
                1 <= val@.len(),
                0 <= i <= regs@.len(),
                all_regions == region_models(regs@),
                all_reads == read_views(reads@),
                result_models(out@) + scan_spec(
                    all_regions.skip(i as int),
                    all_reads.skip(i as int),
                    val@,
                ) == scan_spec(all_regions, all_reads, val@),
            decreases regs@.len() - i,
        {
            let region = &regs[i];
            let rd = vstd::slice::slice_index_get(reads, i);
            let ghost suffix_regions = all_regions.skip(i as int);
            let ghost suffix_reads = all_reads.skip(i as int);
            proof {
                assert(suffix_regions[0] == regs@[i as int]@);
                assert(suffix_reads[0] == read_view(reads@[i as int]));
                assert(suffix_regions.drop_first() =~= all_regions.skip(i as int + 1));
                assert(suffix_reads.drop_first() =~= all_reads.skip(i as int + 1));
            }
            let ghost prev = out@;
            match scan_region(region, rd, val) {
                Option::Some(sr) => {
                    out.push(sr);
                    proof {
                        assert(result_models(out@) =~= result_models(prev).push(sr@));
                        assert(result_models(prev).push(sr@) + scan_spec(
                            all_regions.skip(i as int + 1),
                            all_reads.skip(i as int + 1),
                            val@,
                        ) =~= result_models(prev) + (seq![sr@] + scan_spec(
                            all_regions.skip(i as int + 1),
                            all_reads.skip(i as int + 1),
                            val@,
                        )));
                    }
                },
                Option::None => {},
            }
            i = i + 1;
        }
        proof {
            assert(all_regions.skip(regs@.len() as int).len() == 0);
            assert(result_models(out@) + Seq::<crate::scanner::ResultModel>::empty()
                =~= result_models(out@));
        }
        Ok(out)
    }
}

} // verus!
