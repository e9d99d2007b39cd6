//! The pattern scanner: every non-overlapping occurrence of an exact byte
//! sequence within each region's bytes, reported as absolute addresses and
//! grouped by the owning region.

use vstd::prelude::*;

use crate::region::MemRegion;
use crate::region::RegionModel;

verus! {

/// The matches found inside one region: the region's backing name, for
/// provenance, and the absolute address of each occurrence, in order.
/// A region with no occurrence yields no `SearchResult` at all.
#[derive(Debug, Clone, PartialEq, Eq)]
pub struct SearchResult {
    pub module: Option<Vec<u8>>,
    pub results: Vec<u64>,
}

/// The mathematical model of a `SearchResult`.
#[verifier::ext_equal]
pub ghost struct ResultModel {
    pub module: Option<Seq<u8>>,
    pub results: Seq<u64>,
}

impl View for SearchResult {
    type V = ResultModel;

    open spec fn view(&self) -> ResultModel {
        ResultModel {
            module: match self.module {
                Option::Some(v) => Option::Some(v@),
                Option::None => Option::None,
            },
            results: self.results@,
        }
    }
}

/// The models of a sequence of search results, element by element.
pub open spec fn result_models(rs: Seq<SearchResult>) -> Seq<ResultModel> {
    rs.map_values(|r: SearchResult| r@)
}

/// The pattern stands at offset `i` of the haystack: every byte of the
/// pattern equals the byte of the haystack `i` positions further in.
pub open spec fn is_match_at(hay: Seq<u8>, pat: Seq<u8>, i: int) -> bool {
    0 <= i && i + pat.len() <= hay.len() && hay.subrange(i, i + pat.len()) == pat
}

/// The absolute addresses of the non-overlapping occurrences of the pattern
/// at or after offset `i`, leftmost first: an occurrence at `i` contributes
/// `base + i` and the search resumes one whole pattern length further on.
pub open spec fn found_from(hay: Seq<u8>, pat: Seq<u8>, base: u64, i: int) -> Seq<u64>
    decreases hay.len() - i
    when 0 <= i && 1 <= pat.len()
{
    if i + pat.len() > hay.len() {
        Seq::empty()
    } else if is_match_at(hay, pat, i) {
        seq![(base + i) as u64] + found_from(hay, pat, base, i + pat.len() as int)
    } else {
        found_from(hay, pat, base, i + 1)
    }
}

/// The absolute addresses of all non-overlapping occurrences of the pattern
/// in a buffer whose first byte lies at address `base`.
pub open spec fn found(hay: Seq<u8>, pat: Seq<u8>, base: u64) -> Seq<u64> {
    found_from(hay, pat, base, 0)
}

/// The view of one read outcome: the bytes that were read, or `None` for a
/// seek or read failure.
pub open spec fn read_view(o: Option<Vec<u8>>) -> Option<Seq<u8>> {
    match o {
        Option::Some(v) => Option::Some(v@),
        Option::None => Option::None,
    }
}

/// The views of a sequence of read outcomes, element by element.
pub open spec fn read_views(s: Seq<Option<Vec<u8>>>) -> Seq<Option<Seq<u8>>> {
    s.map_values(|o: Option<Vec<u8>>| read_view(o))
}

/// What scanning one region yields, given the outcome of reading its bytes:
/// nothing when the read failed or returned other than the region's full
/// span, nothing when the pattern does not occur, and otherwise the region's
/// name with the addresses of every occurrence.
pub open spec fn region_scan_spec(r: RegionModel, read: Option<Seq<u8>>, pat: Seq<u8>) -> Option<
    ResultModel,
> {
    match read {
        Option::None => Option::None,
        Option::Some(buf) => {
            if buf.len() != r.size {
                Option::None
            } else {
                let addrs = found(buf, pat, r.start_addr);
                if addrs.len() == 0 {
                    Option::None
                } else {
                    Option::Some(ResultModel { module: r.name, results: addrs })
                }
            }
        },
    }
}

/// What scanning a whole region list yields: the per-region results of the
/// regions that yielded at least one match, in region order.  A region whose
/// read failed is skipped and the rest of the scan is unaffected.
pub open spec fn scan_spec(
    regions: Seq<RegionModel>,
    reads: Seq<Option<Seq<u8>>>,
    pat: Seq<u8>,
) -> Seq<ResultModel>
    decreases regions.len(),
{
    if regions.len() == 0 || reads.len() == 0 {
        Seq::empty()
    } else {
        let rest = scan_spec(regions.drop_first(), reads.drop_first(), pat);
        match region_scan_spec(regions[0], reads[0], pat) {
            Option::Some(res) => seq![res] + rest,
            Option::None => rest,
        }
    }
}

/// Where the pattern occurs nowhere at or after `i`, nothing is found there.
proof fn lemma_no_occurrence_found_empty(hay: Seq<u8>, pat: Seq<u8>, base: u64, i: int)
    requires
        1 <= pat.len(),
        0 <= i,
        forall|m: int| !is_match_at(hay, pat, m),
    ensures
        found_from(hay, pat, base, i) == Seq::<u64>::empty(),
    decreases hay.len() - i,
{
    if i + pat.len() <= hay.len() {
        lemma_no_occurrence_found_empty(hay, pat, base, i + 1);
    }
}

/// Scanning for a pattern that occurs in no region's bytes yields an empty
/// result list: absence of matches is a success, never an error.
pub proof fn lemma_scan_no_match_empty(
    regions: Seq<RegionModel>,
    reads: Seq<Option<Seq<u8>>>,
    pat: Seq<u8>,
)
    requires
        1 <= pat.len(),
        forall|k: int|
            0 <= k < reads.len() ==> (#[trigger] reads[k] matches Option::Some(buf) ==> forall|
                i: int,
            | !is_match_at(buf, pat, i)),
    ensures
        scan_spec(regions, reads, pat) == Seq::<ResultModel>::empty(),
    decreases regions.len(),
{
    if regions.len() > 0 && reads.len() > 0 {
        match reads[0] {
            Option::Some(buf) => {
                lemma_no_occurrence_found_empty(buf, pat, regions[0].start_addr, 0);
            },
            Option::None => {},
        }
        assert forall|k: int|
            0 <= k < reads.drop_first().len() implies (#[trigger] reads.drop_first()[k] matches
            Option::Some(buf) ==> forall|i: int| !is_match_at(buf, pat, i)) by {
            assert(reads.drop_first()[k] == reads[k + 1]);
        }
        lemma_scan_no_match_empty(regions.drop_first(), reads.drop_first(), pat);
    }
}

/// A region whose read failed is skipped and nothing else changes: the scan
/// of the whole list equals the scan of the list with that region and its
/// read outcome removed.
pub proof fn lemma_failed_read_skipped(
    regions: Seq<RegionModel>,
    reads: Seq<Option<Seq<u8>>>,
    pat: Seq<u8>,
    k: int,
)
    requires
        regions.len() == reads.len(),
        0 <= k < regions.len(),
        reads[k] is None,
    ensures
        scan_spec(regions, reads, pat) == scan_spec(regions.remove(k), reads.remove(k), pat),
    decreases regions.len(),
{
    if k == 0 {
        assert(regions.remove(0) =~= regions.drop_first());
        assert(reads.remove(0) =~= reads.drop_first());
    } else {
        lemma_failed_read_skipped(regions.drop_first(), reads.drop_first(), pat, k - 1);
        assert(regions.remove(k).drop_first() =~= regions.drop_first().remove(k - 1));
        assert(reads.remove(k).drop_first() =~= reads.drop_first().remove(k - 1));
        assert(regions.remove(k)[0] == regions[0]);
        assert(reads.remove(k)[0] == reads[0]);
    }
}

proof fn lemma_found_from_at_matches(hay: Seq<u8>, pat: Seq<u8>, base: u64, i: int)
    requires
        1 <= pat.len(),
        0 <= i,
        base + hay.len() <= u64::MAX + 1,
    ensures
        forall|k: int|
            0 <= k < found_from(hay, pat, base, i).len() ==> is_match_at(
                hay,
                pat,
                (#[trigger] found_from(hay, pat, base, i)[k]) - base,
            ),
    decreases hay.len() - i,
{
    if i + pat.len() <= hay.len() {
        if is_match_at(hay, pat, i) {
            lemma_found_from_at_matches(hay, pat, base, i + pat.len() as int);
            let rest = found_from(hay, pat, base, i + pat.len() as int);
            assert(found_from(hay, pat, base, i) == seq![(base + i) as u64] + rest);
            assert(found_from(hay, pat, base, i).len() == 1 + rest.len());
            assert forall|k: int|
                0 <= k < found_from(hay, pat, base, i).len() implies is_match_at(
                hay,
                pat,
                (#[trigger] found_from(hay, pat, base, i)[k]) - base,
            ) by {
                if k == 0 {
                    assert(base + i <= u64::MAX);
                    assert(found_from(hay, pat, base, i)[0] == (base + i) as u64);
                } else {
                    assert(found_from(hay, pat, base, i)[k] == rest[k - 1]);
                    assert(is_match_at(hay, pat, rest[k - 1] - base));
                }
            }
        } else {
            lemma_found_from_at_matches(hay, pat, base, i + 1);
            assert forall|k: int|
                0 <= k < found_from(hay, pat, base, i).len() implies is_match_at(
                hay,
                pat,
                (#[trigger] found_from(hay, pat, base, i)[k]) - base,
            ) by {
                assert(found_from(hay, pat, base, i) == found_from(hay, pat, base, i + 1));
                assert(is_match_at(hay, pat, found_from(hay, pat, base, i + 1)[k] - base));
            }
        }
    }
}

/// Every reported address is sound: it is the buffer's base address plus an
/// offset at which the pattern truly stands.
pub proof fn lemma_addresses_locate_pattern(hay: Seq<u8>, pat: Seq<u8>, base: u64)
    requires
        1 <= pat.len(),
        base + hay.len() <= u64::MAX + 1,
    ensures
        forall|k: int|
            0 <= k < found(hay, pat, base).len() ==> is_match_at(
                hay,
                pat,
                (#[trigger] found(hay, pat, base)[k]) - base,
            ),
{
    lemma_found_from_at_matches(hay, pat, base, 0);
}

proof fn lemma_found_from_nonempty(hay: Seq<u8>, pat: Seq<u8>, base: u64, i: int, o: int)
    requires
        1 <= pat.len(),
        0 <= i <= o,
        is_match_at(hay, pat, o),
    ensures
        found_from(hay, pat, base, i).len() > 0,
    decreases hay.len() - i,
{
    if !is_match_at(hay, pat, i) {
        lemma_found_from_nonempty(hay, pat, base, i + 1, o);
    }
}

/// Every occurrence is complete in turn: where the pattern stands somewhere
/// in the buffer, the search reports at least one address.
pub proof fn lemma_occurrence_is_found(hay: Seq<u8>, pat: Seq<u8>, base: u64, o: int)
    requires
        1 <= pat.len(),
        0 <= o,
        is_match_at(hay, pat, o),
    ensures
        found(hay, pat, base).len() > 0,
{
    lemma_found_from_nonempty(hay, pat, base, 0, o);
}

/// The pattern stands at `i`, byte for byte.
fn bytes_match_at(hay: &[u8], pat: &[u8], i: usize) -> (r: bool)
    requires
        i + pat@.len() <= hay@.len(),
    ensures
        r == is_match_at(hay@, pat@, i as int),
{
    let hlen: usize = hay.len();
    let mut j: usize = 0;
    while j < pat.len()
        invariant
            0 <= j <= pat@.len(),
            i + pat@.len() <= hay@.len(),
            hlen == hay@.len(),
            forall|m: int| 0 <= m < j ==> hay@[i + m] == pat@[m],
        decreases pat@.len() - j,
    {
        proof {
            assert(i + j < hay@.len());
        }
        if hay[i + j] != pat[j] {
            proof {
                assert(hay@.subrange(i as int, i + pat@.len())[j as int] == hay@[i + j]);
            }
            return false;
        }
        j = j + 1;
    }
    proof {
        assert(hay@.subrange(i as int, i + pat@.len()) =~= pat@);
    }
    true
}

/// The absolute address of every non-overlapping occurrence of the pattern
/// in a buffer whose first byte lies at address `base`, leftmost first.
pub fn find_addresses(hay: &[u8], pat: &[u8], base: u64) -> (r: Vec<u64>)
    requires
        1 <= pat@.len(),
        base + hay@.len() <= u64::MAX as int + 1,
    ensures
        r@ == found(hay@, pat@, base),
{
    let mut out: Vec<u64> = Vec::new();
    if hay.len() < pat.len() {
        return out;
    }
    let mut i: usize = 0;
    proof {
        assert(out@ + found_from(hay@, pat@, base, 0) =~= found_from(hay@, pat@, base, 0));
    }
    while i <= hay.len() - pat.len()
        invariant
            1 <= pat@.len() <= hay@.len(),
            base + hay@.len() <= u64::MAX as int + 1,
            0 <= i <= hay@.len(),
            out@ + found_from(hay@, pat@, base, i as int) == found(hay@, pat@, base),
        decreases hay@.len() - i,
    {
        if bytes_match_at(hay, pat, i) {
            let ghost prev = out@;
            out.push(base + (i as u64));
            proof {
                assert(found_from(hay@, pat@, base, i as int) == seq![(base + i) as u64]
                    + found_from(hay@, pat@, base, i + pat@.len()));
                assert(prev.push((base + i) as u64) + found_from(hay@, pat@, base, i + pat@.len())
                    =~= prev + found_from(hay@, pat@, base, i as int));
            }
            i = i + pat.len();
        } else {
            i = i + 1;
        }
    }
    proof {
        assert(out@ + found_from(hay@, pat@, base, i as int) =~= out@);
    }
    out
}

/// Scan one region, given the outcome of reading its bytes.  A failed or
/// short read yields `None`; so does a region without any occurrence.
pub fn scan_region(region: &MemRegion, read: &Option<Vec<u8>>, pat: &[u8]) -> (r: Option<
    SearchResult,
>)
    requires
        region@.wf(),
        1 <= pat@.len(),
    ensures
        match r {
            Option::Some(sr) => region_scan_spec(region@, read_view(*read), pat@) == Option::Some(
                sr@,
            ),
            Option::None => region_scan_spec(region@, read_view(*read), pat@) is None,
        },
{
    match read {
        Option::None => Option::None,
        Option::Some(buf) => {
            if buf.len() != region.size {
                Option::None
            } else {
                let addrs = find_addresses(buf.as_slice(), pat, region.start_addr);
                if addrs.len() == 0 {
                    Option::None
                } else {
                    let module: Option<Vec<u8>> = match &region.name {
                        Option::Some(v) => Option::Some(vstd::slice::slice_to_vec(v.as_slice())),
                        Option::None => Option::None,
                    };
                    let sr = SearchResult { module, results: addrs };
                    proof {
                        assert(region_scan_spec(region@, read_view(*read), pat@) matches
                            Option::Some(m) && m =~= sr@);
                    }
                    Option::Some(sr)
                }
            }
        },
    }
}

} // verus!
