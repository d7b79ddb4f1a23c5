//! The physical-RAM layout: System RAM segments and per-frame flags.
//!
//! Physical memory is a list of non-contiguous segments.  Frames are
//! addressed either by their physical frame number or by a dense index
//! that counts only frames inside RAM segments; the two conversions here
//! invert each other on frames that lie in a segment.

use vstd::prelude::*;

use crate::shm::FLAG_COMPOUND_HEAD;
use crate::shm::FLAG_COMPOUND_TAIL;

verus! {

/// One physical memory segment: its byte address range and its kernel
/// name (the interesting ones are called "System RAM").
pub struct PhysicalMemoryMap {
    pub address: (u64, u64),
    pub name: String,
}

/// All segments are "System RAM" and well-formed, with frame bounds that
/// fit the arithmetic below.
pub open spec fn iomem_wf(maps: Seq<PhysicalMemoryMap>, page_size: u64) -> bool {
    &&& page_size >= 1
    &&& forall|i: int|
        0 <= i < maps.len() ==> (#[trigger] maps[i]).name@ == "System RAM"@
            && maps[i].address.0 <= maps[i].address.1
}

/// How many frames the segments up to `k` span: each contributes its
/// last frame minus its first frame plus one.
pub open spec fn span_frames(maps: Seq<PhysicalMemoryMap>, page_size: u64, k: int) -> int
    decreases k,
{
    if k <= 0 || k > maps.len() {
        0
    } else {
        span_frames(maps, page_size, k - 1) + (maps[k - 1].address.1 / page_size
            - maps[k - 1].address.0 / page_size + 1)
    }
}

/// The dense index of `pfn`, scanning segments from `k` with `prev`
/// frames already counted; `None` when the frame lies in no segment.
pub open spec fn spec_pfn_to_index(
    maps: Seq<PhysicalMemoryMap>,
    page_size: u64,
    pfn: u64,
    k: int,
) -> Option<int>
    decreases maps.len() - k,
{
    if pfn == 0 || k < 0 || k >= maps.len() {
        None
    } else {
        let start = maps[k].address.0 / page_size;
        let end = maps[k].address.1 / page_size;
        if (pfn as int) < start {
            None
        } else if pfn as int <= end {
            Some(span_frames(maps, page_size, k) + pfn - start)
        } else {
            spec_pfn_to_index(maps, page_size, pfn, k + 1)
        }
    }
}

/// The frame at dense index `index`, scanning segments from `k`.
pub open spec fn spec_index_to_pfn(
    maps: Seq<PhysicalMemoryMap>,
    page_size: u64,
    index: int,
    k: int,
) -> Option<int>
    decreases maps.len() - k,
{
    if k < 0 || k >= maps.len() {
        None
    } else {
        let start = maps[k].address.0 / page_size;
        let end = maps[k].address.1 / page_size;
        if index <= end - start {
            Some(index + start)
        } else {
            spec_index_to_pfn(maps, page_size, index - (end - start + 1), k + 1)
        }
    }
}

proof fn lemma_span_frames_nonneg(maps: Seq<PhysicalMemoryMap>, page_size: u64, k: int)
    requires
        iomem_wf(maps, page_size),
        0 <= k <= maps.len(),
    ensures
        0 <= span_frames(maps, page_size, k),
        k < maps.len() ==> span_frames(maps, page_size, k + 1) == span_frames(
            maps,
            page_size,
            k,
        ) + (maps[k].address.1 / page_size - maps[k].address.0 / page_size + 1),
    decreases k,
{
    if k > 0 {
        lemma_span_frames_nonneg(maps, page_size, k - 1);
        assert(maps[k - 1].address.0 <= maps[k - 1].address.1);
        assert(maps[k - 1].address.0 / page_size <= maps[k - 1].address.1 / page_size) by (
        nonlinear_arith)
            requires
                maps[k - 1].address.0 <= maps[k - 1].address.1,
                page_size >= 1,
        ;
    }
}

proof fn lemma_span_le_total(maps: Seq<PhysicalMemoryMap>, page_size: u64, k: int)
    requires
        iomem_wf(maps, page_size),
        0 <= k <= maps.len(),
    ensures
        span_frames(maps, page_size, k) <= span_frames(maps, page_size, maps.len() as int),
    decreases maps.len() - k,
{
    if k < maps.len() {
        lemma_span_frames_nonneg(maps, page_size, k);
        assert(maps[k].address.0 / page_size <= maps[k].address.1 / page_size) by (
        nonlinear_arith)
            requires
                maps[k].address.0 <= maps[k].address.1,
                page_size >= 1,
        ;
        lemma_span_le_total(maps, page_size, k + 1);
    }
}

/// Converts a frame number to its dense index among the RAM segments.
/// Frame zero means "no physical backing" and has no index.
pub fn pfn_to_index(iomem: &Vec<PhysicalMemoryMap>, page_size: u64, pfn: u64) -> (r: Option<
    u64,
>)
    requires
        iomem_wf(iomem@, page_size),
        span_frames(iomem@, page_size, iomem@.len() as int) <= u64::MAX,
    ensures
        match r {
            Some(i) => spec_pfn_to_index(iomem@, page_size, pfn, 0) == Some(i as int),
            None => spec_pfn_to_index(iomem@, page_size, pfn, 0) is None,
        },
{
    if pfn == 0 {
        return None;
    }
    let n = iomem.len();
    let mut previous_maps_size: u64 = 0;
    let mut k: usize = 0;
    while k < n
        invariant
            k <= n,
            n == iomem@.len(),
            pfn != 0,
            iomem_wf(iomem@, page_size),
            span_frames(iomem@, page_size, iomem@.len() as int) <= u64::MAX,
            previous_maps_size == span_frames(iomem@, page_size, k as int),
            spec_pfn_to_index(iomem@, page_size, pfn, 0) == spec_pfn_to_index(
                iomem@,
                page_size,
                pfn,
                k as int,
            ),
        decreases n - k,
    {
        proof {
            lemma_span_frames_nonneg(iomem@, page_size, k as int);
            lemma_span_le_total(iomem@, page_size, k + 1);
            assert(iomem@[k as int].address.0 / page_size <= iomem@[k as int].address.1
                / page_size) by (nonlinear_arith)
                requires
                    iomem@[k as int].address.0 <= iomem@[k as int].address.1,
                    page_size >= 1,
            ;
        }
        let map = &iomem[k];
        let pfn_start = map.address.0 / page_size;
        let pfn_end = map.address.1 / page_size;
        if pfn < pfn_start {
            return None;
        }
        if pfn <= pfn_end {
            return Some(previous_maps_size + (pfn - pfn_start));
        }
        previous_maps_size = previous_maps_size + (pfn_end - pfn_start + 1);
        k += 1;
    }
    None
}

/// Converts a dense index back to the frame number it stands for.
pub fn index_to_pfn(iomem: &Vec<PhysicalMemoryMap>, page_size: u64, index: u64) -> (r: Option<
    u64,
>)
    requires
        iomem_wf(iomem@, page_size),
    ensures
        match r {
            Some(p) => spec_index_to_pfn(iomem@, page_size, index as int, 0) == Some(p as int),
            None => spec_index_to_pfn(iomem@, page_size, index as int, 0) is None,
        },
{
    let n = iomem.len();
    let mut rem = index;
    let mut k: usize = 0;
    while k < n
        invariant
            k <= n,
            n == iomem@.len(),
            iomem_wf(iomem@, page_size),
            spec_index_to_pfn(iomem@, page_size, rem as int, k as int) == spec_index_to_pfn(
                iomem@,
                page_size,
                index as int,
                0,
            ),
        decreases n - k,
    {
        let map = &iomem[k];
        let pfn_start = map.address.0 / page_size;
        let pfn_end = map.address.1 / page_size;
        proof {
            assert(pfn_start <= pfn_end) by (nonlinear_arith)
                requires
                    map.address.0 <= map.address.1,
                    page_size >= 1,
                    pfn_start == map.address.0 / page_size,
                    pfn_end == map.address.1 / page_size,
            ;
        }
        if rem <= pfn_end - pfn_start {
            proof {
                assert(spec_index_to_pfn(iomem@, page_size, rem as int, k as int) == Some(
                    rem + pfn_start,
                ));
            }
            return Some(rem + pfn_start);
        }
        rem = rem - (pfn_end - pfn_start + 1);
        k += 1;
    }
    None
}

/// The position of the RAM segment holding `pfn`, counting only segments
/// named "System RAM"; `None` when the frame lies outside RAM.
pub open spec fn spec_pfn_in_ram(
    maps: Seq<PhysicalMemoryMap>,
    page_size: u64,
    pfn: u64,
    k: int,
    idx: int,
) -> Option<int>
    decreases maps.len() - k,
{
    if k < 0 || k >= maps.len() {
        None
    } else if maps[k].name@ == "System RAM"@ {
        if pfn * page_size >= maps[k].address.0 && pfn * page_size < maps[k].address.1 {
            Some(idx)
        } else {
            spec_pfn_in_ram(maps, page_size, pfn, k + 1, idx + 1)
        }
    } else {
        spec_pfn_in_ram(maps, page_size, pfn, k + 1, idx)
    }
}

/// Finds the RAM segment holding `pfn`; the result counts RAM segments
/// only, mirroring a filtered enumeration of the segment list.
pub fn pfn_is_in_ram(iomem: &Vec<PhysicalMemoryMap>, page_size: u64, pfn: u64) -> (r: Option<
    usize,
>)
    requires
        pfn * page_size <= u64::MAX,
    ensures
        match r {
            Some(i) => spec_pfn_in_ram(iomem@, page_size, pfn, 0, 0) == Some(i as int),
            None => spec_pfn_in_ram(iomem@, page_size, pfn, 0, 0) is None,
        },
{
    let n = iomem.len();
    let mut idx: usize = 0;
    let mut k: usize = 0;
    while k < n
        invariant
            k <= n,
            n == iomem@.len(),
            idx <= k,
            pfn * page_size <= u64::MAX,
            spec_pfn_in_ram(iomem@, page_size, pfn, 0, 0) == spec_pfn_in_ram(
                iomem@,
                page_size,
                pfn,
                k as int,
                idx as int,
            ),
        decreases n - k,
    {
        let map = &iomem[k];
        if str_is_system_ram(&map.name) {
            let addr = pfn * page_size;
            if addr >= map.address.0 && addr < map.address.1 {
                proof {
                    assert(spec_pfn_in_ram(iomem@, page_size, pfn, k as int, idx as int)
                        == Some(idx as int));
                }
                return Some(idx);
            }
            idx += 1;
        }
        k += 1;
    }
    None
}

fn str_is_system_ram(name: &String) -> (r: bool)
    ensures
        r == (name@ == "System RAM"@),
{
    proof {
        reveal_strlit("System RAM");
    }
    let target: &str = "System RAM";
    let a = name.as_str();
    let na = a.unicode_len();
    let nb = target.unicode_len();
    if na != nb {
        proof {
            assert(a@ != target@);
        }
        return false;
    }
    for i in 0..na
        invariant
            na == a@.len(),
            na == target@.len(),
            a@ == name@,
            target@ == "System RAM"@,
            forall|j: int| 0 <= j < i ==> a@[j] == target@[j],
    {
        if a.get_char(i) != target.get_char(i) {
            return false;
        }
    }
    proof {
        assert(a@ =~= target@);
    }
    true
}

/// The frame count of the segments up to `k`, at the fixed 4 KiB page
/// size the range reader assumes.
pub open spec fn spec_pfn_count(maps: Seq<PhysicalMemoryMap>, k: int) -> int
    decreases k,
{
    if k <= 0 || k > maps.len() {
        0
    } else {
        spec_pfn_count(maps, k - 1) + (maps[k - 1].address.1 / 4096 - maps[k - 1].address.0
            / 4096)
    }
}

proof fn lemma_pfn_count_nonneg(maps: Seq<PhysicalMemoryMap>, k: int)
    requires
        0 <= k <= maps.len(),
        forall|i: int|
            0 <= i < maps.len() ==> (#[trigger] maps[i]).address.0 <= maps[i].address.1,
    ensures
        0 <= spec_pfn_count(maps, k),
    decreases k,
{
    if k > 0 {
        lemma_pfn_count_nonneg(maps, k - 1);
        assert(maps[k - 1].address.0 / 4096 <= maps[k - 1].address.1 / 4096) by (
        nonlinear_arith)
            requires
                maps[k - 1].address.0 <= maps[k - 1].address.1,
        ;
    }
}

proof fn lemma_pfn_count_bounds(maps: Seq<PhysicalMemoryMap>, k: int)
    requires
        0 <= k <= maps.len(),
        forall|i: int|
            0 <= i < maps.len() ==> (#[trigger] maps[i]).address.0 <= maps[i].address.1,
    ensures
        0 <= spec_pfn_count(maps, k) <= spec_pfn_count(maps, maps.len() as int),
    decreases maps.len() - k,
{
    lemma_pfn_count_nonneg(maps, k);
    if k < maps.len() {
        assert(maps[k].address.0 / 4096 <= maps[k].address.1 / 4096) by (nonlinear_arith)
            requires
                maps[k].address.0 <= maps[k].address.1,
        ;
        lemma_pfn_count_bounds(maps, k + 1);
    }
}

/// Counts the 4 KiB frames the segments span.
pub fn get_pfn_count(iomem: &Vec<PhysicalMemoryMap>) -> (r: u64)
    requires
        forall|i: int|
            0 <= i < iomem@.len() ==> (#[trigger] iomem@[i]).address.0 <= iomem@[i].address.1,
        spec_pfn_count(iomem@, iomem@.len() as int) <= u64::MAX,
    ensures
        r == spec_pfn_count(iomem@, iomem@.len() as int),
{
    let n = iomem.len();
    let mut total: u64 = 0;
    let mut k: usize = 0;
    while k < n
        invariant
            k <= n,
            n == iomem@.len(),
            forall|i: int|
                0 <= i < iomem@.len() ==> (#[trigger] iomem@[i]).address.0
                    <= iomem@[i].address.1,
            spec_pfn_count(iomem@, iomem@.len() as int) <= u64::MAX,
            total == spec_pfn_count(iomem@, k as int),
        decreases n - k,
    {
        proof {
            lemma_pfn_count_bounds(iomem@, k + 1);
            lemma_pfn_count_bounds(iomem@, k as int);
            assert(iomem@[k as int].address.0 / 4096 <= iomem@[k as int].address.1 / 4096) by (
            nonlinear_arith)
                requires
                    iomem@[k as int].address.0 <= iomem@[k as int].address.1,
            ;
        }
        let map = &iomem[k];
        let start = map.address.0 / 4096;
        let end = map.address.1 / 4096;
        total = total + (end - start);
        k += 1;
    }
    total
}

/// The byte size of one segment.
pub fn get_size(map: &PhysicalMemoryMap) -> (r: u64)
    requires
        map.address.0 <= map.address.1,
    ensures
        r == map.address.1 - map.address.0,
{
    map.address.1 - map.address.0
}

// ---------------------------------------------------------------------------
// Aggregating per-frame kernel flags over compound pages.
// ---------------------------------------------------------------------------

/// The kernel's page-flag names, in bit order.
pub const FLAG_NAMES: [&'static str; 27] = [
    "LOCKED",
    "ERROR",
    "REFERENCED",
    "UPTODATE",
    "DIRTY",
    "LRU",
    "ACTIVE",
    "SLAB",
    "WRITEBACK",
    "RECLAIM",
    "BUDDY",
    "MMAP",
    "ANON",
    "SWAPCACHE",
    "SWAPBACKED",
    "COMPOUND_HEAD",
    "COMPOUND_TAIL",
    "HUGE",
    "UNEVICTABLE",
    "HWPOISON",
    "NOPAGE",
    "KSM",
    "THP",
    "OFFLINE",
    "ZERO_PAGE",
    "IDLE",
    "PGTABLE",
];

/// The counters as exact integers.
pub open spec fn counts_int(v: Seq<u64>) -> Seq<int> {
    v.map_values(|x: u64| x as int)
}

pub open spec fn zero_counters() -> Seq<int> {
    Seq::new(28, |b: int| 0int)
}

/// One entry's contribution: each of the 27 named flag bits it carries
/// bumps that bit's counter (the final counter stays unused).
pub open spec fn add_flags(counters: Seq<int>, flags: u64) -> Seq<int> {
    Seq::new(
        28,
        |b: int|
            counters[b] + if 0 <= b < 27 && flags & (1u64 << (b as u64)) != 0 {
                1int
            } else {
                0int
            },
    )
}

/// A tail page inherits its head page's flags, the head marker excepted.
pub open spec fn tail_merged(head: u64, tail: u64) -> u64 {
    tail | (head & !FLAG_COMPOUND_HEAD)
}

/// The flag counters over a frame sequence: a compound head's flags are
/// merged into each of its tail entries; a tail without a preceding
/// head has no meaning (`None`).
pub open spec fn spec_compound(data: Seq<u64>, i: int, counters: Seq<int>) -> Option<Seq<int>>
    decreases data.len() - i, 0int,
{
    if i < 0 || i >= data.len() {
        Some(counters)
    } else if data[i] & FLAG_COMPOUND_HEAD != 0 {
        spec_compound_tails(data, i + 1, data[i], add_flags(counters, data[i]))
    } else if data[i] & FLAG_COMPOUND_TAIL != 0 {
        None
    } else {
        spec_compound(data, i + 1, add_flags(counters, data[i]))
    }
}

/// Consumes the run of tail entries after a head at `j - 1`.
pub open spec fn spec_compound_tails(data: Seq<u64>, j: int, head: u64, counters: Seq<int>) -> Option<
    Seq<int>,
>
    decreases data.len() - j, 1int,
{
    if 0 <= j < data.len() && data[j] & FLAG_COMPOUND_TAIL != 0 {
        spec_compound_tails(data, j + 1, head, add_flags(counters, tail_merged(head, data[j])))
    } else {
        spec_compound(data, j, counters)
    }
}

fn add_to_counters(counters: &mut Vec<u64>, flags: u64)
    requires
        old(counters)@.len() == 28,
        forall|b: int| 0 <= b < 28 ==> (#[trigger] old(counters)@[b]) < u64::MAX,
    ensures
        final(counters)@.len() == 28,
        counts_int(final(counters)@) == add_flags(counts_int(old(counters)@), flags),
        forall|b: int|
            0 <= b < 28 ==> (#[trigger] final(counters)@[b]) <= old(counters)@[b] + 1,
{
    for b in 0..27usize
        invariant
            counters@.len() == 28,
            forall|k: int| 0 <= k < 28 ==> (#[trigger] old(counters)@[k]) < u64::MAX,
            forall|k: int|
                0 <= k < 28 ==> (#[trigger] counters@[k]) == old(counters)@[k] + (if k < b
                    && flags & (1u64 << (k as u64)) != 0 {
                    1int
                } else {
                    0int
                }),
    {
        let bit: u64 = 1u64 << (b as u64);
        if flags & bit != 0 {
            let v = counters[b];
            counters[b] = v + 1;
        }
    }
    proof {
        assert(counts_int(counters@) =~= add_flags(counts_int(old(counters)@), flags));
    }
}

/// Counts, per named flag bit, how many frames carry it, merging each
/// compound head's flags into its tail entries.  The input must pair
/// every tail run with a head, as a well-formed flags read does.
pub fn compute_compound_pages(data: &Vec<u64>) -> (r: Vec<u64>)
    requires
        spec_compound(data@, 0, zero_counters()) is Some,
    ensures
        r@.len() == 28,
        counts_int(r@) == spec_compound(data@, 0, zero_counters()).unwrap(),
{
    let n = data.len();
    let mut counters: Vec<u64> = Vec::new();
    while counters.len() < 28
        invariant
            counters@.len() <= 28,
            forall|k: int| 0 <= k < counters@.len() ==> (#[trigger] counters@[k]) == 0,
        decreases 28 - counters@.len(),
    {
        counters.push(0);
    }
    proof {
        assert(counts_int(counters@) =~= zero_counters());
    }
    let mut i: usize = 0;
    while i < n
        invariant
            n == data@.len(),
            i <= n,
            counters@.len() == 28,
            forall|b: int| 0 <= b < 28 ==> (#[trigger] counters@[b]) <= i,
            spec_compound(data@, 0, zero_counters()) == spec_compound(
                data@,
                i as int,
                counts_int(counters@),
            ),
            spec_compound(data@, 0, zero_counters()) is Some,
        decreases n - i,
    {
        let flags = data[i];
        if flags & FLAG_COMPOUND_HEAD != 0 {
            let ghost istart = i;
            let head = flags;
            add_to_counters(&mut counters, head);
            i += 1;
            while i < n && data[i] & FLAG_COMPOUND_TAIL != 0
                invariant
                    n == data@.len(),
                    istart < i <= n,
                    counters@.len() == 28,
                    forall|b: int| 0 <= b < 28 ==> (#[trigger] counters@[b]) <= i,
                    spec_compound(data@, 0, zero_counters()) == spec_compound_tails(
                        data@,
                        i as int,
                        head,
                        counts_int(counters@),
                    ),
                    spec_compound(data@, 0, zero_counters()) is Some,
                decreases n - i,
            {
                add_to_counters(&mut counters, data[i] | (head & !FLAG_COMPOUND_HEAD));
                i += 1;
            }
        } else if flags & FLAG_COMPOUND_TAIL != 0 {
            // a tail without a head; the precondition rules this out
            proof {
                assert(false);
            }
            i += 1;
        } else {
            add_to_counters(&mut counters, flags);
            i += 1;
        }
    }
    counters
}

} // verus!
