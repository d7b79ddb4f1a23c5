//! Shared-memory attribution: recovering a SysV segment's frames and
//! swap slots from a walk over its mapping, and classifying the resident
//! frames into normal and huge pages.
//!
//! A segment with swapped-out pages is not read unless the caller opts
//! in: touching it would pull the whole segment back into RAM as a side
//! effect of a statistics tool, so it is recorded as skipped instead.

use vstd::prelude::*;

use crate::sets::FrameSet;
use crate::sets::SlotSet;
use crate::sets::SwapSlot;
use crate::snapshot::page_frames;
use crate::snapshot::page_slots;
use crate::snapshot::PageLocation;
use crate::snapshot::ShmPages;
use crate::snapshot::ShmSegment;

verus! {

/// The kernel's per-page flag bits used for huge-page classification.
pub const FLAG_COMPOUND_HEAD: u64 = 0x8000;

pub const FLAG_COMPOUND_TAIL: u64 = 0x10000;

pub const FLAG_HUGE: u64 = 0x20000;

/// How many normal pages one aggregated huge page stands for.
pub const HUGE_PAGE_SPAN: u64 = 512;

/// The kernel flags of every physical frame in RAM, as `(frame, flags)`
/// rows; a frame that is absent is not in RAM (or was never read).
pub struct PfnFlagsTable {
    pub entries: Vec<(u64, u64)>,
}

/// The flags recorded for `pfn` by the first matching row at or after `k`.
pub open spec fn flags_lookup_from(entries: Seq<(u64, u64)>, pfn: u64, k: int) -> Option<u64>
    decreases entries.len() - k,
{
    if k < 0 || k >= entries.len() {
        None
    } else if entries[k].0 == pfn {
        Some(entries[k].1)
    } else {
        flags_lookup_from(entries, pfn, k + 1)
    }
}

pub open spec fn flags_lookup(entries: Seq<(u64, u64)>, pfn: u64) -> Option<u64> {
    flags_lookup_from(entries, pfn, 0)
}

impl PfnFlagsTable {
    pub fn new() -> (r: Self)
        ensures
            r.entries@.len() == 0,
    {
        PfnFlagsTable { entries: Vec::new() }
    }

    pub fn push(&mut self, pfn: u64, flags: u64)
        ensures
            final(self).entries@ == old(self).entries@.push((pfn, flags)),
    {
        self.entries.push((pfn, flags));
    }

    pub fn find(&self, pfn: u64) -> (r: Option<u64>)
        ensures
            r == flags_lookup(self.entries@, pfn),
    {
        let n = self.entries.len();
        let mut k: usize = 0;
        while k < n
            invariant
                k <= n,
                n == self.entries@.len(),
                flags_lookup(self.entries@, pfn) == flags_lookup_from(
                    self.entries@,
                    pfn,
                    k as int,
                ),
            decreases n - k,
        {
            if self.entries[k].0 == pfn {
                return Some(self.entries[k].1);
            }
            k += 1;
        }
        None
    }
}

/// Whether it is safe to touch the segment's pages: either nothing of it
/// is swapped out, or the caller explicitly asked for forced reads.
pub open spec fn shm_must_read(shm: ShmSegment, force_read: bool) -> bool {
    shm.swap == 0 || force_read
}

/// The frames of `s` that the flags table knows, i.e. that are in RAM.
pub open spec fn ram_pfns(entries: Seq<(u64, u64)>, s: Set<u64>) -> Set<u64> {
    s.filter(|p: u64| flags_lookup(entries, p) is Some)
}

/// The frames of `s` flagged as part of a huge page.
pub open spec fn huge_pfns(entries: Seq<(u64, u64)>, s: Set<u64>) -> Set<u64> {
    s.filter(
        |p: u64|
            match flags_lookup(entries, p) {
                Some(f) => f & FLAG_HUGE != 0,
                None => false,
            },
    )
}

/// Attributes one SysV segment from a walk over its freshly attached
/// mapping.
///
/// Returns `None`, with no page consulted, exactly when the segment has
/// swapped-out bytes and forced reads were not requested.  Otherwise the
/// result holds the segment's frame and swap-slot sets and its page
/// classification: resident frames the flags table knows are counted,
/// the huge-flagged ones aggregated in units of 512 as 2 MiB pages, the
/// rest as 4 KiB pages.
pub fn shm2pfns(
    all_physical_pages: &PfnFlagsTable,
    shm: &ShmSegment,
    force_read: bool,
    pages: &Vec<PageLocation>,
) -> (r: Option<ShmPages>)
    ensures
        r is Some <==> shm_must_read(*shm, force_read),
        r matches Some(sp) ==> {
            &&& sp.pfns@ == page_frames(pages@)
            &&& sp.swap_pages@ == page_slots(pages@)
            &&& sp.pages_4k == ram_pfns(all_physical_pages.entries@, page_frames(pages@)).len()
                - huge_pfns(all_physical_pages.entries@, page_frames(pages@)).len()
            &&& sp.pages_2m == huge_pfns(all_physical_pages.entries@, page_frames(pages@)).len()
                / 512
        },
{
    if !(shm.swap == 0 || force_read) {
        return None;
    }
    let mut pfns = FrameSet::new();
    let mut swap_pages = SlotSet::new();
    let n = pages.len();
    proof {
        assert(pages@.take(0) =~= Seq::<PageLocation>::empty());
        assert(pfns@ =~= page_frames(pages@.take(0)));
        assert(swap_pages@ =~= page_slots(pages@.take(0)));
    }
    for j in 0..n
        invariant
            n == pages@.len(),
            pfns@ == page_frames(pages@.take(j as int)),
            swap_pages@ == page_slots(pages@.take(j as int)),
    {
        proof {
            assert(pages@.take(j + 1).drop_last() =~= pages@.take(j as int));
            assert(pages@.take(j + 1).last() == pages@[j as int]);
        }
        match pages[j] {
            PageLocation::Frame(pfn) => {
                if pfn != 0 {
                    pfns.insert(pfn);
                }
            },
            PageLocation::Swapped(t, o) => {
                swap_pages.insert(SwapSlot { swap_type: t, offset: o });
            },
        }
        proof {
            assert(pfns@ =~= page_frames(pages@.take(j + 1)));
            assert(swap_pages@ =~= page_slots(pages@.take(j + 1)));
        }
    }
    proof {
        assert(pages@.take(n as int) =~= pages@);
    }
    let ghost entries = all_physical_pages.entries@;
    let ghost ram_pred = |p: u64| flags_lookup(entries, p) is Some;
    let ghost huge_pred = |p: u64|
        match flags_lookup(entries, p) {
            Some(f) => f & FLAG_HUGE != 0,
            None => false,
        };
    let v = pfns.as_vec();
    let m = v.len();
    let mut total_pages: usize = 0;
    let mut huge_pages: usize = 0;
    proof {
        assert(v@.take(0).to_set() =~= Set::<u64>::empty());
        assert(v@.take(0).to_set().filter(ram_pred) =~= Set::<u64>::empty());
        assert(v@.take(0).to_set().filter(huge_pred) =~= Set::<u64>::empty());
    }
    for k in 0..m
        invariant
            m == v@.len(),
            v@.no_duplicates(),
            entries == all_physical_pages.entries@,
            ram_pred == (|p: u64| flags_lookup(entries, p) is Some),
            huge_pred == (|p: u64|
                match flags_lookup(entries, p) {
                    Some(f) => f & FLAG_HUGE != 0,
                    None => false,
                }),
            total_pages == v@.take(k as int).to_set().filter(ram_pred).len(),
            huge_pages == v@.take(k as int).to_set().filter(huge_pred).len(),
            huge_pages <= total_pages <= k,
    {
        proof {
            assert(v@.take(k + 1) =~= v@.take(k as int).push(v@[k as int]));
            v@.take(k as int).lemma_push_to_set_commute(v@[k as int]);
            assert(!v@.take(k as int).contains(v@[k as int])) by {
                if v@.take(k as int).contains(v@[k as int]) {
                    let jj = choose|jj: int|
                        0 <= jj < k && v@.take(k as int)[jj] == v@[k as int];
                    assert(v@[jj] == v@[k as int]);
                }
            }
            assert(!v@.take(k as int).to_set().contains(v@[k as int]));
        }
        let ghost prev = v@.take(k as int).to_set();
        let ghost next = v@.take(k + 1).to_set();
        let x = v[k];
        match all_physical_pages.find(x) {
            Some(f) => {
                proof {
                    assert(ram_pred(v@[k as int]));
                    assert(next.filter(ram_pred) =~= prev.filter(ram_pred).insert(
                        v@[k as int],
                    ));
                    assert(!prev.filter(ram_pred).contains(v@[k as int]));
                    vstd::set_lib::lemma_len_subset(prev.filter(ram_pred), prev);
                    prev.lemma_len_filter(ram_pred);
                }
                total_pages = total_pages + 1;
                if f & FLAG_HUGE != 0 {
                    proof {
                        assert(huge_pred(v@[k as int]));
                        assert(next.filter(huge_pred) =~= prev.filter(huge_pred).insert(
                            v@[k as int],
                        ));
                        assert(!prev.filter(huge_pred).contains(v@[k as int]));
                        prev.lemma_len_filter(huge_pred);
                        lemma_huge_subset_ram(entries, next);
                    }
                    huge_pages = huge_pages + 1;
                } else {
                    proof {
                        assert(!huge_pred(v@[k as int]));
                        assert(next.filter(huge_pred) =~= prev.filter(huge_pred));
                    }
                }
            },
            None => {
                proof {
                    assert(!ram_pred(v@[k as int]));
                    assert(!huge_pred(v@[k as int]));
                    assert(next.filter(ram_pred) =~= prev.filter(ram_pred));
                    assert(next.filter(huge_pred) =~= prev.filter(huge_pred));
                }
            },
        }
    }
    proof {
        assert(v@.take(m as int) =~= v@);
        assert(v@.to_set() == pfns@);
        assert(ram_pfns(entries, page_frames(pages@)) == v@.to_set().filter(ram_pred));
        assert(huge_pfns(entries, page_frames(pages@)) == v@.to_set().filter(huge_pred));
    }
    let pages_4k = total_pages - huge_pages;
    let pages_2m = huge_pages / 512;
    Some(ShmPages { pfns, swap_pages, pages_4k, pages_2m })
}

/// Huge-flagged frames are in particular frames the table knows.
proof fn lemma_huge_subset_ram(entries: Seq<(u64, u64)>, s: Set<u64>)
    requires
        s.finite(),
    ensures
        huge_pfns(entries, s).len() <= ram_pfns(entries, s).len(),
{
    assert(huge_pfns(entries, s).subset_of(ram_pfns(entries, s)));
    s.lemma_len_filter(|p: u64| flags_lookup(entries, p) is Some);
    vstd::set_lib::lemma_len_subset(huge_pfns(entries, s), ram_pfns(entries, s));
}

} // verus!
