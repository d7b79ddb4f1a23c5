//! The point-in-time snapshot data the attribution engine works on.
//!
//! An outside introspection layer reads the kernel's structures and hands
//! the engine plain records: per-process memory mappings with per-page
//! frame-or-swap-slot information, and the SysV shared-memory inventory.
//! Everything here is immutable snapshot data; live process handles never
//! enter the engine.

use vstd::prelude::*;

use crate::sets::SetElem;
use crate::sets::FrameSet;
use crate::sets::SlotSet;
use crate::sets::SwapSlot;

verus! {

/// What backs one virtual memory mapping.
pub enum MappingKind {
    /// Backed by a regular file.
    File,
    /// A SysV shared-memory attachment; the payload is the segment key.
    Shm(i32),
    /// The vsyscall page, whose page-table entries the kernel does not
    /// expose; it is skipped entirely.
    Vsyscall,
    /// Anonymous memory, heap, stack and every other kind.
    Anon,
}

/// One page of a mapping: either resident in a physical frame or swapped
/// out to a slot.  Frame number zero means "no physical backing yet".
pub enum PageLocation {
    Frame(u64),
    Swapped(u64, u64),
}

/// One virtual memory mapping of a process, with its walked page range.
pub struct MappingRecord {
    pub start: u64,
    pub end: u64,
    /// The inode field of the mapping; for a SysV mapping it holds the
    /// segment id.
    pub inode: u64,
    pub kind: MappingKind,
    pub pages: Vec<PageLocation>,
}

/// Everything read about one process before attribution.
pub struct ProcessScan {
    pub pid: i32,
    pub uid: u32,
    /// The process's short command name, when its stat line was readable.
    pub comm: Option<String>,
    pub cmdline: Vec<String>,
    pub environ: Vec<(String, String)>,
    /// Page-table size as the kernel reports it.
    pub pte: u64,
    /// Open file descriptors.
    pub fds: usize,
    pub mappings: Vec<MappingRecord>,
}

/// One SysV shared-memory segment of the inventory.  Its identity is
/// `(key, shmid)`; size, resident and swapped byte counts come from the
/// same snapshot.
#[derive(Clone, Copy, Debug)]
pub struct ShmSegment {
    pub key: i32,
    pub shmid: u64,
    pub size: u64,
    pub rss: u64,
    pub swap: u64,
}

/// A `(key, shmid)` pair a mapping refers to; used to report segments
/// that the inventory snapshot does not know.
#[derive(Clone, Copy, PartialEq, Eq, Structural, Hash, Debug)]
pub struct ShmReference {
    pub key: i32,
    pub shmid: u64,
}

impl SetElem for ShmReference {
    fn elem_eq(a: &Self, b: &Self) -> (r: bool)
        ensures
            r == (*a == *b),
    {
        a.key == b.key && a.shmid == b.shmid
    }
}

/// What one walk over a shared-memory segment recovered: its frame and
/// swap-slot sets and how many of its resident pages were normal (4 KiB)
/// versus huge (2 MiB, counted in aggregated units of 512 subpages).
pub struct ShmPages {
    pub pfns: FrameSet,
    pub swap_pages: SlotSet,
    pub pages_4k: usize,
    pub pages_2m: usize,
}

/// One inventory entry: the segment, and its walked pages, or `None` when
/// the segment was skipped because reading it would have pulled it out of
/// swap.
pub struct ShmEntry {
    pub segment: ShmSegment,
    pub pages: Option<ShmPages>,
}

/// The shared-memory inventory, built once per scan and read-only after.
pub struct ShmsMetadata {
    pub entries: Vec<ShmEntry>,
}

/// The first inventory position at or after `k` whose segment has this
/// identity.
pub open spec fn shm_index_from(entries: Seq<ShmEntry>, key: i32, shmid: u64, k: int) -> Option<
    int,
>
    decreases entries.len() - k,
{
    if k < 0 || k >= entries.len() {
        None
    } else if entries[k].segment.key == key && entries[k].segment.shmid == shmid {
        Some(k)
    } else {
        shm_index_from(entries, key, shmid, k + 1)
    }
}

impl ShmsMetadata {
    pub fn new() -> (r: Self)
        ensures
            r.entries@.len() == 0,
    {
        ShmsMetadata { entries: Vec::new() }
    }

    pub fn push(&mut self, segment: ShmSegment, pages: Option<ShmPages>)
        ensures
            final(self).entries@ == old(self).entries@.push(ShmEntry { segment, pages }),
    {
        self.entries.push(ShmEntry { segment, pages });
    }

    pub fn len(&self) -> (r: usize)
        ensures
            r == self.entries@.len(),
    {
        self.entries.len()
    }

    /// Looks a segment up by its identity.
    pub fn find(&self, key: i32, shmid: u64) -> (r: Option<usize>)
        ensures
            match r {
                Some(i) => shm_index_from(self.entries@, key, shmid, 0) == Some(i as int) && i
                    < self.entries@.len(),
                None => shm_index_from(self.entries@, key, shmid, 0) is None,
            },
    {
        let n = self.entries.len();
        let mut k: usize = 0;
        while k < n
            invariant
                k <= n,
                n == self.entries@.len(),
                shm_index_from(self.entries@, key, shmid, 0) == shm_index_from(
                    self.entries@,
                    key,
                    shmid,
                    k as int,
                ),
            decreases n - k,
        {
            if self.entries[k].segment.key == key && self.entries[k].segment.shmid == shmid {
                return Some(k);
            }
            k += 1;
        }
        None
    }
}

// ---------------------------------------------------------------------------
// What a walked page range denotes.
// ---------------------------------------------------------------------------

/// The set of physical frames among `pages`; frame zero, which means "not
/// yet backed", is never attributed.
pub open spec fn page_frames(pages: Seq<PageLocation>) -> Set<u64>
    decreases pages.len(),
{
    if pages.len() == 0 {
        Set::<u64>::empty()
    } else {
        page_frames(pages.drop_last()).union(
            match pages.last() {
                PageLocation::Frame(pfn) => if pfn != 0 {
                    Set::<u64>::empty().insert(pfn)
                } else {
                    Set::<u64>::empty()
                },
                PageLocation::Swapped(_, _) => Set::<u64>::empty(),
            },
        )
    }
}

/// The set of swap slots among `pages`.
pub open spec fn page_slots(pages: Seq<PageLocation>) -> Set<SwapSlot>
    decreases pages.len(),
{
    if pages.len() == 0 {
        Set::<SwapSlot>::empty()
    } else {
        page_slots(pages.drop_last()).union(
            match pages.last() {
                PageLocation::Frame(_) => Set::<SwapSlot>::empty(),
                PageLocation::Swapped(t, o) => Set::<SwapSlot>::empty().insert(
                    SwapSlot { swap_type: t, offset: o },
                ),
            },
        )
    }
}

/// How many page records are resident in a nonzero physical frame; each
/// one contributes one page to the resident size.
pub open spec fn resident_count(pages: Seq<PageLocation>) -> nat
    decreases pages.len(),
{
    if pages.len() == 0 {
        0
    } else {
        resident_count(pages.drop_last()) + (match pages.last() {
            PageLocation::Frame(pfn) => if pfn != 0 {
                1nat
            } else {
                0nat
            },
            PageLocation::Swapped(_, _) => 0nat,
        })
    }
}

} // verus!
