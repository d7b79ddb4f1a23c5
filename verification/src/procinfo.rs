//! Per-process attribution: from one process's walked mappings to the
//! sets of physical frames and swap slots backing it.
//!
//! File-backed pages land in the main sets only; anonymous pages land in
//! the main sets and the anonymous sets, so the anonymous sets are subsets
//! and totals stay whole.  SysV shared-memory mappings are not walked per
//! process: the referenced segment is recorded by its inventory index, and
//! segments missing from the inventory are reported as unknown references.

use vstd::prelude::*;

use crate::sets::FrameSet;
use crate::sets::IdxSet;
use crate::sets::SlotSet;
use crate::sets::SwapSlot;
use crate::sets::VecSet;
use crate::snapshot::page_frames;
use crate::snapshot::page_slots;
use crate::snapshot::resident_count;
use crate::snapshot::shm_index_from;
use crate::snapshot::MappingKind;
use crate::snapshot::MappingRecord;
use crate::snapshot::PageLocation;
use crate::snapshot::ProcessScan;
use crate::snapshot::ShmEntry;
use crate::snapshot::ShmReference;
use crate::snapshot::ShmsMetadata;

verus! {

/// One process's attribution snapshot.
pub struct ProcessInfo {
    pub pid: i32,
    pub uid: u32,
    /// The short command name, when readable at scan time.
    pub comm: Option<String>,
    pub environ: Vec<(String, String)>,
    /// All frames backing this process, shared-memory mappings excepted.
    pub pfns: FrameSet,
    /// The frames among `pfns` not backed by a regular file.
    pub anon_pfns: FrameSet,
    pub swap_pages: SlotSet,
    pub anon_swap_pages: SlotSet,
    /// Indices into the shared-memory inventory of the segments this
    /// process references.
    pub referenced_shms: IdxSet,
    pub rss: u64,
    pub vsz: u64,
    pub pte: u64,
    pub fds: usize,
    /// Segments referenced by a mapping but absent from the inventory.
    pub unknown_shm: VecSet<ShmReference>,
}

/// Why no information could be derived for a process.
#[derive(Clone, Copy, PartialEq, Eq, Structural, Debug)]
pub enum ProcInfoError {
    /// A kernel thread: it has an empty command line and no user memory
    /// worth attributing.
    KernelProcess,
}

/// Mappings of these kinds have their pages attributed.
pub open spec fn mapping_counted(k: MappingKind) -> bool {
    k is File || k is Anon
}

pub open spec fn mapping_anon(k: MappingKind) -> bool {
    k is Anon
}

/// All mapping ranges are well-formed.
pub open spec fn scan_wf(ms: Seq<MappingRecord>) -> bool {
    forall|i: int| 0 <= i < ms.len() ==> (#[trigger] ms[i]).start <= ms[i].end
}

/// The frames attributed from these mappings; with `anon_only`, from the
/// anonymous mappings alone.
pub open spec fn frames_of(ms: Seq<MappingRecord>, anon_only: bool) -> Set<u64>
    decreases ms.len(),
{
    if ms.len() == 0 {
        Set::<u64>::empty()
    } else {
        frames_of(ms.drop_last(), anon_only).union(
            if mapping_counted(ms.last().kind) && (!anon_only || mapping_anon(ms.last().kind)) {
                page_frames(ms.last().pages@)
            } else {
                Set::<u64>::empty()
            },
        )
    }
}

/// The swap slots attributed from these mappings.
pub open spec fn slots_of(ms: Seq<MappingRecord>, anon_only: bool) -> Set<SwapSlot>
    decreases ms.len(),
{
    if ms.len() == 0 {
        Set::<SwapSlot>::empty()
    } else {
        slots_of(ms.drop_last(), anon_only).union(
            if mapping_counted(ms.last().kind) && (!anon_only || mapping_anon(ms.last().kind)) {
                page_slots(ms.last().pages@)
            } else {
                Set::<SwapSlot>::empty()
            },
        )
    }
}

/// How many attributed page records are resident; each contributes one
/// page to the resident size.
pub open spec fn resident_of(ms: Seq<MappingRecord>) -> nat
    decreases ms.len(),
{
    if ms.len() == 0 {
        0
    } else {
        resident_of(ms.drop_last()) + (if mapping_counted(ms.last().kind) {
            resident_count(ms.last().pages@)
        } else {
            0nat
        })
    }
}

/// The summed size of the mappings, the vsyscall page excepted.
pub open spec fn vsz_of(ms: Seq<MappingRecord>) -> int
    decreases ms.len(),
{
    if ms.len() == 0 {
        0
    } else {
        vsz_of(ms.drop_last()) + (if ms.last().kind is Vsyscall {
            0int
        } else {
            ms.last().end - ms.last().start
        })
    }
}

/// The inventory indices of the segments these mappings reference.
pub open spec fn shm_refs_of(ms: Seq<MappingRecord>, entries: Seq<ShmEntry>) -> Set<usize>
    decreases ms.len(),
{
    if ms.len() == 0 {
        Set::<usize>::empty()
    } else {
        shm_refs_of(ms.drop_last(), entries).union(
            match ms.last().kind {
                MappingKind::Shm(key) => match shm_index_from(
                    entries,
                    key,
                    ms.last().inode,
                    0,
                ) {
                    Some(i) => Set::<usize>::empty().insert(i as usize),
                    None => Set::<usize>::empty(),
                },
                _ => Set::<usize>::empty(),
            },
        )
    }
}

/// The identities of referenced segments the inventory does not know.
pub open spec fn unknown_of(ms: Seq<MappingRecord>, entries: Seq<ShmEntry>) -> Set<ShmReference>
    decreases ms.len(),
{
    if ms.len() == 0 {
        Set::<ShmReference>::empty()
    } else {
        unknown_of(ms.drop_last(), entries).union(
            match ms.last().kind {
                MappingKind::Shm(key) => match shm_index_from(
                    entries,
                    key,
                    ms.last().inode,
                    0,
                ) {
                    Some(_) => Set::<ShmReference>::empty(),
                    None => Set::<ShmReference>::empty().insert(
                        ShmReference { key, shmid: ms.last().inode },
                    ),
                },
                _ => Set::<ShmReference>::empty(),
            },
        )
    }
}

proof fn lemma_resident_prefix(ms: Seq<MappingRecord>, i: int)
    requires
        0 <= i <= ms.len(),
    ensures
        resident_of(ms.take(i)) <= resident_of(ms),
    decreases ms.len() - i,
{
    if i == ms.len() {
        assert(ms.take(i) =~= ms);
    } else {
        assert(ms.take(i + 1).drop_last() =~= ms.take(i));
        assert(ms.take(i + 1).last() == ms[i]);
        lemma_resident_prefix(ms, i + 1);
    }
}

proof fn lemma_vsz_nonneg(ms: Seq<MappingRecord>, i: int)
    requires
        0 <= i <= ms.len(),
        scan_wf(ms),
    ensures
        0 <= vsz_of(ms.take(i)),
    decreases i,
{
    if i == 0 {
        assert(ms.take(0) =~= Seq::<MappingRecord>::empty());
    } else {
        assert(ms.take(i).drop_last() =~= ms.take(i - 1));
        assert(ms.take(i).last() == ms[i - 1]);
        assert(ms[i - 1].start <= ms[i - 1].end);
        lemma_vsz_nonneg(ms, i - 1);
    }
}

proof fn lemma_vsz_prefix(ms: Seq<MappingRecord>, i: int)
    requires
        0 <= i <= ms.len(),
        scan_wf(ms),
    ensures
        0 <= vsz_of(ms.take(i)) <= vsz_of(ms),
    decreases ms.len() - i,
{
    lemma_vsz_nonneg(ms, i);
    if i == ms.len() {
        assert(ms.take(i) =~= ms);
    } else {
        assert(ms.take(i + 1).drop_last() =~= ms.take(i));
        assert(ms.take(i + 1).last() == ms[i]);
        assert(ms[i].start <= ms[i].end);
        lemma_vsz_prefix(ms, i + 1);
    }
}

proof fn lemma_resident_count_prefix(pages: Seq<PageLocation>, j: int)
    requires
        0 <= j <= pages.len(),
    ensures
        resident_count(pages.take(j)) <= resident_count(pages),
    decreases pages.len() - j,
{
    if j == pages.len() {
        assert(pages.take(j) =~= pages);
    } else {
        assert(pages.take(j + 1).drop_last() =~= pages.take(j));
        assert(pages.take(j + 1).last() == pages[j]);
        lemma_resident_count_prefix(pages, j + 1);
    }
}

/// Walks one mapping's page records into the attribution sets.  Returns
/// how many records were resident in a nonzero frame.
fn walk_pages(
    pages: &Vec<PageLocation>,
    anon: bool,
    pfns: &mut FrameSet,
    anon_pfns: &mut FrameSet,
    swap_pages: &mut SlotSet,
    anon_swap_pages: &mut SlotSet,
) -> (resident: u64)
    requires
        resident_count(pages@) <= u64::MAX,
    ensures
        final(pfns)@ == old(pfns)@.union(page_frames(pages@)),
        final(anon_pfns)@ == old(anon_pfns)@.union(
            if anon {
                page_frames(pages@)
            } else {
                Set::<u64>::empty()
            },
        ),
        final(swap_pages)@ == old(swap_pages)@.union(page_slots(pages@)),
        final(anon_swap_pages)@ == old(anon_swap_pages)@.union(
            if anon {
                page_slots(pages@)
            } else {
                Set::<SwapSlot>::empty()
            },
        ),
        resident == resident_count(pages@),
{
    let n = pages.len();
    let mut resident: u64 = 0;
    proof {
        assert(pages@.take(0) =~= Seq::<PageLocation>::empty());
    }
    for j in 0..n
        invariant
            n == pages@.len(),
            resident_count(pages@) <= u64::MAX,
            pfns@ == old(pfns)@.union(page_frames(pages@.take(j as int))),
            anon_pfns@ == old(anon_pfns)@.union(
                if anon {
                    page_frames(pages@.take(j as int))
                } else {
                    Set::<u64>::empty()
                },
            ),
            swap_pages@ == old(swap_pages)@.union(page_slots(pages@.take(j as int))),
            anon_swap_pages@ == old(anon_swap_pages)@.union(
                if anon {
                    page_slots(pages@.take(j as int))
                } else {
                    Set::<SwapSlot>::empty()
                },
            ),
            resident == resident_count(pages@.take(j as int)),
    {
        proof {
            assert(pages@.take(j + 1).drop_last() =~= pages@.take(j as int));
            assert(pages@.take(j + 1).last() == pages@[j as int]);
            lemma_resident_count_prefix(pages@, j + 1);
        }
        match pages[j] {
            PageLocation::Frame(pfn) => {
                if pfn != 0 {
                    resident = resident + 1;
                    pfns.insert(pfn);
                    if anon {
                        anon_pfns.insert(pfn);
                    }
                }
            },
            PageLocation::Swapped(t, o) => {
                let slot = SwapSlot { swap_type: t, offset: o };
                swap_pages.insert(slot);
                if anon {
                    anon_swap_pages.insert(slot);
                }
            },
        }
        proof {
            assert(pfns@ =~= old(pfns)@.union(page_frames(pages@.take(j + 1))));
            assert(anon_pfns@ =~= old(anon_pfns)@.union(
                if anon {
                    page_frames(pages@.take(j + 1))
                } else {
                    Set::<u64>::empty()
                },
            ));
            assert(swap_pages@ =~= old(swap_pages)@.union(page_slots(pages@.take(j + 1))));
            assert(anon_swap_pages@ =~= old(anon_swap_pages)@.union(
                if anon {
                    page_slots(pages@.take(j + 1))
                } else {
                    Set::<SwapSlot>::empty()
                },
            ));
        }
    }
    proof {
        assert(pages@.take(n as int) =~= pages@);
    }
    resident
}

/// Derives one process's attribution snapshot from its walked mappings,
/// looking referenced shared-memory segments up in the inventory.
///
/// A kernel thread (empty command line) yields no information.  Pages of
/// file-backed mappings land in the main sets; pages of anonymous
/// mappings land in the main and the anonymous sets; shared-memory
/// mappings are recorded by segment, and the vsyscall page is skipped
/// entirely.
pub fn get_process_info(scan: ProcessScan, shms_metadata: &ShmsMetadata, page_size: u64) -> (r:
    Result<ProcessInfo, ProcInfoError>)
    requires
        1 <= page_size,
        scan_wf(scan.mappings@),
        vsz_of(scan.mappings@) <= u64::MAX,
        page_size * resident_of(scan.mappings@) <= u64::MAX,
    ensures
        r is Err <==> scan.cmdline@.len() == 0,
        r matches Ok(info) ==> {
            &&& info.pid == scan.pid
            &&& info.uid == scan.uid
            &&& info.comm == scan.comm
            &&& info.environ == scan.environ
            &&& info.pte == scan.pte
            &&& info.fds == scan.fds
            &&& info.pfns@ == frames_of(scan.mappings@, false)
            &&& info.anon_pfns@ == frames_of(scan.mappings@, true)
            &&& info.swap_pages@ == slots_of(scan.mappings@, false)
            &&& info.anon_swap_pages@ == slots_of(scan.mappings@, true)
            &&& info.referenced_shms@ == shm_refs_of(scan.mappings@, shms_metadata.entries@)
            &&& info.unknown_shm@ == unknown_of(scan.mappings@, shms_metadata.entries@)
            &&& info.rss == page_size * resident_of(scan.mappings@)
            &&& info.vsz == vsz_of(scan.mappings@)
        },
{
    if scan.cmdline.len() == 0 {
        return Err(ProcInfoError::KernelProcess);
    }
    let mut pfns = FrameSet::new();
    let mut anon_pfns = FrameSet::new();
    let mut swap_pages = SlotSet::new();
    let mut anon_swap_pages = SlotSet::new();
    let mut referenced_shms = IdxSet::new();
    let mut unknown_shm: VecSet<ShmReference> = VecSet::new();
    let mut resident: u64 = 0;
    let mut vsz: u64 = 0;
    let ghost ms = scan.mappings@;
    let n = scan.mappings.len();
    proof {
        assert(ms.take(0) =~= Seq::<MappingRecord>::empty());
        assert(resident_of(ms) <= u64::MAX) by (nonlinear_arith)
            requires
                1 <= page_size,
                page_size * resident_of(ms) <= u64::MAX,
        ;
    }
    for i in 0..n
        invariant
            n == ms.len(),
            ms == scan.mappings@,
            scan_wf(ms),
            vsz_of(ms) <= u64::MAX,
            resident_of(ms) <= u64::MAX,
            pfns@ == frames_of(ms.take(i as int), false),
            anon_pfns@ == frames_of(ms.take(i as int), true),
            swap_pages@ == slots_of(ms.take(i as int), false),
            anon_swap_pages@ == slots_of(ms.take(i as int), true),
            referenced_shms@ == shm_refs_of(ms.take(i as int), shms_metadata.entries@),
            unknown_shm@ == unknown_of(ms.take(i as int), shms_metadata.entries@),
            resident == resident_of(ms.take(i as int)),
            vsz == vsz_of(ms.take(i as int)),
    {
        proof {
            assert(ms.take(i + 1).drop_last() =~= ms.take(i as int));
            assert(ms.take(i + 1).last() == ms[i as int]);
            lemma_resident_prefix(ms, i + 1);
            lemma_vsz_prefix(ms, i + 1);
            assert(ms[i as int].start <= ms[i as int].end);
        }
        let mapping = &scan.mappings[i];
        match mapping.kind {
            MappingKind::Vsyscall => {
                proof {
                    assert(frames_of(ms.take(i + 1), false) =~= pfns@);
                    assert(frames_of(ms.take(i + 1), true) =~= anon_pfns@);
                    assert(slots_of(ms.take(i + 1), false) =~= swap_pages@);
                    assert(slots_of(ms.take(i + 1), true) =~= anon_swap_pages@);
                    assert(shm_refs_of(ms.take(i + 1), shms_metadata.entries@)
                        =~= referenced_shms@);
                    assert(unknown_of(ms.take(i + 1), shms_metadata.entries@) =~= unknown_shm@);
                }
            },
            MappingKind::Shm(key) => {
                vsz = vsz + (mapping.end - mapping.start);
                match shms_metadata.find(key, mapping.inode) {
                    Some(idx) => {
                        referenced_shms.insert(idx);
                        proof {
                            assert(shm_refs_of(ms.take(i + 1), shms_metadata.entries@)
                                =~= referenced_shms@);
                            assert(unknown_of(ms.take(i + 1), shms_metadata.entries@)
                                =~= unknown_shm@);
                        }
                    },
                    None => {
                        unknown_shm.insert(ShmReference { key, shmid: mapping.inode });
                        proof {
                            assert(shm_refs_of(ms.take(i + 1), shms_metadata.entries@)
                                =~= referenced_shms@);
                            assert(unknown_of(ms.take(i + 1), shms_metadata.entries@)
                                =~= unknown_shm@);
                        }
                    },
                }
                proof {
                    assert(frames_of(ms.take(i + 1), false) =~= pfns@);
                    assert(frames_of(ms.take(i + 1), true) =~= anon_pfns@);
                    assert(slots_of(ms.take(i + 1), false) =~= swap_pages@);
                    assert(slots_of(ms.take(i + 1), true) =~= anon_swap_pages@);
                }
            },
            MappingKind::File => {
                vsz = vsz + (mapping.end - mapping.start);
                proof {
                    lemma_resident_count_prefix(mapping.pages@, 0);
                    assert(resident_count(mapping.pages@) <= resident_of(ms.take(i + 1)));
                }
                let c = walk_pages(
                    &mapping.pages,
                    false,
                    &mut pfns,
                    &mut anon_pfns,
                    &mut swap_pages,
                    &mut anon_swap_pages,
                );
                resident = resident + c;
                proof {
                    assert(frames_of(ms.take(i + 1), false) =~= pfns@);
                    assert(frames_of(ms.take(i + 1), true) =~= anon_pfns@);
                    assert(slots_of(ms.take(i + 1), false) =~= swap_pages@);
                    assert(slots_of(ms.take(i + 1), true) =~= anon_swap_pages@);
                    assert(shm_refs_of(ms.take(i + 1), shms_metadata.entries@)
                        =~= referenced_shms@);
                    assert(unknown_of(ms.take(i + 1), shms_metadata.entries@) =~= unknown_shm@);
                }
            },
            MappingKind::Anon => {
                vsz = vsz + (mapping.end - mapping.start);
                proof {
                    lemma_resident_count_prefix(mapping.pages@, 0);
                    assert(resident_count(mapping.pages@) <= resident_of(ms.take(i + 1)));
                }
                let c = walk_pages(
                    &mapping.pages,
                    true,
                    &mut pfns,
                    &mut anon_pfns,
                    &mut swap_pages,
                    &mut anon_swap_pages,
                );
                resident = resident + c;
                proof {
                    assert(frames_of(ms.take(i + 1), false) =~= pfns@);
                    assert(frames_of(ms.take(i + 1), true) =~= anon_pfns@);
                    assert(slots_of(ms.take(i + 1), false) =~= swap_pages@);
                    assert(slots_of(ms.take(i + 1), true) =~= anon_swap_pages@);
                    assert(shm_refs_of(ms.take(i + 1), shms_metadata.entries@)
                        =~= referenced_shms@);
                    assert(unknown_of(ms.take(i + 1), shms_metadata.entries@) =~= unknown_shm@);
                }
            },
        }
    }
    proof {
        assert(ms.take(n as int) =~= ms);
        assert(resident * page_size <= u64::MAX) by (nonlinear_arith)
            requires
                page_size * resident_of(ms) <= u64::MAX,
                resident == resident_of(ms),
        ;
    }
    let rss = resident * page_size;
    proof {
        assert(rss == page_size * resident_of(ms)) by (nonlinear_arith)
            requires
                rss == resident * page_size,
                resident == resident_of(ms),
        ;
    }
    Ok(
        ProcessInfo {
            pid: scan.pid,
            uid: scan.uid,
            comm: scan.comm,
            environ: scan.environ,
            pfns,
            anon_pfns,
            swap_pages,
            anon_swap_pages,
            referenced_shms,
            rss,
            vsz,
            pte: scan.pte,
            fds: scan.fds,
            unknown_shm,
        },
    )
}

} // verus!
