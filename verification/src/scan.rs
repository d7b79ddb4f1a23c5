//! The bounded scanning loop's verified core: the single-pass fold that
//! keeps one running set instead of every process, and the
//! self-monitoring memory ceiling that stops admitting work once the
//! scanning process itself grows past its budget.

use vstd::prelude::*;

use crate::procinfo::ProcessInfo;
use crate::sets::FrameSet;
use crate::sets::IdxSet;
use crate::sets::SlotSet;

verus! {

/// The running state of a single-pass scan: one merged frame set, swap
/// set and referenced-segment set, instead of a retained process list.
pub struct SingleScan {
    pub mem_pages: FrameSet,
    pub swap_pages: SlotSet,
    pub referenced_shm: IdxSet,
    pub scanned_processes: u64,
    pub vanished: u64,
}

impl SingleScan {
    pub fn new() -> (r: Self)
        ensures
            r.mem_pages@ == Set::<u64>::empty(),
            r.swap_pages@ == Set::<crate::sets::SwapSlot>::empty(),
            r.referenced_shm@ == Set::<usize>::empty(),
            r.scanned_processes == 0,
            r.vanished == 0,
    {
        SingleScan {
            mem_pages: FrameSet::new(),
            swap_pages: SlotSet::new(),
            referenced_shm: IdxSet::new(),
            scanned_processes: 0,
            vanished: 0,
        }
    }

    /// Folds one scanned process into the running sets.
    pub fn add_process(&mut self, info: &ProcessInfo)
        requires
            old(self).scanned_processes < u64::MAX,
        ensures
            final(self).mem_pages@ == old(self).mem_pages@.union(info.pfns@),
            final(self).swap_pages@ == old(self).swap_pages@.union(info.swap_pages@),
            final(self).referenced_shm@ == old(self).referenced_shm@.union(
                info.referenced_shms@,
            ),
            final(self).scanned_processes == old(self).scanned_processes + 1,
            final(self).vanished == old(self).vanished,
    {
        self.mem_pages.union_with(&info.pfns);
        self.swap_pages.union_with(&info.swap_pages);
        self.referenced_shm.union_with(&info.referenced_shms);
        self.scanned_processes = self.scanned_processes + 1;
    }

    /// Records one process that vanished between listing and scanning.
    pub fn note_vanished(&mut self)
        requires
            old(self).vanished < u64::MAX,
        ensures
            final(self).mem_pages == old(self).mem_pages,
            final(self).swap_pages == old(self).swap_pages,
            final(self).referenced_shm == old(self).referenced_shm,
            final(self).scanned_processes == old(self).scanned_processes,
            final(self).vanished == old(self).vanished + 1,
    {
        self.vanished = self.vanished + 1;
    }

    /// The resident and swapped byte totals of everything folded so far.
    pub fn totals(&self, page_size: u64) -> (r: (u64, u64))
        requires
            self.mem_pages@.len() * page_size <= u64::MAX,
            self.swap_pages@.len() * page_size <= u64::MAX,
        ensures
            r.0 == self.mem_pages@.len() * page_size,
            r.1 == self.swap_pages@.len() * page_size,
    {
        let m = self.mem_pages.len();
        let s = self.swap_pages.len();
        ((m as u64) * page_size, (s as u64) * page_size)
    }
}

/// One check of the memory ceiling before admitting the next unit of
/// work.  Returns whether to admit it, and whether to warn; the flag is
/// set at most once, so the warning fires exactly once even when many
/// workers observe the breach.  Callers hold the flag's lock across the
/// call (check-then-set, never unconditional overwrite).
pub fn admit_process(my_rss: u64, mem_limit: u64, hit_flag: &mut bool) -> (r: (bool, bool))
    ensures
        r.0 == (my_rss <= mem_limit),
        *final(hit_flag) == (*old(hit_flag) || my_rss > mem_limit),
        r.1 == (!*old(hit_flag) && my_rss > mem_limit),
{
    if my_rss > mem_limit {
        if !*hit_flag {
            *hit_flag = true;
            (false, true)
        } else {
            (false, false)
        }
    } else {
        (true, false)
    }
}

} // verus!
