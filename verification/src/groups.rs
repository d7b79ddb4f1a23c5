//! Grouping processes and computing per-group memory statistics.
//!
//! A splitter consumes a list of collected processes and partitions it
//! fully into named groups: every input process lands in exactly one
//! group, and the groups can be flattened back so splitters chain.  Each
//! group carries the union of its members' frame and swap-slot sets, and
//! the display computation turns one split into rows of total ("rss")
//! and exclusive ("uss") memory by set algebra across groups.

use vstd::prelude::*;
use vstd::multiset::Multiset;

use crate::digits::dec_digits;
use crate::digits::u64_to_string;
use crate::filters::env_lookup;
use crate::filters::model_of;
use crate::filters::record_of_info;
use crate::filters::spec_eval;
use crate::filters::spec_parse;
use crate::filters::Filter;
use crate::filters::FilterModel;
use crate::filters::ParseError;
use crate::procinfo::ProcessInfo;
use crate::process_tree::ProcessTree;
use crate::sets::FrameSet;
use crate::sets::IdxSet;
use crate::sets::SlotSet;
use crate::sets::SwapSlot;
use crate::snapshot::ShmEntry;
use crate::snapshot::ShmsMetadata;
use crate::tmpfs::format_option_string;

verus! {

/// A named bucket of processes with their merged attribution sets.
///
/// Two groups compare equal exactly when their names do; group names must
/// therefore be unique within one split, which the splitters below keep
/// by keying groups on distinct values.
pub struct ProcessGroupInfo {
    pub name: String,
    pub processes_info: Vec<ProcessInfo>,
    pub pfns: FrameSet,
    pub anon_pfns: FrameSet,
    pub swap_pages: SlotSet,
    pub anon_swap_pages: SlotSet,
    pub referenced_shm: IdxSet,
    pub pte: u64,
    pub fds: usize,
}

impl PartialEq for ProcessGroupInfo {
    fn eq(&self, other: &Self) -> (r: bool) {
        self.name == other.name
    }
}

impl vstd::std_specs::cmp::PartialEqSpecImpl for ProcessGroupInfo {
    open spec fn obeys_eq_spec() -> bool {
        true
    }

    open spec fn eq_spec(&self, other: &Self) -> bool {
        self.name@ == other.name@
    }
}

// ---------------------------------------------------------------------------
// Folding a list of processes into one group.
// ---------------------------------------------------------------------------

/// The union of the members' frame sets (`anon_only` picks the anonymous
/// ones).
pub open spec fn infos_frames(infos: Seq<ProcessInfo>, anon_only: bool) -> Set<u64>
    decreases infos.len(),
{
    if infos.len() == 0 {
        Set::<u64>::empty()
    } else {
        infos_frames(infos.drop_last(), anon_only).union(
            if anon_only {
                infos.last().anon_pfns@
            } else {
                infos.last().pfns@
            },
        )
    }
}

/// The union of the members' swap-slot sets.
pub open spec fn infos_slots(infos: Seq<ProcessInfo>, anon_only: bool) -> Set<SwapSlot>
    decreases infos.len(),
{
    if infos.len() == 0 {
        Set::<SwapSlot>::empty()
    } else {
        infos_slots(infos.drop_last(), anon_only).union(
            if anon_only {
                infos.last().anon_swap_pages@
            } else {
                infos.last().swap_pages@
            },
        )
    }
}

/// The union of the members' referenced shared-memory segments.
pub open spec fn infos_shms(infos: Seq<ProcessInfo>) -> Set<usize>
    decreases infos.len(),
{
    if infos.len() == 0 {
        Set::<usize>::empty()
    } else {
        infos_shms(infos.drop_last()).union(infos.last().referenced_shms@)
    }
}

/// The summed page-table sizes of the members.
pub open spec fn infos_pte(infos: Seq<ProcessInfo>) -> int
    decreases infos.len(),
{
    if infos.len() == 0 {
        0
    } else {
        infos_pte(infos.drop_last()) + infos.last().pte
    }
}

/// The summed open-descriptor counts of the members.
pub open spec fn infos_fds(infos: Seq<ProcessInfo>) -> int
    decreases infos.len(),
{
    if infos.len() == 0 {
        0
    } else {
        infos_fds(infos.drop_last()) + infos.last().fds
    }
}

proof fn lemma_infos_sums_nonneg(infos: Seq<ProcessInfo>, i: int)
    requires
        0 <= i <= infos.len(),
    ensures
        0 <= infos_pte(infos.take(i)),
        0 <= infos_fds(infos.take(i)),
    decreases i,
{
    if i == 0 {
        assert(infos.take(0) =~= Seq::<ProcessInfo>::empty());
    } else {
        assert(infos.take(i).drop_last() =~= infos.take(i - 1));
        assert(infos.take(i).last() == infos[i - 1]);
        lemma_infos_sums_nonneg(infos, i - 1);
    }
}

proof fn lemma_infos_sums_prefix(infos: Seq<ProcessInfo>, i: int)
    requires
        0 <= i <= infos.len(),
    ensures
        0 <= infos_pte(infos.take(i)) <= infos_pte(infos),
        0 <= infos_fds(infos.take(i)) <= infos_fds(infos),
{
    lemma_infos_sums_nonneg(infos, i);
    lemma_infos_sums_prefix_upper(infos, i);
}

proof fn lemma_infos_sums_prefix_upper(infos: Seq<ProcessInfo>, i: int)
    requires
        0 <= i <= infos.len(),
    ensures
        infos_pte(infos.take(i)) <= infos_pte(infos),
        infos_fds(infos.take(i)) <= infos_fds(infos),
    decreases infos.len() - i,
{
    if i == infos.len() {
        assert(infos.take(i) =~= infos);
    } else {
        assert(infos.take(i + 1).drop_last() =~= infos.take(i));
        assert(infos.take(i + 1).last() == infos[i]);
        lemma_infos_sums_prefix_upper(infos, i + 1);
    }
}

/// Folds a list of processes into one named group: the group's sets are
/// the unions of its members' sets, its scalar totals their sums.  (The
/// summed page-table total is a theoretical upper bound, as the members'
/// page tables may share pages.)
pub fn get_processes_group_info(
    processes_info: Vec<ProcessInfo>,
    name: &str,
    _shms_metadata: &ShmsMetadata,
) -> (r: ProcessGroupInfo)
    requires
        infos_pte(processes_info@) <= u64::MAX,
        infos_fds(processes_info@) <= usize::MAX,
    ensures
        r.name@ == name@,
        r.processes_info == processes_info,
        r.pfns@ == infos_frames(processes_info@, false),
        r.anon_pfns@ == infos_frames(processes_info@, true),
        r.swap_pages@ == infos_slots(processes_info@, false),
        r.anon_swap_pages@ == infos_slots(processes_info@, true),
        r.referenced_shm@ == infos_shms(processes_info@),
        r.pte == infos_pte(processes_info@),
        r.fds == infos_fds(processes_info@),
{
    let mut pfns = FrameSet::new();
    let mut anon_pfns = FrameSet::new();
    let mut swap_pages = SlotSet::new();
    let mut anon_swap_pages = SlotSet::new();
    let mut referenced_shm = IdxSet::new();
    let mut pte: u64 = 0;
    let mut fds: usize = 0;
    let n = processes_info.len();
    let ghost infos = processes_info@;
    proof {
        assert(infos.take(0) =~= Seq::<ProcessInfo>::empty());
    }
    for i in 0..n
        invariant
            n == infos.len(),
            infos == processes_info@,
            infos_pte(infos) <= u64::MAX,
            infos_fds(infos) <= usize::MAX,
            pfns@ == infos_frames(infos.take(i as int), false),
            anon_pfns@ == infos_frames(infos.take(i as int), true),
            swap_pages@ == infos_slots(infos.take(i as int), false),
            anon_swap_pages@ == infos_slots(infos.take(i as int), true),
            referenced_shm@ == infos_shms(infos.take(i as int)),
            pte == infos_pte(infos.take(i as int)),
            fds == infos_fds(infos.take(i as int)),
    {
        proof {
            assert(infos.take(i + 1).drop_last() =~= infos.take(i as int));
            assert(infos.take(i + 1).last() == infos[i as int]);
            lemma_infos_sums_prefix(infos, i + 1);
            lemma_infos_sums_prefix(infos, i as int);
        }
        let p = &processes_info[i];
        pfns.union_with(&p.pfns);
        anon_pfns.union_with(&p.anon_pfns);
        swap_pages.union_with(&p.swap_pages);
        anon_swap_pages.union_with(&p.anon_swap_pages);
        referenced_shm.union_with(&p.referenced_shms);
        pte = pte + p.pte;
        fds = fds + p.fds;
    }
    proof {
        assert(infos.take(n as int) =~= infos);
    }
    ProcessGroupInfo {
        name: name.to_owned(),
        processes_info,
        pfns,
        anon_pfns,
        swap_pages,
        anon_swap_pages,
        referenced_shm,
        pte,
        fds,
    }
}

// ---------------------------------------------------------------------------
// Splitting a process list into groups.
// ---------------------------------------------------------------------------

/// All processes of all groups, with multiplicity: a split must neither
/// lose nor duplicate a process.
pub open spec fn groups_multiset(gs: Seq<ProcessGroupInfo>) -> Multiset<ProcessInfo>
    decreases gs.len(),
{
    if gs.len() == 0 {
        Multiset::<ProcessInfo>::empty()
    } else {
        groups_multiset(gs.drop_last()).add(gs.last().processes_info@.to_multiset())
    }
}

/// The summed page-table totals of all groups.
pub open spec fn groups_pte(gs: Seq<ProcessGroupInfo>) -> int
    decreases gs.len(),
{
    if gs.len() == 0 {
        0
    } else {
        groups_pte(gs.drop_last()) + infos_pte(gs.last().processes_info@)
    }
}

/// The summed descriptor totals of all groups.
pub open spec fn groups_fds(gs: Seq<ProcessGroupInfo>) -> int
    decreases gs.len(),
{
    if gs.len() == 0 {
        0
    } else {
        groups_fds(gs.drop_last()) + infos_fds(gs.last().processes_info@)
    }
}

proof fn lemma_infos_sums_pop(s: Seq<ProcessInfo>)
    requires
        s.len() > 0,
    ensures
        infos_pte(s) == infos_pte(s.drop_last()) + s.last().pte,
        infos_fds(s) == infos_fds(s.drop_last()) + s.last().fds,
{
}

proof fn lemma_infos_sums_push(s: Seq<ProcessInfo>, p: ProcessInfo)
    ensures
        infos_pte(s.push(p)) == infos_pte(s) + p.pte,
        infos_fds(s.push(p)) == infos_fds(s) + p.fds,
{
    assert(s.push(p).drop_last() =~= s);
    assert(s.push(p).last() == p);
}

/// Popping the last element takes exactly one copy of it out of the
/// multiset.
proof fn lemma_pop_multiset(s: Seq<ProcessInfo>)
    requires
        s.len() > 0,
    ensures
        s.to_multiset() == s.drop_last().to_multiset().insert(s.last()),
{
    broadcast use vstd::seq_lib::group_to_multiset_ensures;

    assert(s.drop_last().push(s.last()) =~= s);
    assert(s.drop_last().push(s.last()).to_multiset() =~= s.drop_last().to_multiset().insert(
        s.last(),
    ));
}

proof fn lemma_empty_multiset(s: Seq<ProcessInfo>)
    requires
        s.len() == 0,
    ensures
        s.to_multiset() == Multiset::<ProcessInfo>::empty(),
{
    broadcast use vstd::seq_lib::group_to_multiset_ensures;

    assert(s.to_multiset() =~= Multiset::<ProcessInfo>::empty());
}

fn contains_u32(keys: &Vec<u32>, u: u32) -> (r: bool)
    ensures
        r == keys@.contains(u),
{
    let n = keys.len();
    for i in 0..n
        invariant
            n == keys@.len(),
            forall|j: int| 0 <= j < i ==> keys@[j] != u,
    {
        if keys[i] == u {
            return true;
        }
    }
    false
}

/// Splits `pool` into the processes owned by `uid` and the rest, keeping
/// every process exactly once and splitting the scalar sums additively.
fn partition_by_uid(pool: Vec<ProcessInfo>, uid: u32) -> (r: (Vec<ProcessInfo>, Vec<
    ProcessInfo,
>))
    ensures
        r.0@.to_multiset().add(r.1@.to_multiset()) == pool@.to_multiset(),
        forall|i: int| 0 <= i < r.0@.len() ==> (#[trigger] r.0@[i]).uid == uid,
        forall|i: int| 0 <= i < r.1@.len() ==> (#[trigger] r.1@[i]).uid != uid,
        infos_pte(r.0@) + infos_pte(r.1@) == infos_pte(pool@),
        infos_fds(r.0@) + infos_fds(r.1@) == infos_fds(pool@),
{
    broadcast use vstd::seq_lib::group_to_multiset_ensures;

    let mut pool = pool;
    let mut matched: Vec<ProcessInfo> = Vec::new();
    let mut rest: Vec<ProcessInfo> = Vec::new();
    let ghost orig = pool@;
    while pool.len() != 0
        invariant
            matched@.to_multiset().add(rest@.to_multiset()).add(pool@.to_multiset())
                =~= orig.to_multiset(),
            forall|i: int| 0 <= i < matched@.len() ==> (#[trigger] matched@[i]).uid == uid,
            forall|i: int| 0 <= i < rest@.len() ==> (#[trigger] rest@[i]).uid != uid,
            infos_pte(matched@) + infos_pte(rest@) + infos_pte(pool@) == infos_pte(orig),
            infos_fds(matched@) + infos_fds(rest@) + infos_fds(pool@) == infos_fds(orig),
        decreases pool@.len(),
    {
        let ghost pool0 = pool@;
        let ghost matched0 = matched@;
        let ghost rest0 = rest@;
        proof {
            lemma_infos_sums_pop(pool@);
            lemma_pop_multiset(pool@);
        }
        let p = pool.pop().unwrap();
        if p.uid == uid {
            matched.push(p);
            proof {
                lemma_infos_sums_push(matched0, p);
                assert(matched@ == matched0.push(p));
                matched0.to_multiset_ensures();
                assert(matched@.to_multiset() =~= matched0.to_multiset().insert(p));
                assert(matched@.to_multiset().add(rest@.to_multiset()).add(
                    pool@.to_multiset(),
                ) =~= orig.to_multiset());
            }
        } else {
            rest.push(p);
            proof {
                lemma_infos_sums_push(rest0, p);
                assert(rest@ == rest0.push(p));
                rest0.to_multiset_ensures();
                assert(rest@.to_multiset() =~= rest0.to_multiset().insert(p));
                assert(matched@.to_multiset().add(rest@.to_multiset()).add(
                    pool@.to_multiset(),
                ) =~= orig.to_multiset());
            }
        }
    }
    proof {
        lemma_empty_multiset(pool@);
        assert(matched@.to_multiset().add(rest@.to_multiset()) =~= orig.to_multiset());
    }
    (matched, rest)
}

/// Relies on uzers' `get_user_by_uid`: asks the machine's account
/// database for the name of a user id.  The answer depends on the
/// machine, so nothing is promised of it; the caller handles every
/// outcome.
#[verifier::external_body]
fn username_of_uid(uid: u32) -> (r: Option<String>) {
    uzers::get_user_by_uid(uid).map(|u| u.name().to_string_lossy().to_string())
}

/// The name of a uid's group: the resolved account name, or the decimal
/// uid when the machine cannot resolve it.
fn uid_group_name(uid: u32, resolved: Option<String>) -> (r: String)
    ensures
        r@ == (match resolved {
            Some(n) => n@,
            None => dec_digits(uid as nat),
        }),
{
    match resolved {
        Some(n) => n,
        None => u64_to_string(uid as u64),
    }
}

/// Splits processes by owning user: one group per distinct uid observed
/// among the input processes, named by the resolved account name or the
/// decimal uid.
pub struct ProcessSplitterUid {
    /// One entry per group: the uid the group was keyed on.
    pub uids: Vec<u32>,
    pub groups: Vec<ProcessGroupInfo>,
}

impl ProcessSplitterUid {
    pub fn new() -> (r: Self)
        ensures
            r.groups@.len() == 0,
            r.uids@.len() == 0,
    {
        ProcessSplitterUid { uids: Vec::new(), groups: Vec::new() }
    }

    /// Partitions `processes` fully: every input process lands in exactly
    /// one group, and all members of a group share its uid.
    pub fn split(
        &mut self,
        _tree: &ProcessTree,
        _shms_metadata: &ShmsMetadata,
        processes: Vec<ProcessInfo>,
    )
        requires
            old(self).groups@.len() == 0,
            old(self).uids@.len() == 0,
            infos_pte(processes@) <= u64::MAX,
            infos_fds(processes@) <= usize::MAX,
        ensures
            groups_multiset(final(self).groups@) == processes@.to_multiset(),
            final(self).uids@.no_duplicates(),
            final(self).uids@.len() == final(self).groups@.len(),
            forall|g: int, j: int|
                0 <= g < final(self).groups@.len() && 0 <= j
                    < final(self).groups@[g].processes_info@.len()
                    ==> (#[trigger] final(self).groups@[g].processes_info@[j]).uid
                    == final(self).uids@[g],
            forall|g: int|
                0 <= g < final(self).groups@.len() ==> group_folds(
                    #[trigger] final(self).groups@[g],
                ),
    {
        broadcast use vstd::seq_lib::group_to_multiset_ensures;

        let ghost orig = processes@;
        let mut keys: Vec<u32> = Vec::new();
        let n = processes.len();
        for j in 0..n
            invariant
                n == processes@.len(),
                keys@.no_duplicates(),
                forall|jj: int| 0 <= jj < j ==> keys@.contains((#[trigger] processes@[jj]).uid),
        {
            if !contains_u32(&keys, processes[j].uid) {
                let ghost prev = keys@;
                keys.push(processes[j].uid);
                proof {
                    assert forall|a: int, b: int| 0 <= a < b < keys@.len() implies keys@[a]
                        != keys@[b] by {
                        if b < keys@.len() - 1 {
                            assert(prev[a] != prev[b]);
                        } else {
                            assert(!prev.contains(keys@[b]));
                            assert(prev[a] == keys@[a]);
                        }
                    }
                    assert forall|jj: int| 0 <= jj < j + 1 implies keys@.contains(
                        (#[trigger] processes@[jj]).uid,
                    ) by {
                        if jj < j {
                            let x = choose|x: int|
                                0 <= x < prev.len() && prev[x] == processes@[jj].uid;
                            assert(keys@[x] == processes@[jj].uid);
                        } else {
                            assert(keys@[keys@.len() - 1] == processes@[jj].uid);
                        }
                    }
                }
            }
        }
        let mut pool = processes;
        proof {
            assert(keys@.skip(0) =~= keys@);
            assert(self.uids@ =~= keys@.take(0));
            assert(groups_multiset(self.groups@) =~= Multiset::<ProcessInfo>::empty());
        }
        let nk = keys.len();
        let mut ki: usize = 0;
        while ki < nk
            invariant
                nk == keys@.len(),
                ki <= nk,
                keys@.no_duplicates(),
                self.uids@ == keys@.take(ki as int),
                self.groups@.len() == ki,
                groups_multiset(self.groups@).add(pool@.to_multiset()) =~= orig.to_multiset(),
                groups_pte(self.groups@) + infos_pte(pool@) == infos_pte(orig),
                groups_fds(self.groups@) + infos_fds(pool@) == infos_fds(orig),
                infos_pte(orig) <= u64::MAX,
                infos_fds(orig) <= usize::MAX,
                forall|i: int|
                    0 <= i < pool@.len() ==> keys@.skip(ki as int).contains(
                        (#[trigger] pool@[i]).uid,
                    ),
                forall|g: int, j: int|
                    0 <= g < self.groups@.len() && 0 <= j
                        < self.groups@[g].processes_info@.len() ==> (#[trigger] self.groups@[
                        g
                    ].processes_info@[j]).uid == self.uids@[g],
                forall|g: int|
                    0 <= g < self.groups@.len() ==> group_folds(#[trigger] self.groups@[g]),
            decreases nk - ki,
        {
            let uid = keys[ki];
            let ghost pool0 = pool@;
            proof {
                lemma_groups_sums_nonneg(self.groups@);
                lemma_infos_sums_nonneg_whole(pool@);
            }
            let (matched, new_pool) = partition_by_uid(pool, uid);
            proof {
                lemma_infos_sums_nonneg_whole(matched@);
                lemma_infos_sums_nonneg_whole(new_pool@);
            }
            let name = uid_group_name(uid, username_of_uid(uid));
            let group = get_processes_group_info(matched, name.as_str(), _shms_metadata);
            let ghost prev_groups = self.groups@;
            let ghost prev_uids = self.uids@;
            self.groups.push(group);
            self.uids.push(uid);
            pool = new_pool;
            proof {
                assert(self.groups@.drop_last() =~= prev_groups);
                assert(self.uids@ =~= keys@.take(ki + 1));
                assert(groups_multiset(self.groups@).add(pool@.to_multiset())
                    =~= orig.to_multiset());
                assert forall|i: int| 0 <= i < pool@.len() implies keys@.skip(
                    ki + 1,
                ).contains((#[trigger] pool@[i]).uid) by {
                    broadcast use vstd::seq_lib::group_to_multiset_ensures;

                    let x = pool@[i];
                    assert(pool@.contains(x));
                    assert(pool@.to_multiset().contains(x));
                    assert(pool0.to_multiset().count(x) > 0);
                    assert(pool0.contains(x));
                    let oi = choose|oi: int| 0 <= oi < pool0.len() && pool0[oi] == x;
                    assert(keys@.skip(ki as int).contains(pool0[oi].uid));
                    let xx = choose|xx: int|
                        0 <= xx < keys@.skip(ki as int).len() && keys@.skip(ki as int)[xx]
                            == x.uid;
                    assert(keys@[ki + xx] == x.uid);
                    assert(x.uid != uid);
                    assert(xx != 0);
                    assert(keys@.skip(ki + 1)[xx - 1] == x.uid);
                }
            }
            ki += 1;
        }
        proof {
            assert(keys@.take(nk as int) =~= keys@);
            assert(pool@.len() == 0) by {
                if pool@.len() > 0 {
                    assert(keys@.skip(nk as int).contains(pool@[0].uid));
                    assert(keys@.skip(nk as int) =~= Seq::<u32>::empty());
                }
            }
            assert(pool@.to_multiset() =~= Multiset::<ProcessInfo>::empty());
            assert(groups_multiset(self.groups@) =~= orig.to_multiset());
        }
    }

    /// The groups of the last split.
    pub fn iter_groups(&self) -> (r: &Vec<ProcessGroupInfo>)
        ensures
            r == &self.groups,
    {
        &self.groups
    }

    /// This split's report rows, sorted by descending total memory.
    pub fn display(&self, shms_metadata: &ShmsMetadata, page_size: u64) -> (r: Vec<
        ProcessGroupDisplayRow,
    >)
        requires
            display_fits(self.groups@, shms_metadata.entries@, page_size),
        ensures
            r@.map_values(|row: ProcessGroupDisplayRow| row_model(row)).to_multiset()
                == display_models(self.groups@, shms_metadata.entries@, page_size).to_multiset(),
            sorted_desc(r@),
    {
        display_groups(&self.groups, shms_metadata, page_size)
    }

    /// Flattens the groups back into one process list, a permutation of
    /// what was split.
    pub fn collect_processes(self) -> (r: Vec<ProcessInfo>)
        ensures
            r@.to_multiset() == groups_multiset(self.groups@),
    {
        collect_groups(self.groups)
    }
}

/// A group whose sets are exactly the unions of its members' sets and
/// whose totals are their sums.
pub open spec fn group_folds(g: ProcessGroupInfo) -> bool {
    &&& g.pfns@ == infos_frames(g.processes_info@, false)
    &&& g.anon_pfns@ == infos_frames(g.processes_info@, true)
    &&& g.swap_pages@ == infos_slots(g.processes_info@, false)
    &&& g.anon_swap_pages@ == infos_slots(g.processes_info@, true)
    &&& g.referenced_shm@ == infos_shms(g.processes_info@)
    &&& g.pte == infos_pte(g.processes_info@)
    &&& g.fds == infos_fds(g.processes_info@)
}

proof fn lemma_infos_sums_nonneg_whole(s: Seq<ProcessInfo>)
    ensures
        0 <= infos_pte(s),
        0 <= infos_fds(s),
    decreases s.len(),
{
    if s.len() > 0 {
        lemma_infos_sums_nonneg_whole(s.drop_last());
    }
}

proof fn lemma_groups_sums_nonneg(gs: Seq<ProcessGroupInfo>)
    ensures
        0 <= groups_pte(gs),
        0 <= groups_fds(gs),
    decreases gs.len(),
{
    if gs.len() > 0 {
        lemma_groups_sums_nonneg(gs.drop_last());
        lemma_infos_sums_nonneg_whole(gs.last().processes_info@);
    }
}

/// Flattens groups into one list holding every member exactly once.
fn collect_groups(groups: Vec<ProcessGroupInfo>) -> (r: Vec<ProcessInfo>)
    ensures
        r@.to_multiset() == groups_multiset(groups@),
{
    broadcast use vstd::seq_lib::group_to_multiset_ensures;

    let mut groups = groups;
    let mut r: Vec<ProcessInfo> = Vec::new();
    let ghost orig = groups@;
    while groups.len() != 0
        invariant
            r@.to_multiset().add(groups_multiset(groups@)) =~= groups_multiset(orig),
        decreases groups@.len(),
    {
        let ghost groups0 = groups@;
        let g = groups.pop().unwrap();
        proof {
            assert(groups@ =~= groups0.drop_last());
            assert(groups_multiset(groups0) == groups_multiset(groups@).add(
                groups0.last().processes_info@.to_multiset(),
            ));
        }
        let mut members = g.processes_info;
        while members.len() != 0
            invariant
                r@.to_multiset().add(members@.to_multiset()).add(groups_multiset(groups@))
                    =~= groups_multiset(orig),
            decreases members@.len(),
        {
            let ghost members0 = members@;
            let ghost r0 = r@;
            proof {
                lemma_pop_multiset(members@);
            }
            let p = members.pop().unwrap();
            r.push(p);
            proof {
                assert(r@ == r0.push(p));
                r0.to_multiset_ensures();
                assert(r@.to_multiset() =~= r0.to_multiset().insert(p));
                assert(r@.to_multiset().add(members@.to_multiset()).add(
                    groups_multiset(groups@),
                ) =~= groups_multiset(orig));
            }
        }
        proof {
            lemma_empty_multiset(members@);
        }
    }
    proof {
        assert(groups_multiset(groups@) =~= Multiset::<ProcessInfo>::empty());
        assert(r@.to_multiset() =~= groups_multiset(orig));
    }
    r
}


// ---------------------------------------------------------------------------
// Splitting by an environment variable.
// ---------------------------------------------------------------------------

/// The text of an optional string.
pub open spec fn opt_view(o: Option<String>) -> Option<Seq<char>> {
    match o {
        Some(s) => Some(s@),
        None => None,
    }
}

/// The value process `p` carries for variable `var`; `None` when the
/// variable is absent.
pub open spec fn env_value_of(p: ProcessInfo, var: Seq<char>) -> Option<Seq<char>> {
    env_lookup(p.environ@, var)
}

fn opt_key_eq(a: Option<&String>, b: &Option<String>) -> (r: bool)
    ensures
        r == ((match a {
            Some(s) => Some(s@),
            None => None,
        }) == opt_view(*b)),
{
    match (a, b) {
        (None, None) => true,
        (Some(x), Some(y)) => {
            let r = *x == *y;
            r
        },
        _ => false,
    }
}

fn contains_key(keys: &Vec<Option<String>>, value: Option<&String>) -> (r: bool)
    ensures
        r == (exists|j: int|
            0 <= j < keys@.len() && opt_view(#[trigger] keys@[j]) == (match value {
                Some(s) => Some(s@),
                None => None,
            })),
{
    let n = keys.len();
    for i in 0..n
        invariant
            n == keys@.len(),
            forall|j: int|
                0 <= j < i ==> opt_view(#[trigger] keys@[j]) != (match value {
                    Some(s) => Some(s@),
                    None => None,
                }),
    {
        if opt_key_eq(value, &keys[i]) {
            return true;
        }
    }
    false
}

/// Copies an optional value into an owned key.
fn copy_key(value: Option<&String>) -> (r: Option<String>)
    ensures
        opt_view(r) == (match value {
            Some(s) => Some(s@),
            None => None,
        }),
{
    match value {
        Some(s) => Some(s.as_str().to_owned()),
        None => None,
    }
}

/// Splits `pool` into the processes whose value for `var` matches `key`
/// and the rest.
fn partition_by_env(pool: Vec<ProcessInfo>, var: &String, key: &Option<String>) -> (r: (
    Vec<ProcessInfo>,
    Vec<ProcessInfo>,
))
    ensures
        r.0@.to_multiset().add(r.1@.to_multiset()) == pool@.to_multiset(),
        forall|i: int|
            0 <= i < r.0@.len() ==> env_value_of(#[trigger] r.0@[i], var@) == opt_view(*key),
        forall|i: int|
            0 <= i < r.1@.len() ==> env_value_of(#[trigger] r.1@[i], var@) != opt_view(*key),
        infos_pte(r.0@) + infos_pte(r.1@) == infos_pte(pool@),
        infos_fds(r.0@) + infos_fds(r.1@) == infos_fds(pool@),
{
    broadcast use vstd::seq_lib::group_to_multiset_ensures;

    let mut pool = pool;
    let mut matched: Vec<ProcessInfo> = Vec::new();
    let mut rest: Vec<ProcessInfo> = Vec::new();
    let ghost orig = pool@;
    while pool.len() != 0
        invariant
            matched@.to_multiset().add(rest@.to_multiset()).add(pool@.to_multiset())
                =~= orig.to_multiset(),
            forall|i: int|
                0 <= i < matched@.len() ==> env_value_of(#[trigger] matched@[i], var@)
                    == opt_view(*key),
            forall|i: int|
                0 <= i < rest@.len() ==> env_value_of(#[trigger] rest@[i], var@) != opt_view(
                    *key,
                ),
            infos_pte(matched@) + infos_pte(rest@) + infos_pte(pool@) == infos_pte(orig),
            infos_fds(matched@) + infos_fds(rest@) + infos_fds(pool@) == infos_fds(orig),
        decreases pool@.len(),
    {
        let ghost matched0 = matched@;
        let ghost rest0 = rest@;
        proof {
            lemma_infos_sums_pop(pool@);
            lemma_pop_multiset(pool@);
        }
        let p = pool.pop().unwrap();
        let hit = opt_key_eq(crate::filters::env_get(&p.environ, var), key);
        if hit {
            matched.push(p);
            proof {
                lemma_infos_sums_push(matched0, p);
                assert(matched@ == matched0.push(p));
                matched0.to_multiset_ensures();
                assert(matched@.to_multiset() =~= matched0.to_multiset().insert(p));
                assert(matched@.to_multiset().add(rest@.to_multiset()).add(
                    pool@.to_multiset(),
                ) =~= orig.to_multiset());
            }
        } else {
            rest.push(p);
            proof {
                lemma_infos_sums_push(rest0, p);
                assert(rest@ == rest0.push(p));
                rest0.to_multiset_ensures();
                assert(rest@.to_multiset() =~= rest0.to_multiset().insert(p));
                assert(matched@.to_multiset().add(rest@.to_multiset()).add(
                    pool@.to_multiset(),
                ) =~= orig.to_multiset());
            }
        }
    }
    proof {
        lemma_empty_multiset(pool@);
        assert(matched@.to_multiset().add(rest@.to_multiset()) =~= orig.to_multiset());
    }
    (matched, rest)
}

/// Splits processes by the value of one environment variable: one group
/// per distinct value observed, the "variable absent" case forming its
/// own group distinct from any value.
pub struct ProcessSplitterEnvVariable {
    pub var: String,
    /// One entry per group: the value the group was keyed on.
    pub keys: Vec<Option<String>>,
    pub groups: Vec<ProcessGroupInfo>,
}

impl ProcessSplitterEnvVariable {
    pub fn new(var: &str) -> (r: Self)
        ensures
            r.var@ == var@,
            r.groups@.len() == 0,
            r.keys@.len() == 0,
    {
        ProcessSplitterEnvVariable { var: var.to_owned(), keys: Vec::new(), groups: Vec::new() }
    }

    /// Partitions `processes` fully by their value of the variable; each
    /// group is named by the debug form of its value.
    pub fn split(
        &mut self,
        _tree: &ProcessTree,
        _shms_metadata: &ShmsMetadata,
        processes: Vec<ProcessInfo>,
    )
        requires
            old(self).groups@.len() == 0,
            old(self).keys@.len() == 0,
            infos_pte(processes@) <= u64::MAX,
            infos_fds(processes@) <= usize::MAX,
        ensures
            final(self).var == old(self).var,
            groups_multiset(final(self).groups@) == processes@.to_multiset(),
            final(self).keys@.len() == final(self).groups@.len(),
            forall|a: int, b: int|
                0 <= a < b < final(self).keys@.len() ==> opt_view(#[trigger] final(self).keys@[a])
                    != opt_view(#[trigger] final(self).keys@[b]),
            forall|g: int, j: int|
                0 <= g < final(self).groups@.len() && 0 <= j
                    < final(self).groups@[g].processes_info@.len() ==> env_value_of(
                    #[trigger] final(self).groups@[g].processes_info@[j],
                    old(self).var@,
                ) == opt_view(final(self).keys@[g]),
            forall|g: int|
                0 <= g < final(self).groups@.len() ==> (#[trigger] final(self).groups@[g]).name@
                    == crate::tmpfs::spec_option_string(opt_view(final(self).keys@[g])),
            forall|g: int|
                0 <= g < final(self).groups@.len() ==> group_folds(
                    #[trigger] final(self).groups@[g],
                ),
    {
        let ghost orig = processes@;
        let ghost varv = self.var@;
        let mut keys: Vec<Option<String>> = Vec::new();
        let n = processes.len();
        for j in 0..n
            invariant
                n == processes@.len(),
                varv == self.var@,
                forall|a: int, b: int|
                    0 <= a < b < keys@.len() ==> opt_view(#[trigger] keys@[a]) != opt_view(
                        #[trigger] keys@[b],
                    ),
                forall|jj: int|
                    0 <= jj < j ==> exists|g: int|
                        0 <= g < keys@.len() && opt_view(#[trigger] keys@[g]) == env_value_of(
                            #[trigger] processes@[jj],
                            varv,
                        ),
        {
            let value = crate::filters::env_get(&processes[j].environ, &self.var);
            if !contains_key(&keys, value) {
                let ghost prev = keys@;
                let key = copy_key(value);
                keys.push(key);
                proof {
                    assert forall|jj: int| 0 <= jj < j + 1 implies exists|g: int|
                        0 <= g < keys@.len() && opt_view(#[trigger] keys@[g]) == env_value_of(
                            #[trigger] processes@[jj],
                            varv,
                        ) by {
                        if jj < j {
                            let g = choose|g: int|
                                0 <= g < prev.len() && opt_view(#[trigger] prev[g])
                                    == env_value_of(processes@[jj], varv);
                            assert(opt_view(keys@[g]) == env_value_of(processes@[jj], varv));
                        } else {
                            assert(opt_view(keys@[keys@.len() - 1]) == env_value_of(
                                processes@[jj],
                                varv,
                            ));
                        }
                    }
                }
            } else {
                proof {
                    assert((match value {
                        Some(s) => Some(s@),
                        None => None::<Seq<char>>,
                    }) == env_value_of(processes@[j as int], varv));
                    assert forall|jj: int| 0 <= jj < j + 1 implies exists|g: int|
                        0 <= g < keys@.len() && opt_view(#[trigger] keys@[g]) == env_value_of(
                            #[trigger] processes@[jj],
                            varv,
                        ) by {
                        if jj == j {
                            let g = choose|g: int|
                                0 <= g < keys@.len() && opt_view(#[trigger] keys@[g]) == (
                                match value {
                                    Some(s) => Some(s@),
                                    None => None::<Seq<char>>,
                                });
                            assert(opt_view(keys@[g]) == env_value_of(processes@[jj], varv));
                        }
                    }
                }
            }
        }
        let mut pool = processes;
        proof {
            assert(groups_multiset(self.groups@) =~= Multiset::<ProcessInfo>::empty());
        }
        let nk = keys.len();
        let mut ki: usize = 0;
        while ki < nk
            invariant
                nk == keys@.len(),
                ki <= nk,
                self.var == old(self).var,
                varv == self.var@,
                forall|a: int, b: int|
                    0 <= a < b < keys@.len() ==> opt_view(#[trigger] keys@[a]) != opt_view(
                        #[trigger] keys@[b],
                    ),
                self.keys@.len() == ki,
                forall|g: int|
                    0 <= g < ki ==> opt_view(#[trigger] self.keys@[g]) == opt_view(keys@[g]),
                self.groups@.len() == ki,
                groups_multiset(self.groups@).add(pool@.to_multiset()) =~= orig.to_multiset(),
                groups_pte(self.groups@) + infos_pte(pool@) == infos_pte(orig),
                groups_fds(self.groups@) + infos_fds(pool@) == infos_fds(orig),
                infos_pte(orig) <= u64::MAX,
                infos_fds(orig) <= usize::MAX,
                forall|i: int|
                    0 <= i < pool@.len() ==> exists|g: int|
                        ki <= g < keys@.len() && opt_view(#[trigger] keys@[g]) == env_value_of(
                            #[trigger] pool@[i],
                            varv,
                        ),
                forall|g: int, j: int|
                    0 <= g < self.groups@.len() && 0 <= j
                        < self.groups@[g].processes_info@.len() ==> env_value_of(
                        #[trigger] self.groups@[g].processes_info@[j],
                        varv,
                    ) == opt_view(self.keys@[g]),
                forall|g: int|
                    0 <= g < self.groups@.len() ==> (#[trigger] self.groups@[g]).name@
                        == crate::tmpfs::spec_option_string(opt_view(self.keys@[g])),
                forall|g: int|
                    0 <= g < self.groups@.len() ==> group_folds(#[trigger] self.groups@[g]),
            decreases nk - ki,
        {
            let ghost pool0 = pool@;
            proof {
                lemma_groups_sums_nonneg(self.groups@);
                lemma_infos_sums_nonneg_whole(pool@);
            }
            let key = &keys[ki];
            let (matched, new_pool) = partition_by_env(pool, &self.var, key);
            proof {
                lemma_infos_sums_nonneg_whole(matched@);
                lemma_infos_sums_nonneg_whole(new_pool@);
            }
            let name = format_option_string(key);
            let group = get_processes_group_info(matched, name.as_str(), _shms_metadata);
            let ghost prev_groups = self.groups@;
            let ghost prev_keys = self.keys@;
            self.groups.push(group);
            let key_copy = copy_key(keys[ki].as_ref());
            self.keys.push(key_copy);
            pool = new_pool;
            proof {
                assert(self.groups@.drop_last() =~= prev_groups);
                assert(opt_view(self.keys@[ki as int]) == opt_view(keys@[ki as int]));
                assert forall|g: int, j: int|
                    0 <= g < self.groups@.len() && 0 <= j
                        < self.groups@[g].processes_info@.len() implies env_value_of(
                    #[trigger] self.groups@[g].processes_info@[j],
                    varv,
                ) == opt_view(self.keys@[g]) by {
                    if g < self.groups@.len() - 1 {
                        assert(self.groups@[g] == prev_groups[g]);
                        assert(self.keys@[g] == prev_keys[g]);
                    }
                }
                assert(groups_multiset(self.groups@).add(pool@.to_multiset())
                    =~= orig.to_multiset());
                assert forall|i: int| 0 <= i < pool@.len() implies exists|g: int|
                    ki + 1 <= g < keys@.len() && opt_view(#[trigger] keys@[g]) == env_value_of(
                        #[trigger] pool@[i],
                        varv,
                    ) by {
                    broadcast use vstd::seq_lib::group_to_multiset_ensures;

                    let x = pool@[i];
                    assert(pool@.contains(x));
                    assert(pool@.to_multiset().contains(x));
                    assert(pool0.to_multiset().count(x) > 0);
                    assert(pool0.contains(x));
                    let oi = choose|oi: int| 0 <= oi < pool0.len() && pool0[oi] == x;
                    let g = choose|g: int|
                        ki <= g < keys@.len() && opt_view(#[trigger] keys@[g]) == env_value_of(
                            pool0[oi],
                            varv,
                        );
                    assert(env_value_of(x, varv) != opt_view(keys@[ki as int]));
                    assert(g != ki);
                }
            }
            ki += 1;
        }
        proof {
            assert(pool@.len() == 0) by {
                if pool@.len() > 0 {
                    let g = choose|g: int|
                        nk <= g < keys@.len() && opt_view(#[trigger] keys@[g]) == env_value_of(
                            pool@[0],
                            varv,
                        );
                }
            }
            lemma_empty_multiset(pool@);
            assert(groups_multiset(self.groups@) =~= orig.to_multiset());
            assert forall|a: int, b: int| 0 <= a < b < self.keys@.len() implies opt_view(
                #[trigger] self.keys@[a],
            ) != opt_view(#[trigger] self.keys@[b]) by {
                assert(opt_view(self.keys@[a]) == opt_view(keys@[a]));
                assert(opt_view(self.keys@[b]) == opt_view(keys@[b]));
            }
        }
    }

    /// The groups of the last split.
    pub fn iter_groups(&self) -> (r: &Vec<ProcessGroupInfo>)
        ensures
            r == &self.groups,
    {
        &self.groups
    }

    /// This split's report rows, sorted by descending total memory.
    pub fn display(&self, shms_metadata: &ShmsMetadata, page_size: u64) -> (r: Vec<
        ProcessGroupDisplayRow,
    >)
        requires
            display_fits(self.groups@, shms_metadata.entries@, page_size),
        ensures
            r@.map_values(|row: ProcessGroupDisplayRow| row_model(row)).to_multiset()
                == display_models(self.groups@, shms_metadata.entries@, page_size).to_multiset(),
            sorted_desc(r@),
    {
        display_groups(&self.groups, shms_metadata, page_size)
    }

    /// Flattens the groups back into one process list, a permutation of
    /// what was split.
    pub fn collect_processes(self) -> (r: Vec<ProcessInfo>)
        ensures
            r@.to_multiset() == groups_multiset(self.groups@),
    {
        collect_groups(self.groups)
    }
}


// ---------------------------------------------------------------------------
// Splitting by an ordered chain of filters.
// ---------------------------------------------------------------------------

/// The filter chain grammar: one filter expression after another, one
/// separator character between two neighbours; each parsed expression's
/// own text becomes its group's name.
pub open spec fn spec_parse_chain(s: Seq<char>, from: nat) -> Result<
    Seq<(Seq<char>, FilterModel)>,
    ParseError,
>
    decreases s.len() - from,
{
    if from > s.len() {
        Err(ParseError::BadChild)  // unreachable from the call sites
    } else {
        match spec_parse(s.subrange(from as int, s.len() as int)) {
            Err(e) => Err(e),
            Ok((f, ate)) => {
                let name = s.subrange(from as int, (from + ate) as int);
                let stop = from + ate;
                if stop + 1 > s.len() {
                    Ok(seq![(name, f)])
                } else {
                    match spec_parse_chain(s, stop + 1) {
                        Err(e) => Err(e),
                        Ok(rest) => Ok(seq![(name, f)] + rest),
                    }
                }
            },
        }
    }
}

/// Splits `pool` into the processes matching `filter` and the rest.
fn partition_by_filter(pool: Vec<ProcessInfo>, filter: &Filter, tree: &ProcessTree) -> (r: (
    Vec<ProcessInfo>,
    Vec<ProcessInfo>,
))
    ensures
        r.0@.to_multiset().add(r.1@.to_multiset()) == pool@.to_multiset(),
        forall|i: int|
            0 <= i < r.0@.len() ==> spec_eval(
                model_of(*filter),
                record_of_info(#[trigger] r.0@[i]),
                tree@,
            ),
        forall|i: int|
            0 <= i < r.1@.len() ==> !spec_eval(
                model_of(*filter),
                record_of_info(#[trigger] r.1@[i]),
                tree@,
            ),
        infos_pte(r.0@) + infos_pte(r.1@) == infos_pte(pool@),
        infos_fds(r.0@) + infos_fds(r.1@) == infos_fds(pool@),
{
    broadcast use vstd::seq_lib::group_to_multiset_ensures;

    let mut pool = pool;
    let mut matched: Vec<ProcessInfo> = Vec::new();
    let mut rest: Vec<ProcessInfo> = Vec::new();
    let ghost orig = pool@;
    while pool.len() != 0
        invariant
            matched@.to_multiset().add(rest@.to_multiset()).add(pool@.to_multiset())
                =~= orig.to_multiset(),
            forall|i: int|
                0 <= i < matched@.len() ==> spec_eval(
                    model_of(*filter),
                    record_of_info(#[trigger] matched@[i]),
                    tree@,
                ),
            forall|i: int|
                0 <= i < rest@.len() ==> !spec_eval(
                    model_of(*filter),
                    record_of_info(#[trigger] rest@[i]),
                    tree@,
                ),
            infos_pte(matched@) + infos_pte(rest@) + infos_pte(pool@) == infos_pte(orig),
            infos_fds(matched@) + infos_fds(rest@) + infos_fds(pool@) == infos_fds(orig),
        decreases pool@.len(),
    {
        let ghost matched0 = matched@;
        let ghost rest0 = rest@;
        proof {
            lemma_infos_sums_pop(pool@);
            lemma_pop_multiset(pool@);
        }
        let p = pool.pop().unwrap();
        let hit = filter.eval_info(&p, tree);
        if hit {
            matched.push(p);
            proof {
                lemma_infos_sums_push(matched0, p);
                assert(matched@ == matched0.push(p));
                matched0.to_multiset_ensures();
                assert(matched@.to_multiset() =~= matched0.to_multiset().insert(p));
                assert(matched@.to_multiset().add(rest@.to_multiset()).add(
                    pool@.to_multiset(),
                ) =~= orig.to_multiset());
            }
        } else {
            rest.push(p);
            proof {
                lemma_infos_sums_push(rest0, p);
                assert(rest@ == rest0.push(p));
                rest0.to_multiset_ensures();
                assert(rest@.to_multiset() =~= rest0.to_multiset().insert(p));
                assert(matched@.to_multiset().add(rest@.to_multiset()).add(
                    pool@.to_multiset(),
                ) =~= orig.to_multiset());
            }
        }
    }
    proof {
        lemma_empty_multiset(pool@);
        assert(matched@.to_multiset().add(rest@.to_multiset()) =~= orig.to_multiset());
    }
    (matched, rest)
}

/// Splits processes through an ordered chain of filters: each filter in
/// turn drains the processes it matches out of the remaining pool, so a
/// later filter cannot re-claim a process an earlier one captured; what
/// no filter matched forms the "Other" group.
pub struct ProcessSplitterCustomFilter {
    /// The chain as it was written.
    pub name: String,
    pub filters: Vec<Filter>,
    /// One name per filter: the text of that filter expression.
    pub names: Vec<String>,
    pub groups: Vec<ProcessGroupInfo>,
}

impl ProcessSplitterCustomFilter {
    /// Parses a filter chain.  Rejects non-ASCII text outright; a chain
    /// that parses but leaves text over is kept (the trailing text is
    /// tolerated for forward compatibility).
    #[verifier::rlimit(100)]
    #[verifier::spinoff_prover]
    pub fn new(input: &str) -> (r: Result<Self, ParseError>)
        ensures
            match r {
                Ok(sp) => {
                    &&& vstd::string::is_ascii(input)
                    &&& sp.name@ == input@
                    &&& sp.groups@.len() == 0
                    &&& spec_parse_chain(input@, 0) matches Ok(pairs) && sp.filters@.len()
                        == pairs.len() && sp.names@.len() == pairs.len() && (forall|i: int|
                        0 <= i < pairs.len() ==> (#[trigger] sp.names@[i])@ == pairs[i].0
                            && model_of(sp.filters@[i]) == pairs[i].1)
                },
                Err(e) => if vstd::string::is_ascii(input) {
                    spec_parse_chain(input@, 0) == Err::<
                        Seq<(Seq<char>, FilterModel)>,
                        ParseError,
                    >(e)
                } else {
                    e == ParseError::NotAscii
                },
            },
{
        if !input.is_ascii() {
            return Err(ParseError::NotAscii);
        }
        let n = input.unicode_len();
        let mut filters: Vec<Filter> = Vec::new();
        let mut names: Vec<String> = Vec::new();
        let mut counter: usize = 0;
        loop
            invariant_except_break
                input.is_ascii(),
                counter <= n,
                n == input@.len(),
                filters@.len() == names@.len(),
                spec_parse_chain(input@, counter as nat) matches Ok(rest) ==> (spec_parse_chain(
                    input@,
                    0,
                ) matches Ok(all) && all.len() == filters@.len() + rest.len() && (forall|i: int|
                    0 <= i < filters@.len() ==> (#[trigger] names@[i])@ == all[i].0 && model_of(
                        filters@[i],
                    ) == all[i].1) && (forall|i: int|
                    filters@.len() <= i < all.len() ==> (#[trigger] all[i]) == rest[i - filters@.len()])),
                spec_parse_chain(input@, counter as nat) matches Err(e) ==> spec_parse_chain(
                    input@,
                    0,
                ) == Err::<Seq<(Seq<char>, FilterModel)>, ParseError>(e),
            ensures
                spec_parse_chain(input@, 0) matches Ok(all) && all.len() == filters@.len()
                    && names@.len() == filters@.len() && (forall|i: int|
                    0 <= i < filters@.len() ==> (#[trigger] names@[i])@ == all[i].0 && model_of(
                        filters@[i],
                    ) == all[i].1),
            decreases n - counter,
        {
            let sub = input.substring_ascii(counter, n);
            let parsed = match crate::filters::parse(sub) {
                Ok(fa) => fa,
                Err(e) => {
                    return Err(e);
                },
            };
            let (filter, ate) = parsed;
            proof {
                crate::filters::lemma_spec_parse_consumed(sub@);
            }
            let name = input.substring_ascii(counter, counter + ate);
            let ghost prev_filters = filters@;
            let ghost prev_names = names@;
            filters.push(filter);
            names.push(name.to_owned());
            let stop = counter + ate;
            if stop >= n {
                proof {
                    assert(spec_parse_chain(input@, counter as nat) == Ok::<
                        Seq<(Seq<char>, FilterModel)>,
                        ParseError,
                    >(seq![(name@, model_of(filter))]));
                    let all = spec_parse_chain(input@, 0).unwrap();
                    assert(all.len() == prev_filters.len() + seq![
                        (name@, model_of(filter)),
                    ].len());
                    assert forall|i: int| 0 <= i < filters@.len() implies (
                    #[trigger] names@[i])@ == all[i].0 && model_of(filters@[i]) == all[i].1 by {
                        if i < prev_filters.len() {
                            assert(names@[i] == prev_names[i]);
                            assert(filters@[i] == prev_filters[i]);
                        } else {
                            assert(all[i] == seq![(name@, model_of(filter))][i
                                - prev_filters.len()]);
                            assert(filters@[i] == filter);
                            assert(names@[i]@ == name@);
                        }
                    }
                }
                break ;
            }
            counter = stop + 1;
        }
        Ok(
            ProcessSplitterCustomFilter {
                name: input.to_owned(),
                filters,
                names,
                groups: Vec::new(),
            },
        )
    }

    /// Partitions `processes` fully: group `g` holds exactly the
    /// processes matched by filter `g` and none of the earlier filters;
    /// the final "Other" group holds the processes no filter matched.
    pub fn split(
        &mut self,
        tree: &ProcessTree,
        _shms_metadata: &ShmsMetadata,
        processes: Vec<ProcessInfo>,
    )
        requires
            old(self).groups@.len() == 0,
            old(self).filters@.len() == old(self).names@.len(),
            infos_pte(processes@) <= u64::MAX,
            infos_fds(processes@) <= usize::MAX,
        ensures
            final(self).filters == old(self).filters,
            final(self).names == old(self).names,
            final(self).groups@.len() == old(self).filters@.len() + 1,
            groups_multiset(final(self).groups@) == processes@.to_multiset(),
            forall|g: int|
                0 <= g < old(self).filters@.len() ==> (#[trigger] final(self).groups@[g]).name@
                    == old(self).names@[g]@,
            final(self).groups@.last().name@ == "Other"@,
            // group g holds processes its filter matches ...
            forall|g: int, j: int|
                0 <= g < old(self).filters@.len() && 0 <= j
                    < final(self).groups@[g].processes_info@.len() ==> spec_eval(
                    model_of(old(self).filters@[g]),
                    record_of_info(#[trigger] final(self).groups@[g].processes_info@[j]),
                    tree@,
                ),
            // ... and no earlier filter matches (order is semantics) ...
            forall|g: int, j: int, e: int|
                0 <= g < old(self).filters@.len() && 0 <= j
                    < final(self).groups@[g].processes_info@.len() && 0 <= e < g ==> !spec_eval(
                    model_of(#[trigger] old(self).filters@[e]),
                    record_of_info(#[trigger] final(self).groups@[g].processes_info@[j]),
                    tree@,
                ),
            // ... and "Other" holds what no filter matched.
            forall|j: int, e: int|
                0 <= j < final(self).groups@.last().processes_info@.len() && 0 <= e < old(
                    self,
                ).filters@.len() ==> !spec_eval(
                    model_of(#[trigger] old(self).filters@[e]),
                    record_of_info(#[trigger] final(self).groups@.last().processes_info@[j]),
                    tree@,
                ),
            forall|g: int|
                0 <= g < final(self).groups@.len() ==> group_folds(
                    #[trigger] final(self).groups@[g],
                ),
    {
        let ghost orig = processes@;
        let mut pool = processes;
        proof {
            assert(groups_multiset(self.groups@) =~= Multiset::<ProcessInfo>::empty());
        }
        let nf = self.filters.len();
        let mut fi: usize = 0;
        while fi < nf
            invariant
                nf == self.filters@.len(),
                fi <= nf,
                self.filters == old(self).filters,
                self.names == old(self).names,
                self.filters@.len() == self.names@.len(),
                self.groups@.len() == fi,
                groups_multiset(self.groups@).add(pool@.to_multiset()) =~= orig.to_multiset(),
                groups_pte(self.groups@) + infos_pte(pool@) == infos_pte(orig),
                groups_fds(self.groups@) + infos_fds(pool@) == infos_fds(orig),
                infos_pte(orig) <= u64::MAX,
                infos_fds(orig) <= usize::MAX,
                forall|i: int, e: int|
                    0 <= i < pool@.len() && 0 <= e < fi ==> !spec_eval(
                        model_of(#[trigger] self.filters@[e]),
                        record_of_info(#[trigger] pool@[i]),
                        tree@,
                    ),
                forall|g: int|
                    0 <= g < fi ==> (#[trigger] self.groups@[g]).name@ == self.names@[g]@,
                forall|g: int, j: int|
                    0 <= g < fi && 0 <= j < self.groups@[g].processes_info@.len() ==> spec_eval(
                        model_of(self.filters@[g]),
                        record_of_info(#[trigger] self.groups@[g].processes_info@[j]),
                        tree@,
                    ),
                forall|g: int, j: int, e: int|
                    0 <= g < fi && 0 <= j < self.groups@[g].processes_info@.len() && 0 <= e < g
                        ==> !spec_eval(
                        model_of(#[trigger] self.filters@[e]),
                        record_of_info(#[trigger] self.groups@[g].processes_info@[j]),
                        tree@,
                    ),
                forall|g: int|
                    0 <= g < self.groups@.len() ==> group_folds(#[trigger] self.groups@[g]),
            decreases nf - fi,
        {
            let ghost pool0 = pool@;
            proof {
                lemma_groups_sums_nonneg(self.groups@);
                lemma_infos_sums_nonneg_whole(pool@);
            }
            let (matched, new_pool) = partition_by_filter(pool, &self.filters[fi], tree);
            proof {
                lemma_infos_sums_nonneg_whole(matched@);
                lemma_infos_sums_nonneg_whole(new_pool@);
            }
            let group = get_processes_group_info(
                matched,
                self.names[fi].as_str(),
                _shms_metadata,
            );
            let ghost prev_groups = self.groups@;
            self.groups.push(group);
            pool = new_pool;
            proof {
                assert(self.groups@.drop_last() =~= prev_groups);
                assert(groups_multiset(self.groups@).add(pool@.to_multiset())
                    =~= orig.to_multiset());
                assert forall|i: int, e: int| 0 <= i < pool@.len() && 0 <= e < fi + 1
                    implies !spec_eval(
                    model_of(#[trigger] self.filters@[e]),
                    record_of_info(#[trigger] pool@[i]),
                    tree@,
                ) by {
                    broadcast use vstd::seq_lib::group_to_multiset_ensures;

                    let x = pool@[i];
                    assert(pool@.contains(x));
                    assert(pool@.to_multiset().contains(x));
                    assert(pool0.to_multiset().count(x) > 0);
                    assert(pool0.contains(x));
                    let oi = choose|oi: int| 0 <= oi < pool0.len() && pool0[oi] == x;
                    assert(pool0[oi] == x);
                }
                assert forall|g: int, j: int|
                    0 <= g < fi + 1 && 0 <= j < self.groups@[g].processes_info@.len()
                    implies spec_eval(
                    model_of(self.filters@[g]),
                    record_of_info(#[trigger] self.groups@[g].processes_info@[j]),
                    tree@,
                ) by {
                    if g < fi {
                        assert(self.groups@[g] == prev_groups[g]);
                    }
                }
                assert forall|g: int, j: int, e: int|
                    0 <= g < fi + 1 && 0 <= j < self.groups@[g].processes_info@.len() && 0 <= e
                        < g implies !spec_eval(
                    model_of(#[trigger] self.filters@[e]),
                    record_of_info(#[trigger] self.groups@[g].processes_info@[j]),
                    tree@,
                ) by {
                    if g < fi {
                        assert(self.groups@[g] == prev_groups[g]);
                    } else {
                        let x = self.groups@[g].processes_info@[j];
                        assert(pool0.to_multiset().count(x) > 0) by {
                            broadcast use vstd::seq_lib::group_to_multiset_ensures;

                            assert(self.groups@[g].processes_info@.contains(x));
                            assert(self.groups@[g].processes_info@.to_multiset().contains(x));
                        }
                        assert(pool0.contains(x)) by {
                            broadcast use vstd::seq_lib::group_to_multiset_ensures;

                        }
                        let oi = choose|oi: int| 0 <= oi < pool0.len() && pool0[oi] == x;
                        assert(pool0[oi] == x);
                    }
                }
            }
            fi += 1;
        }
        proof {
            lemma_groups_sums_nonneg(self.groups@);
            lemma_infos_sums_nonneg_whole(pool@);
        }
        let other: &str = "Other";
        let other_group = get_processes_group_info(pool, other, _shms_metadata);
        let ghost prev_groups = self.groups@;
        self.groups.push(other_group);
        proof {
            assert(self.groups@.drop_last() =~= prev_groups);
            assert(groups_multiset(self.groups@) =~= orig.to_multiset());
            assert forall|g: int, j: int|
                0 <= g < old(self).filters@.len() && 0 <= j
                    < self.groups@[g].processes_info@.len() implies spec_eval(
                model_of(old(self).filters@[g]),
                record_of_info(#[trigger] self.groups@[g].processes_info@[j]),
                tree@,
            ) by {
                assert(self.groups@[g] == prev_groups[g]);
            }
            assert forall|g: int, j: int, e: int|
                0 <= g < old(self).filters@.len() && 0 <= j
                    < self.groups@[g].processes_info@.len() && 0 <= e < g implies !spec_eval(
                model_of(#[trigger] old(self).filters@[e]),
                record_of_info(#[trigger] self.groups@[g].processes_info@[j]),
                tree@,
            ) by {
                assert(self.groups@[g] == prev_groups[g]);
            }
            assert forall|g: int|
                0 <= g < self.groups@.len() implies group_folds(
                #[trigger] self.groups@[g],
            ) by {
                if g < self.groups@.len() - 1 {
                    assert(self.groups@[g] == prev_groups[g]);
                }
            }
        }
    }

    /// The groups of the last split.
    pub fn iter_groups(&self) -> (r: &Vec<ProcessGroupInfo>)
        ensures
            r == &self.groups,
    {
        &self.groups
    }

    /// This split's report rows, sorted by descending total memory.
    pub fn display(&self, shms_metadata: &ShmsMetadata, page_size: u64) -> (r: Vec<
        ProcessGroupDisplayRow,
    >)
        requires
            display_fits(self.groups@, shms_metadata.entries@, page_size),
        ensures
            r@.map_values(|row: ProcessGroupDisplayRow| row_model(row)).to_multiset()
                == display_models(self.groups@, shms_metadata.entries@, page_size).to_multiset(),
            sorted_desc(r@),
    {
        display_groups(&self.groups, shms_metadata, page_size)
    }

    /// Flattens the groups back into one process list, a permutation of
    /// what was split.
    pub fn collect_processes(self) -> (r: Vec<ProcessInfo>)
        ensures
            r@.to_multiset() == groups_multiset(self.groups@),
    {
        collect_groups(self.groups)
    }
}


// ---------------------------------------------------------------------------
// The display computation: per-group totals and exclusive memory.
// ---------------------------------------------------------------------------

/// One report row, all byte counts.
pub struct ProcessGroupDisplayRow {
    pub group_name: String,
    pub procs: usize,
    pub mem_rss: u64,
    pub mem_anon: u64,
    pub mem_uss: u64,
    pub swap_rss: u64,
    pub swap_anon: u64,
    pub swap_uss: u64,
    pub shm_mem: u64,
    pub shm_swap: u64,
}

/// The frames of the walked segments among the first `k` inventory
/// entries that `refs` references.
pub open spec fn shm_frames_union(entries: Seq<ShmEntry>, refs: Set<usize>, k: int) -> Set<u64>
    decreases k,
{
    if k <= 0 || k > entries.len() {
        Set::<u64>::empty()
    } else {
        shm_frames_union(entries, refs, k - 1).union(
            if refs.contains((k - 1) as usize) && entries[k - 1].pages is Some {
                entries[k - 1].pages.unwrap().pfns@
            } else {
                Set::<u64>::empty()
            },
        )
    }
}

/// The swap slots of the walked segments among the first `k` entries
/// that `refs` references.
pub open spec fn shm_slots_union(entries: Seq<ShmEntry>, refs: Set<usize>, k: int) -> Set<
    SwapSlot,
>
    decreases k,
{
    if k <= 0 || k > entries.len() {
        Set::<SwapSlot>::empty()
    } else {
        shm_slots_union(entries, refs, k - 1).union(
            if refs.contains((k - 1) as usize) && entries[k - 1].pages is Some {
                entries[k - 1].pages.unwrap().swap_pages@
            } else {
                Set::<SwapSlot>::empty()
            },
        )
    }
}

/// A group's extended frame set: its own frames plus the frames of every
/// shared-memory segment it references.
pub open spec fn ext_frames(g: ProcessGroupInfo, entries: Seq<ShmEntry>) -> Set<u64> {
    g.pfns@.union(shm_frames_union(entries, g.referenced_shm@, entries.len() as int))
}

/// A group's extended swap-slot set, by the same construction.
pub open spec fn ext_slots(g: ProcessGroupInfo, entries: Seq<ShmEntry>) -> Set<SwapSlot> {
    g.swap_pages@.union(shm_slots_union(entries, g.referenced_shm@, entries.len() as int))
}

/// The union of the extended frame sets of every group but `me`, over
/// the first `k` groups.
pub open spec fn other_frames(
    gs: Seq<ProcessGroupInfo>,
    entries: Seq<ShmEntry>,
    me: int,
    k: int,
) -> Set<u64>
    decreases k,
{
    if k <= 0 || k > gs.len() {
        Set::<u64>::empty()
    } else {
        other_frames(gs, entries, me, k - 1).union(
            if k - 1 == me {
                Set::<u64>::empty()
            } else {
                ext_frames(gs[k - 1], entries)
            },
        )
    }
}

/// The union of the extended swap-slot sets of every group but `me`.
pub open spec fn other_slots(
    gs: Seq<ProcessGroupInfo>,
    entries: Seq<ShmEntry>,
    me: int,
    k: int,
) -> Set<SwapSlot>
    decreases k,
{
    if k <= 0 || k > gs.len() {
        Set::<SwapSlot>::empty()
    } else {
        other_slots(gs, entries, me, k - 1).union(
            if k - 1 == me {
                Set::<SwapSlot>::empty()
            } else {
                ext_slots(gs[k - 1], entries)
            },
        )
    }
}

/// The summed reported resident bytes of the referenced segments among
/// the first `k` entries.
pub open spec fn shm_rss_sum(entries: Seq<ShmEntry>, refs: Set<usize>, k: int) -> int
    decreases k,
{
    if k <= 0 || k > entries.len() {
        0
    } else {
        shm_rss_sum(entries, refs, k - 1) + (if refs.contains((k - 1) as usize) {
            entries[k - 1].segment.rss as int
        } else {
            0int
        })
    }
}

/// The summed reported swapped bytes of the referenced segments.
pub open spec fn shm_swap_sum(entries: Seq<ShmEntry>, refs: Set<usize>, k: int) -> int
    decreases k,
{
    if k <= 0 || k > entries.len() {
        0
    } else {
        shm_swap_sum(entries, refs, k - 1) + (if refs.contains((k - 1) as usize) {
            entries[k - 1].segment.swap as int
        } else {
            0int
        })
    }
}

/// Total memory touched by group `i`: its extended frame set, one page
/// each.
pub open spec fn mem_rss_spec(
    gs: Seq<ProcessGroupInfo>,
    entries: Seq<ShmEntry>,
    page_size: u64,
    i: int,
) -> int {
    ext_frames(gs[i], entries).len() * page_size
}

/// Exclusive memory of group `i`: the pages of its extended frame set
/// that no other group's extended set touches.
pub open spec fn mem_uss_spec(
    gs: Seq<ProcessGroupInfo>,
    entries: Seq<ShmEntry>,
    page_size: u64,
    i: int,
) -> int {
    ext_frames(gs[i], entries).difference(
        other_frames(gs, entries, i, gs.len() as int),
    ).len() * page_size
}

pub open spec fn swap_rss_spec(
    gs: Seq<ProcessGroupInfo>,
    entries: Seq<ShmEntry>,
    page_size: u64,
    i: int,
) -> int {
    ext_slots(gs[i], entries).len() * page_size
}

pub open spec fn swap_uss_spec(
    gs: Seq<ProcessGroupInfo>,
    entries: Seq<ShmEntry>,
    page_size: u64,
    i: int,
) -> int {
    ext_slots(gs[i], entries).difference(other_slots(gs, entries, i, gs.len() as int)).len()
        * page_size
}

/// The shape of one row: its texts and exact numeric values.
pub struct RowModel {
    pub name: Seq<char>,
    pub procs: int,
    pub mem_rss: int,
    pub mem_anon: int,
    pub mem_uss: int,
    pub swap_rss: int,
    pub swap_anon: int,
    pub swap_uss: int,
    pub shm_mem: int,
    pub shm_swap: int,
}

pub open spec fn row_model(r: ProcessGroupDisplayRow) -> RowModel {
    RowModel {
        name: r.group_name@,
        procs: r.procs as int,
        mem_rss: r.mem_rss as int,
        mem_anon: r.mem_anon as int,
        mem_uss: r.mem_uss as int,
        swap_rss: r.swap_rss as int,
        swap_anon: r.swap_anon as int,
        swap_uss: r.swap_uss as int,
        shm_mem: r.shm_mem as int,
        shm_swap: r.shm_swap as int,
    }
}

/// The row the display computes for group `i`.
pub open spec fn row_model_spec(
    gs: Seq<ProcessGroupInfo>,
    entries: Seq<ShmEntry>,
    page_size: u64,
    i: int,
) -> RowModel {
    RowModel {
        name: gs[i].name@,
        procs: gs[i].processes_info@.len() as int,
        mem_rss: mem_rss_spec(gs, entries, page_size, i),
        mem_anon: gs[i].anon_pfns@.len() * page_size,
        mem_uss: mem_uss_spec(gs, entries, page_size, i),
        swap_rss: swap_rss_spec(gs, entries, page_size, i),
        swap_anon: gs[i].anon_swap_pages@.len() * page_size,
        swap_uss: swap_uss_spec(gs, entries, page_size, i),
        shm_mem: shm_rss_sum(entries, gs[i].referenced_shm@, entries.len() as int),
        shm_swap: shm_swap_sum(entries, gs[i].referenced_shm@, entries.len() as int),
    }
}

/// All rows of one split, one per group, in group order.
pub open spec fn display_models(
    gs: Seq<ProcessGroupInfo>,
    entries: Seq<ShmEntry>,
    page_size: u64,
) -> Seq<RowModel> {
    Seq::new(gs.len(), |i: int| row_model_spec(gs, entries, page_size, i))
}

/// Rows in weakly descending order of total memory.
pub open spec fn sorted_desc(rs: Seq<ProcessGroupDisplayRow>) -> bool {
    forall|a: int, b: int| 0 <= a <= b < rs.len() ==> (#[trigger] rs[a]).mem_rss >= (
    #[trigger] rs[b]).mem_rss
}

/// The per-group frame cardinalities that bound every extended set.
pub open spec fn groups_frame_lens(gs: Seq<ProcessGroupInfo>, k: int) -> int
    decreases k,
{
    if k <= 0 || k > gs.len() {
        0
    } else {
        groups_frame_lens(gs, k - 1) + gs[k - 1].pfns@.len() + gs[k - 1].anon_pfns@.len()
    }
}

pub open spec fn groups_slot_lens(gs: Seq<ProcessGroupInfo>, k: int) -> int
    decreases k,
{
    if k <= 0 || k > gs.len() {
        0
    } else {
        groups_slot_lens(gs, k - 1) + gs[k - 1].swap_pages@.len() + gs[k
            - 1].anon_swap_pages@.len()
    }
}

pub open spec fn entries_frame_lens(entries: Seq<ShmEntry>, k: int) -> int
    decreases k,
{
    if k <= 0 || k > entries.len() {
        0
    } else {
        entries_frame_lens(entries, k - 1) + (match entries[k - 1].pages {
            Some(sp) => sp.pfns@.len() as int,
            None => 0int,
        })
    }
}

pub open spec fn entries_slot_lens(entries: Seq<ShmEntry>, k: int) -> int
    decreases k,
{
    if k <= 0 || k > entries.len() {
        0
    } else {
        entries_slot_lens(entries, k - 1) + (match entries[k - 1].pages {
            Some(sp) => sp.swap_pages@.len() as int,
            None => 0int,
        })
    }
}

pub open spec fn entries_rss_total(entries: Seq<ShmEntry>, k: int) -> int
    decreases k,
{
    if k <= 0 || k > entries.len() {
        0
    } else {
        entries_rss_total(entries, k - 1) + entries[k - 1].segment.rss
    }
}

pub open spec fn entries_swap_total(entries: Seq<ShmEntry>, k: int) -> int
    decreases k,
{
    if k <= 0 || k > entries.len() {
        0
    } else {
        entries_swap_total(entries, k - 1) + entries[k - 1].segment.swap
    }
}

/// The budget that keeps every byte count of one display within range:
/// the combined cardinality of every set a row can touch.
pub open spec fn display_fits(
    gs: Seq<ProcessGroupInfo>,
    entries: Seq<ShmEntry>,
    page_size: u64,
) -> bool {
    &&& (groups_frame_lens(gs, gs.len() as int) + entries_frame_lens(
        entries,
        entries.len() as int,
    )) * page_size <= u64::MAX
    &&& (groups_slot_lens(gs, gs.len() as int) + entries_slot_lens(
        entries,
        entries.len() as int,
    )) * page_size <= u64::MAX
    &&& entries_rss_total(entries, entries.len() as int) <= u64::MAX
    &&& entries_swap_total(entries, entries.len() as int) <= u64::MAX
}


proof fn lemma_shm_unions_bound(entries: Seq<ShmEntry>, refs: Set<usize>, k: int)
    requires
        0 <= k <= entries.len(),
    ensures
        shm_frames_union(entries, refs, k).finite(),
        shm_frames_union(entries, refs, k).len() <= entries_frame_lens(entries, k),
        shm_slots_union(entries, refs, k).finite(),
        shm_slots_union(entries, refs, k).len() <= entries_slot_lens(entries, k),
    decreases k,
{
    broadcast use crate::sets::VecSet::lemma_finite;

    if k > 0 {
        lemma_shm_unions_bound(entries, refs, k - 1);
        match entries[k - 1].pages {
            Some(sp) => {
                vstd::set_lib::lemma_len_union(
                    shm_frames_union(entries, refs, k - 1),
                    if refs.contains((k - 1) as usize) {
                        sp.pfns@
                    } else {
                        Set::<u64>::empty()
                    },
                );
                vstd::set_lib::lemma_len_union(
                    shm_slots_union(entries, refs, k - 1),
                    if refs.contains((k - 1) as usize) {
                        sp.swap_pages@
                    } else {
                        Set::<SwapSlot>::empty()
                    },
                );
            },
            None => {
                vstd::set_lib::lemma_len_union(
                    shm_frames_union(entries, refs, k - 1),
                    Set::<u64>::empty(),
                );
                vstd::set_lib::lemma_len_union(
                    shm_slots_union(entries, refs, k - 1),
                    Set::<SwapSlot>::empty(),
                );
            },
        }
    }
}

proof fn lemma_group_lens_bound(gs: Seq<ProcessGroupInfo>, i: int, k: int)
    requires
        0 <= i < k <= gs.len(),
    ensures
        gs[i].pfns@.len() + gs[i].anon_pfns@.len() <= groups_frame_lens(gs, k),
        gs[i].swap_pages@.len() + gs[i].anon_swap_pages@.len() <= groups_slot_lens(gs, k),
        0 <= groups_frame_lens(gs, k),
        0 <= groups_slot_lens(gs, k),
    decreases k,
{
    broadcast use crate::sets::VecSet::lemma_finite;

    if k - 1 > i {
        lemma_group_lens_bound(gs, i, k - 1);
    } else {
        lemma_group_lens_nonneg(gs, k - 1);
    }
}

proof fn lemma_group_lens_nonneg(gs: Seq<ProcessGroupInfo>, k: int)
    requires
        k <= gs.len(),
    ensures
        0 <= groups_frame_lens(gs, k),
        0 <= groups_slot_lens(gs, k),
    decreases k,
{
    broadcast use crate::sets::VecSet::lemma_finite;

    if k > 0 {
        lemma_group_lens_nonneg(gs, k - 1);
    }
}

/// Every extended set's cardinality fits the display budget.
proof fn lemma_ext_bound(gs: Seq<ProcessGroupInfo>, entries: Seq<ShmEntry>, i: int)
    requires
        0 <= i < gs.len(),
    ensures
        ext_frames(gs[i], entries).finite(),
        ext_frames(gs[i], entries).len() <= groups_frame_lens(gs, gs.len() as int)
            + entries_frame_lens(entries, entries.len() as int),
        ext_slots(gs[i], entries).finite(),
        ext_slots(gs[i], entries).len() <= groups_slot_lens(gs, gs.len() as int)
            + entries_slot_lens(entries, entries.len() as int),
{
    broadcast use crate::sets::VecSet::lemma_finite;

    lemma_shm_unions_bound(entries, gs[i].referenced_shm@, entries.len() as int);
    lemma_group_lens_bound(gs, i, gs.len() as int);
    vstd::set_lib::lemma_len_union(
        gs[i].pfns@,
        shm_frames_union(entries, gs[i].referenced_shm@, entries.len() as int),
    );
    vstd::set_lib::lemma_len_union(
        gs[i].swap_pages@,
        shm_slots_union(entries, gs[i].referenced_shm@, entries.len() as int),
    );
}

proof fn lemma_shm_sums_bound(entries: Seq<ShmEntry>, refs: Set<usize>, k: int)
    requires
        0 <= k <= entries.len(),
    ensures
        0 <= shm_rss_sum(entries, refs, k) <= entries_rss_total(entries, k),
        0 <= shm_swap_sum(entries, refs, k) <= entries_swap_total(entries, k),
    decreases k,
{
    if k > 0 {
        lemma_shm_sums_bound(entries, refs, k - 1);
    }
}

proof fn lemma_entries_totals_prefix(entries: Seq<ShmEntry>, k: int)
    requires
        0 <= k <= entries.len(),
    ensures
        entries_rss_total(entries, k) <= entries_rss_total(entries, entries.len() as int),
        entries_swap_total(entries, k) <= entries_swap_total(entries, entries.len() as int),
    decreases entries.len() - k,
{
    if k < entries.len() {
        lemma_entries_totals_prefix(entries, k + 1);
    }
}

/// Builds group `g`'s extended frame and swap-slot sets.
fn build_ext(g: &ProcessGroupInfo, shms_metadata: &ShmsMetadata) -> (r: (FrameSet, SlotSet))
    ensures
        r.0@ == ext_frames(*g, shms_metadata.entries@),
        r.1@ == ext_slots(*g, shms_metadata.entries@),
{
    let ghost entries = shms_metadata.entries@;
    let mut ef = FrameSet::new();
    let mut es = SlotSet::new();
    ef.union_with(&g.pfns);
    es.union_with(&g.swap_pages);
    let n = shms_metadata.entries.len();
    proof {
        assert(ef@ =~= g.pfns@.union(shm_frames_union(entries, g.referenced_shm@, 0)));
        assert(es@ =~= g.swap_pages@.union(shm_slots_union(entries, g.referenced_shm@, 0)));
    }
    for k in 0..n
        invariant
            n == entries.len(),
            entries == shms_metadata.entries@,
            ef@ == g.pfns@.union(shm_frames_union(entries, g.referenced_shm@, k as int)),
            es@ == g.swap_pages@.union(shm_slots_union(entries, g.referenced_shm@, k as int)),
    {
        if g.referenced_shm.contains(&k) {
            match &shms_metadata.entries[k].pages {
                Some(sp) => {
                    ef.union_with(&sp.pfns);
                    es.union_with(&sp.swap_pages);
                },
                None => {},
            }
        }
        proof {
            assert(ef@ =~= g.pfns@.union(shm_frames_union(entries, g.referenced_shm@, k + 1)));
            assert(es@ =~= g.swap_pages@.union(shm_slots_union(entries, g.referenced_shm@, k + 1)));
        }
    }
    (ef, es)
}

/// Sums the reported resident and swapped bytes of the segments `g`
/// references.
fn sum_shm(g: &ProcessGroupInfo, shms_metadata: &ShmsMetadata) -> (r: (u64, u64))
    requires
        entries_rss_total(shms_metadata.entries@, shms_metadata.entries@.len() as int)
            <= u64::MAX,
        entries_swap_total(shms_metadata.entries@, shms_metadata.entries@.len() as int)
            <= u64::MAX,
    ensures
        r.0 == shm_rss_sum(shms_metadata.entries@, g.referenced_shm@, shms_metadata.entries@.len() as int),
        r.1 == shm_swap_sum(shms_metadata.entries@, g.referenced_shm@, shms_metadata.entries@.len() as int),
{
    let ghost entries = shms_metadata.entries@;
    let mut rss: u64 = 0;
    let mut swap: u64 = 0;
    let n = shms_metadata.entries.len();
    for k in 0..n
        invariant
            n == entries.len(),
            entries == shms_metadata.entries@,
            entries_rss_total(entries, n as int) <= u64::MAX,
            entries_swap_total(entries, n as int) <= u64::MAX,
            rss == shm_rss_sum(entries, g.referenced_shm@, k as int),
            swap == shm_swap_sum(entries, g.referenced_shm@, k as int),
    {
        proof {
            lemma_shm_sums_bound(entries, g.referenced_shm@, k + 1);
            lemma_entries_totals_prefix(entries, k + 1);
        }
        if g.referenced_shm.contains(&k) {
            rss = rss + shms_metadata.entries[k].segment.rss;
            swap = swap + shms_metadata.entries[k].segment.swap;
        }
    }
    (rss, swap)
}

/// Sorts rows by weakly descending total memory, keeping every row.
fn sort_rows(rows: Vec<ProcessGroupDisplayRow>) -> (r: Vec<ProcessGroupDisplayRow>)
    ensures
        r@.map_values(|row: ProcessGroupDisplayRow| row_model(row)).to_multiset()
            == rows@.map_values(|row: ProcessGroupDisplayRow| row_model(row)).to_multiset(),
        sorted_desc(r@),
{
    let ghost rm = |row: ProcessGroupDisplayRow| row_model(row);
    let mut pool = rows;
    let mut r: Vec<ProcessGroupDisplayRow> = Vec::new();
    let ghost orig = pool@;
    proof {
        assert(r@.map_values(rm) =~= Seq::<RowModel>::empty());
        lemma_row_model_empty_multiset(r@.map_values(rm));
    }
    while pool.len() != 0
        invariant
            rm == (|row: ProcessGroupDisplayRow| row_model(row)),
            r@.map_values(rm).to_multiset().add(pool@.map_values(rm).to_multiset())
                =~= orig.map_values(rm).to_multiset(),
            sorted_desc(r@),
            // everything placed is at least as large as everything left
            forall|a: int, i: int|
                0 <= a < r@.len() && 0 <= i < pool@.len() ==> (#[trigger] r@[a]).mem_rss >= (
                #[trigger] pool@[i]).mem_rss,
        decreases pool@.len(),
    {
        // find the largest remaining row
        let n = pool.len();
        let mut best: usize = 0;
        let mut bi: usize = 1;
        while bi < n
            invariant
                n == pool@.len(),
                best < bi <= n,
                forall|i: int|
                    0 <= i < bi ==> (#[trigger] pool@[i]).mem_rss <= pool@[best as int].mem_rss,
            decreases n - bi,
        {
            if pool[bi].mem_rss > pool[best].mem_rss {
                best = bi;
            }
            bi += 1;
        }
        let ghost pool0 = pool@;
        let ghost r0 = r@;
        let x = pool.remove(best);
        r.push(x);
        proof {
            pool0.map_values(rm).to_multiset_ensures();
            assert(pool@.map_values(rm) =~= pool0.map_values(rm).remove(best as int));
            assert(pool0.map_values(rm).remove(best as int).to_multiset()
                =~= pool0.map_values(rm).to_multiset().remove(rm(x))) by {
                vstd::seq_lib::to_multiset_remove(pool0.map_values(rm), best as int);
                assert(pool0.map_values(rm)[best as int] == rm(x));
            }
            assert(pool0.map_values(rm).to_multiset().contains(rm(x))) by {
                assert(pool0.map_values(rm)[best as int] == rm(x));
                assert(pool0.map_values(rm).contains(rm(x)));
            }
            assert(r@ == r0.push(x));
            assert(r@.map_values(rm) =~= r0.map_values(rm).push(rm(x)));
            r0.map_values(rm).to_multiset_ensures();
            assert(r@.map_values(rm).to_multiset().add(pool@.map_values(rm).to_multiset())
                =~= orig.map_values(rm).to_multiset());
            assert forall|a: int, i: int|
                0 <= a < r@.len() && 0 <= i < pool@.len() implies (#[trigger] r@[a]).mem_rss
                >= (#[trigger] pool@[i]).mem_rss by {
                if a < r@.len() - 1 {
                    assert(r@[a] == r0[a]);
                }
                if i < best {
                    assert(pool@[i] == pool0[i]);
                } else {
                    assert(pool@[i] == pool0[i + 1]);
                }
            }
            assert(sorted_desc(r@)) by {
                assert forall|a: int, b: int| 0 <= a <= b < r@.len() implies (
                #[trigger] r@[a]).mem_rss >= (#[trigger] r@[b]).mem_rss by {
                    if b < r@.len() - 1 {
                        assert(r@[a] == r0[a] && r@[b] == r0[b]);
                    } else if a < r@.len() - 1 {
                        assert(r@[a] == r0[a]);
                        assert(pool0[best as int] == x);
                    }
                }
            }
        }
    }
    proof {
        assert(pool@.map_values(rm) =~= Seq::<RowModel>::empty());
        lemma_row_model_empty_multiset(pool@.map_values(rm));
        assert(r@.map_values(rm).to_multiset() =~= orig.map_values(rm).to_multiset());
    }
    r
}

proof fn lemma_row_model_empty_multiset(s: Seq<RowModel>)
    requires
        s.len() == 0,
    ensures
        s.to_multiset() == Multiset::<RowModel>::empty(),
{
    broadcast use vstd::seq_lib::group_to_multiset_ensures;

    assert(s.to_multiset() =~= Multiset::<RowModel>::empty());
}

proof fn lemma_row_empty_multiset(s: Seq<ProcessGroupDisplayRow>)
    requires
        s.len() == 0,
    ensures
        s.to_multiset() == Multiset::<ProcessGroupDisplayRow>::empty(),
{
    broadcast use vstd::seq_lib::group_to_multiset_ensures;

    assert(s.to_multiset() =~= Multiset::<ProcessGroupDisplayRow>::empty());
}

/// Computes one split's report: one row per group holding its total and
/// exclusive memory, swap and shared-memory columns, sorted by
/// descending total.  A pure function of the groups and the inventory:
/// recomputing it over the same data yields the same rows.
pub fn display_groups(
    groups: &Vec<ProcessGroupInfo>,
    shms_metadata: &ShmsMetadata,
    page_size: u64,
) -> (r: Vec<ProcessGroupDisplayRow>)
    requires
        display_fits(groups@, shms_metadata.entries@, page_size),
    ensures
        r@.map_values(|row: ProcessGroupDisplayRow| row_model(row)).to_multiset()
            == display_models(groups@, shms_metadata.entries@, page_size).to_multiset(),
        sorted_desc(r@),
{
    let ghost rm = |row: ProcessGroupDisplayRow| row_model(row);
    let ghost gs = groups@;
    let ghost entries = shms_metadata.entries@;
    let n = groups.len();
    // extended sets of every group
    let mut exts: Vec<(FrameSet, SlotSet)> = Vec::new();
    for i in 0..n
        invariant
            n == gs.len(),
            gs == groups@,
            entries == shms_metadata.entries@,
            exts@.len() == i,
            forall|k: int|
                0 <= k < i ==> (#[trigger] exts@[k]).0@ == ext_frames(gs[k], entries)
                    && exts@[k].1@ == ext_slots(gs[k], entries),
    {
        let e = build_ext(&groups[i], shms_metadata);
        exts.push(e);
    }
    let mut rows: Vec<ProcessGroupDisplayRow> = Vec::new();
    for i in 0..n
        invariant
            n == gs.len(),
            gs == groups@,
            entries == shms_metadata.entries@,
            display_fits(gs, entries, page_size),
            exts@.len() == n,
            forall|k: int|
                0 <= k < n ==> (#[trigger] exts@[k]).0@ == ext_frames(gs[k], entries)
                    && exts@[k].1@ == ext_slots(gs[k], entries),
            rm == (|row: ProcessGroupDisplayRow| row_model(row)),
            rows@.map_values(rm) == display_models(gs, entries, page_size).take(i as int),
    {
        let mut other_pfns = FrameSet::new();
        let mut other_swap = SlotSet::new();
        proof {
            assert(other_pfns@ =~= other_frames(gs, entries, i as int, 0));
            assert(other_swap@ =~= other_slots(gs, entries, i as int, 0));
        }
        for j in 0..n
            invariant
                n == gs.len(),
                gs == groups@,
                entries == shms_metadata.entries@,
                exts@.len() == n,
                forall|k: int|
                    0 <= k < n ==> (#[trigger] exts@[k]).0@ == ext_frames(gs[k], entries)
                        && exts@[k].1@ == ext_slots(gs[k], entries),
                other_pfns@ == other_frames(gs, entries, i as int, j as int),
                other_swap@ == other_slots(gs, entries, i as int, j as int),
                i < n,
        {
            if j != i {
                other_pfns.union_with(&exts[j].0);
                other_swap.union_with(&exts[j].1);
            }
            proof {
                assert(other_pfns@ =~= other_frames(gs, entries, i as int, j + 1));
                assert(other_swap@ =~= other_slots(gs, entries, i as int, j + 1));
            }
        }
        proof {
            lemma_ext_bound(gs, entries, i as int);
            lemma_shm_sums_bound(entries, gs[i as int].referenced_shm@, entries.len() as int);
            lemma_group_lens_bound(gs, i as int, gs.len() as int);
            lemma_shm_unions_bound(entries, gs[i as int].referenced_shm@, entries.len() as int);
            broadcast use crate::sets::VecSet::lemma_finite;

            vstd::set_lib::lemma_len_subset(
                ext_frames(gs[i as int], entries).difference(
                    other_frames(gs, entries, i as int, gs.len() as int),
                ),
                ext_frames(gs[i as int], entries),
            );
            vstd::set_lib::lemma_len_subset(
                ext_slots(gs[i as int], entries).difference(
                    other_slots(gs, entries, i as int, gs.len() as int),
                ),
                ext_slots(gs[i as int], entries),
            );
            let fb = groups_frame_lens(gs, gs.len() as int) + entries_frame_lens(
                entries,
                entries.len() as int,
            );
            let sb = groups_slot_lens(gs, gs.len() as int) + entries_slot_lens(
                entries,
                entries.len() as int,
            );
            assert(ext_frames(gs[i as int], entries).len() * page_size <= fb * page_size) by (
            nonlinear_arith)
                requires
                    ext_frames(gs[i as int], entries).len() <= fb,
            ;
            assert(ext_frames(gs[i as int], entries).difference(
                other_frames(gs, entries, i as int, gs.len() as int),
            ).len() * page_size <= fb * page_size) by (nonlinear_arith)
                requires
                    ext_frames(gs[i as int], entries).difference(
                        other_frames(gs, entries, i as int, gs.len() as int),
                    ).len() <= fb,
            ;
            assert(gs[i as int].anon_pfns@.len() * page_size <= fb * page_size) by (
            nonlinear_arith)
                requires
                    gs[i as int].anon_pfns@.len() <= fb,
            ;
            assert(ext_slots(gs[i as int], entries).len() * page_size <= sb * page_size) by (
            nonlinear_arith)
                requires
                    ext_slots(gs[i as int], entries).len() <= sb,
            ;
            assert(ext_slots(gs[i as int], entries).difference(
                other_slots(gs, entries, i as int, gs.len() as int),
            ).len() * page_size <= sb * page_size) by (nonlinear_arith)
                requires
                    ext_slots(gs[i as int], entries).difference(
                        other_slots(gs, entries, i as int, gs.len() as int),
                    ).len() <= sb,
            ;
            assert(gs[i as int].anon_swap_pages@.len() * page_size <= sb * page_size) by (
            nonlinear_arith)
                requires
                    gs[i as int].anon_swap_pages@.len() <= sb,
            ;
        }
        let g = &groups[i];
        let ext_p = &exts[i].0;
        let ext_s = &exts[i].1;
        let (shm_mem, shm_swap) = sum_shm(g, shms_metadata);
        let mem_rss = (ext_p.len() as u64) * page_size;
        let mem_anon = (g.anon_pfns.len() as u64) * page_size;
        let mem_uss = (ext_p.diff_count(&other_pfns) as u64) * page_size;
        let swap_rss = (ext_s.len() as u64) * page_size;
        let swap_anon = (g.anon_swap_pages.len() as u64) * page_size;
        let swap_uss = (ext_s.diff_count(&other_swap) as u64) * page_size;
        let row = ProcessGroupDisplayRow {
            group_name: clone_string(&g.name),
            procs: g.processes_info.len(),
            mem_rss,
            mem_anon,
            mem_uss,
            swap_rss,
            swap_anon,
            swap_uss,
            shm_mem,
            shm_swap,
        };
        let ghost rows0 = rows@;
        rows.push(row);
        proof {
            assert(row_model(row) == row_model_spec(gs, entries, page_size, i as int));
            assert(rows@.map_values(rm) =~= rows0.map_values(rm).push(rm(row)));
            assert(rows@.map_values(rm) =~= display_models(gs, entries, page_size).take(i + 1));
        }
    }
    proof {
        assert(rows@.map_values(rm) =~= display_models(gs, entries, page_size));
    }
    sort_rows(rows)
}

/// Copies a string.
fn clone_string(s: &String) -> (r: String)
    ensures
        r@ == s@,
{
    s.as_str().to_owned()
}


// ---------------------------------------------------------------------------
// Laws of the display computation.
// ---------------------------------------------------------------------------

/// Exclusive memory never exceeds total memory: a group's exclusive
/// pages are among the pages it touches, for memory and for swap alike.
pub proof fn lemma_exclusive_memory_bound(
    gs: Seq<ProcessGroupInfo>,
    entries: Seq<ShmEntry>,
    page_size: u64,
    i: int,
)
    requires
        0 <= i < gs.len(),
    ensures
        mem_uss_spec(gs, entries, page_size, i) <= mem_rss_spec(gs, entries, page_size, i),
        swap_uss_spec(gs, entries, page_size, i) <= swap_rss_spec(gs, entries, page_size, i),
{
    lemma_ext_bound(gs, entries, i);
    vstd::set_lib::lemma_len_subset(
        ext_frames(gs[i], entries).difference(other_frames(gs, entries, i, gs.len() as int)),
        ext_frames(gs[i], entries),
    );
    vstd::set_lib::lemma_len_subset(
        ext_slots(gs[i], entries).difference(other_slots(gs, entries, i, gs.len() as int)),
        ext_slots(gs[i], entries),
    );
    assert(ext_frames(gs[i], entries).difference(
        other_frames(gs, entries, i, gs.len() as int),
    ).len() * page_size <= ext_frames(gs[i], entries).len() * page_size) by (nonlinear_arith)
        requires
            ext_frames(gs[i], entries).difference(
                other_frames(gs, entries, i, gs.len() as int),
            ).len() <= ext_frames(gs[i], entries).len(),
    ;
    assert(ext_slots(gs[i], entries).difference(
        other_slots(gs, entries, i, gs.len() as int),
    ).len() * page_size <= ext_slots(gs[i], entries).len() * page_size) by (nonlinear_arith)
        requires
            ext_slots(gs[i], entries).difference(
                other_slots(gs, entries, i, gs.len() as int),
            ).len() <= ext_slots(gs[i], entries).len(),
    ;
}

proof fn lemma_other_frames_member(
    gs: Seq<ProcessGroupInfo>,
    entries: Seq<ShmEntry>,
    me: int,
    k: int,
    x: u64,
)
    requires
        0 <= k <= gs.len(),
        other_frames(gs, entries, me, k).contains(x),
    ensures
        exists|j: int| 0 <= j < k && j != me && ext_frames(#[trigger] gs[j], entries).contains(x),
    decreases k,
{
    if k > 0 {
        if k - 1 != me && ext_frames(gs[k - 1], entries).contains(x) {
        } else {
            lemma_other_frames_member(gs, entries, me, k - 1, x);
        }
    }
}

/// A frame that exactly one group's extended set touches counts toward
/// that group's exclusive memory.
pub proof fn lemma_exclusive_page_counted(
    gs: Seq<ProcessGroupInfo>,
    entries: Seq<ShmEntry>,
    pfn: u64,
    i: int,
)
    requires
        0 <= i < gs.len(),
        ext_frames(gs[i], entries).contains(pfn),
        forall|j: int|
            0 <= j < gs.len() && j != i ==> !ext_frames(#[trigger] gs[j], entries).contains(pfn),
    ensures
        ext_frames(gs[i], entries).difference(
            other_frames(gs, entries, i, gs.len() as int),
        ).contains(pfn),
{
    if other_frames(gs, entries, i, gs.len() as int).contains(pfn) {
        lemma_other_frames_member(gs, entries, i, gs.len() as int, pfn);
    }
}

/// The display computation is a function of the groups and the
/// inventory alone: two runs over the same immutable data yield the
/// same rows.
pub proof fn lemma_display_deterministic(
    r1: Seq<ProcessGroupDisplayRow>,
    r2: Seq<ProcessGroupDisplayRow>,
    gs: Seq<ProcessGroupInfo>,
    entries: Seq<ShmEntry>,
    page_size: u64,
)
    requires
        r1.map_values(|row: ProcessGroupDisplayRow| row_model(row)).to_multiset()
            == display_models(gs, entries, page_size).to_multiset(),
        r2.map_values(|row: ProcessGroupDisplayRow| row_model(row)).to_multiset()
            == display_models(gs, entries, page_size).to_multiset(),
    ensures
        r1.map_values(|row: ProcessGroupDisplayRow| row_model(row)).to_multiset()
            == r2.map_values(|row: ProcessGroupDisplayRow| row_model(row)).to_multiset(),
{
}


} // verus!
