use snap::groups::ProcessSplitterCustomFilter;
use snap::groups::ProcessSplitterEnvVariable;
use snap::groups::ProcessSplitterUid;
use snap::procinfo::ProcessInfo;
use snap::process_tree::ProcessTree;
use snap::sets::FrameSet;
use snap::sets::IdxSet;
use snap::sets::SlotSet;
use snap::sets::VecSet;
use snap::snapshot::ShmsMetadata;
use snap::tmpfs::format_option_string;

const PAGE: u64 = 4096;

fn frames(pfns: &[u64]) -> FrameSet {
    let mut s = FrameSet::new();
    for &p in pfns {
        s.insert(p);
    }
    s
}

fn process(pid: i32, uid: u32, pfns: &[u64], env: &[(&str, &str)]) -> ProcessInfo {
    ProcessInfo {
        pid,
        uid,
        comm: Some(format!("proc{}", pid)),
        environ: env.iter().map(|(k, v)| (k.to_string(), v.to_string())).collect(),
        pfns: frames(pfns),
        anon_pfns: FrameSet::new(),
        swap_pages: SlotSet::new(),
        anon_swap_pages: SlotSet::new(),
        referenced_shms: IdxSet::new(),
        rss: pfns.len() as u64 * PAGE,
        vsz: 0,
        pte: 1,
        fds: 2,
        unknown_shm: VecSet::new(),
    }
}

fn pids_of(infos: &[ProcessInfo]) -> Vec<i32> {
    let mut v: Vec<i32> = infos.iter().map(|p| p.pid).collect();
    v.sort();
    v
}

#[test]
fn uid_split_partitions_and_collects_back() {
    let tree = ProcessTree::new(Vec::new());
    let shms = ShmsMetadata::new();
    let input = vec![
        process(101, 1000, &[10], &[]),
        process(102, 0, &[11], &[]),
        process(103, 1000, &[12], &[]),
    ];
    let mut splitter = ProcessSplitterUid::new();
    splitter.split(&tree, &shms, input);
    let groups = splitter.iter_groups();
    assert_eq!(groups.len(), 2);
    let total: usize = groups.iter().map(|g| g.processes_info.len()).sum();
    assert_eq!(total, 3);
    for g in groups.iter() {
        let uid = g.processes_info[0].uid;
        for p in &g.processes_info {
            assert_eq!(p.uid, uid);
        }
    }
    let back = splitter.collect_processes();
    assert_eq!(pids_of(&back), vec![101, 102, 103]);
}

#[test]
fn env_split_keys_on_values_and_absence() {
    let tree = ProcessTree::new(Vec::new());
    let shms = ShmsMetadata::new();
    let input = vec![
        process(1, 0, &[1], &[("SID", "A")]),
        process(2, 0, &[2], &[("SID", "B")]),
        process(3, 0, &[3], &[("SID", "A")]),
        process(4, 0, &[4], &[]),
    ];
    let mut splitter = ProcessSplitterEnvVariable::new("SID");
    splitter.split(&tree, &shms, input);
    let groups = splitter.iter_groups();
    assert_eq!(groups.len(), 3);
    let mut names: Vec<String> = groups.iter().map(|g| g.name.clone()).collect();
    names.sort();
    assert_eq!(names, vec!["None", "Some(\"A\")", "Some(\"B\")"]);
    let back = splitter.collect_processes();
    assert_eq!(pids_of(&back), vec![1, 2, 3, 4]);
}

#[test]
fn custom_split_drains_in_order_into_named_groups() {
    let tree = ProcessTree::new(Vec::new());
    let shms = ShmsMetadata::new();
    let input = vec![
        process(1, 0, &[1], &[]),
        process(2, 1000, &[2], &[]),
        process(3, 2000, &[3], &[]),
    ];
    // the second filter matches process 1 as well, but the first drains it
    let mut splitter = ProcessSplitterCustomFilter::new("uid(0),true()").unwrap();
    splitter.split(&tree, &shms, input);
    let groups = splitter.iter_groups();
    assert_eq!(groups.len(), 3);
    assert_eq!(groups[0].name, "uid(0)");
    assert_eq!(groups[1].name, "true()");
    assert_eq!(groups[2].name, "Other");
    assert_eq!(pids_of(&groups[0].processes_info), vec![1]);
    assert_eq!(pids_of(&groups[1].processes_info), vec![2, 3]);
    assert_eq!(pids_of(&groups[2].processes_info), Vec::<i32>::new());
    let back = splitter.collect_processes();
    assert_eq!(pids_of(&back), vec![1, 2, 3]);
}

#[test]
fn custom_split_rejects_non_ascii() {
    assert!(ProcessSplitterCustomFilter::new("uid(\u{e9})").is_err());
}

#[test]
fn group_merges_member_sets() {
    let shms = ShmsMetadata::new();
    let infos = vec![
        process(1, 0, &[10, 11], &[]),
        process(2, 0, &[11, 12], &[]),
    ];
    let g = snap::get_processes_group_info(infos, "g", &shms);
    assert_eq!(g.name, "g");
    assert_eq!(g.pfns.len(), 3);
    assert!(g.pfns.contains(&10));
    assert!(g.pfns.contains(&11));
    assert!(g.pfns.contains(&12));
    assert_eq!(g.pte, 2);
    assert_eq!(g.fds, 4);
}

#[test]
fn single_group_owns_all_of_its_memory() {
    // two processes of one user: pfns {10,11,12} and {12,13}
    let tree = ProcessTree::new(Vec::new());
    let shms = ShmsMetadata::new();
    let input = vec![
        process(101, 1000, &[10, 11, 12], &[]),
        process(102, 1000, &[12, 13], &[]),
    ];
    let mut splitter = ProcessSplitterUid::new();
    splitter.split(&tree, &shms, input);
    let rows = splitter.display(&shms, PAGE);
    assert_eq!(rows.len(), 1);
    assert_eq!(rows[0].procs, 2);
    assert_eq!(rows[0].mem_rss, 4 * PAGE);
    assert_eq!(rows[0].mem_uss, 4 * PAGE);
}

#[test]
fn shared_page_leaves_exclusive_memory() {
    // the same two processes split into {101} and the rest: frame 12 is
    // shared between the groups
    let tree = ProcessTree::new(Vec::new());
    let shms = ShmsMetadata::new();
    let input = vec![
        process(101, 1000, &[10, 11, 12], &[]),
        process(102, 1000, &[12, 13], &[]),
    ];
    let mut splitter = ProcessSplitterCustomFilter::new("pid(101)").unwrap();
    splitter.split(&tree, &shms, input);
    let rows = splitter.display(&shms, PAGE);
    assert_eq!(rows.len(), 2);
    // sorted by descending total: the pid(101) group comes first
    assert_eq!(rows[0].group_name, "pid(101)");
    assert_eq!(rows[0].mem_rss, 3 * PAGE);
    assert_eq!(rows[0].mem_uss, 2 * PAGE);
    assert_eq!(rows[1].group_name, "Other");
    assert_eq!(rows[1].mem_rss, 2 * PAGE);
    assert_eq!(rows[1].mem_uss, 1 * PAGE);
    // exclusive memory never exceeds the total
    for row in &rows {
        assert!(row.mem_uss <= row.mem_rss);
        assert!(row.swap_uss <= row.swap_rss);
    }
}

#[test]
fn display_is_a_function_of_the_groups() {
    let tree = ProcessTree::new(Vec::new());
    let shms = ShmsMetadata::new();
    let input = vec![
        process(101, 1000, &[10, 11, 12], &[]),
        process(102, 2000, &[12, 13], &[]),
    ];
    let mut splitter = ProcessSplitterUid::new();
    splitter.split(&tree, &shms, input);
    let rows1 = splitter.display(&shms, PAGE);
    let rows2 = splitter.display(&shms, PAGE);
    assert_eq!(rows1.len(), rows2.len());
    for (a, b) in rows1.iter().zip(rows2.iter()) {
        assert_eq!(a.group_name, b.group_name);
        assert_eq!(a.procs, b.procs);
        assert_eq!(a.mem_rss, b.mem_rss);
        assert_eq!(a.mem_uss, b.mem_uss);
        assert_eq!(a.swap_rss, b.swap_rss);
        assert_eq!(a.swap_uss, b.swap_uss);
        assert_eq!(a.shm_mem, b.shm_mem);
        assert_eq!(a.shm_swap, b.shm_swap);
    }
}

#[test]
fn format_option_string_forms() {
    assert_eq!(format_option_string(&None), "None");
    assert_eq!(format_option_string(&Some("abc".to_string())), "Some(\"abc\")");
}

#[test]
fn splitters_chain_through_collect() {
    let tree = ProcessTree::new(Vec::new());
    let shms = ShmsMetadata::new();
    let input = vec![
        process(1, 0, &[1], &[("SID", "A")]),
        process(2, 1000, &[2], &[]),
    ];
    let mut by_uid = ProcessSplitterUid::new();
    by_uid.split(&tree, &shms, input);
    let survivors = by_uid.collect_processes();
    let mut by_env = ProcessSplitterEnvVariable::new("SID");
    by_env.split(&tree, &shms, survivors);
    let back = by_env.collect_processes();
    assert_eq!(pids_of(&back), vec![1, 2]);
}
