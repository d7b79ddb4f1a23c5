use snap::iomem::PhysicalMemoryMap;
use snap::procinfo::ProcInfoError;
use snap::scan::admit_process;
use snap::scan::SingleScan;
use snap::shm::FLAG_COMPOUND_HEAD;
use snap::shm::FLAG_COMPOUND_TAIL;
use snap::shm::FLAG_HUGE;
use snap::smon::KernelVersion;
use snap::smon::LargePages;
use snap::snapshot::MappingKind;
use snap::snapshot::MappingRecord;
use snap::snapshot::PageLocation;
use snap::snapshot::ProcessScan;
use snap::snapshot::ShmSegment;
use snap::snapshot::ShmsMetadata;
use snap::PfnFlagsTable;

const PAGE: u64 = 4096;

fn segment(key: i32, shmid: u64, size: u64, rss: u64, swap: u64) -> ShmSegment {
    ShmSegment { key, shmid, size, rss, swap }
}

#[test]
fn swapped_segment_is_skipped_unless_forced() {
    let flags = PfnFlagsTable::new();
    let shm = segment(7, 1, 8 * PAGE, 4 * PAGE, PAGE);
    let pages = vec![PageLocation::Frame(10)];
    assert!(snap::shm2pfns(&flags, &shm, false, &pages).is_none());
    assert!(snap::shm2pfns(&flags, &shm, true, &pages).is_some());
    let clean = segment(7, 1, 8 * PAGE, 4 * PAGE, 0);
    assert!(snap::shm2pfns(&flags, &clean, false, &pages).is_some());
}

#[test]
fn huge_pages_aggregate_in_units_of_512() {
    let mut flags = PfnFlagsTable::new();
    let mut pages = Vec::new();
    for i in 0..512u64 {
        let pfn = i + 1;
        if i == 0 {
            flags.push(pfn, FLAG_COMPOUND_HEAD | FLAG_HUGE);
        } else {
            flags.push(pfn, FLAG_COMPOUND_TAIL | FLAG_HUGE);
        }
        pages.push(PageLocation::Frame(pfn));
    }
    let shm = segment(1, 1, 512 * PAGE, 512 * PAGE, 0);
    let sp = snap::shm2pfns(&flags, &shm, false, &pages).unwrap();
    assert_eq!(sp.pages_4k, 0);
    assert_eq!(sp.pages_2m, 1);
    assert_eq!(sp.pfns.len(), 512);
}

#[test]
fn shm_walk_collects_frames_and_slots() {
    let mut flags = PfnFlagsTable::new();
    flags.push(10, 0);
    let shm = segment(1, 1, 4 * PAGE, 2 * PAGE, 0);
    let pages = vec![
        PageLocation::Frame(10),
        PageLocation::Frame(0),
        PageLocation::Swapped(1, 99),
        PageLocation::Frame(11),
    ];
    let sp = snap::shm2pfns(&flags, &shm, false, &pages).unwrap();
    assert!(sp.pfns.contains(&10));
    assert!(sp.pfns.contains(&11));
    assert!(!sp.pfns.contains(&0));
    assert_eq!(sp.pfns.len(), 2);
    assert_eq!(sp.swap_pages.len(), 1);
    // frame 11 was never read into the flags table: not counted as in RAM
    assert_eq!(sp.pages_4k, 1);
    assert_eq!(sp.pages_2m, 0);
}

fn mapping(kind: MappingKind, start: u64, end: u64, inode: u64, pages: Vec<PageLocation>) -> MappingRecord {
    MappingRecord { start, end, inode, kind, pages }
}

#[test]
fn process_info_attributes_by_mapping_kind() {
    let mut shms = ShmsMetadata::new();
    shms.push(segment(7, 42, 8 * PAGE, 4 * PAGE, 0), None);
    let scan = ProcessScan {
        pid: 100,
        uid: 1000,
        comm: Some("worker".to_string()),
        cmdline: vec!["worker".to_string()],
        environ: vec![("SID".to_string(), "A".to_string())],
        pte: 64,
        fds: 5,
        mappings: vec![
            mapping(
                MappingKind::File,
                0x1000,
                0x4000,
                0,
                vec![
                    PageLocation::Frame(5),
                    PageLocation::Frame(0),
                    PageLocation::Swapped(1, 2),
                ],
            ),
            mapping(MappingKind::Anon, 0x8000, 0x9000, 0, vec![PageLocation::Frame(6)]),
            mapping(MappingKind::Vsyscall, 0xff00000, 0xff01000, 0, vec![
                PageLocation::Frame(9),
            ]),
            mapping(MappingKind::Shm(7), 0x10000, 0x12000, 42, Vec::new()),
            mapping(MappingKind::Shm(8), 0x20000, 0x21000, 1, Vec::new()),
        ],
    };
    let info = snap::get_process_info(scan, &shms, PAGE).unwrap();
    assert_eq!(info.pid, 100);
    assert_eq!(info.uid, 1000);
    // frames: 5 from the file mapping, 6 from the anonymous one; never
    // frame 0, and the vsyscall page is skipped entirely
    assert_eq!(info.pfns.len(), 2);
    assert!(info.pfns.contains(&5));
    assert!(info.pfns.contains(&6));
    assert!(!info.pfns.contains(&0));
    assert!(!info.pfns.contains(&9));
    // anonymous frames are a subset reported separately
    assert_eq!(info.anon_pfns.len(), 1);
    assert!(info.anon_pfns.contains(&6));
    assert_eq!(info.swap_pages.len(), 1);
    assert_eq!(info.anon_swap_pages.len(), 0);
    // two resident pages
    assert_eq!(info.rss, 2 * PAGE);
    // every mapping size but the vsyscall page
    assert_eq!(info.vsz, 0x3000 + 0x1000 + 0x2000 + 0x1000);
    // the known segment is referenced, the unknown one reported
    assert_eq!(info.referenced_shms.len(), 1);
    assert!(info.referenced_shms.contains(&0));
    assert_eq!(info.unknown_shm.len(), 1);
    assert_eq!(info.pte, 64);
    assert_eq!(info.fds, 5);
}

#[test]
fn kernel_process_yields_no_info() {
    let shms = ShmsMetadata::new();
    let scan = ProcessScan {
        pid: 2,
        uid: 0,
        comm: Some("kthreadd".to_string()),
        cmdline: Vec::new(),
        environ: Vec::new(),
        pte: 0,
        fds: 0,
        mappings: Vec::new(),
    };
    match snap::get_process_info(scan, &shms, PAGE) {
        Err(e) => assert_eq!(e, ProcInfoError::KernelProcess),
        Ok(_) => panic!("kernel process unexpectedly yielded info"),
    }
}

fn ram(start: u64, end: u64) -> PhysicalMemoryMap {
    PhysicalMemoryMap { address: (start, end), name: "System RAM".to_string() }
}

#[test]
fn pfn_index_conversions_invert() {
    let iomem = vec![ram(10 * PAGE, 20 * PAGE), ram(100 * PAGE, 110 * PAGE)];
    assert_eq!(snap::pfn_to_index(&iomem, PAGE, 0), None);
    assert_eq!(snap::pfn_to_index(&iomem, PAGE, 15), Some(5));
    assert_eq!(snap::pfn_to_index(&iomem, PAGE, 5), None);
    assert_eq!(snap::pfn_to_index(&iomem, PAGE, 50), None);
    assert_eq!(snap::pfn_to_index(&iomem, PAGE, 105), Some(11 + 5));
    assert_eq!(snap::index_to_pfn(&iomem, PAGE, 5), Some(15));
    assert_eq!(snap::index_to_pfn(&iomem, PAGE, 16), Some(105));
    assert_eq!(snap::index_to_pfn(&iomem, PAGE, 999), None);
}

#[test]
fn ram_membership_counts_only_ram_segments() {
    let iomem = vec![
        PhysicalMemoryMap { address: (0, 4 * PAGE), name: "Reserved".to_string() },
        ram(10 * PAGE, 20 * PAGE),
        ram(100 * PAGE, 110 * PAGE),
    ];
    assert_eq!(snap::pfn_is_in_ram(&iomem, PAGE, 15), Some(0));
    assert_eq!(snap::pfn_is_in_ram(&iomem, PAGE, 105), Some(1));
    assert_eq!(snap::pfn_is_in_ram(&iomem, PAGE, 1), None);
}

#[test]
fn pfn_count_and_size() {
    let iomem = vec![ram(0, 10 * 4096), ram(100 * 4096, 104 * 4096)];
    assert_eq!(snap::get_pfn_count(&iomem), 14);
    assert_eq!(snap::get_size(&iomem[0]), 10 * 4096);
}

#[test]
fn compound_pages_merge_head_flags_into_tails() {
    let data = vec![
        FLAG_COMPOUND_HEAD | FLAG_HUGE,
        FLAG_COMPOUND_TAIL,
        1u64,  // a plain page with the first flag bit
    ];
    let counters = snap::compute_compound_pages(&data);
    assert_eq!(counters.len(), 28);
    assert_eq!(counters[0], 1);  // LOCKED on the plain page
    assert_eq!(counters[15], 1);  // COMPOUND_HEAD on the head only
    assert_eq!(counters[16], 1);  // COMPOUND_TAIL on the tail only
    assert_eq!(counters[17], 2);  // HUGE inherited by the tail
    assert_eq!(snap::FLAG_NAMES[17], "HUGE");
}

#[test]
fn large_pages_parse_is_case_insensitive() {
    assert_eq!(LargePages::parse("TRUE"), Some(LargePages::True));
    assert_eq!(LargePages::parse("true"), Some(LargePages::True));
    assert_eq!(LargePages::parse("False"), Some(LargePages::False));
    assert_eq!(LargePages::parse("only"), Some(LargePages::Only));
    assert_eq!(LargePages::parse("auto_only"), Some(LargePages::AutoOnly));
    assert_eq!(LargePages::parse("AUTO_ONLY"), Some(LargePages::AutoOnly));
    assert_eq!(LargePages::parse("never"), None);
    assert_eq!(LargePages::parse(""), None);
}

#[test]
fn smon_cmdlines_are_recognised() {
    let one = vec!["ora_pmon_PROD".to_string()];
    assert!(snap::smon::is_smon_cmdline(&one));
    let second = vec!["asm_pmon_+X".to_string()];
    assert!(snap::smon::is_smon_cmdline(&second));
    let other = vec!["bash".to_string()];
    assert!(!snap::smon::is_smon_cmdline(&other));
    let two = vec!["ora_pmon_A".to_string(), "x".to_string()];
    assert!(!snap::smon::is_smon_cmdline(&two));
}

#[test]
fn kernel_structure_sizes_by_version() {
    let v = KernelVersion { major: 5, minor: 4, patch: 17 };
    assert_eq!(snap::get_kernel_datastructure_size(v), Some((704, 9408)));
    let v = KernelVersion { major: 5, minor: 15, patch: 0 };
    assert_eq!(snap::get_kernel_datastructure_size(v), Some((704, 9856)));
    let v = KernelVersion { major: 6, minor: 1, patch: 0 };
    assert_eq!(snap::get_kernel_datastructure_size(v), None);
}

#[test]
fn memory_ceiling_warns_exactly_once() {
    let mut hit = false;
    assert_eq!(admit_process(10, 5, &mut hit), (false, true));
    assert!(hit);
    assert_eq!(admit_process(11, 5, &mut hit), (false, false));
    assert_eq!(admit_process(3, 5, &mut hit), (true, false));
    assert!(hit);
}

#[test]
fn single_scan_folds_running_sets() {
    let mut shms = ShmsMetadata::new();
    shms.push(segment(7, 42, 8 * PAGE, 4 * PAGE, 0), None);
    let mut scan = SingleScan::new();
    let scan_a = ProcessScan {
        pid: 1,
        uid: 0,
        comm: None,
        cmdline: vec!["a".to_string()],
        environ: Vec::new(),
        pte: 0,
        fds: 0,
        mappings: vec![mapping(MappingKind::File, 0, PAGE, 0, vec![PageLocation::Frame(5)])],
    };
    let scan_b = ProcessScan {
        pid: 2,
        uid: 0,
        comm: None,
        cmdline: vec!["b".to_string()],
        environ: Vec::new(),
        pte: 0,
        fds: 0,
        mappings: vec![mapping(MappingKind::File, 0, PAGE, 0, vec![
            PageLocation::Frame(5),
            PageLocation::Frame(6),
        ])],
    };
    let a = snap::get_process_info(scan_a, &shms, PAGE).unwrap();
    let b = snap::get_process_info(scan_b, &shms, PAGE).unwrap();
    scan.add_process(&a);
    scan.add_process(&b);
    assert_eq!(scan.scanned_processes, 2);
    // frame 5 is shared: the running set holds it once
    assert_eq!(scan.mem_pages.len(), 2);
    assert_eq!(scan.totals(PAGE), (2 * PAGE, 0));
}

#[test]
fn tmpfs_usage_from_block_counts() {
    assert_eq!(snap::tmpfs::tmpfs_usage(1024, 10, 4), (10240, 6144));
}

#[test]
fn byte_formatter_renders_megabytes() {
    let s = snap::tmpfs::format_units_MiB(&1_000_000u64);
    assert!(s.ends_with("MB"), "unexpected rendering: {s}");
}
