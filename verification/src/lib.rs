//! Per-group memory attribution for sets of operating-system processes.
//!
//! Many processes share physical pages, so summing per-process resident
//! sizes double-counts memory.  This crate attributes physical frames
//! (PFNs) and swap slots to named groups of processes: it models a
//! point-in-time snapshot of processes, their memory mappings and the
//! SysV shared-memory inventory, partitions the processes into groups
//! (by owning user, by an environment variable, or by a chain of filter
//! expressions), and computes per-group total ("rss") and exclusive
//! ("uss") memory by set algebra over the merged frame and swap-slot
//! sets.

pub mod digits;
pub mod filters;
pub mod groups;
pub mod iomem;
pub mod process_tree;
pub mod procinfo;
pub mod scan;
pub mod sets;
pub mod shm;
pub mod smon;
pub mod snapshot;
pub mod tmpfs;

pub use iomem::compute_compound_pages;
pub use iomem::get_pfn_count;
pub use iomem::get_size;
pub use iomem::index_to_pfn;
pub use iomem::pfn_is_in_ram;
pub use iomem::pfn_to_index;
pub use iomem::PhysicalMemoryMap;
pub use iomem::FLAG_NAMES;

pub use procinfo::get_process_info;
pub use procinfo::ProcInfoError;
pub use procinfo::ProcessInfo;

pub use groups::get_processes_group_info;
pub use groups::ProcessGroupDisplayRow;
pub use groups::ProcessGroupInfo;

pub use shm::shm2pfns;
pub use shm::PfnFlagsTable;

pub use smon::get_kernel_datastructure_size;
pub use smon::LargePages;
pub use smon::SmonInfo;

pub use snapshot::ShmPages;
pub use snapshot::ShmReference;
pub use snapshot::ShmSegment;
pub use snapshot::ShmsMetadata;
