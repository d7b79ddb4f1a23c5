//! Tmpfs mount metadata and the size formatting used by the reports.

use vstd::prelude::*;

verus! {

/// One tmpfs mount: its mount point, swap policy, transparent-huge-page
/// setting, and its total and used byte sizes.
pub struct TmpfsMetadata {
    /// Mount point.
    pub mount_point: String,
    /// The mount refuses swap (the kernel's `noswap` super option).
    pub noswap: bool,
    /// The mount's `huge` super option, when present.
    pub huge: Option<String>,
    /// Filesystem size in bytes.
    pub fs_size: u64,
    /// Used space in bytes.
    pub fs_used: u64,
}

/// The text `format_option_string` builds: `None`, or the value in
/// quotes inside `Some(..)`.
pub open spec fn spec_option_string(v: Option<Seq<char>>) -> Seq<char> {
    match v {
        None => "None"@,
        Some(s) => "Some(\""@ + s + "\")"@,
    }
}

/// Renders an optional string the way an option debug-prints, quoting
/// the value verbatim.
pub fn format_option_string(val: &Option<String>) -> (r: String)
    ensures
        r@ == spec_option_string(
            match val {
                Some(s) => Some(s@),
                None => None,
            },
        ),
{
    match val {
        None => {
            let r: &str = "None";
            r.to_owned()
        },
        Some(s) => {
            let prefix: &str = "Some(\"";
            let suffix: &str = "\")";
            prefix.to_owned().concat(s.as_str()).concat(suffix)
        },
    }
}

/// Derives a tmpfs mount's total and used byte counts from its block
/// counts, as the filesystem statistics call reports them.
pub fn tmpfs_usage(block_size: u64, blocks: u64, blocks_free: u64) -> (r: (u64, u64))
    requires
        blocks_free <= blocks,
        block_size * blocks <= u64::MAX,
    ensures
        r.0 == block_size * blocks,
        r.1 == block_size * blocks - block_size * blocks_free,
{
    proof {
        assert(block_size * blocks_free <= block_size * blocks) by (nonlinear_arith)
            requires
                blocks_free <= blocks,
        ;
    }
    let fs_size = block_size * blocks;
    let fs_free = block_size * blocks_free;
    (fs_size, fs_size - fs_free)
}

/// A kind-4 name for what the byte formatter returns on one value: the
/// text depends on the value alone.
pub uninterp spec fn mib_units_of(value: u64) -> Seq<char>;

/// Relies on humansize's `format_size`: renders a byte count in decimal
/// units fixed at megabytes; the text is a pure function of the value.
#[verifier::external_body]
#[allow(non_snake_case)]
pub fn format_units_MiB(value: &u64) -> (r: String)
    ensures
        r@ == mib_units_of(*value),
{
    let format = humansize::FormatSizeOptions::from(humansize::DECIMAL).fixed_at(
        Some(humansize::FixedAt::Mega),
    );
    humansize::format_size(*value, format)
}

} // verus!
