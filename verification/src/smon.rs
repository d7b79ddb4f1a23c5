//! The database-instance records the engine consumes.
//!
//! Discovering an instance and querying it happen outside the core,
//! through a privilege-switching collaborator; the core only recognises
//! monitor processes in a snapshot and carries the structured record
//! back.

use vstd::prelude::*;

verus! {

/// A database's large-page configuration value.
#[derive(Clone, Copy, PartialEq, Eq, Structural, Debug)]
pub enum LargePages {
    True,
    False,
    Only,
    AutoOnly,
}

/// One discovered database instance, as the external collaborator
/// reports it.
pub struct SmonInfo {
    pub pid: i32,
    pub sid: String,
    pub sga_size: u64,
    pub large_pages: LargePages,
    pub processes: u64,
    pub pga_size: u64,
}

/// A character with its ASCII lowercase letter raised.
pub open spec fn ascii_upper(c: char) -> char {
    if 97 <= c as int <= 122 {
        ((c as int - 32) as u8) as char
    } else {
        c
    }
}

/// `s` equals `t` once its ASCII lowercase letters are raised.
pub open spec fn matches_upper(s: Seq<char>, t: Seq<char>) -> bool {
    s.len() == t.len() && (forall|i: int| 0 <= i < s.len() ==> ascii_upper(#[trigger] s[i]) == t[i])
}

/// The value a configuration string denotes, matching the four names
/// with ASCII letters compared case-insensitively.
pub open spec fn spec_parse_large_pages(s: Seq<char>) -> Option<LargePages> {
    if matches_upper(s, "TRUE"@) {
        Some(LargePages::True)
    } else if matches_upper(s, "FALSE"@) {
        Some(LargePages::False)
    } else if matches_upper(s, "ONLY"@) {
        Some(LargePages::Only)
    } else if matches_upper(s, "AUTO_ONLY"@) {
        Some(LargePages::AutoOnly)
    } else {
        None
    }
}

fn eq_upper(s: &str, t: &str) -> (r: bool)
    ensures
        r == matches_upper(s@, t@),
{
    let ns = s.unicode_len();
    let nt = t.unicode_len();
    if ns != nt {
        return false;
    }
    for i in 0..ns
        invariant
            ns == s@.len(),
            ns == t@.len(),
            forall|j: int| 0 <= j < i ==> ascii_upper(#[trigger] s@[j]) == t@[j],
    {
        let c = s.get_char(i);
        let cv = c as u32;
        let up: u32 = if 97 <= cv && cv <= 122 {
            cv - 32
        } else {
            cv
        };
        let tc = t.get_char(i) as u32;
        if up != tc {
            proof {
                assert(ascii_upper(s@[i as int]) as u32 == up);
                assert(ascii_upper(s@[i as int]) != t@[i as int]);
            }
            return false;
        }
        proof {
            assert(ascii_upper(s@[i as int]) as u32 == up);
            assert(up == t@[i as int] as u32);
            assert(ascii_upper(s@[i as int]) == t@[i as int]);
        }
    }
    true
}

impl LargePages {
    /// Parses a configuration value, comparing ASCII letters without
    /// regard to case.
    pub fn parse(s: &str) -> (r: Option<LargePages>)
        ensures
            r == spec_parse_large_pages(s@),
    {
        if eq_upper(s, "TRUE") {
            Some(LargePages::True)
        } else if eq_upper(s, "FALSE") {
            Some(LargePages::False)
        } else if eq_upper(s, "ONLY") {
            Some(LargePages::Only)
        } else if eq_upper(s, "AUTO_ONLY") {
            Some(LargePages::AutoOnly)
        } else {
            None
        }
    }
}

/// `p` is a prefix of `s`.
pub open spec fn has_prefix(s: Seq<char>, p: Seq<char>) -> bool {
    s.len() >= p.len() && s.subrange(0, p.len() as int) == p
}

fn starts_with(s: &str, p: &str) -> (r: bool)
    ensures
        r == has_prefix(s@, p@),
{
    let ns = s.unicode_len();
    let np = p.unicode_len();
    if ns < np {
        return false;
    }
    for i in 0..np
        invariant
            ns == s@.len(),
            np == p@.len(),
            np <= ns,
            forall|j: int| 0 <= j < i ==> s@[j] == p@[j],
    {
        if s.get_char(i) != p.get_char(i) {
            proof {
                if has_prefix(s@, p@) {
                    assert(s@.subrange(0, p@.len() as int)[i as int] == s@[i as int]);
                }
            }
            return false;
        }
    }
    proof {
        assert(s@.subrange(0, p@.len() as int) =~= p@);
    }
    true
}

/// Whether a command line is a database monitor process's: exactly one
/// entry, carrying one of the two monitor name prefixes.
pub fn is_smon_cmdline(cmdline: &Vec<String>) -> (r: bool)
    ensures
        r == (cmdline@.len() == 1 && (has_prefix(cmdline@[0]@, "ora_pmon_"@) || has_prefix(
            cmdline@[0]@,
            "asm_pmon_"@,
        ))),
{
    if cmdline.len() != 1 {
        return false;
    }
    let first = &cmdline[0];
    starts_with(first.as_str(), "ora_pmon_") || starts_with(first.as_str(), "asm_pmon_")
}

/// The known kernel structure sizes, by exact kernel version: the sizes
/// of the kernel's per-process file table and task structures.
pub struct KernelVersion {
    pub major: u8,
    pub minor: u8,
    pub patch: u16,
}

/// Returns `(files_struct size, task_struct size)` for the kernels whose
/// layouts are known, and `None` for any other version.
pub fn get_kernel_datastructure_size(current_kernel: KernelVersion) -> (r: Option<(u64, u64)>)
    ensures
        current_kernel.major == 5 && current_kernel.minor == 4 && current_kernel.patch == 17
            ==> r == Some((704u64, 9408u64)),
        current_kernel.major == 5 && current_kernel.minor == 15 && current_kernel.patch == 0
            ==> r == Some((704u64, 9856u64)),
        !(current_kernel.major == 5 && (current_kernel.minor == 4 && current_kernel.patch == 17
            || current_kernel.minor == 15 && current_kernel.patch == 0)) ==> r is None,
{
    if current_kernel.major == 5 && current_kernel.minor == 4 && current_kernel.patch == 17 {
        Some((704, 9408))
    } else if current_kernel.major == 5 && current_kernel.minor == 15 && current_kernel.patch
        == 0 {
        Some((704, 9856))
    } else {
        None
    }
}

} // verus!
