//! The memory usage hierarchy: what `/proc/meminfo` reports, split further
//! with the totals counted from the other files.
use vstd::prelude::*;
use vstd::wrapping::u64_specs::{wrapping_add, wrapping_sub};

use crate::proc::MemInfo;

verus! {

/// The memory usage hierarchy. Differences and sums past the range of `u64`
/// wrap.
#[derive(Debug, Clone, Copy)]
pub struct Summary {
    /// RAM that is neither kernel nor in `MemTotal`.
    pub system_ram_reserved: u64,
    /// Available but not free.
    pub not_free: u64,
    /// `MemTotal` less `MemAvailable`.
    pub used: u64,
    /// Unreclaimable slab, kernel stacks and page tables.
    pub kernel: u64,
    /// Used memory that no other line accounts for: the active cache.
    pub other_used: u64,
    /// The part of `Cached` that is not in use.
    pub unused_cache: u64,
    /// Not free memory that no other line accounts for.
    pub other_not_free: u64,
    /// Private memory of the processes, with their exes and libs.
    pub user: u64,
    /// `user` with the kernel modules.
    pub total_used: u64,
    /// Private memory of the processes other than this program's.
    pub other_private: u64,
}

/// The cache, and the used memory it accounts for, once the unused cache is
/// held to the not free memory that it can be: the excess moves to the used
/// memory.
pub open spec fn cache_split(unused_cache: u64, other_used: u64, other_not_free: u64) -> (u64, u64) {
    if unused_cache > other_not_free {
        let delta = wrapping_sub(unused_cache, other_not_free);
        (wrapping_sub(unused_cache, delta), wrapping_add(other_used, delta))
    } else {
        (unused_cache, other_used)
    }
}

/// Splits the memory of `/proc/meminfo` (`mem`) with the sizes counted from
/// `/proc/iomem` (`ram_size`, `kernel_size`), from the processes
/// (`total_private`, `total_exes`, `total_libs`, and `own_private` of this
/// program) and from `/proc/modules` (`modules_used`).
pub fn summarize(
    ram_size: u64,
    kernel_size: u64,
    mem: &MemInfo,
    total_private: u64,
    total_exes: u64,
    total_libs: u64,
    own_private: u64,
    modules_used: u64,
) -> (s: Summary)
    ensures
        s.system_ram_reserved == wrapping_sub(wrapping_sub(ram_size, kernel_size), mem.mem_total),
        s.not_free == wrapping_sub(mem.mem_available, mem.mem_free),
        s.used == wrapping_sub(mem.mem_total, mem.mem_available),
        s.kernel == wrapping_add(
            wrapping_add(wrapping_add(mem.s_unreclaim, mem.kernel_stack), mem.page_tables),
            mem.sec_page_tables,
        ),
        ({
            let first_other = wrapping_sub(
                wrapping_sub(
                    wrapping_sub(wrapping_sub(wrapping_sub(s.used, total_private), total_exes), total_libs),
                    s.kernel,
                ),
                mem.vmalloc_used,
            );
            let first_unused = wrapping_sub(mem.cached, first_other);
            let first_not_free = wrapping_sub(wrapping_sub(s.not_free, mem.buffers), mem.k_reclaimable);
            let (unused, other) = cache_split(first_unused, first_other, first_not_free);
            &&& s.unused_cache == unused
            &&& s.other_used == other
            &&& s.other_not_free == wrapping_sub(first_not_free, unused)
        }),
        s.user == wrapping_add(wrapping_add(total_private, total_exes), total_libs),
        s.total_used == wrapping_add(s.user, modules_used),
        s.other_private == wrapping_sub(total_private, own_private),
{
    let system_ram_reserved = ram_size.wrapping_sub(kernel_size).wrapping_sub(mem.mem_total);
    let not_free = mem.mem_available.wrapping_sub(mem.mem_free);
    let used = mem.mem_total.wrapping_sub(mem.mem_available);
    let kernel = mem.s_unreclaim.wrapping_add(mem.kernel_stack).wrapping_add(mem.page_tables).wrapping_add(
        mem.sec_page_tables,
    );
    let mut other_used = used.wrapping_sub(total_private).wrapping_sub(total_exes).wrapping_sub(
        total_libs,
    ).wrapping_sub(kernel).wrapping_sub(mem.vmalloc_used);
    let mut unused_cache = mem.cached.wrapping_sub(other_used);
    let mut other_not_free = not_free.wrapping_sub(mem.buffers).wrapping_sub(mem.k_reclaimable);
    if unused_cache > other_not_free {
        let delta = unused_cache.wrapping_sub(other_not_free);
        unused_cache = unused_cache.wrapping_sub(delta);
        other_used = other_used.wrapping_add(delta);
    }
    other_not_free = other_not_free.wrapping_sub(unused_cache);
    let user = total_private.wrapping_add(total_exes).wrapping_add(total_libs);
    Summary {
        system_ram_reserved,
        not_free,
        used,
        kernel,
        other_used,
        unused_cache,
        other_not_free,
        user,
        total_used: user.wrapping_add(modules_used),
        other_private: total_private.wrapping_sub(own_private),
    }
}

/// The split of `summarize`: the unused cache never exceeds the not free
/// memory that it is taken from, so `other_not_free` never wraps; and when
/// the used memory that no other line accounts for is at most `Cached`, the
/// unused cache and the active cache add up to `Cached`.
pub proof fn cache_split_adds_up(cached: u64, other_used: u64, other_not_free: u64)
    ensures
        cache_split(wrapping_sub(cached, other_used), other_used, other_not_free).0 <= other_not_free,
        other_used <= cached ==> cache_split(wrapping_sub(cached, other_used), other_used, other_not_free).0
            + cache_split(wrapping_sub(cached, other_used), other_used, other_not_free).1 == cached,
{
}

} // verus!
