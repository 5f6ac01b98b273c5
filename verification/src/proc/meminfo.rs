//! `/proc/meminfo`: the kernel's memory counters.
use vstd::prelude::*;
use vstd::wrapping::u64_specs;

use crate::text::{
    decimal, is_ws, lemma_decimal, lemma_parse_dec_decimal, lemma_trim_nonempty,
    lemma_words_first, lemma_words_two, no_ws, eq_lit, has_char, lemma_first_index_bounds, lemma_lines_first, lemma_lines_join,
    lemma_lines_single, lemma_push_ws, first_index, strip_cr, line_ranges, lines, parse_dec, parse_uint_range, trim, trim_end_char,
    trim_end_char_range, trim_range, to_chars, word_ranges, words,
};

verus! {

/// The counters of `/proc/meminfo`, in bytes.
#[derive(Debug, Clone, Copy)]
pub struct MemInfo {
    pub mem_total: u64,
    pub mem_free: u64,
    pub mem_available: u64,
    pub buffers: u64,
    pub cached: u64,
    pub swap_cached: u64,
    pub active: u64,
    pub inactive: u64,
    pub active_anon: u64,
    pub inactive_anon: u64,
    pub active_file: u64,
    pub inactive_file: u64,
    pub unevictable: u64,
    pub mlocked: u64,
    pub swap_total: u64,
    pub swap_free: u64,
    pub dirty: u64,
    pub writeback: u64,
    pub anon_pages: u64,
    pub mapped: u64,
    pub shmem: u64,
    pub k_reclaimable: u64,
    pub slab: u64,
    pub s_reclaimable: u64,
    pub s_unreclaim: u64,
    pub kernel_stack: u64,
    pub page_tables: u64,
    pub sec_page_tables: u64,
    pub nfs_unstable: u64,
    pub bounce: u64,
    pub writeback_tmp: u64,
    pub commit_limit: u64,
    pub committed_as: u64,
    pub vmalloc_total: u64,
    pub vmalloc_used: u64,
    pub vmalloc_chunk: u64,
    pub percpu: u64,
    pub hardware_corrupted: u64,
    pub anon_huge_pages: u64,
    pub shmem_huge_pages: u64,
    pub shmem_pmd_mapped: u64,
    pub file_huge_pages: u64,
    pub file_pmd_mapped: u64,
    pub cma_total: u64,
    pub cma_free: u64,
    pub hugepages_total: u64,
    pub hugepages_free: u64,
    pub hugepages_rsvd: u64,
    pub hugepages_surp: u64,
    pub hugepagesize: u64,
    pub direct_map_4k: u64,
    pub direct_map_2m: u64,
    pub direct_map_1g: u64,
    pub hugetlb: u64,
    pub per_cpu: u64,
}

/// A `MemInfo` with every counter 0.
pub open spec fn meminfo_zero() -> MemInfo {
    MemInfo {
        mem_total: 0,
        mem_free: 0,
        mem_available: 0,
        buffers: 0,
        cached: 0,
        swap_cached: 0,
        active: 0,
        inactive: 0,
        active_anon: 0,
        inactive_anon: 0,
        active_file: 0,
        inactive_file: 0,
        unevictable: 0,
        mlocked: 0,
        swap_total: 0,
        swap_free: 0,
        dirty: 0,
        writeback: 0,
        anon_pages: 0,
        mapped: 0,
        shmem: 0,
        k_reclaimable: 0,
        slab: 0,
        s_reclaimable: 0,
        s_unreclaim: 0,
        kernel_stack: 0,
        page_tables: 0,
        sec_page_tables: 0,
        nfs_unstable: 0,
        bounce: 0,
        writeback_tmp: 0,
        commit_limit: 0,
        committed_as: 0,
        vmalloc_total: 0,
        vmalloc_used: 0,
        vmalloc_chunk: 0,
        percpu: 0,
        hardware_corrupted: 0,
        anon_huge_pages: 0,
        shmem_huge_pages: 0,
        shmem_pmd_mapped: 0,
        file_huge_pages: 0,
        file_pmd_mapped: 0,
        cma_total: 0,
        cma_free: 0,
        hugepages_total: 0,
        hugepages_free: 0,
        hugepages_rsvd: 0,
        hugepages_surp: 0,
        hugepagesize: 0,
        direct_map_4k: 0,
        direct_map_2m: 0,
        direct_map_1g: 0,
        hugetlb: 0,
        per_cpu: 0,
    }
}

impl Default for MemInfo {
    fn default() -> (m: MemInfo)
        ensures
            m == meminfo_zero(),
    {
        MemInfo {
            mem_total: 0,
            mem_free: 0,
            mem_available: 0,
            buffers: 0,
            cached: 0,
            swap_cached: 0,
            active: 0,
            inactive: 0,
            active_anon: 0,
            inactive_anon: 0,
            active_file: 0,
            inactive_file: 0,
            unevictable: 0,
            mlocked: 0,
            swap_total: 0,
            swap_free: 0,
            dirty: 0,
            writeback: 0,
            anon_pages: 0,
            mapped: 0,
            shmem: 0,
            k_reclaimable: 0,
            slab: 0,
            s_reclaimable: 0,
            s_unreclaim: 0,
            kernel_stack: 0,
            page_tables: 0,
            sec_page_tables: 0,
            nfs_unstable: 0,
            bounce: 0,
            writeback_tmp: 0,
            commit_limit: 0,
            committed_as: 0,
            vmalloc_total: 0,
            vmalloc_used: 0,
            vmalloc_chunk: 0,
            percpu: 0,
            hardware_corrupted: 0,
            anon_huge_pages: 0,
            shmem_huge_pages: 0,
            shmem_pmd_mapped: 0,
            file_huge_pages: 0,
            file_pmd_mapped: 0,
            cma_total: 0,
            cma_free: 0,
            hugepages_total: 0,
            hugepages_free: 0,
            hugepages_rsvd: 0,
            hugepages_surp: 0,
            hugepagesize: 0,
            direct_map_4k: 0,
            direct_map_2m: 0,
            direct_map_1g: 0,
            hugetlb: 0,
            per_cpu: 0,
        }
    }
}

/// `m` with the counter that `key` names set to `v`; an unknown key changes
/// nothing.
pub open spec fn meminfo_set(m: MemInfo, key: Seq<char>, v: u64) -> MemInfo {
    if key == "MemTotal"@ {
        MemInfo { mem_total: v, ..m }
    } else if key == "MemFree"@ {
        MemInfo { mem_free: v, ..m }
    } else if key == "MemAvailable"@ {
        MemInfo { mem_available: v, ..m }
    } else if key == "Buffers"@ {
        MemInfo { buffers: v, ..m }
    } else if key == "Cached"@ {
        MemInfo { cached: v, ..m }
    } else if key == "SwapCached"@ {
        MemInfo { swap_cached: v, ..m }
    } else if key == "Active"@ {
        MemInfo { active: v, ..m }
    } else if key == "Inactive"@ {
        MemInfo { inactive: v, ..m }
    } else if key == "Active(anon)"@ {
        MemInfo { active_anon: v, ..m }
    } else if key == "Inactive(anon)"@ {
        MemInfo { inactive_anon: v, ..m }
    } else if key == "Active(file)"@ {
        MemInfo { active_file: v, ..m }
    } else if key == "Inactive(file)"@ {
        MemInfo { inactive_file: v, ..m }
    } else if key == "Unevictable"@ {
        MemInfo { unevictable: v, ..m }
    } else if key == "Mlocked"@ {
        MemInfo { mlocked: v, ..m }
    } else if key == "SwapTotal"@ {
        MemInfo { swap_total: v, ..m }
    } else if key == "SwapFree"@ {
        MemInfo { swap_free: v, ..m }
    } else if key == "Dirty"@ {
        MemInfo { dirty: v, ..m }
    } else if key == "Writeback"@ {
        MemInfo { writeback: v, ..m }
    } else if key == "AnonPages"@ {
        MemInfo { anon_pages: v, ..m }
    } else if key == "Mapped"@ {
        MemInfo { mapped: v, ..m }
    } else if key == "Shmem"@ {
        MemInfo { shmem: v, ..m }
    } else if key == "KReclaimable"@ {
        MemInfo { k_reclaimable: v, ..m }
    } else if key == "Slab"@ {
        MemInfo { slab: v, ..m }
    } else if key == "SReclaimable"@ {
        MemInfo { s_reclaimable: v, ..m }
    } else if key == "SUnreclaim"@ {
        MemInfo { s_unreclaim: v, ..m }
    } else if key == "KernelStack"@ {
        MemInfo { kernel_stack: v, ..m }
    } else if key == "PageTables"@ {
        MemInfo { page_tables: v, ..m }
    } else if key == "SecPageTables"@ {
        MemInfo { sec_page_tables: v, ..m }
    } else if key == "NFS_Unstable"@ {
        MemInfo { nfs_unstable: v, ..m }
    } else if key == "Bounce"@ {
        MemInfo { bounce: v, ..m }
    } else if key == "WritebackTmp"@ {
        MemInfo { writeback_tmp: v, ..m }
    } else if key == "CommitLimit"@ {
        MemInfo { commit_limit: v, ..m }
    } else if key == "Committed_AS"@ {
        MemInfo { committed_as: v, ..m }
    } else if key == "VmallocTotal"@ {
        MemInfo { vmalloc_total: v, ..m }
    } else if key == "VmallocUsed"@ {
        MemInfo { vmalloc_used: v, ..m }
    } else if key == "VmallocChunk"@ {
        MemInfo { vmalloc_chunk: v, ..m }
    } else if key == "Percpu"@ {
        MemInfo { percpu: v, ..m }
    } else if key == "HardwareCorrupted"@ {
        MemInfo { hardware_corrupted: v, ..m }
    } else if key == "AnonHugePages"@ {
        MemInfo { anon_huge_pages: v, ..m }
    } else if key == "ShmemHugePages"@ {
        MemInfo { shmem_huge_pages: v, ..m }
    } else if key == "ShmemPmdMapped"@ {
        MemInfo { shmem_pmd_mapped: v, ..m }
    } else if key == "FileHugePages"@ {
        MemInfo { file_huge_pages: v, ..m }
    } else if key == "FilePmdMapped"@ {
        MemInfo { file_pmd_mapped: v, ..m }
    } else if key == "CmaTotal"@ {
        MemInfo { cma_total: v, ..m }
    } else if key == "CmaFree"@ {
        MemInfo { cma_free: v, ..m }
    } else if key == "HugePages_Total"@ {
        MemInfo { hugepages_total: v, ..m }
    } else if key == "HugePages_Free"@ {
        MemInfo { hugepages_free: v, ..m }
    } else if key == "HugePages_Rsvd"@ {
        MemInfo { hugepages_rsvd: v, ..m }
    } else if key == "HugePages_Surp"@ {
        MemInfo { hugepages_surp: v, ..m }
    } else if key == "Hugepagesize"@ {
        MemInfo { hugepagesize: v, ..m }
    } else if key == "DirectMap4k"@ {
        MemInfo { direct_map_4k: v, ..m }
    } else if key == "DirectMap2M"@ {
        MemInfo { direct_map_2m: v, ..m }
    } else if key == "DirectMap1G"@ {
        MemInfo { direct_map_1g: v, ..m }
    } else if key == "Hugetlb"@ {
        MemInfo { hugetlb: v, ..m }
    } else if key == "PerCPU"@ {
        MemInfo { per_cpu: v, ..m }
    } else {
        m
    }
}

/// The value of a `/proc/meminfo` line in bytes: its second word as a number
/// of kB, 0 when it is not a number; a product past `u64::MAX` wraps.
pub open spec fn meminfo_value(w: Seq<char>) -> u64 {
    let kb = match parse_dec(w) {
        Some(n) => n,
        None => 0,
    };
    u64_specs::wrapping_mul(kb, 1024)
}

/// `m` once one line of `/proc/meminfo` is read: a line of at least two
/// words sets the counter that its first word, without trailing colons,
/// names.
pub open spec fn meminfo_step(m: MemInfo, line: Seq<char>) -> MemInfo {
    if trim(line).len() == 0 {
        m
    } else {
        let ws = words(line);
        if ws.len() < 2 {
            m
        } else {
            meminfo_set(m, trim_end_char(ws[0], ':'), meminfo_value(ws[1]))
        }
    }
}

/// `m` once the lines `ls` are read in order.
pub open spec fn meminfo_fold(m: MemInfo, ls: Seq<Seq<char>>) -> MemInfo
    decreases ls.len(),
{
    if ls.len() == 0 {
        m
    } else {
        meminfo_step(meminfo_fold(m, ls.drop_last()), ls.last())
    }
}

/// `meminfo_set` with the key `cs[lo..hi]`.
fn meminfo_set_at(m: &mut MemInfo, cs: &Vec<char>, lo: usize, hi: usize, v: u64)
    requires
        lo <= hi <= cs.len(),
    ensures
        *final(m) == meminfo_set(*old(m), cs@.subrange(lo as int, hi as int), v),
{
    if eq_lit(cs, lo, hi, "MemTotal") {
        m.mem_total = v;
    } else if eq_lit(cs, lo, hi, "MemFree") {
        m.mem_free = v;
    } else if eq_lit(cs, lo, hi, "MemAvailable") {
        m.mem_available = v;
    } else if eq_lit(cs, lo, hi, "Buffers") {
        m.buffers = v;
    } else if eq_lit(cs, lo, hi, "Cached") {
        m.cached = v;
    } else if eq_lit(cs, lo, hi, "SwapCached") {
        m.swap_cached = v;
    } else if eq_lit(cs, lo, hi, "Active") {
        m.active = v;
    } else if eq_lit(cs, lo, hi, "Inactive") {
        m.inactive = v;
    } else if eq_lit(cs, lo, hi, "Active(anon)") {
        m.active_anon = v;
    } else if eq_lit(cs, lo, hi, "Inactive(anon)") {
        m.inactive_anon = v;
    } else if eq_lit(cs, lo, hi, "Active(file)") {
        m.active_file = v;
    } else if eq_lit(cs, lo, hi, "Inactive(file)") {
        m.inactive_file = v;
    } else if eq_lit(cs, lo, hi, "Unevictable") {
        m.unevictable = v;
    } else if eq_lit(cs, lo, hi, "Mlocked") {
        m.mlocked = v;
    } else if eq_lit(cs, lo, hi, "SwapTotal") {
        m.swap_total = v;
    } else if eq_lit(cs, lo, hi, "SwapFree") {
        m.swap_free = v;
    } else if eq_lit(cs, lo, hi, "Dirty") {
        m.dirty = v;
    } else if eq_lit(cs, lo, hi, "Writeback") {
        m.writeback = v;
    } else if eq_lit(cs, lo, hi, "AnonPages") {
        m.anon_pages = v;
    } else if eq_lit(cs, lo, hi, "Mapped") {
        m.mapped = v;
    } else if eq_lit(cs, lo, hi, "Shmem") {
        m.shmem = v;
    } else if eq_lit(cs, lo, hi, "KReclaimable") {
        m.k_reclaimable = v;
    } else if eq_lit(cs, lo, hi, "Slab") {
        m.slab = v;
    } else if eq_lit(cs, lo, hi, "SReclaimable") {
        m.s_reclaimable = v;
    } else if eq_lit(cs, lo, hi, "SUnreclaim") {
        m.s_unreclaim = v;
    } else if eq_lit(cs, lo, hi, "KernelStack") {
        m.kernel_stack = v;
    } else if eq_lit(cs, lo, hi, "PageTables") {
        m.page_tables = v;
    } else if eq_lit(cs, lo, hi, "SecPageTables") {
        m.sec_page_tables = v;
    } else if eq_lit(cs, lo, hi, "NFS_Unstable") {
        m.nfs_unstable = v;
    } else if eq_lit(cs, lo, hi, "Bounce") {
        m.bounce = v;
    } else if eq_lit(cs, lo, hi, "WritebackTmp") {
        m.writeback_tmp = v;
    } else if eq_lit(cs, lo, hi, "CommitLimit") {
        m.commit_limit = v;
    } else if eq_lit(cs, lo, hi, "Committed_AS") {
        m.committed_as = v;
    } else if eq_lit(cs, lo, hi, "VmallocTotal") {
        m.vmalloc_total = v;
    } else if eq_lit(cs, lo, hi, "VmallocUsed") {
        m.vmalloc_used = v;
    } else if eq_lit(cs, lo, hi, "VmallocChunk") {
        m.vmalloc_chunk = v;
    } else if eq_lit(cs, lo, hi, "Percpu") {
        m.percpu = v;
    } else if eq_lit(cs, lo, hi, "HardwareCorrupted") {
        m.hardware_corrupted = v;
    } else if eq_lit(cs, lo, hi, "AnonHugePages") {
        m.anon_huge_pages = v;
    } else if eq_lit(cs, lo, hi, "ShmemHugePages") {
        m.shmem_huge_pages = v;
    } else if eq_lit(cs, lo, hi, "ShmemPmdMapped") {
        m.shmem_pmd_mapped = v;
    } else if eq_lit(cs, lo, hi, "FileHugePages") {
        m.file_huge_pages = v;
    } else if eq_lit(cs, lo, hi, "FilePmdMapped") {
        m.file_pmd_mapped = v;
    } else if eq_lit(cs, lo, hi, "CmaTotal") {
        m.cma_total = v;
    } else if eq_lit(cs, lo, hi, "CmaFree") {
        m.cma_free = v;
    } else if eq_lit(cs, lo, hi, "HugePages_Total") {
        m.hugepages_total = v;
    } else if eq_lit(cs, lo, hi, "HugePages_Free") {
        m.hugepages_free = v;
    } else if eq_lit(cs, lo, hi, "HugePages_Rsvd") {
        m.hugepages_rsvd = v;
    } else if eq_lit(cs, lo, hi, "HugePages_Surp") {
        m.hugepages_surp = v;
    } else if eq_lit(cs, lo, hi, "Hugepagesize") {
        m.hugepagesize = v;
    } else if eq_lit(cs, lo, hi, "DirectMap4k") {
        m.direct_map_4k = v;
    } else if eq_lit(cs, lo, hi, "DirectMap2M") {
        m.direct_map_2m = v;
    } else if eq_lit(cs, lo, hi, "DirectMap1G") {
        m.direct_map_1g = v;
    } else if eq_lit(cs, lo, hi, "Hugetlb") {
        m.hugetlb = v;
    } else if eq_lit(cs, lo, hi, "PerCPU") {
        m.per_cpu = v;
    }
}

impl MemInfo {
    /// Reads the contents of `/proc/meminfo` (see `meminfo_step`).
    pub fn parse(content: &str) -> (r: Result<MemInfo, String>)
        ensures
            r == Ok::<MemInfo, String>(meminfo_fold(meminfo_zero(), lines(content@))),
    {
        let mut meminfo = MemInfo::default();
        let cs = to_chars(content);
        let ls = line_ranges(&cs);
        let mut k: usize = 0;
        let ghost all = lines(cs@);
        assert(all.take(0) =~= Seq::<Seq<char>>::empty());
        while k < ls.len()
            invariant
                all == lines(cs@),
                ls.len() == all.len(),
                forall|j: int|
                    0 <= j < ls.len() ==> #[trigger] ls@[j].0 <= ls@[j].1 <= cs.len()
                        && cs@.subrange(ls@[j].0 as int, ls@[j].1 as int) == all[j],
                k <= ls.len(),
                meminfo == meminfo_fold(meminfo_zero(), all.take(k as int)),
            decreases ls.len() - k,
        {
            let (lo, hi) = ls[k];
            let ghost line = cs@.subrange(lo as int, hi as int);
            assert(line == all[k as int]);
            assert(all.take(k + 1).drop_last() == all.take(k as int));
            assert(all.take(k + 1).last() == line);
            let (a, b) = trim_range(&cs, lo, hi);
            if a < b {
                let ws = word_ranges(&cs, lo, hi);
                if ws.len() >= 2 {
                    let (ka, kb) = ws[0];
                    let (va, vb) = ws[1];
                    let ke = trim_end_char_range(&cs, ka, kb, ':');
                    let n = match parse_uint_range(&cs, va, vb, 10) {
                        Some(n) => n,
                        None => 0,
                    };
                    let value = n.wrapping_mul(1024);
                    meminfo_set_at(&mut meminfo, &cs, ka, ke, value);
                }
            }
            k += 1;
        }
        assert(all.take(ls.len() as int) == all);
        Ok(meminfo)
    }
}

/// Whether `key` names one of the counters.
pub open spec fn meminfo_key_known(key: Seq<char>) -> bool {
    key == "MemTotal"@ ||
    key == "MemFree"@ ||
    key == "MemAvailable"@ ||
    key == "Buffers"@ ||
    key == "Cached"@ ||
    key == "SwapCached"@ ||
    key == "Active"@ ||
    key == "Inactive"@ ||
    key == "Active(anon)"@ ||
    key == "Inactive(anon)"@ ||
    key == "Active(file)"@ ||
    key == "Inactive(file)"@ ||
    key == "Unevictable"@ ||
    key == "Mlocked"@ ||
    key == "SwapTotal"@ ||
    key == "SwapFree"@ ||
    key == "Dirty"@ ||
    key == "Writeback"@ ||
    key == "AnonPages"@ ||
    key == "Mapped"@ ||
    key == "Shmem"@ ||
    key == "KReclaimable"@ ||
    key == "Slab"@ ||
    key == "SReclaimable"@ ||
    key == "SUnreclaim"@ ||
    key == "KernelStack"@ ||
    key == "PageTables"@ ||
    key == "SecPageTables"@ ||
    key == "NFS_Unstable"@ ||
    key == "Bounce"@ ||
    key == "WritebackTmp"@ ||
    key == "CommitLimit"@ ||
    key == "Committed_AS"@ ||
    key == "VmallocTotal"@ ||
    key == "VmallocUsed"@ ||
    key == "VmallocChunk"@ ||
    key == "Percpu"@ ||
    key == "HardwareCorrupted"@ ||
    key == "AnonHugePages"@ ||
    key == "ShmemHugePages"@ ||
    key == "ShmemPmdMapped"@ ||
    key == "FileHugePages"@ ||
    key == "FilePmdMapped"@ ||
    key == "CmaTotal"@ ||
    key == "CmaFree"@ ||
    key == "HugePages_Total"@ ||
    key == "HugePages_Free"@ ||
    key == "HugePages_Rsvd"@ ||
    key == "HugePages_Surp"@ ||
    key == "Hugepagesize"@ ||
    key == "DirectMap4k"@ ||
    key == "DirectMap2M"@ ||
    key == "DirectMap1G"@ ||
    key == "Hugetlb"@ ||
    key == "PerCPU"@
}

/// The key of a `/proc/meminfo` line: its first word without trailing
/// colons, for a line of at least two words.
pub open spec fn line_key(line: Seq<char>) -> Option<Seq<char>> {
    if trim(line).len() == 0 || words(line).len() < 2 {
        None
    } else {
        Some(trim_end_char(words(line)[0], ':'))
    }
}

/// Whether a line sets no counter: it has no key, or its key names none.
pub open spec fn line_ignored(line: Seq<char>) -> bool {
    match line_key(line) {
        Some(k) => !meminfo_key_known(k),
        None => true,
    }
}

/// Setting two different counters gives the same result in either order.
#[verifier::rlimit(100)]
proof fn lemma_set_commute(m: MemInfo, k1: Seq<char>, v1: u64, k2: Seq<char>, v2: u64)
    requires
        k1 != k2,
    ensures
        meminfo_set(meminfo_set(m, k1, v1), k2, v2) == meminfo_set(meminfo_set(m, k2, v2), k1, v1),
{
}

/// Reading the lines `x`, then `post`, is reading `x + post`.
proof fn lemma_fold_append(m: MemInfo, x: Seq<Seq<char>>, post: Seq<Seq<char>>)
    ensures
        meminfo_fold(m, x + post) == meminfo_fold(meminfo_fold(m, x), post),
    decreases post.len(),
{
    if post.len() == 0 {
        assert(x + post == x);
    } else {
        lemma_fold_append(m, x, post.drop_last());
        assert((x + post).drop_last() == x + post.drop_last());
        assert((x + post).last() == post.last());
    }
}

proof fn lemma_fold_one(m: MemInfo, line: Seq<char>)
    ensures
        meminfo_fold(m, seq![line]) == meminfo_step(m, line),
{
    assert(seq![line].drop_last() == Seq::<Seq<char>>::empty());
    assert(seq![line].last() == line);
    assert(meminfo_fold(m, Seq::<Seq<char>>::empty()) == m);
}

/// `MemInfo::parse` gives the same counters whatever the order of two
/// neighbouring lines whose keys differ: reading the lines `pre`, `a`, `b`,
/// `post` gives what reading `pre`, `b`, `a`, `post` gives.
pub proof fn meminfo_lines_commute(
    m: MemInfo,
    pre: Seq<Seq<char>>,
    a: Seq<char>,
    b: Seq<char>,
    post: Seq<Seq<char>>,
)
    requires
        line_key(a) != line_key(b) || line_key(a) is None,
    ensures
        meminfo_fold(m, pre + seq![a, b] + post) == meminfo_fold(m, pre + seq![b, a] + post),
{
    let s = meminfo_fold(m, pre);
    lemma_fold_append(m, pre, seq![a, b]);
    lemma_fold_append(m, pre, seq![b, a]);
    lemma_fold_append(m, pre + seq![a, b], post);
    lemma_fold_append(m, pre + seq![b, a], post);
    lemma_fold_one(s, a);
    lemma_fold_one(s, b);
    assert(seq![a, b].drop_last() == seq![a]);
    assert(seq![b, a].drop_last() == seq![b]);
    assert(seq![a, b].last() == b);
    assert(seq![b, a].last() == a);
    assert(meminfo_fold(s, seq![a, b]) == meminfo_step(meminfo_step(s, a), b));
    assert(meminfo_fold(s, seq![b, a]) == meminfo_step(meminfo_step(s, b), a));
    if line_key(a) is Some && line_key(b) is Some {
        let wa = words(a);
        let wb = words(b);
        lemma_set_commute(
            s,
            trim_end_char(wa[0], ':'),
            meminfo_value(wa[1]),
            trim_end_char(wb[0], ':'),
            meminfo_value(wb[1]),
        );
    }
}

/// A line that sets no counter changes nothing that `MemInfo::parse` gives:
/// reading the lines `pre`, `u`, `post` gives what reading `pre`, `post`
/// gives.
pub proof fn meminfo_ignores_unknown(m: MemInfo, pre: Seq<Seq<char>>, u: Seq<char>, post: Seq<Seq<char>>)
    requires
        line_ignored(u),
    ensures
        meminfo_fold(m, pre + seq![u] + post) == meminfo_fold(m, pre + post),
{
    lemma_fold_append(m, pre, seq![u]);
    lemma_fold_append(m, pre + seq![u], post);
    lemma_fold_append(m, pre, post);
    lemma_fold_one(meminfo_fold(m, pre), u);
}

proof fn lemma_step_strip_cr(m: MemInfo, l: Seq<char>)
    ensures
        meminfo_step(m, strip_cr(l)) == meminfo_step(m, l),
{
    if l.len() > 0 && l.last() == '\r' {
        assert(strip_cr(l).push('\r') == l);
        lemma_push_ws(strip_cr(l), '\r');
    }
}

/// Reading the lines of `s + "\n"` is reading the lines of `s`.
proof fn lemma_fold_final_newline(m: MemInfo, s: Seq<char>)
    ensures
        meminfo_fold(m, lines(s + seq!['\n'])) == meminfo_fold(m, lines(s)),
    decreases s.len(),
{
    if !has_char(s, '\n') {
        lemma_lines_first(s, Seq::empty());
        assert(s + seq!['\n'] + Seq::<char>::empty() == s + seq!['\n']);
        assert(lines(Seq::<char>::empty()) == Seq::<Seq<char>>::empty());
        assert(seq![strip_cr(s)] + Seq::<Seq<char>>::empty() == seq![strip_cr(s)]);
        lemma_fold_one(m, strip_cr(s));
        lemma_step_strip_cr(m, s);
        if s.len() > 0 {
            lemma_lines_single(s);
            lemma_fold_one(m, s);
        } else {
            assert(meminfo_fold(m, Seq::<Seq<char>>::empty()) == m);
        }
    } else {
        lemma_first_index_bounds(s, '\n');
        let k = first_index(s, '\n');
        if k >= s.len() {
            let i = choose|i: int| 0 <= i < s.len() && s[i] == '\n';
            assert(false);
        }
        let x = s.take(k);
        let y = s.skip(k + 1);
        assert(!has_char(x, '\n'));
        assert(s == x + seq!['\n'] + y);
        assert(s + seq!['\n'] == x + seq!['\n'] + (y + seq!['\n']));
        lemma_lines_first(x, y);
        lemma_lines_first(x, y + seq!['\n']);
        let head = seq![strip_cr(x)];
        lemma_fold_append(m, head, lines(y));
        lemma_fold_append(m, head, lines(y + seq!['\n']));
        lemma_fold_final_newline(meminfo_fold(m, head), y);
    }
}

/// Whether `s` is one line of text: not empty, with no newline and no final
/// `'\r'`.
pub open spec fn single_line(s: Seq<char>) -> bool {
    &&& s.len() > 0
    &&& !has_char(s, '\n')
    &&& s.last() != '\r'
}

/// `MemInfo::parse` of the text `a + "\n" + b` equals that of `b + "\n" + a`
/// when `a` and `b` are single lines whose keys differ.
pub proof fn meminfo_text_commute(m: MemInfo, a: Seq<char>, b: Seq<char>)
    requires
        single_line(a),
        single_line(b),
        line_key(a) != line_key(b) || line_key(a) is None,
    ensures
        meminfo_fold(m, lines(a + seq!['\n'] + b)) == meminfo_fold(m, lines(b + seq!['\n'] + a)),
{
    lemma_lines_first(a, b);
    lemma_lines_first(b, a);
    lemma_lines_single(a);
    lemma_lines_single(b);
    let e = Seq::<Seq<char>>::empty();
    assert(lines(a + seq!['\n'] + b) == e + seq![a, b] + e);
    assert(lines(b + seq!['\n'] + a) == e + seq![b, a] + e);
    meminfo_lines_commute(m, e, a, b, e);
}

/// `MemInfo::parse` of the text `s + "\n" + u` equals that of `s` when `u`
/// is a single line that sets no counter.
pub proof fn meminfo_text_ignores_unknown(m: MemInfo, s: Seq<char>, u: Seq<char>)
    requires
        u.len() > 0,
        !has_char(u, '\n'),
        line_ignored(u),
    ensures
        meminfo_fold(m, lines(s + seq!['\n'] + u)) == meminfo_fold(m, lines(s)),
{
    lemma_lines_join(s, u);
    lemma_lines_single(u);
    let l = lines(s + seq!['\n']);
    let e = Seq::<Seq<char>>::empty();
    assert(lines(s + seq!['\n'] + u) == l + seq![u] + e);
    assert(l + e == l);
    meminfo_ignores_unknown(m, l, u, e);
    lemma_fold_final_newline(m, s);
}

/// The `/proc/meminfo` line for counter `key` holding `n` kB: the key and
/// a colon, white space `w`, the decimal digits of `n`, white space `w2`,
/// and `kB`.
pub open spec fn meminfo_line(key: Seq<char>, w: char, n: u64, w2: char) -> Seq<char> {
    (key + ":"@) + seq![w] + (decimal(n as nat) + seq![w2] + "kB"@)
}

/// Reading the line for `key` holding `n` kB sets the counter that `key`
/// names to `n * 1024` bytes (wrapping past `u64::MAX`).
pub proof fn lemma_meminfo_line(m: MemInfo, key: Seq<char>, w: char, n: u64, w2: char)
    requires
        key.len() > 0,
        no_ws(key),
        key.last() != ':',
        is_ws(w),
        is_ws(w2),
    ensures
        meminfo_step(m, meminfo_line(key, w, n, w2)) == meminfo_set(m, key, u64_specs::wrapping_mul(n, 1024)),
{
    reveal_strlit(":");
    reveal_strlit("kB");
    let k = key + ":"@;
    let d = decimal(n as nat);
    let line = meminfo_line(key, w, n, w2);
    lemma_decimal(n as nat);
    lemma_parse_dec_decimal(n);
    assert(no_ws(k)) by {
        assert forall|i: int| 0 <= i < k.len() implies !is_ws(#[trigger] k[i]) by {
            if i < key.len() {
                assert(k[i] == key[i]);
            }
        }
    }
    assert(no_ws(d));
    assert(no_ws("kB"@));
    lemma_words_first(k, w, d + seq![w2] + "kB"@);
    lemma_words_two(d, w2, "kB"@);
    assert(words(line) == seq![k, d, "kB"@]);
    assert(line[0] == k[0]);
    lemma_trim_nonempty(line);
    assert(k.drop_last() == key);
    assert(k.last() == ':');
    assert(trim_end_char(key, ':') == key);
    assert(trim_end_char(k, ':') == key);
    assert(meminfo_value(d) == u64_specs::wrapping_mul(n, 1024));
}

/// The chars of the keys.
proof fn lemma_keys()
    ensures
        "MemTotal"@ == seq!['M', 'e', 'm', 'T', 'o', 't', 'a', 'l'],
        "MemFree"@ == seq!['M', 'e', 'm', 'F', 'r', 'e', 'e'],
        "MemAvailable"@ == seq!['M', 'e', 'm', 'A', 'v', 'a', 'i', 'l', 'a', 'b', 'l', 'e'],
        "Buffers"@ == seq!['B', 'u', 'f', 'f', 'e', 'r', 's'],
        "Cached"@ == seq!['C', 'a', 'c', 'h', 'e', 'd'],
        "SwapCached"@ == seq!['S', 'w', 'a', 'p', 'C', 'a', 'c', 'h', 'e', 'd'],
        "Active"@ == seq!['A', 'c', 't', 'i', 'v', 'e'],
        "Inactive"@ == seq!['I', 'n', 'a', 'c', 't', 'i', 'v', 'e'],
        "Active(anon)"@ == seq!['A', 'c', 't', 'i', 'v', 'e', '(', 'a', 'n', 'o', 'n', ')'],
        "Inactive(anon)"@ == seq!['I', 'n', 'a', 'c', 't', 'i', 'v', 'e', '(', 'a', 'n', 'o', 'n', ')'],
        "Active(file)"@ == seq!['A', 'c', 't', 'i', 'v', 'e', '(', 'f', 'i', 'l', 'e', ')'],
        "Inactive(file)"@ == seq!['I', 'n', 'a', 'c', 't', 'i', 'v', 'e', '(', 'f', 'i', 'l', 'e', ')'],
        "Unevictable"@ == seq!['U', 'n', 'e', 'v', 'i', 'c', 't', 'a', 'b', 'l', 'e'],
        "Mlocked"@ == seq!['M', 'l', 'o', 'c', 'k', 'e', 'd'],
        "SwapTotal"@ == seq!['S', 'w', 'a', 'p', 'T', 'o', 't', 'a', 'l'],
        "SwapFree"@ == seq!['S', 'w', 'a', 'p', 'F', 'r', 'e', 'e'],
        "Dirty"@ == seq!['D', 'i', 'r', 't', 'y'],
        "Writeback"@ == seq!['W', 'r', 'i', 't', 'e', 'b', 'a', 'c', 'k'],
        "AnonPages"@ == seq!['A', 'n', 'o', 'n', 'P', 'a', 'g', 'e', 's'],
        "Mapped"@ == seq!['M', 'a', 'p', 'p', 'e', 'd'],
        "Shmem"@ == seq!['S', 'h', 'm', 'e', 'm'],
        "KReclaimable"@ == seq!['K', 'R', 'e', 'c', 'l', 'a', 'i', 'm', 'a', 'b', 'l', 'e'],
        "Slab"@ == seq!['S', 'l', 'a', 'b'],
        "SReclaimable"@ == seq!['S', 'R', 'e', 'c', 'l', 'a', 'i', 'm', 'a', 'b', 'l', 'e'],
        "SUnreclaim"@ == seq!['S', 'U', 'n', 'r', 'e', 'c', 'l', 'a', 'i', 'm'],
        "KernelStack"@ == seq!['K', 'e', 'r', 'n', 'e', 'l', 'S', 't', 'a', 'c', 'k'],
        "PageTables"@ == seq!['P', 'a', 'g', 'e', 'T', 'a', 'b', 'l', 'e', 's'],
        "SecPageTables"@ == seq!['S', 'e', 'c', 'P', 'a', 'g', 'e', 'T', 'a', 'b', 'l', 'e', 's'],
        "NFS_Unstable"@ == seq!['N', 'F', 'S', '_', 'U', 'n', 's', 't', 'a', 'b', 'l', 'e'],
        "Bounce"@ == seq!['B', 'o', 'u', 'n', 'c', 'e'],
        "WritebackTmp"@ == seq!['W', 'r', 'i', 't', 'e', 'b', 'a', 'c', 'k', 'T', 'm', 'p'],
        "CommitLimit"@ == seq!['C', 'o', 'm', 'm', 'i', 't', 'L', 'i', 'm', 'i', 't'],
        "Committed_AS"@ == seq!['C', 'o', 'm', 'm', 'i', 't', 't', 'e', 'd', '_', 'A', 'S'],
        "VmallocTotal"@ == seq!['V', 'm', 'a', 'l', 'l', 'o', 'c', 'T', 'o', 't', 'a', 'l'],
        "VmallocUsed"@ == seq!['V', 'm', 'a', 'l', 'l', 'o', 'c', 'U', 's', 'e', 'd'],
        "VmallocChunk"@ == seq!['V', 'm', 'a', 'l', 'l', 'o', 'c', 'C', 'h', 'u', 'n', 'k'],
        "Percpu"@ == seq!['P', 'e', 'r', 'c', 'p', 'u'],
        "HardwareCorrupted"@ == seq!['H', 'a', 'r', 'd', 'w', 'a', 'r', 'e', 'C', 'o', 'r', 'r', 'u', 'p', 't', 'e', 'd'],
        "AnonHugePages"@ == seq!['A', 'n', 'o', 'n', 'H', 'u', 'g', 'e', 'P', 'a', 'g', 'e', 's'],
        "ShmemHugePages"@ == seq!['S', 'h', 'm', 'e', 'm', 'H', 'u', 'g', 'e', 'P', 'a', 'g', 'e', 's'],
        "ShmemPmdMapped"@ == seq!['S', 'h', 'm', 'e', 'm', 'P', 'm', 'd', 'M', 'a', 'p', 'p', 'e', 'd'],
        "FileHugePages"@ == seq!['F', 'i', 'l', 'e', 'H', 'u', 'g', 'e', 'P', 'a', 'g', 'e', 's'],
        "FilePmdMapped"@ == seq!['F', 'i', 'l', 'e', 'P', 'm', 'd', 'M', 'a', 'p', 'p', 'e', 'd'],
        "CmaTotal"@ == seq!['C', 'm', 'a', 'T', 'o', 't', 'a', 'l'],
        "CmaFree"@ == seq!['C', 'm', 'a', 'F', 'r', 'e', 'e'],
        "HugePages_Total"@ == seq!['H', 'u', 'g', 'e', 'P', 'a', 'g', 'e', 's', '_', 'T', 'o', 't', 'a', 'l'],
        "HugePages_Free"@ == seq!['H', 'u', 'g', 'e', 'P', 'a', 'g', 'e', 's', '_', 'F', 'r', 'e', 'e'],
        "HugePages_Rsvd"@ == seq!['H', 'u', 'g', 'e', 'P', 'a', 'g', 'e', 's', '_', 'R', 's', 'v', 'd'],
        "HugePages_Surp"@ == seq!['H', 'u', 'g', 'e', 'P', 'a', 'g', 'e', 's', '_', 'S', 'u', 'r', 'p'],
        "Hugepagesize"@ == seq!['H', 'u', 'g', 'e', 'p', 'a', 'g', 'e', 's', 'i', 'z', 'e'],
        "DirectMap4k"@ == seq!['D', 'i', 'r', 'e', 'c', 't', 'M', 'a', 'p', '4', 'k'],
        "DirectMap2M"@ == seq!['D', 'i', 'r', 'e', 'c', 't', 'M', 'a', 'p', '2', 'M'],
        "DirectMap1G"@ == seq!['D', 'i', 'r', 'e', 'c', 't', 'M', 'a', 'p', '1', 'G'],
        "Hugetlb"@ == seq!['H', 'u', 'g', 'e', 't', 'l', 'b'],
        "PerCPU"@ == seq!['P', 'e', 'r', 'C', 'P', 'U'],
{
    reveal_strlit("MemTotal");
    reveal_strlit("MemFree");
    reveal_strlit("MemAvailable");
    reveal_strlit("Buffers");
    reveal_strlit("Cached");
    reveal_strlit("SwapCached");
    reveal_strlit("Active");
    reveal_strlit("Inactive");
    reveal_strlit("Active(anon)");
    reveal_strlit("Inactive(anon)");
    reveal_strlit("Active(file)");
    reveal_strlit("Inactive(file)");
    reveal_strlit("Unevictable");
    reveal_strlit("Mlocked");
    reveal_strlit("SwapTotal");
    reveal_strlit("SwapFree");
    reveal_strlit("Dirty");
    reveal_strlit("Writeback");
    reveal_strlit("AnonPages");
    reveal_strlit("Mapped");
    reveal_strlit("Shmem");
    reveal_strlit("KReclaimable");
    reveal_strlit("Slab");
    reveal_strlit("SReclaimable");
    reveal_strlit("SUnreclaim");
    reveal_strlit("KernelStack");
    reveal_strlit("PageTables");
    reveal_strlit("SecPageTables");
    reveal_strlit("NFS_Unstable");
    reveal_strlit("Bounce");
    reveal_strlit("WritebackTmp");
    reveal_strlit("CommitLimit");
    reveal_strlit("Committed_AS");
    reveal_strlit("VmallocTotal");
    reveal_strlit("VmallocUsed");
    reveal_strlit("VmallocChunk");
    reveal_strlit("Percpu");
    reveal_strlit("HardwareCorrupted");
    reveal_strlit("AnonHugePages");
    reveal_strlit("ShmemHugePages");
    reveal_strlit("ShmemPmdMapped");
    reveal_strlit("FileHugePages");
    reveal_strlit("FilePmdMapped");
    reveal_strlit("CmaTotal");
    reveal_strlit("CmaFree");
    reveal_strlit("HugePages_Total");
    reveal_strlit("HugePages_Free");
    reveal_strlit("HugePages_Rsvd");
    reveal_strlit("HugePages_Surp");
    reveal_strlit("Hugepagesize");
    reveal_strlit("DirectMap4k");
    reveal_strlit("DirectMap2M");
    reveal_strlit("DirectMap1G");
    reveal_strlit("Hugetlb");
    reveal_strlit("PerCPU");
}

proof fn line_sets_mem_total(m: MemInfo, w: char, n: u64, w2: char)
    requires
        is_ws(w),
        is_ws(w2),
    ensures
        meminfo_step(m, meminfo_line("MemTotal"@, w, n, w2)).mem_total == u64_specs::wrapping_mul(n, 1024),
{
    lemma_keys();
    lemma_meminfo_line(m, "MemTotal"@, w, n, w2);
}

proof fn line_sets_mem_free(m: MemInfo, w: char, n: u64, w2: char)
    requires
        is_ws(w),
        is_ws(w2),
    ensures
        meminfo_step(m, meminfo_line("MemFree"@, w, n, w2)).mem_free == u64_specs::wrapping_mul(n, 1024),
{
    lemma_keys();
    lemma_meminfo_line(m, "MemFree"@, w, n, w2);
}

proof fn line_sets_mem_available(m: MemInfo, w: char, n: u64, w2: char)
    requires
        is_ws(w),
        is_ws(w2),
    ensures
        meminfo_step(m, meminfo_line("MemAvailable"@, w, n, w2)).mem_available == u64_specs::wrapping_mul(n, 1024),
{
    lemma_keys();
    lemma_meminfo_line(m, "MemAvailable"@, w, n, w2);
}

proof fn line_sets_buffers(m: MemInfo, w: char, n: u64, w2: char)
    requires
        is_ws(w),
        is_ws(w2),
    ensures
        meminfo_step(m, meminfo_line("Buffers"@, w, n, w2)).buffers == u64_specs::wrapping_mul(n, 1024),
{
    lemma_keys();
    assert("Buffers"@[0] != "MemFree"@[0]);
    lemma_meminfo_line(m, "Buffers"@, w, n, w2);
}

proof fn line_sets_cached(m: MemInfo, w: char, n: u64, w2: char)
    requires
        is_ws(w),
        is_ws(w2),
    ensures
        meminfo_step(m, meminfo_line("Cached"@, w, n, w2)).cached == u64_specs::wrapping_mul(n, 1024),
{
    lemma_keys();
    lemma_meminfo_line(m, "Cached"@, w, n, w2);
}

proof fn line_sets_swap_cached(m: MemInfo, w: char, n: u64, w2: char)
    requires
        is_ws(w),
        is_ws(w2),
    ensures
        meminfo_step(m, meminfo_line("SwapCached"@, w, n, w2)).swap_cached == u64_specs::wrapping_mul(n, 1024),
{
    lemma_keys();
    lemma_meminfo_line(m, "SwapCached"@, w, n, w2);
}

proof fn line_sets_active(m: MemInfo, w: char, n: u64, w2: char)
    requires
        is_ws(w),
        is_ws(w2),
    ensures
        meminfo_step(m, meminfo_line("Active"@, w, n, w2)).active == u64_specs::wrapping_mul(n, 1024),
{
    lemma_keys();
    assert("Active"@[0] != "Cached"@[0]);
    lemma_meminfo_line(m, "Active"@, w, n, w2);
}

proof fn line_sets_inactive(m: MemInfo, w: char, n: u64, w2: char)
    requires
        is_ws(w),
        is_ws(w2),
    ensures
        meminfo_step(m, meminfo_line("Inactive"@, w, n, w2)).inactive == u64_specs::wrapping_mul(n, 1024),
{
    lemma_keys();
    assert("Inactive"@[0] != "MemTotal"@[0]);
    lemma_meminfo_line(m, "Inactive"@, w, n, w2);
}

proof fn line_sets_active_anon(m: MemInfo, w: char, n: u64, w2: char)
    requires
        is_ws(w),
        is_ws(w2),
    ensures
        meminfo_step(m, meminfo_line("Active(anon)"@, w, n, w2)).active_anon == u64_specs::wrapping_mul(n, 1024),
{
    lemma_keys();
    assert("Active(anon)"@[0] != "MemAvailable"@[0]);
    lemma_meminfo_line(m, "Active(anon)"@, w, n, w2);
}

proof fn line_sets_inactive_anon(m: MemInfo, w: char, n: u64, w2: char)
    requires
        is_ws(w),
        is_ws(w2),
    ensures
        meminfo_step(m, meminfo_line("Inactive(anon)"@, w, n, w2)).inactive_anon == u64_specs::wrapping_mul(n, 1024),
{
    lemma_keys();
    lemma_meminfo_line(m, "Inactive(anon)"@, w, n, w2);
}

proof fn line_sets_active_file(m: MemInfo, w: char, n: u64, w2: char)
    requires
        is_ws(w),
        is_ws(w2),
    ensures
        meminfo_step(m, meminfo_line("Active(file)"@, w, n, w2)).active_file == u64_specs::wrapping_mul(n, 1024),
{
    lemma_keys();
    assert("Active(file)"@[0] != "MemAvailable"@[0]);
    assert("Active(file)"@[7] != "Active(anon)"@[7]);
    lemma_meminfo_line(m, "Active(file)"@, w, n, w2);
}

proof fn line_sets_inactive_file(m: MemInfo, w: char, n: u64, w2: char)
    requires
        is_ws(w),
        is_ws(w2),
    ensures
        meminfo_step(m, meminfo_line("Inactive(file)"@, w, n, w2)).inactive_file == u64_specs::wrapping_mul(n, 1024),
{
    lemma_keys();
    assert("Inactive(file)"@[9] != "Inactive(anon)"@[9]);
    lemma_meminfo_line(m, "Inactive(file)"@, w, n, w2);
}

proof fn line_sets_unevictable(m: MemInfo, w: char, n: u64, w2: char)
    requires
        is_ws(w),
        is_ws(w2),
    ensures
        meminfo_step(m, meminfo_line("Unevictable"@, w, n, w2)).unevictable == u64_specs::wrapping_mul(n, 1024),
{
    lemma_keys();
    lemma_meminfo_line(m, "Unevictable"@, w, n, w2);
}

proof fn line_sets_mlocked(m: MemInfo, w: char, n: u64, w2: char)
    requires
        is_ws(w),
        is_ws(w2),
    ensures
        meminfo_step(m, meminfo_line("Mlocked"@, w, n, w2)).mlocked == u64_specs::wrapping_mul(n, 1024),
{
    lemma_keys();
    assert("Mlocked"@[1] != "MemFree"@[1]);
    assert("Mlocked"@[0] != "Buffers"@[0]);
    lemma_meminfo_line(m, "Mlocked"@, w, n, w2);
}

proof fn line_sets_swap_total(m: MemInfo, w: char, n: u64, w2: char)
    requires
        is_ws(w),
        is_ws(w2),
    ensures
        meminfo_step(m, meminfo_line("SwapTotal"@, w, n, w2)).swap_total == u64_specs::wrapping_mul(n, 1024),
{
    lemma_keys();
    lemma_meminfo_line(m, "SwapTotal"@, w, n, w2);
}

proof fn line_sets_swap_free(m: MemInfo, w: char, n: u64, w2: char)
    requires
        is_ws(w),
        is_ws(w2),
    ensures
        meminfo_step(m, meminfo_line("SwapFree"@, w, n, w2)).swap_free == u64_specs::wrapping_mul(n, 1024),
{
    lemma_keys();
    assert("SwapFree"@[0] != "MemTotal"@[0]);
    assert("SwapFree"@[0] != "Inactive"@[0]);
    lemma_meminfo_line(m, "SwapFree"@, w, n, w2);
}

proof fn line_sets_dirty(m: MemInfo, w: char, n: u64, w2: char)
    requires
        is_ws(w),
        is_ws(w2),
    ensures
        meminfo_step(m, meminfo_line("Dirty"@, w, n, w2)).dirty == u64_specs::wrapping_mul(n, 1024),
{
    lemma_keys();
    lemma_meminfo_line(m, "Dirty"@, w, n, w2);
}

proof fn line_sets_writeback(m: MemInfo, w: char, n: u64, w2: char)
    requires
        is_ws(w),
        is_ws(w2),
    ensures
        meminfo_step(m, meminfo_line("Writeback"@, w, n, w2)).writeback == u64_specs::wrapping_mul(n, 1024),
{
    lemma_keys();
    assert("Writeback"@[0] != "SwapTotal"@[0]);
    lemma_meminfo_line(m, "Writeback"@, w, n, w2);
}

proof fn line_sets_anon_pages(m: MemInfo, w: char, n: u64, w2: char)
    requires
        is_ws(w),
        is_ws(w2),
    ensures
        meminfo_step(m, meminfo_line("AnonPages"@, w, n, w2)).anon_pages == u64_specs::wrapping_mul(n, 1024),
{
    lemma_keys();
    assert("AnonPages"@[0] != "SwapTotal"@[0]);
    assert("AnonPages"@[0] != "Writeback"@[0]);
    lemma_meminfo_line(m, "AnonPages"@, w, n, w2);
}

proof fn line_sets_mapped(m: MemInfo, w: char, n: u64, w2: char)
    requires
        is_ws(w),
        is_ws(w2),
    ensures
        meminfo_step(m, meminfo_line("Mapped"@, w, n, w2)).mapped == u64_specs::wrapping_mul(n, 1024),
{
    lemma_keys();
    assert("Mapped"@[0] != "Cached"@[0]);
    assert("Mapped"@[0] != "Active"@[0]);
    lemma_meminfo_line(m, "Mapped"@, w, n, w2);
}

proof fn line_sets_shmem(m: MemInfo, w: char, n: u64, w2: char)
    requires
        is_ws(w),
        is_ws(w2),
    ensures
        meminfo_step(m, meminfo_line("Shmem"@, w, n, w2)).shmem == u64_specs::wrapping_mul(n, 1024),
{
    lemma_keys();
    assert("Shmem"@[0] != "Dirty"@[0]);
    lemma_meminfo_line(m, "Shmem"@, w, n, w2);
}

proof fn line_sets_k_reclaimable(m: MemInfo, w: char, n: u64, w2: char)
    requires
        is_ws(w),
        is_ws(w2),
    ensures
        meminfo_step(m, meminfo_line("KReclaimable"@, w, n, w2)).k_reclaimable == u64_specs::wrapping_mul(n, 1024),
{
    lemma_keys();
    assert("KReclaimable"@[0] != "MemAvailable"@[0]);
    assert("KReclaimable"@[0] != "Active(anon)"@[0]);
    assert("KReclaimable"@[0] != "Active(file)"@[0]);
    lemma_meminfo_line(m, "KReclaimable"@, w, n, w2);
}

proof fn line_sets_slab(m: MemInfo, w: char, n: u64, w2: char)
    requires
        is_ws(w),
        is_ws(w2),
    ensures
        meminfo_step(m, meminfo_line("Slab"@, w, n, w2)).slab == u64_specs::wrapping_mul(n, 1024),
{
    lemma_keys();
    lemma_meminfo_line(m, "Slab"@, w, n, w2);
}

proof fn line_sets_s_reclaimable(m: MemInfo, w: char, n: u64, w2: char)
    requires
        is_ws(w),
        is_ws(w2),
    ensures
        meminfo_step(m, meminfo_line("SReclaimable"@, w, n, w2)).s_reclaimable == u64_specs::wrapping_mul(n, 1024),
{
    lemma_keys();
    assert("SReclaimable"@[0] != "MemAvailable"@[0]);
    assert("SReclaimable"@[0] != "Active(anon)"@[0]);
    assert("SReclaimable"@[0] != "Active(file)"@[0]);
    assert("SReclaimable"@[0] != "KReclaimable"@[0]);
    lemma_meminfo_line(m, "SReclaimable"@, w, n, w2);
}

proof fn line_sets_s_unreclaim(m: MemInfo, w: char, n: u64, w2: char)
    requires
        is_ws(w),
        is_ws(w2),
    ensures
        meminfo_step(m, meminfo_line("SUnreclaim"@, w, n, w2)).s_unreclaim == u64_specs::wrapping_mul(n, 1024),
{
    lemma_keys();
    assert("SUnreclaim"@[1] != "SwapCached"@[1]);
    lemma_meminfo_line(m, "SUnreclaim"@, w, n, w2);
}

proof fn line_sets_kernel_stack(m: MemInfo, w: char, n: u64, w2: char)
    requires
        is_ws(w),
        is_ws(w2),
    ensures
        meminfo_step(m, meminfo_line("KernelStack"@, w, n, w2)).kernel_stack == u64_specs::wrapping_mul(n, 1024),
{
    lemma_keys();
    assert("KernelStack"@[0] != "Unevictable"@[0]);
    lemma_meminfo_line(m, "KernelStack"@, w, n, w2);
}

proof fn line_sets_page_tables(m: MemInfo, w: char, n: u64, w2: char)
    requires
        is_ws(w),
        is_ws(w2),
    ensures
        meminfo_step(m, meminfo_line("PageTables"@, w, n, w2)).page_tables == u64_specs::wrapping_mul(n, 1024),
{
    lemma_keys();
    assert("PageTables"@[0] != "SwapCached"@[0]);
    assert("PageTables"@[0] != "SUnreclaim"@[0]);
    lemma_meminfo_line(m, "PageTables"@, w, n, w2);
}

proof fn line_sets_sec_page_tables(m: MemInfo, w: char, n: u64, w2: char)
    requires
        is_ws(w),
        is_ws(w2),
    ensures
        meminfo_step(m, meminfo_line("SecPageTables"@, w, n, w2)).sec_page_tables == u64_specs::wrapping_mul(n, 1024),
{
    lemma_keys();
    lemma_meminfo_line(m, "SecPageTables"@, w, n, w2);
}

proof fn line_sets_nfs_unstable(m: MemInfo, w: char, n: u64, w2: char)
    requires
        is_ws(w),
        is_ws(w2),
    ensures
        meminfo_step(m, meminfo_line("NFS_Unstable"@, w, n, w2)).nfs_unstable == u64_specs::wrapping_mul(n, 1024),
{
    lemma_keys();
    assert("NFS_Unstable"@[0] != "MemAvailable"@[0]);
    assert("NFS_Unstable"@[0] != "Active(anon)"@[0]);
    assert("NFS_Unstable"@[0] != "Active(file)"@[0]);
    assert("NFS_Unstable"@[0] != "KReclaimable"@[0]);
    assert("NFS_Unstable"@[0] != "SReclaimable"@[0]);
    lemma_meminfo_line(m, "NFS_Unstable"@, w, n, w2);
}

proof fn line_sets_bounce(m: MemInfo, w: char, n: u64, w2: char)
    requires
        is_ws(w),
        is_ws(w2),
    ensures
        meminfo_step(m, meminfo_line("Bounce"@, w, n, w2)).bounce == u64_specs::wrapping_mul(n, 1024),
{
    lemma_keys();
    assert("Bounce"@[0] != "Cached"@[0]);
    assert("Bounce"@[0] != "Active"@[0]);
    assert("Bounce"@[0] != "Mapped"@[0]);
    lemma_meminfo_line(m, "Bounce"@, w, n, w2);
}

proof fn line_sets_writeback_tmp(m: MemInfo, w: char, n: u64, w2: char)
    requires
        is_ws(w),
        is_ws(w2),
    ensures
        meminfo_step(m, meminfo_line("WritebackTmp"@, w, n, w2)).writeback_tmp == u64_specs::wrapping_mul(n, 1024),
{
    lemma_keys();
    assert("WritebackTmp"@[0] != "MemAvailable"@[0]);
    assert("WritebackTmp"@[0] != "Active(anon)"@[0]);
    assert("WritebackTmp"@[0] != "Active(file)"@[0]);
    assert("WritebackTmp"@[0] != "KReclaimable"@[0]);
    assert("WritebackTmp"@[0] != "SReclaimable"@[0]);
    assert("WritebackTmp"@[0] != "NFS_Unstable"@[0]);
    lemma_meminfo_line(m, "WritebackTmp"@, w, n, w2);
}

proof fn line_sets_commit_limit(m: MemInfo, w: char, n: u64, w2: char)
    requires
        is_ws(w),
        is_ws(w2),
    ensures
        meminfo_step(m, meminfo_line("CommitLimit"@, w, n, w2)).commit_limit == u64_specs::wrapping_mul(n, 1024),
{
    lemma_keys();
    assert("CommitLimit"@[0] != "Unevictable"@[0]);
    assert("CommitLimit"@[0] != "KernelStack"@[0]);
    lemma_meminfo_line(m, "CommitLimit"@, w, n, w2);
}

proof fn line_sets_committed_as(m: MemInfo, w: char, n: u64, w2: char)
    requires
        is_ws(w),
        is_ws(w2),
    ensures
        meminfo_step(m, meminfo_line("Committed_AS"@, w, n, w2)).committed_as == u64_specs::wrapping_mul(n, 1024),
{
    lemma_keys();
    assert("Committed_AS"@[0] != "MemAvailable"@[0]);
    assert("Committed_AS"@[0] != "Active(anon)"@[0]);
    assert("Committed_AS"@[0] != "Active(file)"@[0]);
    assert("Committed_AS"@[0] != "KReclaimable"@[0]);
    assert("Committed_AS"@[0] != "SReclaimable"@[0]);
    assert("Committed_AS"@[0] != "NFS_Unstable"@[0]);
    assert("Committed_AS"@[0] != "WritebackTmp"@[0]);
    lemma_meminfo_line(m, "Committed_AS"@, w, n, w2);
}

proof fn line_sets_vmalloc_total(m: MemInfo, w: char, n: u64, w2: char)
    requires
        is_ws(w),
        is_ws(w2),
    ensures
        meminfo_step(m, meminfo_line("VmallocTotal"@, w, n, w2)).vmalloc_total == u64_specs::wrapping_mul(n, 1024),
{
    lemma_keys();
    assert("VmallocTotal"@[0] != "MemAvailable"@[0]);
    assert("VmallocTotal"@[0] != "Active(anon)"@[0]);
    assert("VmallocTotal"@[0] != "Active(file)"@[0]);
    assert("VmallocTotal"@[0] != "KReclaimable"@[0]);
    assert("VmallocTotal"@[0] != "SReclaimable"@[0]);
    assert("VmallocTotal"@[0] != "NFS_Unstable"@[0]);
    assert("VmallocTotal"@[0] != "WritebackTmp"@[0]);
    assert("VmallocTotal"@[0] != "Committed_AS"@[0]);
    lemma_meminfo_line(m, "VmallocTotal"@, w, n, w2);
}

proof fn line_sets_vmalloc_used(m: MemInfo, w: char, n: u64, w2: char)
    requires
        is_ws(w),
        is_ws(w2),
    ensures
        meminfo_step(m, meminfo_line("VmallocUsed"@, w, n, w2)).vmalloc_used == u64_specs::wrapping_mul(n, 1024),
{
    lemma_keys();
    assert("VmallocUsed"@[0] != "Unevictable"@[0]);
    assert("VmallocUsed"@[0] != "KernelStack"@[0]);
    assert("VmallocUsed"@[0] != "CommitLimit"@[0]);
    lemma_meminfo_line(m, "VmallocUsed"@, w, n, w2);
}

proof fn line_sets_vmalloc_chunk(m: MemInfo, w: char, n: u64, w2: char)
    requires
        is_ws(w),
        is_ws(w2),
    ensures
        meminfo_step(m, meminfo_line("VmallocChunk"@, w, n, w2)).vmalloc_chunk == u64_specs::wrapping_mul(n, 1024),
{
    lemma_keys();
    assert("VmallocChunk"@[0] != "MemAvailable"@[0]);
    assert("VmallocChunk"@[0] != "Active(anon)"@[0]);
    assert("VmallocChunk"@[0] != "Active(file)"@[0]);
    assert("VmallocChunk"@[0] != "KReclaimable"@[0]);
    assert("VmallocChunk"@[0] != "SReclaimable"@[0]);
    assert("VmallocChunk"@[0] != "NFS_Unstable"@[0]);
    assert("VmallocChunk"@[0] != "WritebackTmp"@[0]);
    assert("VmallocChunk"@[0] != "Committed_AS"@[0]);
    assert("VmallocChunk"@[7] != "VmallocTotal"@[7]);
    lemma_meminfo_line(m, "VmallocChunk"@, w, n, w2);
}

proof fn line_sets_percpu(m: MemInfo, w: char, n: u64, w2: char)
    requires
        is_ws(w),
        is_ws(w2),
    ensures
        meminfo_step(m, meminfo_line("Percpu"@, w, n, w2)).percpu == u64_specs::wrapping_mul(n, 1024),
{
    lemma_keys();
    assert("Percpu"@[0] != "Cached"@[0]);
    assert("Percpu"@[0] != "Active"@[0]);
    assert("Percpu"@[0] != "Mapped"@[0]);
    assert("Percpu"@[0] != "Bounce"@[0]);
    lemma_meminfo_line(m, "Percpu"@, w, n, w2);
}

proof fn line_sets_hardware_corrupted(m: MemInfo, w: char, n: u64, w2: char)
    requires
        is_ws(w),
        is_ws(w2),
    ensures
        meminfo_step(m, meminfo_line("HardwareCorrupted"@, w, n, w2)).hardware_corrupted == u64_specs::wrapping_mul(n, 1024),
{
    lemma_keys();
    lemma_meminfo_line(m, "HardwareCorrupted"@, w, n, w2);
}

proof fn line_sets_anon_huge_pages(m: MemInfo, w: char, n: u64, w2: char)
    requires
        is_ws(w),
        is_ws(w2),
    ensures
        meminfo_step(m, meminfo_line("AnonHugePages"@, w, n, w2)).anon_huge_pages == u64_specs::wrapping_mul(n, 1024),
{
    lemma_keys();
    assert("AnonHugePages"@[0] != "SecPageTables"@[0]);
    lemma_meminfo_line(m, "AnonHugePages"@, w, n, w2);
}

proof fn line_sets_shmem_huge_pages(m: MemInfo, w: char, n: u64, w2: char)
    requires
        is_ws(w),
        is_ws(w2),
    ensures
        meminfo_step(m, meminfo_line("ShmemHugePages"@, w, n, w2)).shmem_huge_pages == u64_specs::wrapping_mul(n, 1024),
{
    lemma_keys();
    assert("ShmemHugePages"@[0] != "Inactive(anon)"@[0]);
    assert("ShmemHugePages"@[0] != "Inactive(file)"@[0]);
    lemma_meminfo_line(m, "ShmemHugePages"@, w, n, w2);
}

proof fn line_sets_shmem_pmd_mapped(m: MemInfo, w: char, n: u64, w2: char)
    requires
        is_ws(w),
        is_ws(w2),
    ensures
        meminfo_step(m, meminfo_line("ShmemPmdMapped"@, w, n, w2)).shmem_pmd_mapped == u64_specs::wrapping_mul(n, 1024),
{
    lemma_keys();
    assert("ShmemPmdMapped"@[0] != "Inactive(anon)"@[0]);
    assert("ShmemPmdMapped"@[0] != "Inactive(file)"@[0]);
    assert("ShmemPmdMapped"@[5] != "ShmemHugePages"@[5]);
    lemma_meminfo_line(m, "ShmemPmdMapped"@, w, n, w2);
}

proof fn line_sets_file_huge_pages(m: MemInfo, w: char, n: u64, w2: char)
    requires
        is_ws(w),
        is_ws(w2),
    ensures
        meminfo_step(m, meminfo_line("FileHugePages"@, w, n, w2)).file_huge_pages == u64_specs::wrapping_mul(n, 1024),
{
    lemma_keys();
    assert("FileHugePages"@[0] != "SecPageTables"@[0]);
    assert("FileHugePages"@[0] != "AnonHugePages"@[0]);
    lemma_meminfo_line(m, "FileHugePages"@, w, n, w2);
}

proof fn line_sets_file_pmd_mapped(m: MemInfo, w: char, n: u64, w2: char)
    requires
        is_ws(w),
        is_ws(w2),
    ensures
        meminfo_step(m, meminfo_line("FilePmdMapped"@, w, n, w2)).file_pmd_mapped == u64_specs::wrapping_mul(n, 1024),
{
    lemma_keys();
    assert("FilePmdMapped"@[0] != "SecPageTables"@[0]);
    assert("FilePmdMapped"@[0] != "AnonHugePages"@[0]);
    assert("FilePmdMapped"@[4] != "FileHugePages"@[4]);
    lemma_meminfo_line(m, "FilePmdMapped"@, w, n, w2);
}

proof fn line_sets_cma_total(m: MemInfo, w: char, n: u64, w2: char)
    requires
        is_ws(w),
        is_ws(w2),
    ensures
        meminfo_step(m, meminfo_line("CmaTotal"@, w, n, w2)).cma_total == u64_specs::wrapping_mul(n, 1024),
{
    lemma_keys();
    assert("CmaTotal"@[0] != "MemTotal"@[0]);
    assert("CmaTotal"@[0] != "Inactive"@[0]);
    assert("CmaTotal"@[0] != "SwapFree"@[0]);
    lemma_meminfo_line(m, "CmaTotal"@, w, n, w2);
}

proof fn line_sets_cma_free(m: MemInfo, w: char, n: u64, w2: char)
    requires
        is_ws(w),
        is_ws(w2),
    ensures
        meminfo_step(m, meminfo_line("CmaFree"@, w, n, w2)).cma_free == u64_specs::wrapping_mul(n, 1024),
{
    lemma_keys();
    assert("CmaFree"@[0] != "MemFree"@[0]);
    assert("CmaFree"@[0] != "Buffers"@[0]);
    assert("CmaFree"@[0] != "Mlocked"@[0]);
    lemma_meminfo_line(m, "CmaFree"@, w, n, w2);
}

proof fn line_sets_hugepages_total(m: MemInfo, w: char, n: u64, w2: char)
    requires
        is_ws(w),
        is_ws(w2),
    ensures
        meminfo_step(m, meminfo_line("HugePages_Total"@, w, n, w2)).hugepages_total == u64_specs::wrapping_mul(n, 1024),
{
    lemma_keys();
    lemma_meminfo_line(m, "HugePages_Total"@, w, n, w2);
}

proof fn line_sets_hugepages_free(m: MemInfo, w: char, n: u64, w2: char)
    requires
        is_ws(w),
        is_ws(w2),
    ensures
        meminfo_step(m, meminfo_line("HugePages_Free"@, w, n, w2)).hugepages_free == u64_specs::wrapping_mul(n, 1024),
{
    lemma_keys();
    assert("HugePages_Free"@[0] != "Inactive(anon)"@[0]);
    assert("HugePages_Free"@[0] != "Inactive(file)"@[0]);
    assert("HugePages_Free"@[0] != "ShmemHugePages"@[0]);
    assert("HugePages_Free"@[0] != "ShmemPmdMapped"@[0]);
    lemma_meminfo_line(m, "HugePages_Free"@, w, n, w2);
}

proof fn line_sets_hugepages_rsvd(m: MemInfo, w: char, n: u64, w2: char)
    requires
        is_ws(w),
        is_ws(w2),
    ensures
        meminfo_step(m, meminfo_line("HugePages_Rsvd"@, w, n, w2)).hugepages_rsvd == u64_specs::wrapping_mul(n, 1024),
{
    lemma_keys();
    assert("HugePages_Rsvd"@[0] != "Inactive(anon)"@[0]);
    assert("HugePages_Rsvd"@[0] != "Inactive(file)"@[0]);
    assert("HugePages_Rsvd"@[0] != "ShmemHugePages"@[0]);
    assert("HugePages_Rsvd"@[0] != "ShmemPmdMapped"@[0]);
    assert("HugePages_Rsvd"@[10] != "HugePages_Free"@[10]);
    lemma_meminfo_line(m, "HugePages_Rsvd"@, w, n, w2);
}

proof fn line_sets_hugepages_surp(m: MemInfo, w: char, n: u64, w2: char)
    requires
        is_ws(w),
        is_ws(w2),
    ensures
        meminfo_step(m, meminfo_line("HugePages_Surp"@, w, n, w2)).hugepages_surp == u64_specs::wrapping_mul(n, 1024),
{
    lemma_keys();
    assert("HugePages_Surp"@[0] != "Inactive(anon)"@[0]);
    assert("HugePages_Surp"@[0] != "Inactive(file)"@[0]);
    assert("HugePages_Surp"@[0] != "ShmemHugePages"@[0]);
    assert("HugePages_Surp"@[0] != "ShmemPmdMapped"@[0]);
    assert("HugePages_Surp"@[10] != "HugePages_Free"@[10]);
    assert("HugePages_Surp"@[10] != "HugePages_Rsvd"@[10]);
    lemma_meminfo_line(m, "HugePages_Surp"@, w, n, w2);
}

proof fn line_sets_hugepagesize(m: MemInfo, w: char, n: u64, w2: char)
    requires
        is_ws(w),
        is_ws(w2),
    ensures
        meminfo_step(m, meminfo_line("Hugepagesize"@, w, n, w2)).hugepagesize == u64_specs::wrapping_mul(n, 1024),
{
    lemma_keys();
    assert("Hugepagesize"@[0] != "MemAvailable"@[0]);
    assert("Hugepagesize"@[0] != "Active(anon)"@[0]);
    assert("Hugepagesize"@[0] != "Active(file)"@[0]);
    assert("Hugepagesize"@[0] != "KReclaimable"@[0]);
    assert("Hugepagesize"@[0] != "SReclaimable"@[0]);
    assert("Hugepagesize"@[0] != "NFS_Unstable"@[0]);
    assert("Hugepagesize"@[0] != "WritebackTmp"@[0]);
    assert("Hugepagesize"@[0] != "Committed_AS"@[0]);
    assert("Hugepagesize"@[0] != "VmallocTotal"@[0]);
    assert("Hugepagesize"@[0] != "VmallocChunk"@[0]);
    lemma_meminfo_line(m, "Hugepagesize"@, w, n, w2);
}

proof fn line_sets_direct_map_4k(m: MemInfo, w: char, n: u64, w2: char)
    requires
        is_ws(w),
        is_ws(w2),
    ensures
        meminfo_step(m, meminfo_line("DirectMap4k"@, w, n, w2)).direct_map_4k == u64_specs::wrapping_mul(n, 1024),
{
    lemma_keys();
    assert("DirectMap4k"@[0] != "Unevictable"@[0]);
    assert("DirectMap4k"@[0] != "KernelStack"@[0]);
    assert("DirectMap4k"@[0] != "CommitLimit"@[0]);
    assert("DirectMap4k"@[0] != "VmallocUsed"@[0]);
    lemma_meminfo_line(m, "DirectMap4k"@, w, n, w2);
}

proof fn line_sets_direct_map_2m(m: MemInfo, w: char, n: u64, w2: char)
    requires
        is_ws(w),
        is_ws(w2),
    ensures
        meminfo_step(m, meminfo_line("DirectMap2M"@, w, n, w2)).direct_map_2m == u64_specs::wrapping_mul(n, 1024),
{
    lemma_keys();
    assert("DirectMap2M"@[0] != "Unevictable"@[0]);
    assert("DirectMap2M"@[0] != "KernelStack"@[0]);
    assert("DirectMap2M"@[0] != "CommitLimit"@[0]);
    assert("DirectMap2M"@[0] != "VmallocUsed"@[0]);
    assert("DirectMap2M"@[9] != "DirectMap4k"@[9]);
    lemma_meminfo_line(m, "DirectMap2M"@, w, n, w2);
}

proof fn line_sets_direct_map_1g(m: MemInfo, w: char, n: u64, w2: char)
    requires
        is_ws(w),
        is_ws(w2),
    ensures
        meminfo_step(m, meminfo_line("DirectMap1G"@, w, n, w2)).direct_map_1g == u64_specs::wrapping_mul(n, 1024),
{
    lemma_keys();
    assert("DirectMap1G"@[0] != "Unevictable"@[0]);
    assert("DirectMap1G"@[0] != "KernelStack"@[0]);
    assert("DirectMap1G"@[0] != "CommitLimit"@[0]);
    assert("DirectMap1G"@[0] != "VmallocUsed"@[0]);
    assert("DirectMap1G"@[9] != "DirectMap4k"@[9]);
    assert("DirectMap1G"@[9] != "DirectMap2M"@[9]);
    lemma_meminfo_line(m, "DirectMap1G"@, w, n, w2);
}

proof fn line_sets_hugetlb(m: MemInfo, w: char, n: u64, w2: char)
    requires
        is_ws(w),
        is_ws(w2),
    ensures
        meminfo_step(m, meminfo_line("Hugetlb"@, w, n, w2)).hugetlb == u64_specs::wrapping_mul(n, 1024),
{
    lemma_keys();
    assert("Hugetlb"@[0] != "MemFree"@[0]);
    assert("Hugetlb"@[0] != "Buffers"@[0]);
    assert("Hugetlb"@[0] != "Mlocked"@[0]);
    assert("Hugetlb"@[0] != "CmaFree"@[0]);
    lemma_meminfo_line(m, "Hugetlb"@, w, n, w2);
}

proof fn line_sets_per_cpu(m: MemInfo, w: char, n: u64, w2: char)
    requires
        is_ws(w),
        is_ws(w2),
    ensures
        meminfo_step(m, meminfo_line("PerCPU"@, w, n, w2)).per_cpu == u64_specs::wrapping_mul(n, 1024),
{
    lemma_keys();
    assert("PerCPU"@[0] != "Cached"@[0]);
    assert("PerCPU"@[0] != "Active"@[0]);
    assert("PerCPU"@[0] != "Mapped"@[0]);
    assert("PerCPU"@[0] != "Bounce"@[0]);
    assert("PerCPU"@[3] != "Percpu"@[3]);
    lemma_meminfo_line(m, "PerCPU"@, w, n, w2);
}

/// Each key that the kernel writes sets its own counter: reading the line
/// `Key: n kB` sets the counter named by `Key` to `n * 1024` bytes (wrapping
/// past `u64::MAX`), for every one of the keys `MemInfo` holds.
pub proof fn meminfo_each_key_sets_its_counter(m: MemInfo, w: char, n: u64, w2: char)
    requires
        is_ws(w),
        is_ws(w2),
    ensures
        ({
            let v = u64_specs::wrapping_mul(n, 1024);
            &&& meminfo_step(m, meminfo_line("MemTotal"@, w, n, w2)).mem_total == v
            &&& meminfo_step(m, meminfo_line("MemFree"@, w, n, w2)).mem_free == v
            &&& meminfo_step(m, meminfo_line("MemAvailable"@, w, n, w2)).mem_available == v
            &&& meminfo_step(m, meminfo_line("Buffers"@, w, n, w2)).buffers == v
            &&& meminfo_step(m, meminfo_line("Cached"@, w, n, w2)).cached == v
            &&& meminfo_step(m, meminfo_line("SwapCached"@, w, n, w2)).swap_cached == v
            &&& meminfo_step(m, meminfo_line("Active"@, w, n, w2)).active == v
            &&& meminfo_step(m, meminfo_line("Inactive"@, w, n, w2)).inactive == v
            &&& meminfo_step(m, meminfo_line("Active(anon)"@, w, n, w2)).active_anon == v
            &&& meminfo_step(m, meminfo_line("Inactive(anon)"@, w, n, w2)).inactive_anon == v
            &&& meminfo_step(m, meminfo_line("Active(file)"@, w, n, w2)).active_file == v
            &&& meminfo_step(m, meminfo_line("Inactive(file)"@, w, n, w2)).inactive_file == v
            &&& meminfo_step(m, meminfo_line("Unevictable"@, w, n, w2)).unevictable == v
            &&& meminfo_step(m, meminfo_line("Mlocked"@, w, n, w2)).mlocked == v
            &&& meminfo_step(m, meminfo_line("SwapTotal"@, w, n, w2)).swap_total == v
            &&& meminfo_step(m, meminfo_line("SwapFree"@, w, n, w2)).swap_free == v
            &&& meminfo_step(m, meminfo_line("Dirty"@, w, n, w2)).dirty == v
            &&& meminfo_step(m, meminfo_line("Writeback"@, w, n, w2)).writeback == v
            &&& meminfo_step(m, meminfo_line("AnonPages"@, w, n, w2)).anon_pages == v
            &&& meminfo_step(m, meminfo_line("Mapped"@, w, n, w2)).mapped == v
            &&& meminfo_step(m, meminfo_line("Shmem"@, w, n, w2)).shmem == v
            &&& meminfo_step(m, meminfo_line("KReclaimable"@, w, n, w2)).k_reclaimable == v
            &&& meminfo_step(m, meminfo_line("Slab"@, w, n, w2)).slab == v
            &&& meminfo_step(m, meminfo_line("SReclaimable"@, w, n, w2)).s_reclaimable == v
            &&& meminfo_step(m, meminfo_line("SUnreclaim"@, w, n, w2)).s_unreclaim == v
            &&& meminfo_step(m, meminfo_line("KernelStack"@, w, n, w2)).kernel_stack == v
            &&& meminfo_step(m, meminfo_line("PageTables"@, w, n, w2)).page_tables == v
            &&& meminfo_step(m, meminfo_line("SecPageTables"@, w, n, w2)).sec_page_tables == v
            &&& meminfo_step(m, meminfo_line("NFS_Unstable"@, w, n, w2)).nfs_unstable == v
            &&& meminfo_step(m, meminfo_line("Bounce"@, w, n, w2)).bounce == v
            &&& meminfo_step(m, meminfo_line("WritebackTmp"@, w, n, w2)).writeback_tmp == v
            &&& meminfo_step(m, meminfo_line("CommitLimit"@, w, n, w2)).commit_limit == v
            &&& meminfo_step(m, meminfo_line("Committed_AS"@, w, n, w2)).committed_as == v
            &&& meminfo_step(m, meminfo_line("VmallocTotal"@, w, n, w2)).vmalloc_total == v
            &&& meminfo_step(m, meminfo_line("VmallocUsed"@, w, n, w2)).vmalloc_used == v
            &&& meminfo_step(m, meminfo_line("VmallocChunk"@, w, n, w2)).vmalloc_chunk == v
            &&& meminfo_step(m, meminfo_line("Percpu"@, w, n, w2)).percpu == v
            &&& meminfo_step(m, meminfo_line("HardwareCorrupted"@, w, n, w2)).hardware_corrupted == v
            &&& meminfo_step(m, meminfo_line("AnonHugePages"@, w, n, w2)).anon_huge_pages == v
            &&& meminfo_step(m, meminfo_line("ShmemHugePages"@, w, n, w2)).shmem_huge_pages == v
            &&& meminfo_step(m, meminfo_line("ShmemPmdMapped"@, w, n, w2)).shmem_pmd_mapped == v
            &&& meminfo_step(m, meminfo_line("FileHugePages"@, w, n, w2)).file_huge_pages == v
            &&& meminfo_step(m, meminfo_line("FilePmdMapped"@, w, n, w2)).file_pmd_mapped == v
            &&& meminfo_step(m, meminfo_line("CmaTotal"@, w, n, w2)).cma_total == v
            &&& meminfo_step(m, meminfo_line("CmaFree"@, w, n, w2)).cma_free == v
            &&& meminfo_step(m, meminfo_line("HugePages_Total"@, w, n, w2)).hugepages_total == v
            &&& meminfo_step(m, meminfo_line("HugePages_Free"@, w, n, w2)).hugepages_free == v
            &&& meminfo_step(m, meminfo_line("HugePages_Rsvd"@, w, n, w2)).hugepages_rsvd == v
            &&& meminfo_step(m, meminfo_line("HugePages_Surp"@, w, n, w2)).hugepages_surp == v
            &&& meminfo_step(m, meminfo_line("Hugepagesize"@, w, n, w2)).hugepagesize == v
            &&& meminfo_step(m, meminfo_line("DirectMap4k"@, w, n, w2)).direct_map_4k == v
            &&& meminfo_step(m, meminfo_line("DirectMap2M"@, w, n, w2)).direct_map_2m == v
            &&& meminfo_step(m, meminfo_line("DirectMap1G"@, w, n, w2)).direct_map_1g == v
            &&& meminfo_step(m, meminfo_line("Hugetlb"@, w, n, w2)).hugetlb == v
            &&& meminfo_step(m, meminfo_line("PerCPU"@, w, n, w2)).per_cpu == v
        }),
{
    line_sets_mem_total(m, w, n, w2);
    line_sets_mem_free(m, w, n, w2);
    line_sets_mem_available(m, w, n, w2);
    line_sets_buffers(m, w, n, w2);
    line_sets_cached(m, w, n, w2);
    line_sets_swap_cached(m, w, n, w2);
    line_sets_active(m, w, n, w2);
    line_sets_inactive(m, w, n, w2);
    line_sets_active_anon(m, w, n, w2);
    line_sets_inactive_anon(m, w, n, w2);
    line_sets_active_file(m, w, n, w2);
    line_sets_inactive_file(m, w, n, w2);
    line_sets_unevictable(m, w, n, w2);
    line_sets_mlocked(m, w, n, w2);
    line_sets_swap_total(m, w, n, w2);
    line_sets_swap_free(m, w, n, w2);
    line_sets_dirty(m, w, n, w2);
    line_sets_writeback(m, w, n, w2);
    line_sets_anon_pages(m, w, n, w2);
    line_sets_mapped(m, w, n, w2);
    line_sets_shmem(m, w, n, w2);
    line_sets_k_reclaimable(m, w, n, w2);
    line_sets_slab(m, w, n, w2);
    line_sets_s_reclaimable(m, w, n, w2);
    line_sets_s_unreclaim(m, w, n, w2);
    line_sets_kernel_stack(m, w, n, w2);
    line_sets_page_tables(m, w, n, w2);
    line_sets_sec_page_tables(m, w, n, w2);
    line_sets_nfs_unstable(m, w, n, w2);
    line_sets_bounce(m, w, n, w2);
    line_sets_writeback_tmp(m, w, n, w2);
    line_sets_commit_limit(m, w, n, w2);
    line_sets_committed_as(m, w, n, w2);
    line_sets_vmalloc_total(m, w, n, w2);
    line_sets_vmalloc_used(m, w, n, w2);
    line_sets_vmalloc_chunk(m, w, n, w2);
    line_sets_percpu(m, w, n, w2);
    line_sets_hardware_corrupted(m, w, n, w2);
    line_sets_anon_huge_pages(m, w, n, w2);
    line_sets_shmem_huge_pages(m, w, n, w2);
    line_sets_shmem_pmd_mapped(m, w, n, w2);
    line_sets_file_huge_pages(m, w, n, w2);
    line_sets_file_pmd_mapped(m, w, n, w2);
    line_sets_cma_total(m, w, n, w2);
    line_sets_cma_free(m, w, n, w2);
    line_sets_hugepages_total(m, w, n, w2);
    line_sets_hugepages_free(m, w, n, w2);
    line_sets_hugepages_rsvd(m, w, n, w2);
    line_sets_hugepages_surp(m, w, n, w2);
    line_sets_hugepagesize(m, w, n, w2);
    line_sets_direct_map_4k(m, w, n, w2);
    line_sets_direct_map_2m(m, w, n, w2);
    line_sets_direct_map_1g(m, w, n, w2);
    line_sets_hugetlb(m, w, n, w2);
    line_sets_per_cpu(m, w, n, w2);
}

} // verus!
