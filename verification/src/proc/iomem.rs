//! `/proc/iomem`: the physical address map.
use vstd::prelude::*;
use vstd::string::StringExecFns;
use vstd::wrapping::u64_specs;

use crate::text::{
    byte_len, byte_len_at_least, eq_lit, find_char, first_index, has_char, lemma_first_index_bounds,
    line_ranges, lines, parse_hex, parse_uint_range, string_from, to_chars, trim, trim_range,
    trim_start,
};
use crate::tree::{new_region, place, MemoryTree, Region, RegionVariant, RegionView, TreeView};

verus! {

/// The variant that an `/proc/iomem` region name stands for, if the tree
/// keeps such regions (PCI, Reserved and the like it does not).
pub open spec fn iomem_variant(name: Seq<char>) -> Option<RegionVariant> {
    if name == "Kernel code"@ {
        Some(RegionVariant::KernelCode)
    } else if name == "Kernel rodata"@ {
        Some(RegionVariant::KernelRodata)
    } else if name == "Kernel data"@ {
        Some(RegionVariant::KernelData)
    } else if name == "Kernel bss"@ {
        Some(RegionVariant::KernelBss)
    } else if name == "System RAM"@ {
        Some(RegionVariant::SystemRam)
    } else {
        None
    }
}

/// Whether `v` is a part of the kernel image.
pub open spec fn is_kernel_part(v: RegionVariant) -> bool {
    v == RegionVariant::KernelCode || v == RegionVariant::KernelRodata || v
        == RegionVariant::KernelData || v == RegionVariant::KernelBss
}

/// The region that a trimmed `/proc/iomem` line `start-end : name` describes:
/// `start` and `end` in hexadecimal, the name one that `iomem_variant` knows.
pub open spec fn iomem_line_region(line: Seq<char>) -> Option<RegionView> {
    let c = first_index(line, ':');
    if c >= line.len() {
        None
    } else {
        let range = trim(line.take(c));
        let name = trim(line.skip(c + 1));
        let d = first_index(range, '-');
        if d >= range.len() || has_char(range.skip(d + 1), '-') {
            None
        } else {
            match (parse_hex(trim(range.take(d))), parse_hex(trim(range.skip(d + 1)))) {
                (Some(start), Some(end)) => match iomem_variant(name) {
                    Some(v) => Some(new_region(start, end, v, name)),
                    None => None,
                },
                _ => None,
            }
        }
    }
}

/// Whether `line` is indented by less than two bytes (a top-level region).
pub open spec fn top_level(line: Seq<char>) -> bool {
    byte_len(line.take(line.len() - trim_start(line).len())) < 2
}

/// `t` once one line of `/proc/iomem` is read: a region that the line
/// describes is placed in the tree; its size counts as RAM when the line is not
/// indented, and as kernel when it is a part of the kernel image.
pub open spec fn iomem_step(t: TreeView, line: Seq<char>) -> TreeView {
    if trim(line).len() == 0 {
        t
    } else {
        match iomem_line_region(trim(line)) {
            None => t,
            Some(r) => TreeView {
                roots: place(t.roots, 0, r),
                ram_size: if top_level(line) {
                    u64_specs::wrapping_add(t.ram_size, r.size)
                } else {
                    t.ram_size
                },
                kernel_size: if is_kernel_part(r.variant) {
                    u64_specs::wrapping_add(t.kernel_size, r.size)
                } else {
                    t.kernel_size
                },
            },
        }
    }
}

/// `t` once the lines `ls` are read in order.
pub open spec fn iomem_fold(t: TreeView, ls: Seq<Seq<char>>) -> TreeView
    decreases ls.len(),
{
    if ls.len() == 0 {
        t
    } else {
        iomem_step(iomem_fold(t, ls.drop_last()), ls.last())
    }
}

/// `iomem_variant` of `cs[lo..hi]`.
fn iomem_variant_at(cs: &Vec<char>, lo: usize, hi: usize) -> (v: Option<RegionVariant>)
    requires
        lo <= hi <= cs.len(),
    ensures
        v == iomem_variant(cs@.subrange(lo as int, hi as int)),
{
    if eq_lit(cs, lo, hi, "Kernel code") {
        Some(RegionVariant::KernelCode)
    } else if eq_lit(cs, lo, hi, "Kernel rodata") {
        Some(RegionVariant::KernelRodata)
    } else if eq_lit(cs, lo, hi, "Kernel data") {
        Some(RegionVariant::KernelData)
    } else if eq_lit(cs, lo, hi, "Kernel bss") {
        Some(RegionVariant::KernelBss)
    } else if eq_lit(cs, lo, hi, "System RAM") {
        Some(RegionVariant::SystemRam)
    } else {
        None
    }
}

/// The variant that an `/proc/iomem` region name stands for, if any.
pub fn detect_iomem_variant(name: &str) -> (v: Option<RegionVariant>)
    ensures
        v == iomem_variant(name@),
{
    let cs = to_chars(name);
    assert(cs@.subrange(0, cs@.len() as int) == cs@);
    iomem_variant_at(&cs, 0, cs.len())
}

/// `iomem_line_region` of `cs[lo..hi]`.
fn iomem_line_at(cs: &Vec<char>, lo: usize, hi: usize) -> (r: Option<Region>)
    requires
        lo <= hi <= cs.len(),
    ensures
        match iomem_line_region(cs@.subrange(lo as int, hi as int)) {
            Some(v) => r is Some && r->0@ == v,
            None => r is None,
        },
{
    let ghost line = cs@.subrange(lo as int, hi as int);
    let c = find_char(cs, lo, hi, ':');
    proof {
        lemma_first_index_bounds(line, ':');
    }
    if c >= hi {
        return None;
    }
    assert(line.take(c - lo) == cs@.subrange(lo as int, c as int));
    assert(line.skip(c - lo + 1) == cs@.subrange(c + 1, hi as int));
    let (ra, rb) = trim_range(cs, lo, c);
    let (na, nb) = trim_range(cs, c + 1, hi);
    let ghost range = cs@.subrange(ra as int, rb as int);
    let d = find_char(cs, ra, rb, '-');
    proof {
        lemma_first_index_bounds(range, '-');
    }
    if d >= rb {
        return None;
    }
    assert(range.skip(d - ra + 1) == cs@.subrange(d + 1, rb as int));
    assert(range.take(d - ra) == cs@.subrange(ra as int, d as int));
    let d2 = find_char(cs, d + 1, rb, '-');
    proof {
        lemma_first_index_bounds(cs@.subrange(d + 1, rb as int), '-');
    }
    if d2 < rb {
        assert(cs@.subrange(d + 1, rb as int)[d2 - d - 1] == '-');
        return None;
    }
    assert(!has_char(range.skip(d - ra + 1), '-'));
    let (sa, sb) = trim_range(cs, ra, d);
    let (ea, eb) = trim_range(cs, d + 1, rb);
    let start = parse_uint_range(cs, sa, sb, 16);
    let end = parse_uint_range(cs, ea, eb, 16);
    match (start, end) {
        (Some(start), Some(end)) => match iomem_variant_at(cs, na, nb) {
            Some(v) => {
                let name = string_from(cs, na, nb);
                Some(Region::new(start, end, v, name))
            },
            None => None,
        },
        _ => None,
    }
}

/// The region that a trimmed `/proc/iomem` line describes, if the tree keeps
/// regions of its kind.
pub fn parse_iomem_line(line: &str) -> (r: Option<Region>)
    ensures
        match iomem_line_region(line@) {
            Some(v) => r is Some && r->0@ == v,
            None => r is None,
        },
{
    let cs = to_chars(line);
    assert(cs@.subrange(0, cs@.len() as int) == cs@);
    iomem_line_at(&cs, 0, cs.len())
}

/// Reads the contents of `/proc/iomem` into `tree` (see `iomem_step`).
pub fn parse_iomem(tree: &mut MemoryTree, content: &str) -> (r: Result<(), String>)
    ensures
        r is Ok,
        final(tree)@ == iomem_fold(old(tree)@, lines(content@)),
{
    let cs = to_chars(content);
    let ls = line_ranges(&cs);
    let mut k: usize = 0;
    let ghost all = lines(cs@);
    assert(all.take(0) =~= Seq::<Seq<char>>::empty());
    while k < ls.len()
        invariant
            all == lines(cs@),
            ls.len() == all.len(),
            forall|j: int|
                0 <= j < ls.len() ==> #[trigger] ls@[j].0 <= ls@[j].1 <= cs.len() && cs@.subrange(
                    ls@[j].0 as int,
                    ls@[j].1 as int,
                ) == all[j],
            k <= ls.len(),
            tree@ == iomem_fold(old(tree)@, all.take(k as int)),
        decreases ls.len() - k,
    {
        let (lo, hi) = ls[k];
        let ghost line = cs@.subrange(lo as int, hi as int);
        assert(line == all[k as int]);
        assert(all.take(k + 1).drop_last() == all.take(k as int));
        assert(all.take(k + 1).last() == line);
        let (a, b) = trim_range(&cs, lo, hi);
        if a < b {
            match iomem_line_at(&cs, a, b) {
                Some(region) => {
                    let top = !byte_len_at_least(&cs, lo, a, 2);
                    assert(line.take(line.len() - trim_start(line).len()) == cs@.subrange(
                        lo as int,
                        a as int,
                    ));
                    if top {
                        tree.ram_size = tree.ram_size.wrapping_add(region.size);
                    }
                    match region.variant {
                        RegionVariant::KernelCode | RegionVariant::KernelRodata
                        | RegionVariant::KernelData | RegionVariant::KernelBss => {
                            tree.kernel_size = tree.kernel_size.wrapping_add(region.size);
                        },
                        _ => {},
                    }
                    tree.insert_region(region);
                },
                None => {},
            }
        }
        k += 1;
    }
    assert(all.take(ls.len() as int) == all);
    Ok(())
}

/// What is wrong with a line of `/proc/iomem`, as a message to warn with:
/// a line that is not blank needs a `:` after its range, and the range needs
/// exactly one `-`. `None` for a line that can be read, whether or not the
/// tree keeps its kind of region.
pub open spec fn iomem_problem(line: Seq<char>) -> Option<Seq<char>> {
    let tr = trim(line);
    if tr.len() == 0 {
        None
    } else {
        let c = first_index(tr, ':');
        if c >= tr.len() {
            Some("Cannot split /proc/iomem line"@)
        } else {
            let range = trim(tr.take(c));
            let d = first_index(range, '-');
            if d >= range.len() || has_char(range.skip(d + 1), '-') {
                Some("Cannot split /proc/iomem address range"@)
            } else {
                None
            }
        }
    }
}

/// The warning for a line of `/proc/iomem`, if the line cannot be split
/// (see `iomem_problem`).
pub fn iomem_line_problem(line: &str) -> (r: Option<String>)
    ensures
        match iomem_problem(line@) {
            Some(msg) => r is Some && r->0@ == msg,
            None => r is None,
        },
{
    let cs = to_chars(line);
    assert(cs@.subrange(0, cs@.len() as int) == cs@);
    let (lo, hi) = trim_range(&cs, 0, cs.len());
    if lo == hi {
        return None;
    }
    let ghost tr = cs@.subrange(lo as int, hi as int);
    let c = find_char(&cs, lo, hi, ':');
    proof {
        lemma_first_index_bounds(tr, ':');
    }
    if c >= hi {
        return Some(String::from_str("Cannot split /proc/iomem line"));
    }
    assert(tr.take(c - lo) == cs@.subrange(lo as int, c as int));
    let (ra, rb) = trim_range(&cs, lo, c);
    let ghost range = cs@.subrange(ra as int, rb as int);
    let d = find_char(&cs, ra, rb, '-');
    proof {
        lemma_first_index_bounds(range, '-');
    }
    if d >= rb {
        return Some(String::from_str("Cannot split /proc/iomem address range"));
    }
    assert(range.skip(d - ra + 1) == cs@.subrange(d + 1, rb as int));
    let d2 = find_char(&cs, d + 1, rb, '-');
    proof {
        lemma_first_index_bounds(cs@.subrange(d + 1, rb as int), '-');
    }
    if d2 < rb {
        assert(cs@.subrange(d + 1, rb as int)[d2 - d - 1] == '-');
        return Some(String::from_str("Cannot split /proc/iomem address range"));
    }
    None
}

} // verus!
