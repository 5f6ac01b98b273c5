//! `/proc/modules`: the loaded kernel modules and their sizes.
use vstd::arithmetic::div_mod::{lemma_add_mod_noop, lemma_small_mod};
use vstd::prelude::*;
use vstd::string::StringExecFns;
use vstd::wrapping::u64_specs;

use crate::sort::{
    lemma_stable_sort_map, lemma_stable_sort_permutes, lemma_stable_sort_sorted, sort_by_key,
    stable_sort, SortKey, SpecKey,
};
use crate::text::{
    append_range, char_width, char_width_of, line_ranges, lines, parse_dec, parse_hex, parse_uint_range,
    string_from, to_chars, trim, trim_range, word_ranges, words,
};
use crate::tree::region::{
    lemma_views_of, lemma_views_of_map, lemma_wrapping_add_mod, region_size, rows_of_regions,
};
use crate::tree::{
    new_region, row_views, rows_of, views_of, Region, RegionRow, RegionVariant, RegionView,
};

verus! {

/// The loaded kernel modules, each as a region of virtual addresses, and the
/// sum of their sizes.
#[derive(Debug)]
pub struct KernelModules {
    /// virtual addresses
    pub roots: Vec<Region>,
    pub used: u64,
}

/// The value of `KernelModules`.
pub struct ModulesView {
    pub roots: Seq<RegionView>,
    pub used: u64,
}

impl View for KernelModules {
    type V = ModulesView;

    open spec fn view(&self) -> ModulesView {
        ModulesView { roots: views_of(self.roots@), used: self.used }
    }
}

impl Default for KernelModules {
    fn default() -> (m: KernelModules)
        ensures
            m@.roots == Seq::<RegionView>::empty(),
            m@.used == 0,
    {
        let m = KernelModules { roots: Vec::new(), used: 0 };
        assert(m@.roots =~= Seq::<RegionView>::empty());
        m
    }
}

/// The chars of `s` after its first two UTF-8 bytes, as `&s[2..]` gives
/// them; `None` where that slice panics (fewer than two bytes, or byte 2 within
/// a char).
pub open spec fn after_two_bytes(s: Seq<char>) -> Option<Seq<char>> {
    if s.len() >= 1 && char_width(s[0]) == 2 {
        Some(s.drop_first())
    } else if s.len() >= 2 && char_width(s[0]) == 1 && char_width(s[1]) == 1 {
        Some(s.skip(2))
    } else {
        None
    }
}

/// Whether a line of `/proc/modules` can be read: a blank line or one of
/// fewer than four words is skipped; any other needs a sixth word, the load
/// address, of which the first two bytes can be cut off.
pub open spec fn module_line_readable(line: Seq<char>) -> bool {
    let ws = words(line);
    trim(line).len() == 0 || ws.len() < 4 || (ws.len() >= 6 && after_two_bytes(ws[5]) is Some)
}

/// Whether every line of `content` can be read.
pub open spec fn modules_readable(content: Seq<char>) -> bool {
    forall|k: int| 0 <= k < lines(content).len() ==> module_line_readable(#[trigger] lines(content)[k])
}

/// `m` once one line `name size refs deps state address` of `/proc/modules` is
/// read: a module whose address (after `0x`) is hexadecimal becomes a region
/// of `size` bytes from that address (a size that is not a number counts as
/// 0), and its size counts as used; sums past `u64::MAX` wrap.
pub open spec fn module_step(m: ModulesView, line: Seq<char>) -> ModulesView {
    let ws = words(line);
    if trim(line).len() == 0 || ws.len() < 4 || !module_line_readable(line) {
        m
    } else {
        let size = match parse_dec(ws[1]) {
            Some(n) => n,
            None => 0,
        };
        match parse_hex(after_two_bytes(ws[5])->0) {
            Some(start) => ModulesView {
                roots: m.roots.push(
                    new_region(
                        start,
                        u64_specs::wrapping_sub(u64_specs::wrapping_add(start, size), 1),
                        RegionVariant::KernelModule,
                        ws[0],
                    ),
                ),
                used: u64_specs::wrapping_add(m.used, size),
            },
            None => m,
        }
    }
}

/// `m` once the lines `ls` are read in order.
pub open spec fn modules_fold(m: ModulesView, ls: Seq<Seq<char>>) -> ModulesView
    decreases ls.len(),
{
    if ls.len() == 0 {
        m
    } else {
        module_step(modules_fold(m, ls.drop_last()), ls.last())
    }
}

/// The order by size, largest first.
pub struct BySizeDesc;

impl SpecKey<BySizeDesc> for Region {
    open spec fn sort_key(&self) -> int {
        -(self.size as int)
    }
}

impl SortKey<BySizeDesc> for Region {
    fn key_less(&self, other: &Self) -> (b: bool) {
        self.size > other.size
    }
}

impl SpecKey<BySizeDesc> for RegionView {
    open spec fn sort_key(&self) -> int {
        -(self.size as int)
    }
}

/// Where the chars of `cs[lo..hi]` after its first two bytes start, if the
/// slice can be cut there.
fn after_two_bytes_at(cs: &Vec<char>, lo: usize, hi: usize) -> (r: Option<usize>)
    requires
        lo <= hi <= cs.len(),
    ensures
        match after_two_bytes(cs@.subrange(lo as int, hi as int)) {
            Some(t) => r is Some && lo <= r->0 <= hi && cs@.subrange(r->0 as int, hi as int) == t,
            None => r is None,
        },
{
    let ghost s = cs@.subrange(lo as int, hi as int);
    if hi - lo >= 1 && char_width_of(cs[lo]) == 2 {
        assert(s.drop_first() == cs@.subrange(lo + 1, hi as int));
        Some(lo + 1)
    } else if hi - lo >= 2 && char_width_of(cs[lo]) == 1 && char_width_of(cs[lo + 1]) == 1 {
        assert(s.skip(2) == cs@.subrange(lo + 2, hi as int));
        Some(lo + 2)
    } else {
        None
    }
}

/// `module_line_readable` of `cs[lo..hi]`.
fn module_line_readable_at(cs: &Vec<char>, lo: usize, hi: usize) -> (b: bool)
    requires
        lo <= hi <= cs.len(),
    ensures
        b == module_line_readable(cs@.subrange(lo as int, hi as int)),
{
    let (a, b) = trim_range(cs, lo, hi);
    if a == b {
        return true;
    }
    let ws = word_ranges(cs, lo, hi);
    if ws.len() < 4 {
        return true;
    }
    if ws.len() < 6 {
        return false;
    }
    let (oa, ob) = ws[5];
    after_two_bytes_at(cs, oa, ob).is_some()
}

impl KernelModules {
    /// Whether `KernelModules::parse` can read `content`; it panics on content
    /// for which this is false.
    pub fn readable(content: &str) -> (b: bool)
        ensures
            b == modules_readable(content@),
    {
        let cs = to_chars(content);
        let ls = line_ranges(&cs);
        let ghost all = lines(cs@);
        let mut k: usize = 0;
        while k < ls.len()
            invariant
                all == lines(cs@),
                cs@ == content@,
                ls.len() == all.len(),
                forall|j: int|
                    0 <= j < ls.len() ==> #[trigger] ls@[j].0 <= ls@[j].1 <= cs.len()
                        && cs@.subrange(ls@[j].0 as int, ls@[j].1 as int) == all[j],
                k <= ls.len(),
                forall|j: int| 0 <= j < k ==> module_line_readable(#[trigger] all[j]),
            decreases ls.len() - k,
        {
            let (lo, hi) = ls[k];
            if !module_line_readable_at(&cs, lo, hi) {
                assert(!module_line_readable(all[k as int]));
                return false;
            }
            k += 1;
        }
        true
    }

    /// Reads the contents of `/proc/modules` (see `module_step`).
    pub fn parse(&mut self, content: &str) -> (r: Result<(), String>)
        requires
            modules_readable(content@),
        ensures
            r is Ok,
            final(self)@ == modules_fold(old(self)@, lines(content@)),
    {
        let cs = to_chars(content);
        let ls = line_ranges(&cs);
        let mut k: usize = 0;
        let ghost all = lines(cs@);
        assert(all.take(0) =~= Seq::<Seq<char>>::empty());
        while k < ls.len()
            invariant
                all == lines(cs@),
                cs@ == content@,
                modules_readable(cs@),
                ls.len() == all.len(),
                forall|j: int|
                    0 <= j < ls.len() ==> #[trigger] ls@[j].0 <= ls@[j].1 <= cs.len()
                        && cs@.subrange(ls@[j].0 as int, ls@[j].1 as int) == all[j],
                k <= ls.len(),
                self@ == modules_fold(old(self)@, all.take(k as int)),
            decreases ls.len() - k,
        {
            let (lo, hi) = ls[k];
            let ghost line = cs@.subrange(lo as int, hi as int);
            assert(line == all[k as int]);
            assert(module_line_readable(all[k as int]));
            assert(all.take(k + 1).drop_last() == all.take(k as int));
            assert(all.take(k + 1).last() == line);
            let (a, b) = trim_range(&cs, lo, hi);
            if a < b {
                let ws = word_ranges(&cs, lo, hi);
                if ws.len() >= 4 {
                    let (na, nb) = ws[0];
                    let (sa, sb) = ws[1];
                    let size: u64 = match parse_uint_range(&cs, sa, sb, 10) {
                        Some(n) => n,
                        None => 0,
                    };
                    let (oa, ob) = ws[5];
                    let from = after_two_bytes_at(&cs, oa, ob);
                    let from = from.unwrap();
                    if let Some(start) = parse_uint_range(&cs, from, ob, 16) {
                        let end = start.wrapping_add(size).wrapping_sub(1);
                        let name = string_from(&cs, na, nb);
                        let region = Region::new(start, end, RegionVariant::KernelModule, name);
                        self.used = self.used.wrapping_add(size);
                        let ghost before = self.roots@;
                        self.roots.push(region);
                        proof {
                            lemma_views_of(before);
                            lemma_views_of(self.roots@);
                        }
                        assert(views_of(self.roots@) =~= views_of(before).push(region@));
                    }
                }
            }
            k += 1;
        }
        assert(all.take(ls.len() as int) == all);
        Ok(())
    }

    /// Sorts the modules by size, largest first; modules of equal size keep
    /// their order.
    pub fn sort_by_size(&mut self)
        ensures
            final(self)@ == (ModulesView {
                roots: stable_sort::<RegionView, BySizeDesc>(old(self)@.roots),
                ..old(self)@
            }),
    {
        let ghost before = self.roots@;
        sort_by_key::<Region, BySizeDesc>(&mut self.roots);
        proof {
            let f = |r: Region| r@;
            lemma_views_of_map(before);
            lemma_views_of_map(self.roots@);
            lemma_stable_sort_map::<Region, RegionView, BySizeDesc>(before, f);
        }
    }
}

impl KernelModules {
    /// The lines of the printed list: each module, in order, at depth 0 (see
    /// `rows_of`).
    pub fn rows(&self) -> (rows: Vec<RegionRow>)
        ensures
            row_views(rows@) == rows_of(self@.roots, 0),
    {
        rows_of_regions(&self.roots)
    }
}

/// After `KernelModules::sort_by_size`, the modules come largest first and
/// are exactly the modules that were read.
pub proof fn modules_sort_orders(m: ModulesView)
    ensures
        ({
            let r = stable_sort::<RegionView, BySizeDesc>(m.roots);
            &&& forall|i: int, j: int| 0 <= i < j < r.len() ==> r[i].size >= r[j].size
            &&& r.to_multiset() == m.roots.to_multiset()
        }),
{
    let r = stable_sort::<RegionView, BySizeDesc>(m.roots);
    lemma_stable_sort_sorted::<RegionView, BySizeDesc>(m.roots);
    lemma_stable_sort_permutes::<RegionView, BySizeDesc>(m.roots);
    assert forall|i: int, j: int| 0 <= i < j < r.len() implies r[i].size >= r[j].size by {
        assert(SpecKey::<BySizeDesc>::sort_key(&r[i]) <= SpecKey::<BySizeDesc>::sort_key(&r[j]));
    }
}

/// Sum of the sizes of `rs`.
pub open spec fn sizes_sum(rs: Seq<RegionView>) -> int
    decreases rs.len(),
{
    if rs.len() == 0 {
        0
    } else {
        sizes_sum(rs.drop_last()) + rs.last().size
    }
}

/// Whether the module that `line` gives, if any, ends within the address
/// space: its address plus its size is at most `2^64`.
pub open spec fn module_fits(line: Seq<char>) -> bool {
    let ws = words(line);
    if trim(line).len() == 0 || ws.len() < 4 || !module_line_readable(line) {
        true
    } else {
        let size = match parse_dec(ws[1]) {
            Some(n) => n,
            None => 0,
        };
        match parse_hex(after_two_bytes(ws[5])->0) {
            Some(start) => start + size <= 0x1_0000_0000_0000_0000int,
            None => true,
        }
    }
}

/// Reading `/proc/modules` (`KernelModules::parse`) keeps `used` equal to the
/// sum of the sizes of the module regions, modulo `2^64`, for modules that end
/// within the address space.
pub proof fn modules_used_adds_up(m: ModulesView, ls: Seq<Seq<char>>)
    requires
        m.used == sizes_sum(m.roots) % 0x1_0000_0000_0000_0000int,
        forall|k: int| 0 <= k < ls.len() ==> module_fits(#[trigger] ls[k]),
    ensures
        modules_fold(m, ls).used == sizes_sum(modules_fold(m, ls).roots) % 0x1_0000_0000_0000_0000int,
    decreases ls.len(),
{
    if ls.len() > 0 {
        let prev = modules_fold(m, ls.drop_last());
        assert forall|k: int| 0 <= k < ls.drop_last().len() implies module_fits(
            #[trigger] ls.drop_last()[k],
        ) by {
            assert(ls.drop_last()[k] == ls[k]);
        }
        modules_used_adds_up(m, ls.drop_last());
        let line = ls.last();
        assert(module_fits(ls[ls.len() - 1]));
        let ws = words(line);
        if !(trim(line).len() == 0 || ws.len() < 4 || !module_line_readable(line)) {
            let size = match parse_dec(ws[1]) {
                Some(n) => n,
                None => 0,
            };
            if let Some(start) = parse_hex(after_two_bytes(ws[5])->0) {
                let mm = 0x1_0000_0000_0000_0000int;
                let next = modules_fold(m, ls);
                assert(next.roots.drop_last() == prev.roots);
                let end = u64_specs::wrapping_sub(u64_specs::wrapping_add(start, size), 1);
                assert(next.roots.last().size == region_size(start, end));
                assert(region_size(start, end) == size);
                let sum = sizes_sum(prev.roots);
                lemma_wrapping_add_mod(prev.used, size);
                lemma_small_mod(size as nat, mm as nat);
                lemma_add_mod_noop(sum, size as int, mm);
            }
        }
    }
}

/// What is wrong with a readable line of `/proc/modules`, as a message to
/// warn with: a line that is not blank needs at least four words, and its
/// load address, after `0x`, must be hexadecimal. `None` for a line that
/// gives a module, and for a blank one.
pub open spec fn module_problem(line: Seq<char>) -> Option<Seq<char>> {
    let ws = words(line);
    if trim(line).len() == 0 {
        None
    } else if ws.len() < 4 {
        Some("Cannot split /proc/modules line"@)
    } else {
        match parse_hex(after_two_bytes(ws[5])->0) {
            Some(_) => None,
            None => Some("Cannot parse address "@ + ws[5] + " in /proc/modules line"@),
        }
    }
}

impl KernelModules {
    /// The warning for a line of `/proc/modules` that gives no module (see
    /// `module_problem`); the line must be one that `parse` can read.
    pub fn line_problem(line: &str) -> (r: Option<String>)
        requires
            module_line_readable(line@),
        ensures
            match module_problem(line@) {
                Some(msg) => r is Some && r->0@ == msg,
                None => r is None,
            },
    {
        let cs = to_chars(line);
        assert(cs@.subrange(0, cs@.len() as int) == cs@);
        let (a, b) = trim_range(&cs, 0, cs.len());
        if a == b {
            return None;
        }
        let ws = word_ranges(&cs, 0, cs.len());
        if ws.len() < 4 {
            return Some(String::from_str("Cannot split /proc/modules line"));
        }
        let (oa, ob) = ws[5];
        let from = after_two_bytes_at(&cs, oa, ob);
        let from = from.unwrap();
        match parse_uint_range(&cs, from, ob, 16) {
            Some(_) => None,
            None => {
                let mut msg = String::from_str("Cannot parse address ");
                append_range(&mut msg, &cs, oa, ob);
                msg.append(" in /proc/modules line");
                Some(msg)
            },
        }
    }
}

} // verus!
