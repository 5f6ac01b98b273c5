//! `/proc/zoneinfo`: the memory zones of each node.
use vstd::arithmetic::div_mod::lemma_small_mod;
use vstd::prelude::*;
use vstd::wrapping::u64_specs;

use crate::text::{
    decimal, is_ws, lemma_decimal, lemma_parse_dec_decimal, lemma_words_two, no_ws,
    contains_lit, eq_lit, has_infix, has_prefix, line_ranges, lines, parse_dec, parse_uint_range,
    starts_with_lit, string_from, to_chars, trim, trim_range, word_ranges, words,
};
use crate::tree::{
    count_all, new_region, place, place_adds_a_region, MemoryTree, Region, RegionVariant,
    RegionView, TreeView,
};

verus! {

/// Bytes in a page.
pub const PAGE_SIZE: u64 = 4096;

/// The figures of one zone that the tree needs.
#[derive(Debug)]
struct ZoneInfo {
    name: String,
    start_pfn: u64,
    spanned_pages: u64,
}

/// The value of a `ZoneInfo`.
pub struct ZoneView {
    pub name: Seq<char>,
    pub start_pfn: u64,
    pub spanned_pages: u64,
}

impl View for ZoneInfo {
    type V = ZoneView;

    closed spec fn view(&self) -> ZoneView {
        ZoneView {
            name: self.name@,
            start_pfn: self.start_pfn,
            spanned_pages: self.spanned_pages,
        }
    }
}

/// The variant of a zone by its name, if the tree keeps such zones.
pub open spec fn zone_variant(name: Seq<char>) -> Option<RegionVariant> {
    if name == "DMA"@ {
        Some(RegionVariant::ZoneDMA)
    } else if name == "DMA32"@ {
        Some(RegionVariant::ZoneDMA32)
    } else if name == "Normal"@ {
        Some(RegionVariant::ZoneNormal)
    } else {
        None
    }
}

/// The region of a zone: from its first page for as many pages as it spans;
/// sums past `u64::MAX` wrap. Like every new region it has no descendants
/// yet, so nothing counts as used: the regions later placed in it do.
pub open spec fn zone_region(z: ZoneView) -> Option<RegionView> {
    let start = u64_specs::wrapping_mul(z.start_pfn, PAGE_SIZE);
    let total = u64_specs::wrapping_mul(z.spanned_pages, PAGE_SIZE);
    let end = u64_specs::wrapping_sub(u64_specs::wrapping_add(start, total), 1);
    match zone_variant(z.name) {
        Some(v) => Some(new_region(start, end, v, z.name)),
        None => None,
    }
}

/// `t` once zone `z` is added.
pub open spec fn add_zone(t: TreeView, z: ZoneView) -> TreeView {
    match zone_region(z) {
        Some(r) => TreeView { roots: place(t.roots, 0, r), ..t },
        None => t,
    }
}

/// Where a reading of `/proc/zoneinfo` stands: the zone being read, the
/// last zone name seen, and the tree.
pub struct ZoneState {
    pub zone: Option<ZoneView>,
    pub name: Seq<char>,
    pub tree: TreeView,
}

/// `parse_value_after_colon`: the second word of `line` as a number.
pub open spec fn value_after_colon(line: Seq<char>) -> Option<u64> {
    let ws = words(line);
    if ws.len() >= 2 {
        parse_dec(ws[1])
    } else {
        None
    }
}

/// `z` once a trimmed statistics line `tr` of its zone is read: the lines
/// that give the pages it spans and its first page count; the tree needs no
/// other figure.
pub open spec fn zone_stat(z: ZoneView, tr: Seq<char>) -> ZoneView {
    if has_prefix(tr, "spanned"@) {
        match value_after_colon(tr) {
            Some(v) => ZoneView { spanned_pages: v, ..z },
            None => z,
        }
    } else if has_prefix(tr, "start_pfn:"@) {
        match value_after_colon(tr) {
            Some(v) => ZoneView { start_pfn: v, ..z },
            None => z,
        }
    } else {
        z
    }
}

/// Index of the first of `ws` equal to `w`, or `ws.len()`.
pub open spec fn word_index(ws: Seq<Seq<char>>, w: Seq<char>) -> int
    decreases ws.len(),
{
    if ws.len() == 0 {
        0
    } else if ws[0] == w {
        0
    } else {
        1 + word_index(ws.drop_first(), w)
    }
}

/// `st` once one line of `/proc/zoneinfo` is read. A line that starts with
/// `Node` and holds `zone` ends the zone being read, which goes into the tree,
/// and starts one named by the word after the word `zone` (or by the last
/// name seen). Other lines of a zone set its figures (see `zone_stat`).
pub open spec fn zone_step(st: ZoneState, line: Seq<char>) -> ZoneState {
    let tr = trim(line);
    if has_prefix(tr, "Node"@) && has_infix(tr, "zone"@) {
        let t = match st.zone {
            Some(z) => add_zone(st.tree, z),
            None => st.tree,
        };
        let ws = words(tr);
        let p = word_index(ws, "zone"@);
        let name = if ws.len() > 0 && p < ws.len() - 1 {
            ws[p + 1]
        } else {
            st.name
        };
        ZoneState {
            zone: Some(ZoneView { name, start_pfn: 0, spanned_pages: 0 }),
            name,
            tree: t,
        }
    } else {
        match st.zone {
            Some(z) => ZoneState { zone: Some(zone_stat(z, tr)), ..st },
            None => st,
        }
    }
}

/// `st` once the lines `ls` are read in order.
pub open spec fn zone_fold(st: ZoneState, ls: Seq<Seq<char>>) -> ZoneState
    decreases ls.len(),
{
    if ls.len() == 0 {
        st
    } else {
        zone_step(zone_fold(st, ls.drop_last()), ls.last())
    }
}

/// The tree once the contents of `/proc/zoneinfo` are read into `t`: each
/// zone is added when the next one starts, the last one at the end.
pub open spec fn zoneinfo_tree(t: TreeView, content: Seq<char>) -> TreeView {
    let st = zone_fold(ZoneState { zone: None, name: seq![], tree: t }, lines(content));
    match st.zone {
        Some(z) => add_zone(st.tree, z),
        None => st.tree,
    }
}

/// Zone figures are read in decimal: a line of a key, white space `w`, and
/// the decimal digits of `n` gives `n`, whatever the key (`spanned`,
/// `start_pfn:` and the like).
pub proof fn zone_value_in_decimal(key: Seq<char>, w: char, n: u64)
    requires
        key.len() > 0,
        no_ws(key),
        is_ws(w),
    ensures
        value_after_colon(key + seq![w] + decimal(n as nat)) == Some(n),
{
    lemma_decimal(n as nat);
    lemma_parse_dec_decimal(n);
    lemma_words_two(key, w, decimal(n as nat));
}

/// A zone's region covers its pages: it starts at its first page, 4096
/// bytes per page, and spans as many bytes as its pages, when it ends within
/// the address space and spans less than all of it.
pub proof fn zone_region_spans_its_pages(z: ZoneView)
    requires
        zone_variant(z.name) is Some,
        z.spanned_pages > 0,
        z.start_pfn * 4096 + z.spanned_pages * 4096 <= 0x1_0000_0000_0000_0000int,
        z.spanned_pages * 4096 < 0x1_0000_0000_0000_0000int,
    ensures
        zone_region(z) is Some,
        zone_region(z)->0.start == z.start_pfn * 4096,
        zone_region(z)->0.end == z.start_pfn * 4096 + z.spanned_pages * 4096 - 1,
        zone_region(z)->0.size == z.spanned_pages * 4096,
        zone_region(z)->0.name == z.name,
{
    let m = 0x1_0000_0000_0000_0000int;
    lemma_small_mod((z.start_pfn * 4096) as nat, m as nat);
    lemma_small_mod((z.spanned_pages * 4096) as nat, m as nat);
}

/// Whether a line of `/proc/zoneinfo` heads a zone: trimmed, it starts with
/// `Node` and holds `zone`.
pub open spec fn is_zone_header(line: Seq<char>) -> bool {
    has_prefix(trim(line), "Node"@) && has_infix(trim(line), "zone"@)
}

/// The name of the zone that header `line` starts: the word after the word
/// `zone`, or `last`, the name before, when there is none.
pub open spec fn header_name(line: Seq<char>, last: Seq<char>) -> Seq<char> {
    let ws = words(trim(line));
    let p = word_index(ws, "zone"@);
    if ws.len() > 0 && p < ws.len() - 1 {
        ws[p + 1]
    } else {
        last
    }
}

/// The names of the zones that the lines `ls` start, in order.
pub open spec fn zone_names(ls: Seq<Seq<char>>) -> Seq<Seq<char>>
    decreases ls.len(),
{
    if ls.len() == 0 {
        Seq::empty()
    } else {
        let prev = zone_names(ls.drop_last());
        if is_zone_header(ls.last()) {
            prev.push(header_name(ls.last(), if prev.len() > 0 { prev.last() } else { seq![] }))
        } else {
            prev
        }
    }
}

/// How many of `names` name a zone that the tree keeps.
pub open spec fn kept_zones(names: Seq<Seq<char>>) -> nat
    decreases names.len(),
{
    if names.len() == 0 {
        0
    } else {
        kept_zones(names.drop_last()) + if zone_variant(names.last()) is Some { 1nat } else { 0nat }
    }
}

/// 1 when zone `z` is one the tree keeps.
spec fn kept_pending(z: Option<ZoneView>) -> nat {
    match z {
        Some(v) => if zone_variant(v.name) is Some { 1nat } else { 0nat },
        None => 0,
    }
}

proof fn lemma_add_zone_grows(t: TreeView, z: ZoneView)
    ensures
        count_all(add_zone(t, z).roots) >= count_all(t.roots) + kept_pending(Some(z)),
{
    if zone_variant(z.name) is Some {
        place_adds_a_region(t.roots, 0, zone_region(z)->0);
    }
}

proof fn lemma_zone_fold_counts(t: TreeView, ls: Seq<Seq<char>>)
    ensures
        ({
            let st = zone_fold(ZoneState { zone: None, name: seq![], tree: t }, ls);
            let names = zone_names(ls);
            &&& st.name == (if names.len() > 0 { names.last() } else { seq![] })
            &&& (st.zone is Some <==> names.len() > 0)
            &&& (names.len() > 0 ==> st.zone->0.name == names.last())
            &&& count_all(st.tree.roots) + kept_pending(st.zone) >= count_all(t.roots) + kept_zones(names)
        }),
    decreases ls.len(),
{
    if ls.len() > 0 {
        lemma_zone_fold_counts(t, ls.drop_last());
        let st = zone_fold(ZoneState { zone: None, name: seq![], tree: t }, ls.drop_last());
        let line = ls.last();
        if is_zone_header(line) {
            if let Some(z) = st.zone {
                lemma_add_zone_grows(st.tree, z);
            }
            let names = zone_names(ls);
            assert(names.drop_last() == zone_names(ls.drop_last()));
        } else {
            if let Some(z) = st.zone {
                assert(zone_stat(z, trim(line)).name == z.name);
            }
        }
    }
}

/// Every zone of `/proc/zoneinfo` whose kind the tree keeps, the last one
/// included, adds at least one region to the tree that `parse_zoneinfo`
/// fills.
pub proof fn every_kept_zone_added(t: TreeView, content: Seq<char>)
    ensures
        count_all(zoneinfo_tree(t, content).roots) >= count_all(t.roots) + kept_zones(zone_names(lines(content))),
{
    let ls = lines(content);
    lemma_zone_fold_counts(t, ls);
    let st = zone_fold(ZoneState { zone: None, name: seq![], tree: t }, ls);
    if let Some(z) = st.zone {
        lemma_add_zone_grows(st.tree, z);
    }
}

/// The variant of a zone by its name, if the tree keeps such zones.
pub fn detect_zoneinfo_variant(name: &str) -> (v: Option<RegionVariant>)
    ensures
        v == zone_variant(name@),
{
    let cs = to_chars(name);
    assert(cs@.subrange(0, cs@.len() as int) == cs@);
    if eq_lit(&cs, 0, cs.len(), "DMA") {
        Some(RegionVariant::ZoneDMA)
    } else if eq_lit(&cs, 0, cs.len(), "DMA32") {
        Some(RegionVariant::ZoneDMA32)
    } else if eq_lit(&cs, 0, cs.len(), "Normal") {
        Some(RegionVariant::ZoneNormal)
    } else {
        None
    }
}

/// `value_after_colon` of `cs[lo..hi]`.
fn value_after_colon_at(cs: &Vec<char>, lo: usize, hi: usize) -> (r: Option<u64>)
    requires
        lo <= hi <= cs.len(),
    ensures
        r == value_after_colon(cs@.subrange(lo as int, hi as int)),
{
    let ws = word_ranges(cs, lo, hi);
    if ws.len() >= 2 {
        let (a, b) = ws[1];
        parse_uint_range(cs, a, b, 10)
    } else {
        None
    }
}

/// The second word of `line` as a number, if it is one.
pub fn parse_value_after_colon(line: &str) -> (r: Option<u64>)
    ensures
        r == value_after_colon(line@),
{
    let cs = to_chars(line);
    assert(cs@.subrange(0, cs@.len() as int) == cs@);
    value_after_colon_at(&cs, 0, cs.len())
}

/// Adds the region of `zone` to `tree`, if the tree keeps its kind of zone.
fn add_zone_to_tree(tree: &mut MemoryTree, zone: ZoneInfo)
    ensures
        final(tree)@ == add_zone(old(tree)@, zone@),
{
    let start = zone.start_pfn.wrapping_mul(PAGE_SIZE);
    let total_size = zone.spanned_pages.wrapping_mul(PAGE_SIZE);
    let end = start.wrapping_add(total_size).wrapping_sub(1);
    if let Some(v) = detect_zoneinfo_variant(zone.name.as_str()) {
        let region = Region::new(start, end, v, zone.name);
        tree.insert_region(region);
    }
}

/// `zone_stat` of the zone `z` and the trimmed line `cs[lo..hi]`.
fn zone_stat_at(z: &mut ZoneInfo, cs: &Vec<char>, lo: usize, hi: usize)
    requires
        lo <= hi <= cs.len(),
    ensures
        final(z)@ == zone_stat(old(z)@, cs@.subrange(lo as int, hi as int)),
{
    if starts_with_lit(cs, lo, hi, "spanned") {
        if let Some(v) = value_after_colon_at(cs, lo, hi) {
            z.spanned_pages = v;
        }
    } else if starts_with_lit(cs, lo, hi, "start_pfn:") {
        if let Some(v) = value_after_colon_at(cs, lo, hi) {
            z.start_pfn = v;
        }
    }
}

/// Reads the contents of `/proc/zoneinfo` into `tree` (see `zoneinfo_tree`).
pub fn parse_zoneinfo(tree: &mut MemoryTree, content: &str) -> (r: Result<(), String>)
    ensures
        r is Ok,
        final(tree)@ == zoneinfo_tree(old(tree)@, content@),
{
    let mut current_zone: Option<ZoneInfo> = None;
    let mut current_zone_name = String::new();
    let cs = to_chars(content);
    let ls = line_ranges(&cs);
    let mut k: usize = 0;
    let ghost all = lines(cs@);
    let ghost init = ZoneState { zone: None, name: seq![], tree: tree@ };
    assert(all.take(0) =~= Seq::<Seq<char>>::empty());
    while k < ls.len()
        invariant
            all == lines(cs@),
            cs@ == content@,
            init == (ZoneState { zone: None, name: seq![], tree: old(tree)@ }),
            ls.len() == all.len(),
            forall|j: int|
                0 <= j < ls.len() ==> #[trigger] ls@[j].0 <= ls@[j].1 <= cs.len() && cs@.subrange(
                    ls@[j].0 as int,
                    ls@[j].1 as int,
                ) == all[j],
            k <= ls.len(),
            ({
                let st = zone_fold(init, all.take(k as int));
                &&& st.tree == tree@
                &&& st.name == current_zone_name@
                &&& match current_zone {
                    Some(z) => st.zone == Some(z@),
                    None => st.zone is None,
                }
            }),
        decreases ls.len() - k,
    {
        let (lo, hi) = ls[k];
        let ghost line = cs@.subrange(lo as int, hi as int);
        assert(line == all[k as int]);
        assert(all.take(k + 1).drop_last() == all.take(k as int));
        assert(all.take(k + 1).last() == line);
        let (a, b) = trim_range(&cs, lo, hi);
        if starts_with_lit(&cs, a, b, "Node") && contains_lit(&cs, a, b, "zone") {
            if let Some(zone) = current_zone.take() {
                add_zone_to_tree(tree, zone);
            }
            let ws = word_ranges(&cs, a, b);
            let ghost wv = words(cs@.subrange(a as int, b as int));
            let mut p: usize = 0;
            assert(wv.skip(0) == wv);
            while p < ws.len() && !eq_lit(&cs, ws[p].0, ws[p].1, "zone")
                invariant
                    ws.len() == wv.len(),
                    a <= b <= cs.len(),
                    forall|j: int|
                        0 <= j < ws.len() ==> #[trigger] ws@[j].0 <= ws@[j].1 <= b && a <= ws@[j].0
                            && cs@.subrange(ws@[j].0 as int, ws@[j].1 as int) == wv[j],
                    p <= ws.len(),
                    word_index(wv, "zone"@) == p + word_index(wv.skip(p as int), "zone"@),
                decreases ws.len() - p,
            {
                assert(wv.skip(p as int).drop_first() == wv.skip(p + 1));
                p += 1;
            }
            proof {
                if p < ws.len() {
                    assert(wv.skip(p as int)[0] == wv[p as int]);
                } else {
                    assert(wv.skip(p as int).len() == 0);
                }
            }
            if ws.len() > 0 && p < ws.len() - 1 {
                current_zone_name = string_from(&cs, ws[p + 1].0, ws[p + 1].1);
            }
            current_zone = Some(
                ZoneInfo {
                    name: current_zone_name.clone(),
                    start_pfn: 0,
                    spanned_pages: 0,
                },
            );
        } else {
            match current_zone {
                Some(ref mut z) => {
                    zone_stat_at(z, &cs, a, b);
                },
                None => {},
            }
        }
        k += 1;
    }
    assert(all.take(ls.len() as int) == all);
    if let Some(zone) = current_zone.take() {
        add_zone_to_tree(tree, zone);
    }
    Ok(())
}

} // verus!
