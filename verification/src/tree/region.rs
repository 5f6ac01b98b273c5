//! Address regions and their nesting.
use vstd::arithmetic::div_mod::{
    lemma_add_mod_noop, lemma_fundamental_div_mod_converse, lemma_small_mod,
};
use vstd::prelude::*;
use vstd::wrapping::u64_specs;

use crate::sort::{
    lemma_stable_sort_elements, lemma_stable_sort_map, lemma_stable_sort_permutes,
    lemma_stable_sort_sorted, lemma_stable_sort_sorted_id, sort_by_key, stable_sort, SortKey,
    SpecKey,
};

verus! {

/// What a region of memory is.
#[derive(Debug, Clone, Copy, PartialEq, Eq, Structural)]
pub enum RegionVariant {
    // /proc/zoneinfo
    ZoneDMA,
    ZoneDMA32,
    ZoneNormal,
    // /proc/iomem
    SystemRam,
    KernelCode,
    KernelRodata,
    KernelData,
    KernelBss,
    // /proc/modules
    KernelModule,
}

/// A range of addresses `start..=end`, with the regions nested in it.
#[derive(Debug)]
pub struct Region {
    pub start: u64,
    pub end: u64,
    pub size: u64,
    /// Total size of all descendants, counted as regions are inserted
    pub used: u64,
    pub variant: RegionVariant,
    pub name: String,
    pub children: Vec<Region>,
}

/// The value of a `Region`: its fields, with the name as chars and the
/// children as values.
pub struct RegionView {
    pub start: u64,
    pub end: u64,
    pub size: u64,
    pub used: u64,
    pub variant: RegionVariant,
    pub name: Seq<char>,
    pub children: Seq<RegionView>,
}

impl View for Region {
    type V = RegionView;

    open spec fn view(&self) -> RegionView
        decreases self,
    {
        RegionView {
            start: self.start,
            end: self.end,
            size: self.size,
            used: self.used,
            variant: self.variant,
            name: self.name@,
            children: views_of(self.children@),
        }
    }
}

/// The values of `cs`, in order.
pub open spec fn views_of(cs: Seq<Region>) -> Seq<RegionView>
    decreases cs,
{
    if cs.len() == 0 {
        Seq::empty()
    } else {
        views_of(cs.drop_last()).push(cs.last().view())
    }
}

pub broadcast proof fn lemma_views_of(cs: Seq<Region>)
    ensures
        #[trigger] views_of(cs).len() == cs.len(),
        forall|i: int| 0 <= i < cs.len() ==> #[trigger] views_of(cs)[i] == cs[i]@,
    decreases cs.len(),
{
    if cs.len() > 0 {
        lemma_views_of(cs.drop_last());
        assert(views_of(cs) == views_of(cs.drop_last()).push(cs.last()@));
        assert forall|i: int| 0 <= i < cs.len() implies #[trigger] views_of(cs)[i] == cs[i]@ by {
            if i < cs.len() - 1 {
                assert(cs.drop_last()[i] == cs[i]);
            }
        }
    }
}

pub proof fn lemma_views_of_map(cs: Seq<Region>)
    ensures
        views_of(cs) == cs.map_values(|r: Region| r@),
{
    lemma_views_of(cs);
    assert(views_of(cs) =~= cs.map_values(|r: Region| r@));
}

/// Number of addresses in `start..=end`, `0` when `start > end`; a range of all
/// `2^64` addresses wraps round to `0`.
pub open spec fn region_size(start: u64, end: u64) -> u64 {
    if start <= end {
        u64_specs::wrapping_add((end - start) as u64, 1)
    } else {
        0
    }
}

/// The value of `Region::new(start, end, variant, name)`.
pub open spec fn new_region(start: u64, end: u64, variant: RegionVariant, name: Seq<char>) -> RegionView {
    RegionView {
        start,
        end,
        size: region_size(start, end),
        used: 0,
        variant,
        name,
        children: seq![],
    }
}

/// Whether `addr` lies in `n`.
pub open spec fn covers(n: RegionView, addr: u64) -> bool {
    n.start <= addr <= n.end
}

/// Whether both ends of `r` lie in `n`.
pub open spec fn holds(n: RegionView, r: RegionView) -> bool {
    covers(n, r.start) && covers(n, r.end)
}

/// Index of the first of `cs` that holds `r`, or `cs.len()`.
pub open spec fn first_holder(cs: Seq<RegionView>, r: RegionView) -> int
    decreases cs.len(),
{
    if cs.len() == 0 {
        0
    } else if holds(cs[0], r) {
        0
    } else {
        1 + first_holder(cs.drop_first(), r)
    }
}

pub proof fn lemma_first_holder(cs: Seq<RegionView>, r: RegionView)
    ensures
        0 <= first_holder(cs, r) <= cs.len(),
        first_holder(cs, r) < cs.len() ==> holds(cs[first_holder(cs, r)], r),
        forall|k: int| 0 <= k < first_holder(cs, r) ==> !holds(#[trigger] cs[k], r),
    decreases cs.len(),
{
    if cs.len() > 0 && !holds(cs[0], r) {
        lemma_first_holder(cs.drop_first(), r);
        assert forall|k: int| 0 <= k < first_holder(cs, r) implies !holds(#[trigger] cs[k], r) by {
            if k > 0 {
                assert(cs[k] == cs.drop_first()[k - 1]);
            }
        }
    }
}

/// `n` once `r` is placed in it: within the first child that holds both ends
/// of `r`, recursively, or else as a new last child. Each region that takes
/// `r`, `n` and the children it goes down through, counts the size of `r` in
/// `used` (wrapping past `u64::MAX`).
pub open spec fn insert_into(n: RegionView, r: RegionView) -> RegionView
    decreases n,
{
    let i = first_holder(n.children, r);
    let used = u64_specs::wrapping_add(n.used, r.size);
    if 0 <= i < n.children.len() {
        RegionView { used, children: n.children.update(i, insert_into(n.children[i], r)), ..n }
    } else {
        RegionView { used, children: n.children.push(r), ..n }
    }
}

/// Whether every child of `n`, and of every region below it, lies within its
/// parent.
pub open spec fn nested(n: RegionView) -> bool
    decreases n,
{
    forall|i: int|
        0 <= i < n.children.len() ==> holds(n, #[trigger] n.children[i]) && nested(n.children[i])
}

/// Number of regions in `n`: `n` and every region below it.
pub open spec fn region_count(n: RegionView) -> nat
    decreases n, 0nat,
{
    1 + count_all(n.children)
}

/// Sum of `region_count` over `cs`.
pub open spec fn count_all(cs: Seq<RegionView>) -> nat
    decreases cs, 0nat,
{
    if cs.len() == 0 {
        0
    } else {
        count_all(cs.drop_last()) + region_count(cs.last())
    }
}

pub proof fn lemma_count_all_update(cs: Seq<RegionView>, i: int, x: RegionView)
    requires
        0 <= i < cs.len(),
    ensures
        count_all(cs.update(i, x)) + region_count(cs[i]) == count_all(cs) + region_count(x),
    decreases cs.len(),
{
    let u = cs.update(i, x);
    if i < cs.len() - 1 {
        lemma_count_all_update(cs.drop_last(), i, x);
        assert(u.drop_last() == cs.drop_last().update(i, x));
        assert(u.last() == cs.last());
    } else {
        assert(u.drop_last() == cs.drop_last());
    }
}

/// `Region::insert_region` adds exactly the regions of what it places: the
/// count of regions grows by the count of the placed region.
pub proof fn insert_adds_regions(n: RegionView, r: RegionView)
    ensures
        region_count(insert_into(n, r)) == region_count(n) + region_count(r),
    decreases n,
{
    let i = first_holder(n.children, r);
    lemma_first_holder(n.children, r);
    if 0 <= i < n.children.len() {
        insert_adds_regions(n.children[i], r);
        lemma_count_all_update(n.children, i, insert_into(n.children[i], r));
    } else {
        assert(n.children.push(r).drop_last() == n.children);
    }
}

/// `Region::insert_region` keeps regions nested: when every region of `n`
/// lies within its parent, and so does every region of `r`, and `n` holds
/// `r`, then every region lies within its parent once `r` is placed.
pub proof fn insert_keeps_nesting(n: RegionView, r: RegionView)
    requires
        nested(n),
        nested(r),
        holds(n, r),
    ensures
        nested(insert_into(n, r)),
    decreases n,
{
    let i = first_holder(n.children, r);
    lemma_first_holder(n.children, r);
    let m = insert_into(n, r);
    if 0 <= i < n.children.len() {
        let c = n.children[i];
        assert(holds(n, c) && nested(c));
        insert_keeps_nesting(c, r);
        assert forall|k: int| 0 <= k < m.children.len() implies holds(m, #[trigger] m.children[k])
            && nested(m.children[k]) by {
            if k != i {
                assert(m.children[k] == n.children[k]);
            }
        }
    } else {
        assert forall|k: int| 0 <= k < m.children.len() implies holds(m, #[trigger] m.children[k])
            && nested(m.children[k]) by {
            if k < n.children.len() {
                assert(m.children[k] == n.children[k]);
            }
        }
    }
}

/// Adding with wrap-around is adding modulo `2^64`.
pub proof fn lemma_wrapping_add_mod(x: u64, y: u64)
    ensures
        u64_specs::wrapping_add(x, y) as int == (x + y) % 0x1_0000_0000_0000_0000int,
{
    let m = 0x1_0000_0000_0000_0000int;
    if x + y > u64::MAX {
        lemma_fundamental_div_mod_converse(x + y, m, 1, x + y - m);
    } else {
        lemma_fundamental_div_mod_converse(x + y, m, 0, x + y);
    }
}

/// Sum of the sizes of all regions below `n`.
pub open spec fn descendants_size(n: RegionView) -> int
    decreases n, 0nat,
{
    sizes_below(n.children)
}

/// Sum, over `cs`, of each region's size and the sizes of all regions below
/// it.
pub open spec fn sizes_below(cs: Seq<RegionView>) -> int
    decreases cs, 0nat,
{
    if cs.len() == 0 {
        0
    } else {
        sizes_below(cs.drop_last()) + cs.last().size + descendants_size(cs.last())
    }
}

/// Whether `used` of `n`, and of every region below it, is the total size of
/// the regions below it, modulo `2^64`.
pub open spec fn used_counts(n: RegionView) -> bool
    decreases n,
{
    &&& n.used == descendants_size(n) % 0x1_0000_0000_0000_0000int
    &&& forall|i: int| 0 <= i < n.children.len() ==> used_counts(#[trigger] n.children[i])
}

proof fn lemma_sizes_below_update(cs: Seq<RegionView>, i: int, x: RegionView)
    requires
        0 <= i < cs.len(),
    ensures
        sizes_below(cs.update(i, x)) + cs[i].size + descendants_size(cs[i]) == sizes_below(cs)
            + x.size + descendants_size(x),
    decreases cs.len(),
{
    let u = cs.update(i, x);
    if i < cs.len() - 1 {
        lemma_sizes_below_update(cs.drop_last(), i, x);
        assert(u.drop_last() == cs.drop_last().update(i, x));
        assert(u.last() == cs.last());
    } else {
        assert(u.drop_last() == cs.drop_last());
    }
}

/// Placing `r` adds its size, and the sizes below it, to the total size of
/// the regions below `n`.
pub proof fn insert_grows_descendants(n: RegionView, r: RegionView)
    ensures
        descendants_size(insert_into(n, r)) == descendants_size(n) + r.size + descendants_size(r),
        insert_into(n, r).size == n.size,
    decreases n,
{
    let i = first_holder(n.children, r);
    lemma_first_holder(n.children, r);
    if 0 <= i < n.children.len() {
        insert_grows_descendants(n.children[i], r);
        lemma_sizes_below_update(n.children, i, insert_into(n.children[i], r));
    } else {
        assert(n.children.push(r).drop_last() == n.children);
    }
}

/// `Region::insert_region` keeps `used` the total size of the regions below,
/// at every region: placing a region that has nothing below it and nothing
/// used adds its size to `used` of each region that takes it.
pub proof fn insert_keeps_used(n: RegionView, r: RegionView)
    requires
        used_counts(n),
        r.children.len() == 0,
        r.used == 0,
    ensures
        used_counts(insert_into(n, r)),
        insert_into(n, r).used == u64_specs::wrapping_add(n.used, r.size),
    decreases n,
{
    let m = 0x1_0000_0000_0000_0000int;
    let i = first_holder(n.children, r);
    lemma_first_holder(n.children, r);
    let x = insert_into(n, r);
    assert(descendants_size(r) == 0);
    insert_grows_descendants(n, r);
    lemma_wrapping_add_mod(n.used, r.size);
    lemma_small_mod(r.size as nat, m as nat);
    lemma_add_mod_noop(descendants_size(n), r.size as int, m);
    if 0 <= i < n.children.len() {
        assert(used_counts(n.children[i]));
        insert_keeps_used(n.children[i], r);
        assert forall|k: int| 0 <= k < x.children.len() implies used_counts(#[trigger] x.children[k]) by {
            if k != i {
                assert(x.children[k] == n.children[k]);
            }
        }
    } else {
        assert(used_counts(r));
        assert forall|k: int| 0 <= k < x.children.len() implies used_counts(#[trigger] x.children[k]) by {
            if k < n.children.len() {
                assert(x.children[k] == n.children[k]);
            }
        }
    }
}

/// The order by start address.
pub struct ByStart;

impl SpecKey<ByStart> for Region {
    open spec fn sort_key(&self) -> int {
        self.start as int
    }
}

impl SortKey<ByStart> for Region {
    fn key_less(&self, other: &Self) -> (b: bool) {
        self.start < other.start
    }
}

impl SpecKey<ByStart> for RegionView {
    open spec fn sort_key(&self) -> int {
        self.start as int
    }
}

/// `n` with the children of every region sorted by start address, equal
/// starts keeping their order.
pub open spec fn sorted_by_start(n: RegionView) -> RegionView
    decreases n, 0nat,
{
    RegionView { children: stable_sort::<RegionView, ByStart>(sorted_all(n.children)), ..n }
}

/// `sorted_by_start` of each of `cs`.
pub open spec fn sorted_all(cs: Seq<RegionView>) -> Seq<RegionView>
    decreases cs, 0nat,
{
    if cs.len() == 0 {
        Seq::empty()
    } else {
        sorted_all(cs.drop_last()).push(sorted_by_start(cs.last()))
    }
}

pub proof fn lemma_sorted_all(cs: Seq<RegionView>)
    ensures
        sorted_all(cs).len() == cs.len(),
        forall|i: int| 0 <= i < cs.len() ==> #[trigger] sorted_all(cs)[i] == sorted_by_start(cs[i]),
    decreases cs.len(),
{
    if cs.len() > 0 {
        lemma_sorted_all(cs.drop_last());
        assert forall|i: int| 0 <= i < cs.len() implies #[trigger] sorted_all(cs)[i]
            == sorted_by_start(cs[i]) by {
            if i < cs.len() - 1 {
                assert(cs.drop_last()[i] == cs[i]);
            }
        }
    }
}

/// Whether the children of `n`, and of every region below it, come in order
/// of start address.
pub open spec fn starts_sorted(n: RegionView) -> bool
    decreases n,
{
    &&& forall|i: int, j: int|
        0 <= i < j < n.children.len() ==> n.children[i].start <= n.children[j].start
    &&& forall|i: int| 0 <= i < n.children.len() ==> starts_sorted(#[trigger] n.children[i])
}

/// After `Region::sort_by_start`, the children of every region come in order
/// of start address, and each region keeps its children: the same ones, each
/// sorted in turn.
pub proof fn sort_orders_starts(n: RegionView)
    ensures
        starts_sorted(sorted_by_start(n)),
        sorted_by_start(n).children.len() == n.children.len(),
        sorted_by_start(n).children.to_multiset() == sorted_all(n.children).to_multiset(),
    decreases n, 0nat,
{
    let a = sorted_all(n.children);
    let s = stable_sort::<RegionView, ByStart>(a);
    lemma_sorted_all(n.children);
    lemma_stable_sort_sorted::<RegionView, ByStart>(a);
    lemma_stable_sort_permutes::<RegionView, ByStart>(a);
    lemma_stable_sort_elements::<RegionView, ByStart>(a);
    assert forall|k: int| 0 <= k < a.len() implies starts_sorted(#[trigger] a[k]) by {
        sort_orders_starts(n.children[k]);
    }
    assert forall|i: int, j: int| 0 <= i < j < s.len() implies s[i].start <= s[j].start by {
        assert(SpecKey::<ByStart>::sort_key(&s[i]) <= SpecKey::<ByStart>::sort_key(&s[j]));
    }
    assert forall|i: int| 0 <= i < s.len() implies starts_sorted(#[trigger] s[i]) by {
        assert(a.contains(s[i]));
        let k = choose|k: int| 0 <= k < a.len() && a[k] == s[i];
        assert(starts_sorted(a[k]));
    }
}

/// Sorting by start twice gives what sorting once gives: a second
/// `Region::sort_by_start` changes nothing.
pub proof fn sort_by_start_settles(n: RegionView)
    ensures
        sorted_by_start(sorted_by_start(n)) == sorted_by_start(n),
    decreases n, 0nat,
{
    let a = sorted_all(n.children);
    let s = stable_sort::<RegionView, ByStart>(a);
    lemma_sorted_all(n.children);
    lemma_stable_sort_sorted::<RegionView, ByStart>(a);
    lemma_stable_sort_permutes::<RegionView, ByStart>(a);
    lemma_stable_sort_elements::<RegionView, ByStart>(a);
    lemma_sorted_all(s);
    assert forall|k: int| 0 <= k < a.len() implies sorted_by_start(#[trigger] a[k]) == a[k] by {
        sort_by_start_settles(n.children[k]);
    }
    assert forall|i: int| 0 <= i < s.len() implies #[trigger] sorted_all(s)[i] == s[i] by {
        assert(a.contains(s[i]));
        let k = choose|k: int| 0 <= k < a.len() && a[k] == s[i];
        assert(sorted_by_start(a[k]) == a[k]);
    }
    assert(sorted_all(s) =~= s);
    lemma_stable_sort_sorted_id::<RegionView, ByStart>(s);
}

impl Region {
    /// A region `start..=end` with no children and nothing used.
    pub fn new(start: u64, end: u64, variant: RegionVariant, name: String) -> (r: Region)
        ensures
            r@ == new_region(start, end, variant, name@),
    {
        let r = Region {
            start,
            end,
            size: if start <= end {
                (end - start).wrapping_add(1)
            } else {
                0
            },
            used: 0,
            variant,
            name,
            children: Vec::new(),
        };
        assert(r@.children =~= Seq::<RegionView>::empty());
        r
    }

    /// Whether `addr` lies in `start..=end`.
    pub fn contains(&self, addr: u64) -> (b: bool)
        ensures
            b == covers(self@, addr),
    {
        addr >= self.start && addr <= self.end
    }

    /// Places `region` within the first child that holds both its ends,
    /// recursively, or else appends it as the last child; each region that
    /// takes it counts its size in `used` (see `insert_into`).
    pub fn insert_region(&mut self, region: Region)
        ensures
            final(self)@ == insert_into(old(self)@, region@),
        decreases *old(self),
    {
        self.used = self.used.wrapping_add(region.size);
        let n = self.children.len();
        let ghost cs = views_of(self.children@);
        let mut i: usize = 0;
        proof {
            lemma_first_holder(cs, region@);
            lemma_views_of(self.children@);
        }
        while i < n
            invariant
                n == self.children.len(),
                cs == views_of(self.children@),
                self@ == (RegionView { used: u64_specs::wrapping_add(old(self).used, region.size), ..old(self)@ }),
                self.children@ == old(self).children@,
                i <= n,
                cs.len() == n,
                forall|k: int| 0 <= k < n ==> #[trigger] cs[k] == self.children@[k]@,
                i <= first_holder(cs, region@),
                0 <= first_holder(cs, region@) <= cs.len(),
                first_holder(cs, region@) < cs.len() ==> holds(
                    cs[first_holder(cs, region@)],
                    region@,
                ),
                forall|k: int| 0 <= k < first_holder(cs, region@) ==> !holds(#[trigger] cs[k], region@),
            decreases n - i,
        {
            if self.children[i].contains(region.start) && self.children[i].contains(region.end) {
                assert(holds(cs[i as int], region@));
                assert(i == first_holder(cs, region@));
                let ghost child = self.children@[i as int];
                assert(decreases_to!(*old(self) => old(self).children));
                assert(decreases_to!(old(self).children => old(self).children@));
                assert(decreases_to!(old(self).children@ => old(self).children@[i as int]));
                self.children[i].insert_region(region);
                proof {
                    lemma_views_of(self.children@);
                }
                assert(views_of(self.children@) =~= cs.update(i as int, insert_into(child@, region@)));
                return ;
            }
            assert(!holds(cs[i as int], region@));
            i += 1;
        }
        let ghost before = self.children@;
        self.children.push(region);
        proof {
            lemma_views_of(self.children@);
        }
        assert(views_of(self.children@) =~= cs.push(region@));
    }

    /// Sorts the children of every region by start address; regions with
    /// equal starts keep their order.
    pub fn sort_by_start(&mut self)
        ensures
            final(self)@ == sorted_by_start(old(self)@),
        decreases *old(self),
    {
        let n = self.children.len();
        let ghost cs = views_of(self.children@);
        let mut i: usize = 0;
        proof {
            lemma_sorted_all(cs);
            lemma_views_of(self.children@);
        }
        while i < n
            invariant
                n == self.children.len(),
                cs == views_of(old(self).children@),
                n == old(self).children@.len(),
                self.start == old(self).start,
                self.end == old(self).end,
                self.size == old(self).size,
                self.used == old(self).used,
                self.variant == old(self).variant,
                self.name@ == old(self).name@,
                i <= n,
                sorted_all(cs).len() == n,
                forall|k: int| 0 <= k < i ==> #[trigger] self.children@[k]@ == sorted_all(cs)[k],
                forall|k: int| i <= k < n ==> #[trigger] self.children@[k] == old(self).children@[k],
                forall|k: int| 0 <= k < n ==> #[trigger] sorted_all(cs)[k] == sorted_by_start(cs[k]),
                forall|k: int| 0 <= k < n ==> #[trigger] cs[k] == old(self).children@[k]@,
            decreases n - i,
        {
            assert(decreases_to!(*old(self) => old(self).children));
            assert(decreases_to!(old(self).children => old(self).children@));
            assert(decreases_to!(old(self).children@ => old(self).children@[i as int]));
            self.children[i].sort_by_start();
            i += 1;
        }
        proof {
            lemma_views_of(self.children@);
        }
        assert(views_of(self.children@) =~= sorted_all(cs));
        let ghost mid = self.children@;
        sort_by_key::<Region, ByStart>(&mut self.children);
        proof {
            let f = |r: Region| r@;
            lemma_views_of_map(mid);
            lemma_views_of_map(self.children@);
            lemma_stable_sort_map::<Region, RegionView, ByStart>(mid, f);
        }
    }
}


/// One line of a printed region tree: a region without its children, with
/// its depth below the roots.
#[derive(Debug)]
pub struct RegionRow {
    pub depth: usize,
    pub start: u64,
    pub end: u64,
    pub size: u64,
    pub used: u64,
    pub variant: RegionVariant,
    pub name: String,
}

/// The value of a `RegionRow`.
pub struct RegionRowView {
    pub depth: usize,
    pub start: u64,
    pub end: u64,
    pub size: u64,
    pub used: u64,
    pub variant: RegionVariant,
    pub name: Seq<char>,
}

impl View for RegionRow {
    type V = RegionRowView;

    open spec fn view(&self) -> RegionRowView {
        RegionRowView {
            depth: self.depth,
            start: self.start,
            end: self.end,
            size: self.size,
            used: self.used,
            variant: self.variant,
            name: self.name@,
        }
    }
}

/// The values of `rows`, in order.
pub open spec fn row_views(rows: Seq<RegionRow>) -> Seq<RegionRowView> {
    rows.map_values(|x: RegionRow| x@)
}

/// The depth one below `depth`, stopping at `usize::MAX`.
pub open spec fn deeper(depth: usize) -> usize {
    depth.saturating_add(1)
}

/// The lines of `n` printed at `depth`: `n` itself, then the lines of each
/// child one level deeper, in order.
pub open spec fn region_rows(n: RegionView, depth: usize) -> Seq<RegionRowView>
    decreases n, 0nat,
{
    seq![RegionRowView {
        depth,
        start: n.start,
        end: n.end,
        size: n.size,
        used: n.used,
        variant: n.variant,
        name: n.name,
    }] + rows_of(n.children, deeper(depth))
}

/// The lines of each of `cs` printed at `depth`, one after the other.
pub open spec fn rows_of(cs: Seq<RegionView>, depth: usize) -> Seq<RegionRowView>
    decreases cs, 0nat,
{
    if cs.len() == 0 {
        Seq::empty()
    } else {
        rows_of(cs.drop_last(), depth) + region_rows(cs.last(), depth)
    }
}

/// The regions of `n` in depth-first order: `n` itself, then the regions of
/// each child in turn.
pub open spec fn preorder(n: RegionView) -> Seq<RegionView>
    decreases n, 0nat,
{
    seq![n] + preorder_all(n.children)
}

/// The regions of each of `cs` in depth-first order, one after the other.
pub open spec fn preorder_all(cs: Seq<RegionView>) -> Seq<RegionView>
    decreases cs, 0nat,
{
    if cs.len() == 0 {
        Seq::empty()
    } else {
        preorder_all(cs.drop_last()) + preorder(cs.last())
    }
}

/// Whether row `r` shows region `n`: its addresses, size, used figure, kind
/// and name.
pub open spec fn row_shows(r: RegionRowView, n: RegionView) -> bool {
    &&& r.start == n.start
    &&& r.end == n.end
    &&& r.size == n.size
    &&& r.used == n.used
    &&& r.variant == n.variant
    &&& r.name == n.name
}

/// The listing of a region (`Region::push_rows`) has one row per region
/// below and including it, in depth-first order, and each row shows the
/// region it stands for.
pub proof fn rows_show_regions(n: RegionView, depth: usize)
    ensures
        region_rows(n, depth).len() == preorder(n).len(),
        forall|k: int| 0 <= k < preorder(n).len() ==> row_shows(#[trigger] region_rows(n, depth)[k], preorder(n)[k]),
    decreases n, 0nat,
{
    rows_show_all(n.children, deeper(depth));
}

/// The listing of regions `cs` (`MemoryTree::rows`, `KernelModules::rows`)
/// has one row per region of their trees, in depth-first order, and each row
/// shows the region it stands for.
pub proof fn rows_show_all(cs: Seq<RegionView>, depth: usize)
    ensures
        rows_of(cs, depth).len() == preorder_all(cs).len(),
        forall|k: int| 0 <= k < preorder_all(cs).len() ==> row_shows(#[trigger] rows_of(cs, depth)[k], preorder_all(cs)[k]),
    decreases cs, 0nat,
{
    if cs.len() > 0 {
        rows_show_all(cs.drop_last(), depth);
        rows_show_regions(cs.last(), depth);
        let r1 = rows_of(cs.drop_last(), depth);
        let p1 = preorder_all(cs.drop_last());
        let r2 = region_rows(cs.last(), depth);
        let p2 = preorder(cs.last());
        assert forall|k: int| 0 <= k < preorder_all(cs).len() implies row_shows(
            #[trigger] rows_of(cs, depth)[k],
            preorder_all(cs)[k],
        ) by {
            if k < p1.len() {
                assert(rows_of(cs, depth)[k] == r1[k]);
                assert(preorder_all(cs)[k] == p1[k]);
            } else {
                assert(rows_of(cs, depth)[k] == r2[k - r1.len()]);
                assert(preorder_all(cs)[k] == p2[k - p1.len()]);
            }
        }
    }
}

impl Region {
    /// Appends to `out` the lines of this region printed at `depth` (see
    /// `region_rows`).
    pub fn push_rows(&self, depth: usize, out: &mut Vec<RegionRow>)
        ensures
            row_views(final(out)@) == row_views(old(out)@) + region_rows(self@, depth),
        decreases self,
    {
        let ghost start = row_views(out@);
        out.push(
            RegionRow {
                depth,
                start: self.start,
                end: self.end,
                size: self.size,
                used: self.used,
                variant: self.variant,
                name: self.name.clone(),
            },
        );
        let ghost head = row_views(out@);
        assert(head =~= start + region_rows(self@, depth).take(1));
        let d = depth.saturating_add(1);
        let n = self.children.len();
        let ghost cs = views_of(self.children@);
        proof {
            lemma_views_of(self.children@);
        }
        let mut i: usize = 0;
        assert(cs.take(0) =~= Seq::<RegionView>::empty());
        while i < n
            invariant
                n == self.children.len(),
                cs == views_of(self.children@),
                cs.len() == n,
                forall|k: int| 0 <= k < n ==> #[trigger] cs[k] == self.children@[k]@,
                i <= n,
                d == deeper(depth),
                row_views(out@) == head + rows_of(cs.take(i as int), d),
            decreases n - i,
        {
            assert(decreases_to!(self => self.children));
            assert(decreases_to!(self.children => self.children@));
            assert(decreases_to!(self.children@ => self.children@[i as int]));
            self.children[i].push_rows(d, out);
            assert(cs.take(i + 1).drop_last() == cs.take(i as int));
            assert(cs.take(i + 1).last() == cs[i as int]);
            assert(row_views(out@) =~= head + rows_of(cs.take(i + 1), d));
            i += 1;
        }
        assert(cs.take(n as int) == cs);
        assert(row_views(out@) =~= start + region_rows(self@, depth));
    }
}

/// The lines of the regions `rs` and of all the regions below them, printed
/// from depth 0 (see `rows_of`).
pub fn rows_of_regions(rs: &Vec<Region>) -> (rows: Vec<RegionRow>)
    ensures
        row_views(rows@) == rows_of(views_of(rs@), 0),
{
    let mut out: Vec<RegionRow> = Vec::new();
    let n = rs.len();
    let ghost cs = views_of(rs@);
    proof {
        lemma_views_of(rs@);
    }
    let mut i: usize = 0;
    assert(cs.take(0) =~= Seq::<RegionView>::empty());
    assert(row_views(out@) =~= Seq::<RegionRowView>::empty());
    while i < n
        invariant
            n == rs.len(),
            cs == views_of(rs@),
            cs.len() == n,
            forall|k: int| 0 <= k < n ==> #[trigger] cs[k] == rs@[k]@,
            i <= n,
            row_views(out@) == rows_of(cs.take(i as int), 0),
        decreases n - i,
    {
        rs[i].push_rows(0, &mut out);
        assert(cs.take(i + 1).drop_last() == cs.take(i as int));
        assert(cs.take(i + 1).last() == cs[i as int]);
        i += 1;
    }
    assert(cs.take(n as int) == cs);
    out
}

} // verus!
