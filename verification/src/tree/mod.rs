//! Regions of the physical address space, nested in one another.
use vstd::prelude::*;
use vstd::string::StringExecFns;
use vstd::wrapping::u64_specs;

pub mod region;

pub use region::{
    count_all, covers, descendants_size, holds, lemma_count_all_update, insert_adds_regions, insert_into, insert_keeps_nesting,
    insert_keeps_used, nested, new_region, region_count, row_views, rows_of, sort_by_start_settles,
    sort_orders_starts, sorted_all, sorted_by_start, starts_sorted, used_counts, views_of, Region,
    RegionRow, RegionRowView, RegionVariant, RegionView,
};
use region::{ByStart, lemma_sorted_all, lemma_views_of, lemma_views_of_map, rows_of_regions};

use crate::sort::{lemma_stable_sort_map, sort_by_key, stable_sort};

verus! {

/// The top-level regions, with the RAM and kernel sizes counted while they
/// were added.
#[derive(Debug)]
pub struct MemoryTree {
    pub roots: Vec<Region>,
    pub ram_size: u64,
    pub kernel_size: u64,
}

/// The value of a `MemoryTree`.
pub struct TreeView {
    pub roots: Seq<RegionView>,
    pub ram_size: u64,
    pub kernel_size: u64,
}

impl View for MemoryTree {
    type V = TreeView;

    open spec fn view(&self) -> TreeView {
        TreeView { roots: views_of(self.roots@), ram_size: self.ram_size, kernel_size: self.kernel_size }
    }
}

/// The name of the part of a split region that lies before a boundary.
pub open spec fn left_name(name: Seq<char>) -> Seq<char> {
    name + " (left part)"@
}

/// The name of the part of a split region that lies after a boundary.
pub open spec fn right_name(name: Seq<char>) -> Seq<char> {
    name + " (right part)"@
}

/// `roots` once `part` is placed, looking at the roots from index `i` on.
///
/// A root that holds both ends of `part` takes it. A root that holds only its
/// start takes the part up to the root's end, and the rest goes on to the next
/// roots. A root that holds only its end takes the part before its start and
/// the part from its start. A part that no root takes becomes a new root.
pub open spec fn place(roots: Seq<RegionView>, i: int, part: RegionView) -> Seq<RegionView>
    decreases roots.len() - i,
{
    if i < 0 || i >= roots.len() {
        roots.push(part)
    } else {
        let root = roots[i];
        if covers(root, part.start) {
            if covers(root, part.end) {
                roots.update(i, insert_into(root, part))
            } else {
                let left = new_region(part.start, root.end, part.variant, left_name(part.name));
                let right = new_region(
                    u64_specs::wrapping_add(root.end, 1),
                    part.end,
                    part.variant,
                    right_name(part.name),
                );
                place(roots.update(i, insert_into(root, left)), i + 1, right)
            }
        } else if covers(root, part.end) {
            let left = new_region(
                part.start,
                u64_specs::wrapping_sub(root.start, 1),
                part.variant,
                left_name(part.name),
            );
            let right = new_region(root.start, part.end, part.variant, right_name(part.name));
            roots.update(i, insert_into(insert_into(root, left), right))
        } else {
            place(roots, i + 1, part)
        }
    }
}

impl MemoryTree {
    /// An empty tree.
    pub fn new() -> (t: MemoryTree)
        ensures
            t@.roots == Seq::<RegionView>::empty(),
            t@.ram_size == 0,
            t@.kernel_size == 0,
    {
        let t = MemoryTree { roots: Vec::new(), ram_size: 0, kernel_size: 0 };
        assert(t@.roots =~= Seq::<RegionView>::empty());
        t
    }

    /// Places `region` in the tree (see `place`).
    pub fn insert_region(&mut self, region: Region)
        ensures
            final(self)@ == (TreeView { roots: place(old(self)@.roots, 0, region@), ..old(self)@ }),
    {
        let n = self.roots.len();
        let ghost start_roots = self@.roots;
        let mut part = region;
        let mut i: usize = 0;
        proof {
            lemma_views_of(self.roots@);
        }
        while i < n
            invariant
                n == self.roots.len(),
                i <= n,
                self.ram_size == old(self).ram_size,
                self.kernel_size == old(self).kernel_size,
                start_roots == views_of(old(self).roots@),
                place(start_roots, 0, region@) == place(views_of(self.roots@), i as int, part@),
                views_of(self.roots@).len() == n,
            decreases n - i,
        {
            let ghost cur = views_of(self.roots@);
            proof {
                lemma_views_of(self.roots@);
            }
            if self.roots[i].contains(part.start) {
                if self.roots[i].contains(part.end) {
                    self.roots[i].insert_region(part);
                    proof {
                        lemma_views_of(self.roots@);
                    }
                    assert(views_of(self.roots@) =~= cur.update(i as int, insert_into(cur[i as int], part@)));
                    assert(place(cur, i as int, part@) == cur.update(i as int, insert_into(cur[i as int], part@)));
                    return ;
                } else {
                    let mut ln = part.name.clone();
                    ln.append(" (left part)");
                    let mut rn = part.name.clone();
                    rn.append(" (right part)");
                    let left = Region::new(part.start, self.roots[i].end, part.variant, ln);
                    let right = Region::new(
                        self.roots[i].end.wrapping_add(1),
                        part.end,
                        part.variant,
                        rn,
                    );
                    self.roots[i].insert_region(left);
                    proof {
                        lemma_views_of(self.roots@);
                    }
                    assert(views_of(self.roots@) =~= cur.update(i as int, insert_into(cur[i as int], left@)));
                    part = right;
                    i += 1;
                    continue ;
                }
            } else if self.roots[i].contains(part.end) {
                let mut ln = part.name.clone();
                ln.append(" (left part)");
                let mut rn = part.name.clone();
                rn.append(" (right part)");
                let left = Region::new(
                    part.start,
                    self.roots[i].start.wrapping_sub(1),
                    part.variant,
                    ln,
                );
                let right = Region::new(self.roots[i].start, part.end, part.variant, rn);
                self.roots[i].insert_region(left);
                self.roots[i].insert_region(right);
                proof {
                    lemma_views_of(self.roots@);
                }
                assert(views_of(self.roots@) =~= cur.update(
                    i as int,
                    insert_into(insert_into(cur[i as int], left@), right@),
                ));
                return ;
            }
            i += 1;
        }
        let ghost cur = views_of(self.roots@);
        proof {
            lemma_views_of(self.roots@);
        }
        self.roots.push(part);
        proof {
            lemma_views_of(self.roots@);
        }
        assert(views_of(self.roots@) =~= cur.push(part@));
    }

    /// Sorts the roots, and the children of every region, by start address;
    /// regions with equal starts keep their order.
    pub fn sort_by_start(&mut self)
        ensures
            final(self)@ == (TreeView {
                roots: stable_sort::<RegionView, ByStart>(sorted_all(old(self)@.roots)),
                ..old(self)@
            }),
    {
        let n = self.roots.len();
        let ghost cs = views_of(self.roots@);
        let mut i: usize = 0;
        proof {
            lemma_sorted_all(cs);
            lemma_views_of(self.roots@);
        }
        while i < n
            invariant
                n == self.roots.len(),
                cs == views_of(old(self).roots@),
                n == old(self).roots@.len(),
                self.ram_size == old(self).ram_size,
                self.kernel_size == old(self).kernel_size,
                i <= n,
                sorted_all(cs).len() == n,
                forall|k: int| 0 <= k < i ==> #[trigger] self.roots@[k]@ == sorted_all(cs)[k],
                forall|k: int| i <= k < n ==> #[trigger] self.roots@[k] == old(self).roots@[k],
                forall|k: int| 0 <= k < n ==> #[trigger] sorted_all(cs)[k] == sorted_by_start(cs[k]),
                forall|k: int| 0 <= k < n ==> #[trigger] cs[k] == old(self).roots@[k]@,
            decreases n - i,
        {
            self.roots[i].sort_by_start();
            i += 1;
        }
        proof {
            lemma_views_of(self.roots@);
        }
        assert(views_of(self.roots@) =~= sorted_all(cs));
        let ghost mid = self.roots@;
        sort_by_key::<Region, ByStart>(&mut self.roots);
        proof {
            let f = |r: Region| r@;
            lemma_views_of_map(mid);
            lemma_views_of_map(self.roots@);
            lemma_stable_sort_map::<Region, RegionView, ByStart>(mid, f);
        }
    }
}

impl MemoryTree {
    /// The lines of the printed tree: each root and every region below it,
    /// depth first, children one level deeper (see `rows_of`).
    pub fn rows(&self) -> (rows: Vec<RegionRow>)
        ensures
            row_views(rows@) == rows_of(self@.roots, 0),
    {
        rows_of_regions(&self.roots)
    }
}

/// After `MemoryTree::sort_by_start`, the roots come in order of start
/// address, and so do the children of every region below them; the roots are
/// the same ones, each sorted in turn.
pub proof fn tree_sort_orders_starts(t: TreeView)
    ensures
        ({
            let r = stable_sort::<RegionView, ByStart>(sorted_all(t.roots));
            &&& r.len() == t.roots.len()
            &&& r.to_multiset() == sorted_all(t.roots).to_multiset()
            &&& forall|i: int, j: int| 0 <= i < j < r.len() ==> r[i].start <= r[j].start
            &&& forall|i: int| 0 <= i < r.len() ==> starts_sorted(#[trigger] r[i])
        }),
{
    let top = RegionView {
        start: 0,
        end: 0,
        size: 0,
        used: 0,
        variant: RegionVariant::SystemRam,
        name: Seq::empty(),
        children: t.roots,
    };
    sort_orders_starts(top);
}

/// `MemoryTree::insert_region` keeps every root nested (see `nested`) when
/// the placed region is nested and no root holds one of its ends without the
/// other: the region then lands whole inside the first root that holds it, or
/// becomes a new root.
pub proof fn place_keeps_nesting(roots: Seq<RegionView>, i: int, part: RegionView)
    requires
        0 <= i,
        forall|k: int| 0 <= k < roots.len() ==> nested(#[trigger] roots[k]),
        nested(part),
        forall|k: int| i <= k < roots.len() ==> covers(#[trigger] roots[k], part.start) == covers(roots[k], part.end),
    ensures
        forall|k: int| 0 <= k < place(roots, i, part).len() ==> nested(#[trigger] place(roots, i, part)[k]),
    decreases roots.len() - i,
{
    let r = place(roots, i, part);
    if i >= roots.len() {
        assert forall|k: int| 0 <= k < r.len() implies nested(#[trigger] r[k]) by {
            if k < roots.len() {
                assert(r[k] == roots[k]);
            }
        }
    } else if covers(roots[i], part.start) {
        insert_keeps_nesting(roots[i], part);
        assert forall|k: int| 0 <= k < r.len() implies nested(#[trigger] r[k]) by {
            if k != i {
                assert(r[k] == roots[k]);
            }
        }
    } else {
        assert(!covers(roots[i], part.end));
        assert(r == place(roots, i + 1, part));
        place_keeps_nesting(roots, i + 1, part);
    }
}

/// `MemoryTree::insert_region` keeps `used` of every region the total size
/// of the regions below it: the region placed, and each part it is split
/// into, has nothing below it and nothing used, and adds its size to `used`
/// of each region that takes it.
pub proof fn place_keeps_used(roots: Seq<RegionView>, i: int, part: RegionView)
    requires
        0 <= i,
        forall|k: int| 0 <= k < roots.len() ==> used_counts(#[trigger] roots[k]),
        part.children.len() == 0,
        part.used == 0,
    ensures
        forall|k: int| 0 <= k < place(roots, i, part).len() ==> used_counts(#[trigger] place(roots, i, part)[k]),
    decreases roots.len() - i,
{
    let r = place(roots, i, part);
    if i >= roots.len() {
        assert(used_counts(part));
        assert forall|k: int| 0 <= k < r.len() implies used_counts(#[trigger] r[k]) by {
            if k < roots.len() {
                assert(r[k] == roots[k]);
            }
        }
    } else {
        let root = roots[i];
        if covers(root, part.start) {
            if covers(root, part.end) {
                insert_keeps_used(root, part);
                assert forall|k: int| 0 <= k < r.len() implies used_counts(#[trigger] r[k]) by {
                    if k != i {
                        assert(r[k] == roots[k]);
                    }
                }
            } else {
                let left = new_region(part.start, root.end, part.variant, left_name(part.name));
                let right = new_region(
                    u64_specs::wrapping_add(root.end, 1),
                    part.end,
                    part.variant,
                    right_name(part.name),
                );
                insert_keeps_used(root, left);
                let next = roots.update(i, insert_into(root, left));
                assert forall|k: int| 0 <= k < next.len() implies used_counts(#[trigger] next[k]) by {
                    if k != i {
                        assert(next[k] == roots[k]);
                    }
                }
                assert(r == place(next, i + 1, right));
                place_keeps_used(next, i + 1, right);
            }
        } else if covers(root, part.end) {
            let left = new_region(
                part.start,
                u64_specs::wrapping_sub(root.start, 1),
                part.variant,
                left_name(part.name),
            );
            let right = new_region(root.start, part.end, part.variant, right_name(part.name));
            insert_keeps_used(root, left);
            insert_keeps_used(insert_into(root, left), right);
            assert forall|k: int| 0 <= k < r.len() implies used_counts(#[trigger] r[k]) by {
                if k != i {
                    assert(r[k] == roots[k]);
                }
            }
        } else {
            assert(r == place(roots, i + 1, part));
            place_keeps_used(roots, i + 1, part);
        }
    }
}

/// Sorting the tree by start twice gives what sorting once gives: a second
/// `MemoryTree::sort_by_start` changes nothing.
pub proof fn tree_sort_by_start_settles(roots: Seq<RegionView>)
    ensures
        stable_sort::<RegionView, ByStart>(sorted_all(stable_sort::<RegionView, ByStart>(sorted_all(roots))))
            == stable_sort::<RegionView, ByStart>(sorted_all(roots)),
{
    let top = RegionView {
        start: 0,
        end: 0,
        size: 0,
        used: 0,
        variant: RegionVariant::SystemRam,
        name: Seq::empty(),
        children: roots,
    };
    sort_by_start_settles(top);
    assert(sorted_by_start(sorted_by_start(top)).children == sorted_by_start(top).children);
}

/// `MemoryTree::insert_region` adds at least one region to the tree: the
/// region placed, or the parts it is split into.
pub proof fn place_adds_a_region(roots: Seq<RegionView>, i: int, part: RegionView)
    requires
        0 <= i,
    ensures
        count_all(place(roots, i, part)) >= count_all(roots) + 1,
    decreases roots.len() - i,
{
    let r = place(roots, i, part);
    if i >= roots.len() {
        assert(roots.push(part).drop_last() == roots);
    } else {
        let root = roots[i];
        if covers(root, part.start) {
            if covers(root, part.end) {
                insert_adds_regions(root, part);
                lemma_count_all_update(roots, i, insert_into(root, part));
            } else {
                let left = new_region(part.start, root.end, part.variant, left_name(part.name));
                let right = new_region(
                    u64_specs::wrapping_add(root.end, 1),
                    part.end,
                    part.variant,
                    right_name(part.name),
                );
                let next = roots.update(i, insert_into(root, left));
                insert_adds_regions(root, left);
                lemma_count_all_update(roots, i, insert_into(root, left));
                assert(r == place(next, i + 1, right));
                place_adds_a_region(next, i + 1, right);
            }
        } else if covers(root, part.end) {
            let left = new_region(
                part.start,
                u64_specs::wrapping_sub(root.start, 1),
                part.variant,
                left_name(part.name),
            );
            let right = new_region(root.start, part.end, part.variant, right_name(part.name));
            insert_adds_regions(root, left);
            insert_adds_regions(insert_into(root, left), right);
            lemma_count_all_update(roots, i, insert_into(insert_into(root, left), right));
        } else {
            assert(r == place(roots, i + 1, part));
            place_adds_a_region(roots, i + 1, part);
        }
    }
}

} // verus!
