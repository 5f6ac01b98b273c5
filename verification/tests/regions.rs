use lib::tree::{MemoryTree, Region, RegionRow, RegionVariant};

fn names(rows: &[RegionRow]) -> Vec<(usize, String)> {
    rows.iter().map(|r| (r.depth, r.name.clone())).collect()
}

#[test]
fn region_new_counts_inclusive_range() {
    let r = Region::new(0x1000, 0x1fff, RegionVariant::SystemRam, "System RAM".to_string());
    assert_eq!(r.start, 0x1000);
    assert_eq!(r.end, 0x1fff);
    assert_eq!(r.size, 0x1000);
    assert_eq!(r.used, 0);
    assert_eq!(r.variant, RegionVariant::SystemRam);
    assert_eq!(r.name, "System RAM");
    assert!(r.children.is_empty());
}

#[test]
fn region_new_empty_when_start_after_end() {
    let r = Region::new(5, 4, RegionVariant::ZoneDMA, "x".to_string());
    assert_eq!(r.size, 0);
}

#[test]
fn region_new_whole_space_wraps_to_zero() {
    let r = Region::new(0, u64::MAX, RegionVariant::ZoneNormal, "all".to_string());
    assert_eq!(r.size, 0);
    let one = Region::new(7, 7, RegionVariant::ZoneNormal, "one".to_string());
    assert_eq!(one.size, 1);
}

#[test]
fn region_contains_both_ends() {
    let r = Region::new(10, 20, RegionVariant::SystemRam, "r".to_string());
    assert!(r.contains(10));
    assert!(r.contains(15));
    assert!(r.contains(20));
    assert!(!r.contains(9));
    assert!(!r.contains(21));
}

#[test]
fn region_insert_nests_in_first_holder() {
    let mut root = Region::new(0, 0xffff, RegionVariant::ZoneDMA, "DMA".to_string());
    root.insert_region(Region::new(0x100, 0x1ff, RegionVariant::SystemRam, "a".to_string()));
    root.insert_region(Region::new(0x100, 0x17f, RegionVariant::KernelCode, "b".to_string()));
    root.insert_region(Region::new(0x1f0, 0x2ff, RegionVariant::KernelData, "c".to_string()));
    assert_eq!(root.children.len(), 2);
    assert_eq!(root.used, 0x100 + 0x80 + 0x110);
    assert_eq!(root.children[0].name, "a");
    assert_eq!(root.children[0].used, 0x80);
    assert_eq!(root.children[1].used, 0);
    assert_eq!(root.children[0].children.len(), 1);
    assert_eq!(root.children[0].children[0].name, "b");
    assert_eq!(root.children[1].name, "c");
}

#[test]
fn region_sort_by_start_sorts_every_level() {
    let mut root = Region::new(0, 0xffff, RegionVariant::ZoneDMA, "DMA".to_string());
    root.insert_region(Region::new(0x800, 0xfff, RegionVariant::SystemRam, "high".to_string()));
    root.insert_region(Region::new(0x100, 0x1ff, RegionVariant::SystemRam, "low".to_string()));
    root.insert_region(Region::new(0xc00, 0xcff, RegionVariant::KernelData, "hi-b".to_string()));
    root.insert_region(Region::new(0x900, 0x9ff, RegionVariant::KernelCode, "hi-a".to_string()));
    root.sort_by_start();
    assert_eq!(root.children[0].name, "low");
    assert_eq!(root.children[1].name, "high");
    assert_eq!(root.children[1].children[0].name, "hi-a");
    assert_eq!(root.children[1].children[1].name, "hi-b");
}

#[test]
fn tree_new_is_empty() {
    let t = MemoryTree::new();
    assert!(t.roots.is_empty());
    assert_eq!(t.ram_size, 0);
    assert_eq!(t.kernel_size, 0);
}

#[test]
fn tree_region_outside_roots_becomes_root() {
    let mut t = MemoryTree::new();
    t.insert_region(Region::new(0x1000, 0x1fff, RegionVariant::ZoneDMA, "DMA".to_string()));
    t.insert_region(Region::new(0x3000, 0x3fff, RegionVariant::SystemRam, "RAM".to_string()));
    assert_eq!(t.roots.len(), 2);
    assert_eq!(t.roots[1].name, "RAM");
}

#[test]
fn tree_region_within_root_goes_inside() {
    let mut t = MemoryTree::new();
    t.insert_region(Region::new(0x1000, 0x1fff, RegionVariant::ZoneDMA, "DMA".to_string()));
    t.insert_region(Region::new(0x1100, 0x11ff, RegionVariant::SystemRam, "RAM".to_string()));
    assert_eq!(t.roots.len(), 1);
    assert_eq!(t.roots[0].children[0].name, "RAM");
}

#[test]
fn tree_region_past_root_end_is_split() {
    let mut t = MemoryTree::new();
    t.insert_region(Region::new(0x1000, 0x1fff, RegionVariant::ZoneDMA, "DMA".to_string()));
    t.insert_region(Region::new(0x1800, 0x2fff, RegionVariant::SystemRam, "RAM".to_string()));
    assert_eq!(t.roots.len(), 2);
    let left = &t.roots[0].children[0];
    assert_eq!((left.start, left.end, left.size), (0x1800, 0x1fff, 0x800));
    assert_eq!(left.name, "RAM (left part)");
    let right = &t.roots[1];
    assert_eq!((right.start, right.end, right.size), (0x2000, 0x2fff, 0x1000));
    assert_eq!(right.name, "RAM (right part)");
    assert_eq!(right.variant, RegionVariant::SystemRam);
}

#[test]
fn tree_region_before_root_start_is_split_into_root() {
    let mut t = MemoryTree::new();
    t.insert_region(Region::new(0x1000, 0x1fff, RegionVariant::ZoneDMA, "DMA".to_string()));
    t.insert_region(Region::new(0x0, 0x17ff, RegionVariant::SystemRam, "RAM".to_string()));
    assert_eq!(t.roots.len(), 1);
    let kids = &t.roots[0].children;
    assert_eq!(kids.len(), 2);
    assert_eq!((kids[0].start, kids[0].end), (0x0, 0xfff));
    assert_eq!(kids[0].name, "RAM (left part)");
    assert_eq!((kids[1].start, kids[1].end), (0x1000, 0x17ff));
    assert_eq!(kids[1].name, "RAM (right part)");
}

#[test]
fn tree_region_spanning_two_roots_is_split_across_them() {
    let mut t = MemoryTree::new();
    t.insert_region(Region::new(0x1000, 0x1fff, RegionVariant::ZoneDMA, "DMA".to_string()));
    t.insert_region(Region::new(0x2000, 0x2fff, RegionVariant::ZoneDMA32, "DMA32".to_string()));
    t.insert_region(Region::new(0x1800, 0x27ff, RegionVariant::SystemRam, "RAM".to_string()));
    assert_eq!(t.roots.len(), 2);
    assert_eq!(t.roots[0].children[0].name, "RAM (left part)");
    assert_eq!((t.roots[0].children[0].start, t.roots[0].children[0].end), (0x1800, 0x1fff));
    assert_eq!(t.roots[1].children[0].name, "RAM (right part)");
    assert_eq!((t.roots[1].children[0].start, t.roots[1].children[0].end), (0x2000, 0x27ff));
}

#[test]
fn tree_sort_and_rows_depth_first() {
    let mut t = MemoryTree::new();
    t.insert_region(Region::new(0x2000, 0x2fff, RegionVariant::ZoneDMA32, "DMA32".to_string()));
    t.insert_region(Region::new(0x1000, 0x1fff, RegionVariant::ZoneDMA, "DMA".to_string()));
    t.insert_region(Region::new(0x1400, 0x14ff, RegionVariant::SystemRam, "b".to_string()));
    t.insert_region(Region::new(0x1100, 0x11ff, RegionVariant::SystemRam, "a".to_string()));
    t.insert_region(Region::new(0x1110, 0x111f, RegionVariant::KernelCode, "code".to_string()));
    t.sort_by_start();
    let rows = t.rows();
    assert_eq!(
        names(&rows),
        vec![
            (0, "DMA".to_string()),
            (1, "a".to_string()),
            (2, "code".to_string()),
            (1, "b".to_string()),
            (0, "DMA32".to_string()),
        ]
    );
    assert_eq!(rows[2].start, 0x1110);
    assert_eq!(rows[2].size, 0x10);
    assert_eq!(rows[2].variant, RegionVariant::KernelCode);
}

fn count(r: &Region) -> usize {
    1 + r.children.iter().map(count).sum::<usize>()
}

fn nested(r: &Region) -> bool {
    r.children.iter().all(|c| r.contains(c.start) && r.contains(c.end) && nested(c))
}

#[test]
fn region_insert_adds_one_and_keeps_nesting() {
    let mut root = Region::new(0, 0xffff, RegionVariant::ZoneDMA, "DMA".to_string());
    let parts = [(0x100, 0x1ff), (0x100, 0x17f), (0x180, 0x1ff), (0x2000, 0x2fff), (0x2100, 0x2100)];
    for (i, (s, e)) in parts.iter().enumerate() {
        root.insert_region(Region::new(*s, *e, RegionVariant::SystemRam, format!("r{}", i)));
        assert_eq!(count(&root), i + 2);
        assert!(nested(&root));
    }
    assert_eq!(root.children.len(), 2);
    assert_eq!(root.children[0].children.len(), 2);
}

fn below(r: &Region) -> u64 {
    r.children.iter().map(|c| c.size + below(c)).sum()
}

fn used_counts(r: &Region) -> bool {
    r.used == below(r) && r.children.iter().all(used_counts)
}

#[test]
fn used_counts_regions_below() {
    let mut t = MemoryTree::new();
    t.insert_region(Region::new(0x1000, 0x1fff, RegionVariant::ZoneDMA, "DMA".to_string()));
    t.insert_region(Region::new(0x2000, 0x2fff, RegionVariant::ZoneDMA32, "DMA32".to_string()));
    t.insert_region(Region::new(0x1800, 0x27ff, RegionVariant::SystemRam, "RAM".to_string()));
    t.insert_region(Region::new(0x1900, 0x19ff, RegionVariant::KernelCode, "code".to_string()));
    assert!(t.roots.iter().all(used_counts));
    assert_eq!(t.roots[0].used, 0x800 + 0x100);
    assert_eq!(t.roots[1].used, 0x800);
}

#[test]
fn sort_by_start_twice_is_once() {
    let mut t = MemoryTree::new();
    t.insert_region(Region::new(0x2000, 0x2fff, RegionVariant::ZoneDMA32, "DMA32".to_string()));
    t.insert_region(Region::new(0x1000, 0x1fff, RegionVariant::ZoneDMA, "DMA".to_string()));
    t.insert_region(Region::new(0x1400, 0x14ff, RegionVariant::SystemRam, "b".to_string()));
    t.insert_region(Region::new(0x1100, 0x11ff, RegionVariant::SystemRam, "a".to_string()));
    t.sort_by_start();
    let once = names(&t.rows());
    t.sort_by_start();
    assert_eq!(names(&t.rows()), once);
}
