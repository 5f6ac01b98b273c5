use lib::proc::{
    detect_iomem_variant, detect_zoneinfo_variant, parse_iomem, parse_iomem_line,
    parse_value_after_colon, parse_zoneinfo, KernelModules, MemInfo,
};
use lib::proc::iomem::iomem_line_problem;
use lib::summary::summarize;
use lib::tree::{MemoryTree, RegionVariant};

const IOMEM: &str = "00000000-00000fff : Reserved
00001000-0009ffff : System RAM
000a0000-000fffff : Reserved
00100000-3fffffff : System RAM
  01000000-01ffffff : Kernel code
  02000000-027fffff : Kernel rodata
  02800000-02bfffff : Kernel data
  03000000-031fffff : Kernel bss
  03200000-032fffff : Something else

";

#[test]
fn iomem_variants_by_name() {
    assert_eq!(detect_iomem_variant("Kernel code"), Some(RegionVariant::KernelCode));
    assert_eq!(detect_iomem_variant("Kernel rodata"), Some(RegionVariant::KernelRodata));
    assert_eq!(detect_iomem_variant("Kernel data"), Some(RegionVariant::KernelData));
    assert_eq!(detect_iomem_variant("Kernel bss"), Some(RegionVariant::KernelBss));
    assert_eq!(detect_iomem_variant("System RAM"), Some(RegionVariant::SystemRam));
    assert_eq!(detect_iomem_variant("PCI Bus 0000:00"), None);
    assert_eq!(detect_iomem_variant("system ram"), None);
}

#[test]
fn iomem_line_gives_region() {
    let r = parse_iomem_line("00100000-3fffffff : System RAM").unwrap();
    assert_eq!((r.start, r.end, r.size), (0x100000, 0x3fffffff, 0x3ff00000));
    assert_eq!(r.name, "System RAM");
    assert_eq!(r.variant, RegionVariant::SystemRam);
}

#[test]
fn iomem_line_rejected() {
    assert!(parse_iomem_line("00000000-00000fff : Reserved").is_none());
    assert!(parse_iomem_line("no colon here").is_none());
    assert!(parse_iomem_line("0-1-2 : System RAM").is_none());
    assert!(parse_iomem_line("zz-ff : System RAM").is_none());
}

#[test]
fn iomem_counts_ram_and_kernel() {
    let mut t = MemoryTree::new();
    assert!(parse_iomem(&mut t, IOMEM).is_ok());
    assert_eq!(t.ram_size, 0x9f000 + 0x3ff00000);
    assert_eq!(t.kernel_size, 0x1000000 + 0x800000 + 0x400000 + 0x200000);
    assert_eq!(t.roots.len(), 2);
    assert_eq!(t.roots[1].children.len(), 4);
    assert_eq!(t.roots[1].used, 0x1000000 + 0x800000 + 0x400000 + 0x200000);
    assert_eq!(t.roots[0].used, 0);
    assert_eq!(t.roots[1].children[0].variant, RegionVariant::KernelCode);
    assert_eq!(t.roots[1].children[3].name, "Kernel bss");
}

const ZONEINFO: &str = "Node 0, zone      DMA
  per-node stats
      nr_inactive_anon 100
  pages free     3840
        min      5
        low      8
  spanned  4095
  present  3998
  start_pfn:           1
Node 0, zone   Normal
  pages free     100
        nr_free_pages 100
  spanned  1000
  start_pfn:           4096
Node 0, zone  Movable
  spanned 10
  start_pfn: 0
";

#[test]
fn zoneinfo_values_and_variants() {
    assert_eq!(parse_value_after_colon("spanned  4095"), Some(4095));
    assert_eq!(parse_value_after_colon("start_pfn:           1"), Some(1));
    assert_eq!(parse_value_after_colon("pages free     3840"), None);
    assert_eq!(parse_value_after_colon("alone"), None);
    assert_eq!(detect_zoneinfo_variant("DMA"), Some(RegionVariant::ZoneDMA));
    assert_eq!(detect_zoneinfo_variant("DMA32"), Some(RegionVariant::ZoneDMA32));
    assert_eq!(detect_zoneinfo_variant("Normal"), Some(RegionVariant::ZoneNormal));
    assert_eq!(detect_zoneinfo_variant("Movable"), None);
}

#[test]
fn zoneinfo_zones_become_roots() {
    let mut t = MemoryTree::new();
    assert!(parse_zoneinfo(&mut t, ZONEINFO).is_ok());
    assert_eq!(t.roots.len(), 2);
    let dma = &t.roots[0];
    assert_eq!(dma.name, "DMA");
    assert_eq!(dma.variant, RegionVariant::ZoneDMA);
    assert_eq!((dma.start, dma.end), (0x1000, 0xffffff));
    assert_eq!(dma.size, 4095 * 4096);
    assert_eq!(dma.used, 0);
    let normal = &t.roots[1];
    assert_eq!(normal.name, "Normal");
    assert_eq!((normal.start, normal.end), (0x1000000, 0x13e7fff));
    assert_eq!(normal.size, 1000 * 4096);
    assert_eq!(normal.used, 0);
}

#[test]
fn zones_then_ram_nest() {
    let mut t = MemoryTree::new();
    parse_zoneinfo(&mut t, ZONEINFO).unwrap();
    parse_iomem(&mut t, "00001000-0009ffff : System RAM\n").unwrap();
    assert_eq!(t.roots.len(), 2);
    assert_eq!(t.roots[0].children[0].name, "System RAM");
    assert_eq!(t.ram_size, 0x9f000);
    assert_eq!(t.roots[0].used, 0x9f000);
    assert_eq!(t.roots[1].used, 0);
}

#[test]
fn meminfo_values_in_bytes() {
    let m = MemInfo::parse(
        "MemTotal:       16000000 kB\nMemFree:  100 kB\n\nCached: 5 kB\nBogus\nHugepagesize: 2048 kB\nSwapTotal: x kB\nDirectMap1G: 3 kB\n",
    )
    .unwrap();
    assert_eq!(m.mem_total, 16000000 * 1024);
    assert_eq!(m.mem_free, 100 * 1024);
    assert_eq!(m.cached, 5 * 1024);
    assert_eq!(m.hugepagesize, 2048 * 1024);
    assert_eq!(m.swap_total, 0);
    assert_eq!(m.direct_map_1g, 3 * 1024);
    assert_eq!(m.mem_available, 0);
}

#[test]
fn meminfo_last_value_wins_and_default_is_zero() {
    let m = MemInfo::parse("Buffers: 1 kB\nBuffers: 2 kB\n").unwrap();
    assert_eq!(m.buffers, 2048);
    let d = MemInfo::default();
    assert_eq!(d.buffers, 0);
    assert_eq!(d.mem_total, 0);
}

const MODULES: &str = "nvidia 1000 2 - Live 0xffffffffc0000000
short 1 2
snd 200 0 - Live 0xffffffffc1000000 (O)

bad 5 0 - Live 0xzz
";

#[test]
fn modules_read_and_sorted() {
    assert!(KernelModules::readable(MODULES));
    let mut k = KernelModules::default();
    assert!(k.parse(MODULES).is_ok());
    assert_eq!(k.used, 1200);
    assert_eq!(k.roots.len(), 2);
    assert_eq!(k.roots[0].name, "nvidia");
    assert_eq!((k.roots[0].start, k.roots[0].end), (0xffffffffc0000000, 0xffffffffc0000000 + 999));
    assert_eq!(k.roots[0].size, 1000);
    assert_eq!(k.roots[0].variant, RegionVariant::KernelModule);
    k.parse("tiny 5000 0 - Live 0x1000\n").unwrap();
    k.sort_by_size();
    let names: Vec<&str> = k.roots.iter().map(|r| r.name.as_str()).collect();
    assert_eq!(names, vec!["tiny", "nvidia", "snd"]);
    let rows = k.rows();
    assert_eq!(rows.len(), 3);
    assert!(rows.iter().all(|r| r.depth == 0));
    assert_eq!(rows[1].name, "nvidia");
}

#[test]
fn modules_size_not_a_number_counts_zero() {
    let mut k = KernelModules::default();
    k.parse("m x 0 - Live 0x2000\n").unwrap();
    assert_eq!(k.used, 0);
    assert_eq!(k.roots[0].size, 0);
    assert_eq!(k.roots[0].end, 0x1fff);
}

#[test]
fn modules_line_without_address_is_unreadable() {
    assert!(!KernelModules::readable("a 1 2 3\n"));
    assert!(!KernelModules::readable("a 1 2 3 4\n"));
    assert!(!KernelModules::readable("a 1 2 3 4 5\n"));
    assert!(KernelModules::readable("a 1 2 3 4 0x5\n"));
    assert!(KernelModules::readable(""));
}

#[test]
fn summary_splits_memory() {
    let mut m = MemInfo::default();
    m.mem_total = 1000;
    m.mem_available = 600;
    m.mem_free = 200;
    m.buffers = 50;
    m.k_reclaimable = 30;
    m.cached = 250;
    m.s_unreclaim = 10;
    m.kernel_stack = 5;
    m.page_tables = 4;
    m.sec_page_tables = 1;
    m.vmalloc_used = 20;
    let s = summarize(1200, 100, &m, 200, 50, 30, 40, 7);
    assert_eq!(s.system_ram_reserved, 100);
    assert_eq!(s.not_free, 400);
    assert_eq!(s.used, 400);
    assert_eq!(s.kernel, 20);
    // other used: 400 - 200 - 50 - 30 - 20 - 20 = 80; unused cache 250 - 80 = 170
    // not free left: 400 - 50 - 30 = 320 >= 170, so nothing moves
    assert_eq!(s.other_used, 80);
    assert_eq!(s.unused_cache, 170);
    assert_eq!(s.other_not_free, 150);
    assert_eq!(s.user, 280);
    assert_eq!(s.total_used, 287);
    assert_eq!(s.other_private, 160);
    assert_eq!(s.unused_cache + s.other_used, m.cached);
}

#[test]
fn summary_moves_excess_cache_to_used() {
    let mut m = MemInfo::default();
    m.mem_total = 1000;
    m.mem_available = 300;
    m.mem_free = 250;
    m.cached = 600;
    let s = summarize(1000, 0, &m, 100, 0, 0, 0, 0);
    // used 700, other used 600, unused cache 0... cached 600 - 600 = 0
    assert_eq!(s.other_used, 600);
    assert_eq!(s.unused_cache, 0);
    let mut m2 = m;
    m2.cached = 700;
    let s2 = summarize(1000, 0, &m2, 100, 0, 0, 0, 0);
    // unused cache 100 > not free 50: 50 moves to the active cache
    assert_eq!(s2.unused_cache, 50);
    assert_eq!(s2.other_used, 650);
    assert_eq!(s2.other_not_free, 0);
}

#[test]
fn modules_used_is_sum_of_sizes() {
    let mut k = KernelModules::default();
    k.parse(MODULES).unwrap();
    k.parse("extra 4096 1 - Live 0xffffffffc2000000\n").unwrap();
    let sum: u64 = k.roots.iter().map(|r| r.size).sum();
    assert_eq!(sum, k.used);
    assert_eq!(k.used, 1200 + 4096);
}

#[test]
fn modules_past_address_space_end_do_not_add_up() {
    let mut k = KernelModules::default();
    k.parse("wrap 512 0 - Live 0xffffffffffffff00\n").unwrap();
    assert_eq!(k.used, 512);
    assert_eq!(k.roots[0].end, 0xff);
    assert_eq!(k.roots[0].size, 0);
}

#[test]
fn meminfo_order_of_different_keys_does_not_matter() {
    let a = MemInfo::parse("MemTotal: 10 kB\nMemFree: 3 kB\nNoSuchKey: 99 kB\n").unwrap();
    let b = MemInfo::parse("MemFree: 3 kB\nMemTotal: 10 kB\n").unwrap();
    assert_eq!((a.mem_total, a.mem_free), (b.mem_total, b.mem_free));
    assert_eq!(a.mem_total, 10240);
    assert_eq!(a.mem_free, 3072);
}

#[test]
fn iomem_line_problems() {
    assert_eq!(iomem_line_problem("00100000-3fffffff : System RAM"), None);
    assert_eq!(iomem_line_problem("  00000000-00000fff : Reserved"), None);
    assert_eq!(iomem_line_problem("   "), None);
    assert_eq!(
        iomem_line_problem("no colon here"),
        Some("Cannot split /proc/iomem line".to_string())
    );
    assert_eq!(
        iomem_line_problem("0-1-2 : System RAM"),
        Some("Cannot split /proc/iomem address range".to_string())
    );
    assert_eq!(
        iomem_line_problem("0100 : System RAM"),
        Some("Cannot split /proc/iomem address range".to_string())
    );
}

#[test]
fn modules_line_problems() {
    assert_eq!(KernelModules::line_problem("nvidia 1000 2 - Live 0xffffffffc0000000"), None);
    assert_eq!(KernelModules::line_problem(""), None);
    assert_eq!(
        KernelModules::line_problem("short 1 2"),
        Some("Cannot split /proc/modules line".to_string())
    );
    assert_eq!(
        KernelModules::line_problem("bad 5 0 - Live 0xzz"),
        Some("Cannot parse address 0xzz in /proc/modules line".to_string())
    );
}

#[test]
fn meminfo_text_laws() {
    let ab = MemInfo::parse("MemTotal: 10 kB\nMemFree: 3 kB").unwrap();
    let ba = MemInfo::parse("MemFree: 3 kB\nMemTotal: 10 kB").unwrap();
    assert_eq!((ab.mem_total, ab.mem_free), (ba.mem_total, ba.mem_free));
    let s = MemInfo::parse("Cached: 7 kB\r").unwrap();
    let su = MemInfo::parse("Cached: 7 kB\r\nNoSuchKey: 1 kB").unwrap();
    assert_eq!(s.cached, 7168);
    assert_eq!(su.cached, 7168);
}
