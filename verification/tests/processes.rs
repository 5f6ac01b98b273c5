use lib::proc::{Proc, ProcTree};

const SMAPS: &str = "00400000-00452000 r-xp 00000000 08:02 173521 /usr/bin/dbus-daemon
Size:                328 kB
Shared_Clean:        100 kB
Shared_Dirty:          0 kB
Private_Clean:        12 kB
Private_Dirty:         0 kB
7f0000000000-7f0000021000 rw-p 00000000 00:00 0 [heap]
Private_Clean:         4 kB
Private_Dirty:         8 kB
Pss:                  10 kB
7f0800000000-7f0800021000 rw-p 00000000 00:00 0 
Private_Dirty:      1000 kB
Pss:                1000 kB
7f1000000000-7f1000100000 r-xp 00000000 08:02 1234 /usr/lib/libc.so.6
Shared_Clean:        50 kB
Shared_Dirty:         2 kB
";

const STATUS: &str = "Name:\tdbus-daemon\nState:\tS (sleeping)\nPPid:\t1\nUid:\t0\n";

fn proc(pid: u32, ppid: u32, private_size: u64, pss: u64, name: &str) -> Proc {
    let mut p = Proc::new(pid, name.to_string());
    p.ppid = ppid;
    p.private_size = private_size;
    p.pss = pss;
    p
}

#[test]
fn proc_new_is_empty() {
    let p = Proc::new(42, "init".to_string());
    assert_eq!(p.pid, 42);
    assert_eq!(p.ppid, 0);
    assert_eq!((p.private_size, p.total_private, p.pss, p.total_pss), (0, 0, 0, 0));
    assert_eq!(p.name, "init");
    assert!(p.children.is_empty());
}

#[test]
fn smaps_and_status_values() {
    assert_eq!(ProcTree::parse_smaps_value("Pss:   10 kB"), Some(10240));
    assert_eq!(ProcTree::parse_smaps_value("Pss:"), None);
    assert_eq!(ProcTree::parse_smaps_value("Pss: ten kB"), None);
    assert_eq!(ProcTree::parse_meminfo_value("PPid:\t7"), Some(7));
    assert_eq!(ProcTree::parse_meminfo_value("PPid:"), None);
}

#[test]
fn process_name_sources() {
    assert_eq!(ProcTree::get_process_name(42, Some("bash\n"), Some("/bin/bash\0")), "bash");
    assert_eq!(ProcTree::get_process_name(42, None, Some("/usr/bin/foo\0--x\0")), "/usr/bin/foo");
    assert_eq!(ProcTree::get_process_name(42, None, Some("")), "[42]");
    assert_eq!(ProcTree::get_process_name(42, None, Some("\0x")), "[42]");
    assert_eq!(ProcTree::get_process_name(7, None, None), "[7]");
}

#[test]
fn parse_process_counts_mappings() {
    let mut t = ProcTree::new();
    let p = t.parse_process(100, "dbus-daemon".to_string(), Some(SMAPS), Some(STATUS)).unwrap();
    assert_eq!(p.pid, 100);
    assert_eq!(p.ppid, 1);
    assert_eq!(p.private_size, (12 + 1000) * 1024);
    assert_eq!(p.pss, (10 + 1000) * 1024);
    assert_eq!(p.name, "dbus-daemon");
    assert_eq!(t.total_exes, 100 * 1024);
    assert_eq!(t.total_libs, 52 * 1024);
    assert_eq!(t.exes.len(), 1);
    assert_eq!(t.exes[0].name, "/usr/bin/dbus-daemon");
    assert_eq!(t.exes[0].total_size, 100 * 1024);
    assert_eq!(t.libs.len(), 1);
    assert_eq!(t.libs[0].name, "/usr/lib/libc.so.6");
    assert_eq!(t.addresses.len(), 4);
    assert!(t.addresses.contains(&0x400000));
    assert!(t.addresses.contains(&0x7f0000000000));
    assert!(t.addresses.contains(&0x7f0800000000));
    assert!(t.addresses.contains(&0x7f1000000000));
}

#[test]
fn anonymous_mapping_without_path_counts() {
    let mut t = ProcTree::new();
    let smaps = "7f00-7f21 rw-p 0 00:00 0\nPrivate_Dirty: 8 kB\n";
    let name = ProcTree::get_process_name(7, Some("a\n"), None);
    let p = t.parse_process(7, name, Some(smaps), Some("")).unwrap();
    assert_eq!(p.name, "a");
    assert_eq!(p.ppid, 0);
    assert_eq!(p.private_size, 8192);
    assert_eq!(p.pss, 0);
    assert_eq!(t.total_exes, 0);
    assert_eq!(t.total_libs, 0);
}

#[test]
fn same_smaps_twice_counts_once() {
    let mut t = ProcTree::new();
    let p = t.parse_process(100, "a".to_string(), Some(SMAPS), None).unwrap();
    let exes = t.total_exes;
    let libs = t.total_libs;
    let q = t.parse_process(100, "a".to_string(), Some(SMAPS), None).unwrap();
    assert_eq!(p.private_size, 1012 * 1024);
    assert_eq!((q.private_size, q.pss), (0, 0));
    assert_eq!((t.total_exes, t.total_libs), (exes, libs));
    assert_eq!(t.exes[0].total_size, 100 * 1024);
}

#[test]
fn parse_process_adds_up_shared_per_file() {
    let mut t = ProcTree::new();
    t.parse_process(100, "a".to_string(), Some(SMAPS), None).unwrap();
    let other = "00500000-00552000 r-xp 00000000 08:02 173521 /usr/bin/dbus-daemon\nShared_Clean: 100 kB\n7f2000000000-7f2000100000 r-xp 0 08:02 1234 /usr/lib/libc.so.6\nShared_Clean: 52 kB\n";
    let q = t.parse_process(101, "b".to_string(), Some(other), None).unwrap();
    assert_eq!(q.ppid, 0);
    assert_eq!(t.exes.len(), 1);
    assert_eq!(t.exes[0].total_size, 200 * 1024);
    assert_eq!(t.total_exes, 200 * 1024);
    assert_eq!(t.libs[0].total_size, 104 * 1024);
}

#[test]
fn parse_process_without_files() {
    let mut t = ProcTree::new();
    let p = t.parse_process(5, "k".to_string(), None, None).unwrap();
    assert_eq!((p.ppid, p.private_size, p.pss), (0, 0, 0));
    assert_eq!(t.total_exes, 0);
}

#[test]
fn parse_process_short_header_fails() {
    let mut t = ProcTree::new();
    let smaps = "00400000-00452000 r-xp 00000000 08:02 1 /bin/x\nShared_Clean: 4 kB\n00500000-00600000 r-xp 0 08:02\n";
    let r = t.parse_process(9, "x".to_string(), Some(smaps), Some(STATUS));
    assert_eq!(r.unwrap_err(), "Expected 5 or more parts");
    assert_eq!(t.total_exes, 4096);
}

fn sample() -> Vec<Proc> {
    vec![
        proc(3, 1, 70, 7, "c"),
        proc(1, 0, 100, 10, "a"),
        proc(9, 77, 1000, 1, "orphan"),
        proc(4, 3, 5, 1, "d"),
        proc(2, 1, 50, 5, "b"),
    ]
}

#[test]
fn tree_parse_builds_and_totals() {
    let mut t = ProcTree::new();
    t.parse(sample(), 4);
    assert_eq!(t.roots.len(), 1);
    let a = &t.roots[0];
    assert_eq!(a.pid, 1);
    assert_eq!(a.children.len(), 2);
    assert_eq!(a.children[0].pid, 3);
    assert_eq!(a.children[1].pid, 2);
    assert_eq!(a.children[0].children[0].pid, 4);
    assert_eq!(a.children[0].total_private, 75);
    assert_eq!(a.total_private, 225);
    assert_eq!(a.total_pss, 23);
    assert_eq!(t.total_private, 225);
    assert_eq!(t.total_pss, 23);
    let own = t.own_proc.as_ref().unwrap();
    assert_eq!(own.pid, 4);
    assert_eq!(own.total_private, 5);
    assert_eq!(t.own_private(), 5);
}

#[test]
fn tree_parse_own_root_not_found() {
    let mut t = ProcTree::new();
    t.parse(sample(), 1);
    assert!(t.own_proc.is_none());
    assert_eq!(t.own_private(), 0);
}

#[test]
fn tree_sort_and_rows() {
    let mut t = ProcTree::new();
    t.parse(sample(), 4);
    assert_eq!(t.roots.len(), 1);
    t.sort_by_size();
    let rows = t.rows();
    let seen: Vec<(usize, u32)> = rows.iter().map(|r| (r.depth, r.pid)).collect();
    assert_eq!(seen, vec![(0, 1), (1, 3), (2, 4), (1, 2)]);
    assert_eq!(rows[1].total_private, 75);
    assert_eq!(rows[1].name, "c");
}

#[test]
fn update_totals_twice_changes_nothing() {
    let mut t = ProcTree::new();
    t.parse(sample(), 4);
    let mut root = t.roots[0].duplicate();
    let own = root.update_totals(4);
    assert_eq!(own.unwrap().pid, 4);
    assert_eq!(root.total_private, 225);
    assert_eq!(root.children[0].total_pss, 8);
}

#[test]
fn proc_sort_by_size_largest_first() {
    let mut root = proc(1, 0, 0, 0, "root");
    root.children.push(proc(2, 1, 5, 0, "small"));
    root.children.push(proc(3, 1, 50, 0, "large"));
    root.children.push(proc(4, 1, 5, 0, "small2"));
    root.update_totals(0);
    root.sort_by_size();
    let order: Vec<u32> = root.children.iter().map(|c| c.pid).collect();
    assert_eq!(order, vec![3, 2, 4]);
    assert_eq!(root.total_private, 60);
}

#[test]
fn tree_sorts_exes_and_libs() {
    let mut t = ProcTree::new();
    let small = "00600000-00652000 r-xp 00000000 08:02 1 /bin/small\nShared_Clean: 1 kB\n";
    let big = "00700000-00752000 r-xp 00000000 08:02 1 /bin/big\nShared_Clean: 9 kB\n";
    t.parse_process(1, "s".to_string(), Some(small), None).unwrap();
    t.parse_process(2, "b".to_string(), Some(big), None).unwrap();
    t.parse_process(3, "x".to_string(), Some(SMAPS), None).unwrap();
    t.sort_by_size();
    let order: Vec<&str> = t.sorted_exes.iter().map(|e| e.name.as_str()).collect();
    assert_eq!(order, vec!["/usr/bin/dbus-daemon", "/bin/big", "/bin/small"]);
    assert_eq!(t.sorted_libs.len(), 1);
    assert_eq!(t.exes[0].name, "/bin/small");
}

#[test]
fn tree_parse_finds_the_deepest_chain() {
    let mut t = ProcTree::new();
    let chain = vec![
        proc(5, 4, 1, 0, "e"),
        proc(4, 3, 1, 0, "d"),
        proc(3, 2, 1, 0, "c"),
        proc(2, 1, 1, 0, "b"),
        proc(1, 0, 1, 0, "a"),
        proc(8, 9, 1, 0, "loop-a"),
        proc(9, 8, 1, 0, "loop-b"),
    ];
    t.parse(chain, 0);
    let rows = t.rows();
    let seen: Vec<(usize, u32)> = rows.iter().map(|r| (r.depth, r.pid)).collect();
    assert_eq!(seen, vec![(0, 1), (1, 2), (2, 3), (3, 4), (4, 5)]);
    assert_eq!(t.total_private, 5);
}

#[test]
fn shared_totals_match_entries() {
    let mut t = ProcTree::new();
    let other = "00500000-00552000 r-xp 00000000 08:02 1 /bin/other\nShared_Dirty: 3 kB\n7f00-7f10 r-xp 0 08:02 2 /lib/libm.so\nShared_Clean: 1 kB\n";
    t.parse_process(1, "a".to_string(), Some(SMAPS), None).unwrap();
    t.parse_process(2, "b".to_string(), Some(other), None).unwrap();
    t.parse_process(3, "c".to_string(), Some(SMAPS), None).unwrap();
    let exes: u64 = t.exes.iter().map(|e| e.total_size).sum();
    let libs: u64 = t.libs.iter().map(|e| e.total_size).sum();
    assert_eq!(t.exes.len(), 2);
    assert_eq!(t.libs.len(), 2);
    assert_eq!(exes, t.total_exes);
    assert_eq!(libs, t.total_libs);
    assert_eq!(t.total_exes, (100 + 3) * 1024);
    assert_eq!(t.total_libs, (52 + 1) * 1024);
}
