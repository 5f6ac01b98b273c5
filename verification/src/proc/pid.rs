//! `/proc/<pid>/{smaps,status}`: processes, their private memory, and the
//! executables and libraries that they map.
use std::collections::HashSet;

use vstd::arithmetic::div_mod::{lemma_add_mod_noop, lemma_mod_sub_multiples_vanish, lemma_small_mod};
use vstd::prelude::*;
use vstd::string::StringExecFns;
use vstd::set_lib::{lemma_int_range, lemma_len_subset, set_int_range};
use vstd::wrapping::u64_specs;

use crate::sort::{
    lemma_stable_sort_elements, lemma_stable_sort_map, lemma_stable_sort_permutes,
    lemma_stable_sort_sorted, sort_by_key, stable_sort, SortKey, SpecKey,
};
use crate::tree::region::lemma_wrapping_add_mod;
use crate::text::{
    append_range, contains_lit, decimal, is_ws, lemma_decimal, lemma_parse_dec_decimal,
    lemma_words_first, lemma_words_two, no_ws, find_char, first_index, has_char, has_infix, has_prefix,
    join_space, lemma_first_index_bounds, line_ranges, lines, parse_dec, parse_hex,
    parse_uint_range, push_decimal, starts_with_lit, string_from, to_chars, trim, trim_range,
    word_ranges, words,
};

verus! {

/// A process, with the processes it started.
#[derive(Debug)]
pub struct Proc {
    pub pid: u32,
    pub ppid: u32,
    /// Private_Clean + Private_Dirty of anon, [heap], [stack], etc
    pub private_size: u64,
    /// With children
    pub total_private: u64,
    pub pss: u64,
    /// With children
    pub total_pss: u64,
    pub name: String,
    pub children: Vec<Proc>,
}

/// The value of a `Proc`.
pub struct ProcView {
    pub pid: u32,
    pub ppid: u32,
    pub private_size: u64,
    pub total_private: u64,
    pub pss: u64,
    pub total_pss: u64,
    pub name: Seq<char>,
    pub children: Seq<ProcView>,
}

impl View for Proc {
    type V = ProcView;

    open spec fn view(&self) -> ProcView
        decreases self,
    {
        ProcView {
            pid: self.pid,
            ppid: self.ppid,
            private_size: self.private_size,
            total_private: self.total_private,
            pss: self.pss,
            total_pss: self.total_pss,
            name: self.name@,
            children: proc_views(self.children@),
        }
    }
}

/// The values of `ps`, in order.
pub open spec fn proc_views(ps: Seq<Proc>) -> Seq<ProcView>
    decreases ps,
{
    if ps.len() == 0 {
        Seq::empty()
    } else {
        proc_views(ps.drop_last()).push(ps.last().view())
    }
}

pub proof fn lemma_proc_views(ps: Seq<Proc>)
    ensures
        proc_views(ps).len() == ps.len(),
        forall|i: int| 0 <= i < ps.len() ==> #[trigger] proc_views(ps)[i] == ps[i]@,
    decreases ps.len(),
{
    if ps.len() > 0 {
        lemma_proc_views(ps.drop_last());
        assert(proc_views(ps) == proc_views(ps.drop_last()).push(ps.last()@));
        assert forall|i: int| 0 <= i < ps.len() implies #[trigger] proc_views(ps)[i] == ps[i]@ by {
            if i < ps.len() - 1 {
                assert(ps.drop_last()[i] == ps[i]);
            }
        }
    }
}

pub proof fn lemma_proc_views_map(ps: Seq<Proc>)
    ensures
        proc_views(ps) == ps.map_values(|p: Proc| p@),
{
    lemma_proc_views(ps);
    assert(proc_views(ps) =~= ps.map_values(|p: Proc| p@));
}

/// Shared memory of an executable: Shared_Clean + Shared_Dirty of `/**/*`
/// for each proc.
#[derive(Debug, Clone)]
pub struct Exe {
    pub total_size: u64,
    pub name: String,
}

/// Shared memory of a library: Shared_Clean + Shared_Dirty of `/**/*.so` for
/// each proc.
#[derive(Debug, Clone)]
pub struct Lib {
    pub total_size: u64,
    pub name: String,
}

/// The value of an `Exe` or a `Lib`: a mapped file and the bytes counted for
/// it.
pub struct SharedView {
    pub name: Seq<char>,
    pub total_size: u64,
}

impl View for Exe {
    type V = SharedView;

    open spec fn view(&self) -> SharedView {
        SharedView { name: self.name@, total_size: self.total_size }
    }
}

impl View for Lib {
    type V = SharedView;

    open spec fn view(&self) -> SharedView {
        SharedView { name: self.name@, total_size: self.total_size }
    }
}

/// The processes, in trees by parent, with the executables and libraries they
/// map.
///
/// `exes` and `libs` hold one entry per file name, in the order in which the
/// names were first met.
#[derive(Debug)]
pub struct ProcTree {
    pub total_private: u64,
    pub total_pss: u64,
    pub total_exes: u64,
    pub total_libs: u64,
    pub own_proc: Option<Proc>,
    pub roots: Vec<Proc>,
    pub sorted_exes: Vec<Exe>,
    pub sorted_libs: Vec<Lib>,
    pub exes: Vec<Exe>,
    pub libs: Vec<Lib>,
    /// Start addresses of the mappings counted, so that a mapping met again
    /// (in another process, or in the same file read twice) is not counted
    /// twice.
    pub addresses: HashSet<u64>,
}

/// The value of a `ProcTree`.
pub struct ProcTreeView {
    pub total_private: u64,
    pub total_pss: u64,
    pub total_exes: u64,
    pub total_libs: u64,
    pub own_proc: Option<ProcView>,
    pub roots: Seq<ProcView>,
    pub sorted_exes: Seq<SharedView>,
    pub sorted_libs: Seq<SharedView>,
    pub exes: Seq<SharedView>,
    pub libs: Seq<SharedView>,
    pub addresses: Set<u64>,
}

/// The value of an optional `Proc`.
pub open spec fn opt_proc_view(p: Option<Proc>) -> Option<ProcView> {
    match p {
        Some(q) => Some(q@),
        None => None,
    }
}

impl View for ProcTree {
    type V = ProcTreeView;

    open spec fn view(&self) -> ProcTreeView {
        ProcTreeView {
            total_private: self.total_private,
            total_pss: self.total_pss,
            total_exes: self.total_exes,
            total_libs: self.total_libs,
            own_proc: opt_proc_view(self.own_proc),
            roots: proc_views(self.roots@),
            sorted_exes: self.sorted_exes@.map_values(|e: Exe| e@),
            sorted_libs: self.sorted_libs@.map_values(|l: Lib| l@),
            exes: self.exes@.map_values(|e: Exe| e@),
            libs: self.libs@.map_values(|l: Lib| l@),
            addresses: self.addresses@,
        }
    }
}

/// Whether no two entries of `s` have the same name.
pub open spec fn names_unique(s: Seq<SharedView>) -> bool {
    forall|i: int, j: int| 0 <= i < j < s.len() ==> s[i].name != s[j].name
}

/// Index of the entry of `s` named `name`, or `s.len()`.
pub open spec fn name_index(s: Seq<SharedView>, name: Seq<char>) -> int
    decreases s.len(),
{
    if s.len() == 0 {
        0
    } else if s[0].name == name {
        0
    } else {
        1 + name_index(s.drop_first(), name)
    }
}

/// `s` with `size` more bytes counted for `name`: added to its entry, or a new
/// last entry; a sum past `u64::MAX` wraps.
pub open spec fn add_shared(s: Seq<SharedView>, name: Seq<char>, size: u64) -> Seq<SharedView> {
    let i = name_index(s, name);
    if 0 <= i < s.len() {
        s.update(i, SharedView { total_size: u64_specs::wrapping_add(s[i].total_size, size), ..s[i] })
    } else {
        s.push(SharedView { name, total_size: size })
    }
}

pub proof fn lemma_name_index(s: Seq<SharedView>, name: Seq<char>)
    ensures
        0 <= name_index(s, name) <= s.len(),
        name_index(s, name) < s.len() ==> s[name_index(s, name)].name == name,
        forall|k: int| 0 <= k < name_index(s, name) ==> #[trigger] s[k].name != name,
    decreases s.len(),
{
    if s.len() > 0 && s[0].name != name {
        lemma_name_index(s.drop_first(), name);
        assert forall|k: int| 0 <= k < name_index(s, name) implies #[trigger] s[k].name != name by {
            if k > 0 {
                assert(s[k] == s.drop_first()[k - 1]);
            }
        }
    }
}

/// Adding keeps names unique.
pub proof fn lemma_add_shared_unique(s: Seq<SharedView>, name: Seq<char>, size: u64)
    requires
        names_unique(s),
    ensures
        names_unique(add_shared(s, name, size)),
{
    lemma_name_index(s, name);
}

/// Sum of the sizes counted in `s`.
pub open spec fn shared_sum(s: Seq<SharedView>) -> int
    decreases s.len(),
{
    if s.len() == 0 {
        0
    } else {
        shared_sum(s.drop_last()) + s.last().total_size
    }
}

/// Whether `s` has one entry per name and `total` is the sum of its sizes,
/// modulo `2^64`: what a map from names to sizes, kept beside its total,
/// holds.
pub open spec fn shared_consistent(total: u64, s: Seq<SharedView>) -> bool {
    &&& names_unique(s)
    &&& total == shared_sum(s) % 0x1_0000_0000_0000_0000int
}

proof fn lemma_shared_sum_update(s: Seq<SharedView>, i: int, x: SharedView)
    requires
        0 <= i < s.len(),
    ensures
        shared_sum(s.update(i, x)) == shared_sum(s) - s[i].total_size + x.total_size,
    decreases s.len(),
{
    let u = s.update(i, x);
    if i < s.len() - 1 {
        lemma_shared_sum_update(s.drop_last(), i, x);
        assert(u.drop_last() == s.drop_last().update(i, x));
    } else {
        assert(u.drop_last() == s.drop_last());
    }
}

/// Counting `size` more bytes for `name`, in the entries and in their total,
/// keeps them consistent.
proof fn lemma_add_shared_consistent(total: u64, s: Seq<SharedView>, name: Seq<char>, size: u64)
    requires
        shared_consistent(total, s),
    ensures
        shared_consistent(u64_specs::wrapping_add(total, size), add_shared(s, name, size)),
{
    let m = 0x1_0000_0000_0000_0000int;
    lemma_add_shared_unique(s, name, size);
    lemma_name_index(s, name);
    let i = name_index(s, name);
    let sum = shared_sum(s);
    lemma_wrapping_add_mod(total, size);
    lemma_small_mod(size as nat, m as nat);
    lemma_add_mod_noop(sum, size as int, m);
    if 0 <= i < s.len() {
        let x = SharedView { total_size: u64_specs::wrapping_add(s[i].total_size, size), ..s[i] };
        lemma_shared_sum_update(s, i, x);
        if s[i].total_size + size > u64::MAX {
            lemma_mod_sub_multiples_vanish(sum + size, m);
        }
    } else {
        assert(s.push(SharedView { name, total_size: size }).drop_last() == s);
    }
}

/// Whether the shared entries of `st` are consistent with their totals.
pub open spec fn state_consistent(st: SmapsState) -> bool {
    &&& shared_consistent(st.total_exes, st.exes)
    &&& shared_consistent(st.total_libs, st.libs)
}

proof fn lemma_flush_consistent(st: SmapsState)
    requires
        state_consistent(st),
    ensures
        state_consistent(flush_mapping(st)),
{
    let shared = u64_specs::wrapping_add(st.shared_clean, st.shared_dirty);
    lemma_add_shared_consistent(st.total_exes, st.exes, st.region, shared);
    lemma_add_shared_consistent(st.total_libs, st.libs, st.region, shared);
}

proof fn lemma_fold_consistent(st: SmapsState, ls: Seq<Seq<char>>)
    requires
        state_consistent(st),
    ensures
        state_consistent(smaps_fold(st, ls)),
    decreases ls.len(),
{
    if ls.len() > 0 {
        let prev = smaps_fold(st, ls.drop_last());
        lemma_fold_consistent(st, ls.drop_last());
        lemma_flush_consistent(prev);
    }
}

/// Reading a process's smaps (`ProcTree::parse_process`) keeps one entry per
/// file name among the executables and among the libraries, and keeps
/// `total_exes` and `total_libs` equal to the sums of their entries, modulo
/// `2^64`; a new tree starts so.
pub proof fn reading_keeps_shared_totals(t: ProcTreeView, content: Option<Seq<char>>)
    requires
        shared_consistent(t.total_exes, t.exes),
        shared_consistent(t.total_libs, t.libs),
    ensures
        shared_consistent(smaps_read(t, content).total_exes, smaps_read(t, content).exes),
        shared_consistent(smaps_read(t, content).total_libs, smaps_read(t, content).libs),
{
    if let Some(c) = content {
        let st = smaps_fold(smaps_start(t), lines(c));
        lemma_fold_consistent(smaps_start(t), lines(c));
        lemma_flush_consistent(st);
    }
}

/// Where a reading of a `/proc/<pid>/smaps` stands: the mapping being read,
/// its counters and kind, the address it starts at, the process's private
/// and proportional sizes, the shared totals of the tree, and the start
/// addresses of the mappings counted so far.
pub struct SmapsState {
    pub region: Seq<char>,
    pub private_clean: u64,
    pub private_dirty: u64,
    pub pss: u64,
    pub shared_clean: u64,
    pub shared_dirty: u64,
    pub is_anon: bool,
    pub is_exe: bool,
    pub is_lib: bool,
    pub start_addr: u64,
    pub private_size: u64,
    pub proc_pss: u64,
    pub total_exes: u64,
    pub total_libs: u64,
    pub exes: Seq<SharedView>,
    pub libs: Seq<SharedView>,
    pub addresses: Set<u64>,
    pub failed: bool,
}

/// `st` once the mapping being read is counted: not at all when its start
/// address was counted already (or before any mapping, when it is of no
/// kind); as private memory of the process when anonymous; else its shared
/// bytes for its file, as an executable or as a library. A mapping counted
/// adds its start address to `addresses`. Sums past `u64::MAX` wrap.
pub open spec fn flush_mapping(st: SmapsState) -> SmapsState {
    if st.addresses.contains(st.start_addr) {
        st
    } else if st.is_anon {
        SmapsState {
            addresses: st.addresses.insert(st.start_addr),
            private_size: u64_specs::wrapping_add(
                st.private_size,
                u64_specs::wrapping_add(st.private_clean, st.private_dirty),
            ),
            proc_pss: u64_specs::wrapping_add(st.proc_pss, st.pss),
            ..st
        }
    } else if st.is_exe {
        let shared = u64_specs::wrapping_add(st.shared_clean, st.shared_dirty);
        SmapsState {
            addresses: st.addresses.insert(st.start_addr),
            total_exes: u64_specs::wrapping_add(st.total_exes, shared),
            exes: add_shared(st.exes, st.region, shared),
            ..st
        }
    } else if st.is_lib {
        let shared = u64_specs::wrapping_add(st.shared_clean, st.shared_dirty);
        SmapsState {
            addresses: st.addresses.insert(st.start_addr),
            total_libs: u64_specs::wrapping_add(st.total_libs, shared),
            libs: add_shared(st.libs, st.region, shared),
            ..st
        }
    } else {
        st
    }
}

/// Whether a trimmed smaps line heads a mapping.
pub open spec fn is_mapping_header(tr: Seq<char>) -> bool {
    has_infix(tr, " r"@) && has_infix(tr, "p "@) && has_infix(tr, "-"@)
}

/// The start address that a header's first word `a-b` gives in hexadecimal,
/// or `old` when it does not give one.
pub open spec fn header_start(w: Seq<char>, old: u64) -> u64 {
    let d = first_index(w, '-');
    if d < w.len() && !has_char(w.skip(d + 1), '-') {
        match parse_hex(w.take(d)) {
            Some(a) => a,
            None => old,
        }
    } else {
        old
    }
}

/// `parse_smaps_value`: the second word of `line` as a number of kB, in
/// bytes; a product past `u64::MAX` wraps.
pub open spec fn smaps_value(line: Seq<char>) -> Option<u64> {
    let ws = words(line);
    if ws.len() >= 2 {
        match parse_dec(ws[1]) {
            Some(v) => Some(u64_specs::wrapping_mul(v, 1024)),
            None => None,
        }
    } else {
        None
    }
}

/// `parse_meminfo_value`: the second word of `line` as a number.
pub open spec fn status_value(line: Seq<char>) -> Option<u64> {
    let ws = words(line);
    if ws.len() >= 2 {
        parse_dec(ws[1])
    } else {
        None
    }
}

/// `st` once one line of a `/proc/<pid>/smaps` is read. A header line counts
/// the previous mapping and starts a new one: its file is the words from the
/// sixth on; it is anonymous when that is empty or starts with `[`, an
/// executable when it starts with `/` and holds no `.so`, a library when it
/// holds `.so`. A header of fewer than five words fails the reading. The
/// other lines set the counters of the mapping.
pub open spec fn smaps_step(st: SmapsState, line: Seq<char>) -> SmapsState {
    let tr = trim(line);
    if st.failed {
        st
    } else if is_mapping_header(tr) {
        let f = flush_mapping(st);
        let ws = words(tr);
        if ws.len() < 5 {
            SmapsState { failed: true, ..f }
        } else {
            let path = join_space(ws.skip(5));
            SmapsState {
                region: path,
                private_clean: 0,
                private_dirty: 0,
                pss: 0,
                shared_clean: 0,
                shared_dirty: 0,
                is_anon: path.len() == 0 || path[0] == '[',
                is_exe: path.len() > 0 && path[0] == '/' && !has_infix(path, ".so"@),
                is_lib: has_infix(path, ".so"@),
                start_addr: header_start(ws[0], f.start_addr),
                ..f
            }
        }
    } else if has_prefix(tr, "Private_Clean:"@) {
        match smaps_value(tr) {
            Some(v) => SmapsState { private_clean: v, ..st },
            None => st,
        }
    } else if has_prefix(tr, "Private_Dirty:"@) {
        match smaps_value(tr) {
            Some(v) => SmapsState { private_dirty: v, ..st },
            None => st,
        }
    } else if has_prefix(tr, "Pss:"@) {
        match smaps_value(tr) {
            Some(v) => SmapsState { pss: v, ..st },
            None => st,
        }
    } else if has_prefix(tr, "Shared_Clean:"@) {
        match smaps_value(tr) {
            Some(v) => SmapsState { shared_clean: v, ..st },
            None => st,
        }
    } else if has_prefix(tr, "Shared_Dirty:"@) {
        match smaps_value(tr) {
            Some(v) => SmapsState { shared_dirty: v, ..st },
            None => st,
        }
    } else {
        st
    }
}

/// `st` once the lines `ls` are read in order.
pub open spec fn smaps_fold(st: SmapsState, ls: Seq<Seq<char>>) -> SmapsState
    decreases ls.len(),
{
    if ls.len() == 0 {
        st
    } else {
        smaps_step(smaps_fold(st, ls.drop_last()), ls.last())
    }
}

/// The state before an smaps file of the process is read into tree `t`.
pub open spec fn smaps_start(t: ProcTreeView) -> SmapsState {
    SmapsState {
        region: seq![],
        private_clean: 0,
        private_dirty: 0,
        pss: 0,
        shared_clean: 0,
        shared_dirty: 0,
        is_anon: false,
        is_exe: false,
        is_lib: false,
        start_addr: 0,
        private_size: 0,
        proc_pss: 0,
        total_exes: t.total_exes,
        total_libs: t.total_libs,
        exes: t.exes,
        libs: t.libs,
        addresses: t.addresses,
        failed: false,
    }
}

/// The state once smaps `content` is read into tree `t`; the last mapping is
/// counted at the end unless the reading failed.
pub open spec fn smaps_read(t: ProcTreeView, content: Option<Seq<char>>) -> SmapsState {
    match content {
        None => smaps_start(t),
        Some(c) => {
            let st = smaps_fold(smaps_start(t), lines(c));
            if st.failed {
                st
            } else {
                flush_mapping(st)
            }
        },
    }
}

/// `a` with the counts of the process cleared and the counts of the tree
/// taken from `f`: where a second reading of the same smaps stands, against
/// the first.
pub open spec fn read_again(a: SmapsState, f: SmapsState) -> SmapsState {
    SmapsState {
        private_size: 0,
        proc_pss: 0,
        total_exes: f.total_exes,
        total_libs: f.total_libs,
        exes: f.exes,
        libs: f.libs,
        addresses: f.addresses,
        ..a
    }
}

proof fn lemma_step_grows(x: SmapsState, line: Seq<char>)
    ensures
        x.addresses.subset_of(smaps_step(x, line).addresses),
{
}

proof fn lemma_flush_again(x: SmapsState, f: SmapsState)
    requires
        flush_mapping(x).addresses.subset_of(f.addresses),
    ensures
        flush_mapping(read_again(x, f)) == read_again(x, f),
        read_again(flush_mapping(x), f) == read_again(x, f),
{
    if x.is_anon || x.is_exe || x.is_lib {
        assert(flush_mapping(x).addresses.contains(x.start_addr));
    }
}

proof fn lemma_step_again(x: SmapsState, line: Seq<char>, f: SmapsState)
    requires
        smaps_step(x, line).addresses.subset_of(f.addresses),
    ensures
        smaps_step(read_again(x, f), line) == read_again(smaps_step(x, line), f),
{
    let tr = trim(line);
    if !x.failed && is_mapping_header(tr) {
        assert(flush_mapping(x).addresses =~= smaps_step(x, line).addresses);
        lemma_flush_again(x, f);
    }
}

proof fn lemma_fold_again(st: SmapsState, ls: Seq<Seq<char>>, f: SmapsState)
    requires
        smaps_fold(st, ls).addresses.subset_of(f.addresses),
    ensures
        smaps_fold(read_again(st, f), ls) == read_again(smaps_fold(st, ls), f),
    decreases ls.len(),
{
    if ls.len() > 0 {
        let prev = smaps_fold(st, ls.drop_last());
        lemma_step_grows(prev, ls.last());
        lemma_fold_again(st, ls.drop_last(), f);
        lemma_step_again(prev, ls.last(), f);
    }
}

/// Reading the same smaps a second time counts nothing more: the start
/// addresses recorded by the first `ProcTree::parse_process` make the second
/// skip every mapping, so the tree's shared counts stay as they are and the
/// process gets no private or proportional memory.
pub proof fn reading_twice_counts_once(t: ProcTreeView, c: Seq<char>)
    ensures
        ({
            let f = smaps_read(t, Some(c));
            let t1 = ProcTreeView {
                total_exes: f.total_exes,
                total_libs: f.total_libs,
                exes: f.exes,
                libs: f.libs,
                addresses: f.addresses,
                ..t
            };
            let g = smaps_read(t1, Some(c));
            &&& g.total_exes == f.total_exes
            &&& g.total_libs == f.total_libs
            &&& g.exes == f.exes
            &&& g.libs == f.libs
            &&& g.addresses == f.addresses
            &&& g.private_size == 0
            &&& g.proc_pss == 0
            &&& g.failed == f.failed
        }),
{
    let f = smaps_read(t, Some(c));
    let t1 = ProcTreeView {
        total_exes: f.total_exes,
        total_libs: f.total_libs,
        exes: f.exes,
        libs: f.libs,
        addresses: f.addresses,
        ..t
    };
    let a0 = smaps_start(t);
    let fa = smaps_fold(a0, lines(c));
    assert(smaps_start(t1) == read_again(a0, f));
    if !fa.failed {
        assert(fa.addresses.subset_of(flush_mapping(fa).addresses));
        lemma_flush_again(fa, f);
    }
    lemma_fold_again(a0, lines(c), f);
}

/// The parent pid that `/proc/<pid>/status` lines `ls` give, from `ppid` on:
/// the last line that starts with `PPid:` and has a number as second word,
/// cut to 32 bits.
pub open spec fn status_ppid(ppid: u32, ls: Seq<Seq<char>>) -> u32
    decreases ls.len(),
{
    if ls.len() == 0 {
        ppid
    } else {
        let p = status_ppid(ppid, ls.drop_last());
        let l = ls.last();
        if has_prefix(l, "PPid:"@) {
            match status_value(l) {
                Some(v) => v as u32,
                None => p,
            }
        } else {
            p
        }
    }
}

/// The parent pid is read in decimal: when the last line of `/proc/<pid>/status`
/// that starts with `PPid:` is `PPid:`, white space and the decimal digits
/// of `n`, the parent pid read (the `ppid` that `ProcTree::parse_process`
/// gives) is `n`.
pub proof fn ppid_read_in_decimal(p: u32, pre: Seq<Seq<char>>, w: char, n: u32, post: Seq<Seq<char>>)
    requires
        is_ws(w),
        forall|k: int| 0 <= k < post.len() ==> !has_prefix(#[trigger] post[k], "PPid:"@),
    ensures
        status_ppid(p, pre + seq!["PPid:"@ + seq![w] + decimal(n as nat)] + post) == n,
    decreases post.len(),
{
    let line = "PPid:"@ + seq![w] + decimal(n as nat);
    let ls = pre + seq![line] + post;
    if post.len() == 0 {
        reveal_strlit("PPid:");
        lemma_decimal(n as nat);
        assert(no_ws("PPid:"@));
        assert(no_ws(decimal(n as nat)));
        lemma_words_two("PPid:"@, w, decimal(n as nat));
        lemma_parse_dec_decimal(n as u64);
        assert(ls.drop_last() == pre);
        assert(ls.last() == line);
        assert(line.take(5) == "PPid:"@);
        assert(has_prefix(line, "PPid:"@));
        assert(status_value(line) == Some(n as u64));
    } else {
        assert forall|k: int| 0 <= k < post.drop_last().len() implies !has_prefix(
            #[trigger] post.drop_last()[k],
            "PPid:"@,
        ) by {
            assert(post.drop_last()[k] == post[k]);
        }
        ppid_read_in_decimal(p, pre, w, n, post.drop_last());
        assert(ls.drop_last() == pre + seq![line] + post.drop_last());
        assert(ls.last() == post[post.len() - 1]);
    }
}

/// The name of a process: its `comm` trimmed, else its command line up to the
/// first NUL when that is not empty, else `[pid]`.
pub open spec fn process_name(pid: u32, comm: Option<Seq<char>>, cmdline: Option<Seq<char>>) -> Seq<char> {
    match comm {
        Some(c) => trim(c),
        None => {
            let arg0 = match cmdline {
                Some(c) => c.take(first_index(c, '\0')),
                None => seq![],
            };
            if arg0.len() > 0 {
                arg0
            } else {
                seq!['['] + decimal(pid as nat) + seq![']']
            }
        },
    }
}

/// The value of `Proc::new(pid, name)`.
pub open spec fn new_proc(pid: u32, name: Seq<char>) -> ProcView {
    ProcView {
        pid,
        ppid: 0,
        private_size: 0,
        total_private: 0,
        pss: 0,
        total_pss: 0,
        name,
        children: seq![],
    }
}

/// The value of an optional `&str`.
pub open spec fn opt_str_view(s: Option<&str>) -> Option<Seq<char>> {
    match s {
        Some(t) => Some(t@),
        None => None,
    }
}

impl Proc {
    /// A process with no parent, sizes or children.
    pub fn new(pid: u32, name: String) -> (p: Proc)
        ensures
            p@ == new_proc(pid, name@),
    {
        let p = Proc {
            pid,
            ppid: 0,
            private_size: 0,
            total_private: 0,
            pss: 0,
            total_pss: 0,
            name,
            children: Vec::new(),
        };
        assert(p@.children =~= Seq::<ProcView>::empty());
        p
    }
}

/// `smaps_value` of `cs[lo..hi]`.
fn smaps_value_at(cs: &Vec<char>, lo: usize, hi: usize) -> (r: Option<u64>)
    requires
        lo <= hi <= cs.len(),
    ensures
        r == smaps_value(cs@.subrange(lo as int, hi as int)),
{
    let ws = word_ranges(cs, lo, hi);
    if ws.len() >= 2 {
        let (a, b) = ws[1];
        match parse_uint_range(cs, a, b, 10) {
            Some(v) => Some(v.wrapping_mul(1024)),
            None => None,
        }
    } else {
        None
    }
}

/// `status_value` of `cs[lo..hi]`.
fn status_value_at(cs: &Vec<char>, lo: usize, hi: usize) -> (r: Option<u64>)
    requires
        lo <= hi <= cs.len(),
    ensures
        r == status_value(cs@.subrange(lo as int, hi as int)),
{
    let ws = word_ranges(cs, lo, hi);
    if ws.len() >= 2 {
        let (a, b) = ws[1];
        parse_uint_range(cs, a, b, 10)
    } else {
        None
    }
}

impl ProcTree {
    /// An empty tree.
    pub fn new() -> (t: ProcTree)
        ensures
            t@ == (ProcTreeView {
                total_private: 0,
                total_pss: 0,
                total_exes: 0,
                total_libs: 0,
                own_proc: None,
                roots: seq![],
                sorted_exes: seq![],
                sorted_libs: seq![],
                exes: seq![],
                libs: seq![],
                addresses: Set::empty(),
            }),
    {
        let t = ProcTree {
            total_private: 0,
            total_pss: 0,
            total_exes: 0,
            total_libs: 0,
            own_proc: None,
            roots: Vec::new(),
            sorted_exes: Vec::new(),
            sorted_libs: Vec::new(),
            exes: Vec::new(),
            libs: Vec::new(),
            addresses: HashSet::new(),
        };
        assert(t@.roots =~= Seq::<ProcView>::empty());
        assert(t@.exes =~= Seq::<SharedView>::empty());
        assert(t@.libs =~= Seq::<SharedView>::empty());
        assert(t@.sorted_exes =~= Seq::<SharedView>::empty());
        assert(t@.sorted_libs =~= Seq::<SharedView>::empty());
        t
    }

    /// The second word of an smaps line as a number of kB, in bytes.
    pub fn parse_smaps_value(line: &str) -> (r: Option<u64>)
        ensures
            r == smaps_value(line@),
    {
        let cs = to_chars(line);
        assert(cs@.subrange(0, cs@.len() as int) == cs@);
        smaps_value_at(&cs, 0, cs.len())
    }

    /// The second word of a status line as a number.
    pub fn parse_meminfo_value(line: &str) -> (r: Option<u64>)
        ensures
            r == status_value(line@),
    {
        let cs = to_chars(line);
        assert(cs@.subrange(0, cs@.len() as int) == cs@);
        status_value_at(&cs, 0, cs.len())
    }

    /// The name of process `pid` from the contents of its `comm` and
    /// `cmdline` files, where they could be read (see `process_name`).
    pub fn get_process_name(pid: u32, comm: Option<&str>, cmdline: Option<&str>) -> (name: String)
        ensures
            name@ == process_name(pid, opt_str_view(comm), opt_str_view(cmdline)),
    {
        if let Some(c) = comm {
            let cs = to_chars(c);
            let (a, b) = trim_range(&cs, 0, cs.len());
            assert(cs@.subrange(0, cs@.len() as int) == cs@);
            return string_from(&cs, a, b);
        }
        if let Some(c) = cmdline {
            let cs = to_chars(c);
            let z = find_char(&cs, 0, cs.len(), '\0');
            assert(cs@.subrange(0, cs@.len() as int) == cs@);
            if z > 0 {
                assert(cs@.take(z as int) == cs@.subrange(0, z as int));
                return string_from(&cs, 0, z);
            }
        }
        let mut s = String::new();
        s.append("[");
        push_decimal(&mut s, pid);
        s.append("]");
        proof {
            reveal_strlit("[");
            reveal_strlit("]");
            match cmdline {
                Some(c) => {
                    assert(c@.take(first_index(c@, '\0')).len() == 0);
                },
                None => {},
            }
        }
        assert(s@ =~= seq!['['] + decimal(pid as nat) + seq![']']);
        s
    }
}

/// The mapping being read from an smaps file.
struct Mapping {
    region: String,
    private_clean: u64,
    private_dirty: u64,
    pss: u64,
    shared_clean: u64,
    shared_dirty: u64,
    is_anon: bool,
    is_exe: bool,
    is_lib: bool,
    start_addr: u64,
}

/// The reading state that mapping `m`, process `p` and tree `t` stand for.
spec fn reading_state(m: Mapping, p: ProcView, t: ProcTreeView, failed: bool) -> SmapsState {
    SmapsState {
        region: m.region@,
        private_clean: m.private_clean,
        private_dirty: m.private_dirty,
        pss: m.pss,
        shared_clean: m.shared_clean,
        shared_dirty: m.shared_dirty,
        is_anon: m.is_anon,
        is_exe: m.is_exe,
        is_lib: m.is_lib,
        start_addr: m.start_addr,
        private_size: p.private_size,
        proc_pss: p.pss,
        total_exes: t.total_exes,
        total_libs: t.total_libs,
        exes: t.exes,
        libs: t.libs,
        addresses: t.addresses,
        failed,
    }
}

/// An executable or a library: a file with the shared bytes counted for it.
pub trait SharedEntry: View<V = SharedView> + Sized {
    /// A new entry of `total_size` bytes for `name`.
    fn new_entry(name: String, total_size: u64) -> (e: Self)
        ensures
            e@ == (SharedView { name: name@, total_size }),
    ;

    /// The name of the file.
    fn entry_name(&self) -> (n: &String)
        ensures
            n@ == self@.name,
    ;

    /// The bytes counted.
    fn entry_size(&self) -> (s: u64)
        ensures
            s == self@.total_size,
    ;

    /// Sets the bytes counted.
    fn set_size(&mut self, s: u64)
        ensures
            final(self)@ == (SharedView { total_size: s, ..old(self)@ }),
    ;
}

impl SharedEntry for Exe {
    fn new_entry(name: String, total_size: u64) -> (e: Self) {
        Exe { total_size, name }
    }

    fn entry_name(&self) -> (n: &String) {
        &self.name
    }

    fn entry_size(&self) -> (s: u64) {
        self.total_size
    }

    fn set_size(&mut self, s: u64) {
        self.total_size = s;
    }
}

impl SharedEntry for Lib {
    fn new_entry(name: String, total_size: u64) -> (e: Self) {
        Lib { total_size, name }
    }

    fn entry_name(&self) -> (n: &String) {
        &self.name
    }

    fn entry_size(&self) -> (s: u64) {
        self.total_size
    }

    fn set_size(&mut self, s: u64) {
        self.total_size = s;
    }
}

/// Adds `size` bytes for `name` to `list` (see `add_shared`).
fn add_entry<T: SharedEntry>(list: &mut Vec<T>, name: &String, size: u64)
    ensures
        final(list)@.map_values(|e: T| e@) == add_shared(
            old(list)@.map_values(|e: T| e@),
            name@,
            size,
        ),
{
    let ghost sv = list@.map_values(|e: T| e@);
    proof {
        lemma_name_index(sv, name@);
    }
    let n = list.len();
    let mut i: usize = 0;
    while i < n
        invariant
            n == list.len(),
            list@ == old(list)@,
            sv == old(list)@.map_values(|e: T| e@),
            i <= n,
            i <= name_index(sv, name@),
            0 <= name_index(sv, name@) <= sv.len(),
            name_index(sv, name@) < sv.len() ==> sv[name_index(sv, name@)].name == name@,
            forall|k: int| 0 <= k < name_index(sv, name@) ==> #[trigger] sv[k].name != name@,
        decreases n - i,
    {
        if *list[i].entry_name() == *name {
            assert(sv[i as int].name == name@);
            assert(i == name_index(sv, name@));
            let t = list[i].entry_size().wrapping_add(size);
            list[i].set_size(t);
            assert(list@.map_values(|e: T| e@) =~= add_shared(sv, name@, size));
            return ;
        }
        assert(sv[i as int].name != name@);
        i += 1;
    }
    list.push(T::new_entry(name.clone(), size));
    assert(list@.map_values(|e: T| e@) =~= add_shared(sv, name@, size));
}

/// Appends `cs[lo..hi]` to `v`.
fn extend_range(v: &mut Vec<char>, cs: &Vec<char>, lo: usize, hi: usize)
    requires
        lo <= hi <= cs.len(),
    ensures
        final(v)@ == old(v)@ + cs@.subrange(lo as int, hi as int),
{
    let ghost v0 = v@;
    let mut i = lo;
    while i < hi
        invariant
            lo <= i <= hi <= cs.len(),
            v@ == v0 + cs@.subrange(lo as int, i as int),
        decreases hi - i,
    {
        v.push(cs[i]);
        assert(v0 + cs@.subrange(lo as int, i + 1) == (v0 + cs@.subrange(lo as int, i as int)).push(cs@[i as int]));
        i += 1;
    }
}

proof fn lemma_smaps_failed_stays(st: SmapsState, ls: Seq<Seq<char>>, k: int)
    requires
        0 <= k <= ls.len(),
        smaps_fold(st, ls.take(k)).failed,
    ensures
        smaps_fold(st, ls) == smaps_fold(st, ls.take(k)),
    decreases ls.len(),
{
    if k < ls.len() {
        assert(ls.drop_last().take(k) == ls.take(k));
        lemma_smaps_failed_stays(st, ls.drop_last(), k);
    } else {
        assert(ls.take(k) == ls);
    }
}

impl ProcTree {
    /// Counts mapping `m` (see `flush_mapping`).
    fn flush(&mut self, m: &Mapping, p: &mut Proc)
        ensures
            reading_state(*m, final(p)@, final(self)@, false) == flush_mapping(
                reading_state(*m, old(p)@, old(self)@, false),
            ),
            final(self)@ == (ProcTreeView {
                total_exes: final(self)@.total_exes,
                total_libs: final(self)@.total_libs,
                exes: final(self)@.exes,
                libs: final(self)@.libs,
                addresses: final(self)@.addresses,
                ..old(self)@
            }),
            final(p)@ == (ProcView { private_size: final(p)@.private_size, pss: final(p)@.pss, ..old(p)@ }),
    {
        broadcast use vstd::std_specs::hash::group_hash_axioms;

        if self.addresses.contains(&m.start_addr) {
            return ;
        }
        if m.is_anon {
            p.private_size = p.private_size.wrapping_add(m.private_clean.wrapping_add(m.private_dirty));
            p.pss = p.pss.wrapping_add(m.pss);
            self.addresses.insert(m.start_addr);
        } else if m.is_exe {
            let shared = m.shared_clean.wrapping_add(m.shared_dirty);
            self.total_exes = self.total_exes.wrapping_add(shared);
            add_entry(&mut self.exes, &m.region, shared);
            self.addresses.insert(m.start_addr);
        } else if m.is_lib {
            let shared = m.shared_clean.wrapping_add(m.shared_dirty);
            self.total_libs = self.total_libs.wrapping_add(shared);
            add_entry(&mut self.libs, &m.region, shared);
            self.addresses.insert(m.start_addr);
        }
    }
}

/// The words that the ranges `ws` pick out of `cs`.
spec fn word_seq(cs: Seq<char>, ws: Seq<(usize, usize)>) -> Seq<Seq<char>> {
    Seq::new(ws.len(), |k: int| cs.subrange(ws[k].0 as int, ws[k].1 as int))
}

/// The words `ws[from..]` of `cs`, joined with single spaces.
fn join_words(cs: &Vec<char>, ws: &Vec<(usize, usize)>, from: usize) -> (v: Vec<char>)
    requires
        from <= ws.len(),
        forall|k: int| 0 <= k < ws.len() ==> #[trigger] ws@[k].0 <= ws@[k].1 <= cs.len(),
    ensures
        v@ == join_space(word_seq(cs@, ws@).skip(from as int)),
{
    let ghost wv = word_seq(cs@, ws@);
    let mut v: Vec<char> = Vec::new();
    let mut k = from;
    assert(wv.subrange(from as int, from as int) =~= Seq::<Seq<char>>::empty());
    while k < ws.len()
        invariant
            from <= k <= ws.len(),
            wv == word_seq(cs@, ws@),
            forall|j: int| 0 <= j < ws.len() ==> #[trigger] ws@[j].0 <= ws@[j].1 <= cs.len(),
            v@ == join_space(wv.subrange(from as int, k as int)),
        decreases ws.len() - k,
    {
        let ghost before = v@;
        if k > from {
            v.push(' ');
        }
        let (a, b) = ws[k];
        extend_range(&mut v, cs, a, b);
        assert(wv.subrange(from as int, k + 1).drop_last() == wv.subrange(from as int, k as int));
        assert(wv[k as int] == cs@.subrange(a as int, b as int));
        proof {
            if k > from {
                assert(v@ == before + seq![' '] + wv[k as int]);
            } else {
                assert(v@ =~= wv[k as int]);
            }
        }
        k += 1;
    }
    assert(wv.subrange(from as int, ws.len() as int) == wv.skip(from as int));
    v
}

impl ProcTree {
    /// Reads one smaps line (see `smaps_step`); false when the reading fails.
    fn smaps_line(&mut self, m: &mut Mapping, proc: &mut Proc, cs: &Vec<char>, lo: usize, hi: usize) -> (ok: bool)
        requires
            lo <= hi <= cs.len(),
        ensures
            reading_state(*final(m), final(proc)@, final(self)@, !ok) == smaps_step(
                reading_state(*old(m), old(proc)@, old(self)@, false),
                cs@.subrange(lo as int, hi as int),
            ),
            final(self)@ == (ProcTreeView {
                total_exes: final(self)@.total_exes,
                total_libs: final(self)@.total_libs,
                exes: final(self)@.exes,
                libs: final(self)@.libs,
                addresses: final(self)@.addresses,
                ..old(self)@
            }),
            final(proc)@ == (ProcView {
                private_size: final(proc)@.private_size,
                pss: final(proc)@.pss,
                ..old(proc)@
            }),
    {
        let (a, b) = trim_range(cs, lo, hi);
        if contains_lit(cs, a, b, " r") && contains_lit(cs, a, b, "p ") && contains_lit(cs, a, b, "-") {
            self.flush(m, proc);
            let ws = word_ranges(cs, a, b);
            let ghost wv = words(cs@.subrange(a as int, b as int));
            assert(word_seq(cs@, ws@) =~= wv);
            if ws.len() < 5 {
                return false;
            }
            let (w0a, w0b) = ws[0];
            let ghost w0 = cs@.subrange(w0a as int, w0b as int);
            let d = find_char(cs, w0a, w0b, '-');
            proof {
                lemma_first_index_bounds(w0, '-');
            }
            if d < w0b {
                let d2 = find_char(cs, d + 1, w0b, '-');
                proof {
                    lemma_first_index_bounds(cs@.subrange(d + 1, w0b as int), '-');
                }
                assert(w0.skip(d - w0a + 1) == cs@.subrange(d + 1, w0b as int));
                assert(w0.take(d - w0a) == cs@.subrange(w0a as int, d as int));
                if d2 == w0b {
                    assert(!has_char(w0.skip(d - w0a + 1), '-'));
                    if let Some(addr) = parse_uint_range(cs, w0a, d, 16) {
                        m.start_addr = addr;
                    }
                } else {
                    assert(w0.skip(d - w0a + 1)[d2 - d - 1] == '-');
                }
            }
            assert(b <= cs.len());
            assert forall|j: int| 0 <= j < ws.len() implies #[trigger] ws@[j].0 <= ws@[j].1
                <= cs.len() by {
                assert(ws@[j].0 <= ws@[j].1 <= b);
            }
            let path = join_words(cs, &ws, 5);
            let plen = path.len();
            assert(path@.subrange(0, plen as int) == path@);
            let has_so = contains_lit(&path, 0, plen, ".so");
            m.is_anon = plen == 0 || path[0] == '[';
            m.is_exe = plen > 0 && path[0] == '/' && !has_so;
            m.is_lib = has_so;
            m.region = string_from(&path, 0, plen);
            m.private_clean = 0;
            m.private_dirty = 0;
            m.pss = 0;
            m.shared_clean = 0;
            m.shared_dirty = 0;
        } else if starts_with_lit(cs, a, b, "Private_Clean:") {
            if let Some(v) = smaps_value_at(cs, a, b) {
                m.private_clean = v;
            }
        } else if starts_with_lit(cs, a, b, "Private_Dirty:") {
            if let Some(v) = smaps_value_at(cs, a, b) {
                m.private_dirty = v;
            }
        } else if starts_with_lit(cs, a, b, "Pss:") {
            if let Some(v) = smaps_value_at(cs, a, b) {
                m.pss = v;
            }
        } else if starts_with_lit(cs, a, b, "Shared_Clean:") {
            if let Some(v) = smaps_value_at(cs, a, b) {
                m.shared_clean = v;
            }
        } else if starts_with_lit(cs, a, b, "Shared_Dirty:") {
            if let Some(v) = smaps_value_at(cs, a, b) {
                m.shared_dirty = v;
            }
        }
        true
    }

    /// Reads the `/proc/<pid>/smaps` and `/proc/<pid>/status` contents of
    /// process `pid`, where they could be read, into a new `Proc` named
    /// `name`; the shared memory of its executables and libraries is counted
    /// in the tree (see `smaps_step`), and the start address of each mapping
    /// counted is recorded so that no mapping is counted twice. A mapping
    /// header of fewer than five words fails with an error, the mappings
    /// before it counted.
    pub fn parse_process(&mut self, pid: u32, name: String, smaps: Option<&str>, status: Option<&str>) -> (r: Result<Proc, String>)
        ensures
            ({
                let st = smaps_read(old(self)@, opt_str_view(smaps));
                &&& final(self)@ == (ProcTreeView {
                    total_exes: st.total_exes,
                    total_libs: st.total_libs,
                    exes: st.exes,
                    libs: st.libs,
                    addresses: st.addresses,
                    ..old(self)@
                })
                &&& (r is Err <==> st.failed)
                &&& (r matches Err(e) ==> e@ == "Expected 5 or more parts"@)
                &&& (r matches Ok(p) ==> p@ == (ProcView {
                    ppid: match status {
                        Some(c) => status_ppid(0, lines(c@)),
                        None => 0,
                    },
                    private_size: st.private_size,
                    pss: st.proc_pss,
                    ..new_proc(pid, name@)
                }))
            }),
    {
        let mut proc = Proc::new(pid, name);
        if let Some(content) = smaps {
            let mut m = Mapping {
                region: String::new(),
                private_clean: 0,
                private_dirty: 0,
                pss: 0,
                shared_clean: 0,
                shared_dirty: 0,
                is_anon: false,
                is_exe: false,
                is_lib: false,
                start_addr: 0,
            };
            let cs = to_chars(content);
            let ls = line_ranges(&cs);
            let ghost all = lines(cs@);
            let ghost t0 = self@;
            let mut k: usize = 0;
            assert(all.take(0) =~= Seq::<Seq<char>>::empty());
            assert(reading_state(m, proc@, self@, false) == smaps_start(t0));
            while k < ls.len()
                invariant
                    all == lines(cs@),
                    cs@ == content@,
                    smaps == Some(content),
                    t0 == old(self)@,
                    ls.len() == all.len(),
                    forall|j: int|
                        0 <= j < ls.len() ==> #[trigger] ls@[j].0 <= ls@[j].1 <= cs.len()
                            && cs@.subrange(ls@[j].0 as int, ls@[j].1 as int) == all[j],
                    k <= ls.len(),
                    reading_state(m, proc@, self@, false) == smaps_fold(smaps_start(t0), all.take(k as int)),
                    self@ == (ProcTreeView {
                        total_exes: self@.total_exes,
                        total_libs: self@.total_libs,
                        exes: self@.exes,
                        libs: self@.libs,
                        addresses: self@.addresses,
                        ..t0
                    }),
                    proc@ == (ProcView { private_size: proc@.private_size, pss: proc@.pss, ..new_proc(pid, proc@.name) }),
                    proc@.name == name@,
                decreases ls.len() - k,
            {
                let (lo, hi) = ls[k];
                let ghost line = cs@.subrange(lo as int, hi as int);
                assert(line == all[k as int]);
                assert(all.take(k + 1).drop_last() == all.take(k as int));
                assert(all.take(k + 1).last() == line);
                let ok = self.smaps_line(&mut m, &mut proc, &cs, lo, hi);
                if !ok {
                    proof {
                        lemma_smaps_failed_stays(smaps_start(t0), all, k + 1);
                    }
                    return Err(String::from_str("Expected 5 or more parts"));
                }
                k += 1;
            }
            assert(all.take(ls.len() as int) == all);
            self.flush(&m, &mut proc);
            assert(smaps_read(old(self)@, opt_str_view(smaps)) == reading_state(m, proc@, self@, false));
        }
        if let Some(content) = status {
            let cs = to_chars(content);
            let ls = line_ranges(&cs);
            let ghost all = lines(cs@);
            let mut k: usize = 0;
            let ghost p0 = proc@;
            assert(all.take(0) =~= Seq::<Seq<char>>::empty());
            while k < ls.len()
                invariant
                    all == lines(cs@),
                    cs@ == content@,
                    ls.len() == all.len(),
                    forall|j: int|
                        0 <= j < ls.len() ==> #[trigger] ls@[j].0 <= ls@[j].1 <= cs.len()
                            && cs@.subrange(ls@[j].0 as int, ls@[j].1 as int) == all[j],
                    k <= ls.len(),
                    p0.ppid == 0,
                    proc@ == (ProcView { ppid: status_ppid(0, all.take(k as int)), ..p0 }),
                decreases ls.len() - k,
            {
                let (lo, hi) = ls[k];
                let ghost line = cs@.subrange(lo as int, hi as int);
                assert(line == all[k as int]);
                assert(all.take(k + 1).drop_last() == all.take(k as int));
                assert(all.take(k + 1).last() == line);
                if starts_with_lit(&cs, lo, hi, "PPid:") {
                    if let Some(ppid) = status_value_at(&cs, lo, hi) {
                        proc.ppid = #[verifier::truncate] (ppid as u32);
                    }
                }
                k += 1;
            }
            assert(all.take(ls.len() as int) == all);
        }
        Ok(proc)
    }
}

/// `p` with the totals of every process set: its own size plus the totals of
/// its children, summed in order; sums past `u64::MAX` wrap.
pub open spec fn with_totals(p: ProcView) -> ProcView
    decreases p, 0nat,
{
    let cs = all_with_totals(p.children);
    ProcView {
        total_private: sum_total_private(p.private_size, cs),
        total_pss: sum_total_pss(p.pss, cs),
        children: cs,
        ..p
    }
}

/// `with_totals` of each of `cs`.
pub open spec fn all_with_totals(cs: Seq<ProcView>) -> Seq<ProcView>
    decreases cs, 0nat,
{
    if cs.len() == 0 {
        Seq::empty()
    } else {
        all_with_totals(cs.drop_last()).push(with_totals(cs.last()))
    }
}

/// `start` plus the `total_private` of each of `cs`, wrapping.
pub open spec fn sum_total_private(start: u64, cs: Seq<ProcView>) -> u64
    decreases cs.len(),
{
    if cs.len() == 0 {
        start
    } else {
        u64_specs::wrapping_add(sum_total_private(start, cs.drop_last()), cs.last().total_private)
    }
}

/// `start` plus the `total_pss` of each of `cs`, wrapping.
pub open spec fn sum_total_pss(start: u64, cs: Seq<ProcView>) -> u64
    decreases cs.len(),
{
    if cs.len() == 0 {
        start
    } else {
        u64_specs::wrapping_add(sum_total_pss(start, cs.drop_last()), cs.last().total_pss)
    }
}

/// The process with pid `own` below `p` (not `p` itself), searching the
/// children in order, each child's subtree before the child; the last match
/// counts.
pub open spec fn own_below(p: ProcView, own: u32) -> Option<ProcView>
    decreases p, 0nat,
{
    own_among(p.children, own)
}

/// `own_below` over the processes `cs` and their subtrees.
pub open spec fn own_among(cs: Seq<ProcView>, own: u32) -> Option<ProcView>
    decreases cs, 0nat,
{
    if cs.len() == 0 {
        None
    } else {
        let c = cs.last();
        if c.pid == own {
            Some(c)
        } else {
            match own_below(c, own) {
                Some(x) => Some(x),
                None => own_among(cs.drop_last(), own),
            }
        }
    }
}

pub proof fn lemma_all_with_totals(cs: Seq<ProcView>)
    ensures
        all_with_totals(cs).len() == cs.len(),
        forall|i: int| 0 <= i < cs.len() ==> #[trigger] all_with_totals(cs)[i] == with_totals(cs[i]),
    decreases cs.len(),
{
    if cs.len() > 0 {
        lemma_all_with_totals(cs.drop_last());
        assert forall|i: int| 0 <= i < cs.len() implies #[trigger] all_with_totals(cs)[i]
            == with_totals(cs[i]) by {
            if i < cs.len() - 1 {
                assert(cs.drop_last()[i] == cs[i]);
            }
        }
    }
}

/// Sum of `private_size` over `p` and every process below it.
pub open spec fn subtree_private(p: ProcView) -> int
    decreases p, 0nat,
{
    p.private_size + forest_private(p.children)
}

/// Sum of `subtree_private` over `cs`.
pub open spec fn forest_private(cs: Seq<ProcView>) -> int
    decreases cs, 0nat,
{
    if cs.len() == 0 {
        0
    } else {
        forest_private(cs.drop_last()) + subtree_private(cs.last())
    }
}

/// Sum of `pss` over `p` and every process below it.
pub open spec fn subtree_pss(p: ProcView) -> int
    decreases p, 0nat,
{
    p.pss + forest_pss(p.children)
}

/// Sum of `subtree_pss` over `cs`.
pub open spec fn forest_pss(cs: Seq<ProcView>) -> int
    decreases cs, 0nat,
{
    if cs.len() == 0 {
        0
    } else {
        forest_pss(cs.drop_last()) + subtree_pss(cs.last())
    }
}

/// The totals that `Proc::update_totals` sets on a process are the sums of
/// `private_size` and of `pss` over the process and every process below it,
/// modulo `2^64`.
pub proof fn totals_add_up(p: ProcView)
    ensures
        with_totals(p).total_private == subtree_private(p) % 0x1_0000_0000_0000_0000int,
        with_totals(p).total_pss == subtree_pss(p) % 0x1_0000_0000_0000_0000int,
    decreases p, 0nat,
{
    sums_add_up(p.private_size, p.pss, p.children);
}

/// Counting the processes `cs` with their totals onto `a` and `b` adds the
/// sums of `private_size` and of `pss` over them and every process below
/// them, modulo `2^64`: so `ProcTree::parse` adds to the totals of the tree
/// what all processes of its trees hold.
pub proof fn sums_add_up(a: u64, b: u64, cs: Seq<ProcView>)
    ensures
        sum_total_private(a, all_with_totals(cs)) == (a + forest_private(cs)) % 0x1_0000_0000_0000_0000int,
        sum_total_pss(b, all_with_totals(cs)) == (b + forest_pss(cs)) % 0x1_0000_0000_0000_0000int,
    decreases cs, 0nat,
{
    let m = 0x1_0000_0000_0000_0000int;
    if cs.len() == 0 {
        lemma_small_mod(a as nat, m as nat);
        lemma_small_mod(b as nat, m as nat);
    } else {
        sums_add_up(a, b, cs.drop_last());
        totals_add_up(cs.last());
        let w = all_with_totals(cs);
        lemma_all_with_totals(cs);
        assert(w.drop_last() == all_with_totals(cs.drop_last()));
        assert(w.last() == with_totals(cs.last()));
        lemma_wrapping_add_mod(sum_total_private(a, w.drop_last()), w.last().total_private);
        lemma_wrapping_add_mod(sum_total_pss(b, w.drop_last()), w.last().total_pss);
        lemma_add_mod_noop(a + forest_private(cs.drop_last()), subtree_private(cs.last()), m);
        lemma_add_mod_noop(b + forest_pss(cs.drop_last()), subtree_pss(cs.last()), m);
    }
}

/// Setting the totals twice gives what setting them once gives: a second
/// `Proc::update_totals` changes nothing.
pub proof fn totals_settle(p: ProcView)
    ensures
        with_totals(with_totals(p)) == with_totals(p),
    decreases p, 0nat,
{
    totals_settle_all(p.children);
}

/// `totals_settle` for each of `cs`.
pub proof fn totals_settle_all(cs: Seq<ProcView>)
    ensures
        all_with_totals(all_with_totals(cs)) == all_with_totals(cs),
    decreases cs, 0nat,
{
    if cs.len() > 0 {
        totals_settle_all(cs.drop_last());
        totals_settle(cs.last());
        let w = all_with_totals(cs);
        lemma_all_with_totals(cs);
        assert(w.drop_last() == all_with_totals(cs.drop_last()));
        assert(w.last() == with_totals(cs.last()));
        assert(all_with_totals(w) == all_with_totals(w.drop_last()).push(with_totals(w.last())));
        assert(all_with_totals(w) =~= w);
    }
}

/// The order by total private size, largest first.
pub struct ByTotalPrivateDesc;

impl SpecKey<ByTotalPrivateDesc> for Proc {
    open spec fn sort_key(&self) -> int {
        -(self.total_private as int)
    }
}

impl SortKey<ByTotalPrivateDesc> for Proc {
    fn key_less(&self, other: &Self) -> (b: bool) {
        self.total_private > other.total_private
    }
}

impl SpecKey<ByTotalPrivateDesc> for ProcView {
    open spec fn sort_key(&self) -> int {
        -(self.total_private as int)
    }
}

/// `p` with the children of every process sorted by total private size,
/// largest first, equal sizes keeping their order.
pub open spec fn procs_sorted(p: ProcView) -> ProcView
    decreases p, 0nat,
{
    ProcView {
        children: stable_sort::<ProcView, ByTotalPrivateDesc>(all_procs_sorted(p.children)),
        ..p
    }
}

/// `procs_sorted` of each of `cs`.
pub open spec fn all_procs_sorted(cs: Seq<ProcView>) -> Seq<ProcView>
    decreases cs, 0nat,
{
    if cs.len() == 0 {
        Seq::empty()
    } else {
        all_procs_sorted(cs.drop_last()).push(procs_sorted(cs.last()))
    }
}

pub proof fn lemma_all_procs_sorted(cs: Seq<ProcView>)
    ensures
        all_procs_sorted(cs).len() == cs.len(),
        forall|i: int| 0 <= i < cs.len() ==> #[trigger] all_procs_sorted(cs)[i] == procs_sorted(cs[i]),
    decreases cs.len(),
{
    if cs.len() > 0 {
        lemma_all_procs_sorted(cs.drop_last());
        assert forall|i: int| 0 <= i < cs.len() implies #[trigger] all_procs_sorted(cs)[i]
            == procs_sorted(cs[i]) by {
            if i < cs.len() - 1 {
                assert(cs.drop_last()[i] == cs[i]);
            }
        }
    }
}

/// Whether the children of `p`, and of every process below it, come in
/// order of total private size, largest first.
pub open spec fn sorted_every_level(p: ProcView) -> bool
    decreases p,
{
    &&& forall|i: int, j: int|
        0 <= i < j < p.children.len() ==> p.children[i].total_private
            >= p.children[j].total_private
    &&& forall|i: int| 0 <= i < p.children.len() ==> sorted_every_level(#[trigger] p.children[i])
}

/// After `Proc::sort_by_size`, the children of every process come largest
/// first, by total private size, and each process keeps its children: the
/// same ones, each sorted in turn.
pub proof fn sort_orders_every_level(p: ProcView)
    ensures
        sorted_every_level(procs_sorted(p)),
        procs_sorted(p).children.len() == p.children.len(),
        procs_sorted(p).children.to_multiset() == all_procs_sorted(p.children).to_multiset(),
    decreases p, 0nat,
{
    let a = all_procs_sorted(p.children);
    let s = stable_sort::<ProcView, ByTotalPrivateDesc>(a);
    lemma_all_procs_sorted(p.children);
    lemma_stable_sort_sorted::<ProcView, ByTotalPrivateDesc>(a);
    lemma_stable_sort_permutes::<ProcView, ByTotalPrivateDesc>(a);
    lemma_stable_sort_elements::<ProcView, ByTotalPrivateDesc>(a);
    assert forall|k: int| 0 <= k < a.len() implies sorted_every_level(#[trigger] a[k]) by {
        sort_orders_every_level(p.children[k]);
    }
    assert forall|i: int, j: int| 0 <= i < j < s.len() implies s[i].total_private
        >= s[j].total_private by {
        assert(SpecKey::<ByTotalPrivateDesc>::sort_key(&s[i]) <= SpecKey::<ByTotalPrivateDesc>::sort_key(&s[j]));
    }
    assert forall|i: int| 0 <= i < s.len() implies sorted_every_level(#[trigger] s[i]) by {
        assert(a.contains(s[i]));
        let k = choose|k: int| 0 <= k < a.len() && a[k] == s[i];
        assert(sorted_every_level(a[k]));
    }
}

impl Proc {
    /// A copy of the process and its subtree.
    pub fn duplicate(&self) -> (r: Proc)
        ensures
            r@ == self@,
        decreases self,
    {
        let mut children: Vec<Proc> = Vec::new();
        let n = self.children.len();
        let mut i: usize = 0;
        proof {
            lemma_proc_views(self.children@);
        }
        while i < n
            invariant
                n == self.children.len(),
                i <= n,
                children.len() == i,
                forall|k: int| 0 <= k < i ==> #[trigger] children@[k]@ == self.children@[k]@,
            decreases n - i,
        {
            assert(decreases_to!(self => self.children));
            assert(decreases_to!(self.children => self.children@));
            assert(decreases_to!(self.children@ => self.children@[i as int]));
            let c = self.children[i].duplicate();
            children.push(c);
            i += 1;
        }
        let r = Proc {
            pid: self.pid,
            ppid: self.ppid,
            private_size: self.private_size,
            total_private: self.total_private,
            pss: self.pss,
            total_pss: self.total_pss,
            name: self.name.clone(),
            children,
        };
        proof {
            lemma_proc_views(r.children@);
        }
        assert(proc_views(r.children@) =~= proc_views(self.children@));
        r
    }

    /// Sets the totals of this process and of every process below it (see
    /// `with_totals`), and returns a copy of the process with pid `own_pid`
    /// below this one, if there is one (see `own_below`).
    pub fn update_totals(&mut self, own_pid: u32) -> (r: Option<Proc>)
        ensures
            final(self)@ == with_totals(old(self)@),
            opt_proc_view(r) == own_below(final(self)@, own_pid),
        decreases *old(self),
    {
        let mut own_proc: Option<Proc> = None;
        self.total_private = self.private_size;
        self.total_pss = self.pss;
        let n = self.children.len();
        let ghost cs = proc_views(self.children@);
        let ghost done = all_with_totals(cs);
        let mut i: usize = 0;
        proof {
            lemma_proc_views(self.children@);
            lemma_all_with_totals(cs);
        }
        assert(done.take(0) =~= Seq::<ProcView>::empty());
        while i < n
            invariant
                n == self.children.len(),
                n == old(self).children@.len(),
                cs == proc_views(old(self).children@),
                done == all_with_totals(cs),
                done.len() == n,
                forall|k: int| 0 <= k < n ==> #[trigger] done[k] == with_totals(cs[k]),
                forall|k: int| 0 <= k < n ==> #[trigger] cs[k] == old(self).children@[k]@,
                i <= n,
                self.pid == old(self).pid,
                self.ppid == old(self).ppid,
                self.private_size == old(self).private_size,
                self.pss == old(self).pss,
                self.name@ == old(self).name@,
                forall|k: int| 0 <= k < i ==> #[trigger] self.children@[k]@ == done[k],
                forall|k: int| i <= k < n ==> #[trigger] self.children@[k] == old(self).children@[k],
                self.total_private == sum_total_private(self.private_size, done.take(i as int)),
                self.total_pss == sum_total_pss(self.pss, done.take(i as int)),
                opt_proc_view(own_proc) == own_among(done.take(i as int), own_pid),
            decreases n - i,
        {
            assert(decreases_to!(*old(self) => old(self).children));
            assert(decreases_to!(old(self).children => old(self).children@));
            assert(decreases_to!(old(self).children@ => old(self).children@[i as int]));
            let own = self.children[i].update_totals(own_pid);
            assert(done.take(i + 1).drop_last() == done.take(i as int));
            assert(done.take(i + 1).last() == done[i as int]);
            if own.is_some() {
                own_proc = own;
            }
            self.total_private = self.total_private.wrapping_add(self.children[i].total_private);
            self.total_pss = self.total_pss.wrapping_add(self.children[i].total_pss);
            if self.children[i].pid == own_pid {
                own_proc = Some(self.children[i].duplicate());
            }
            i += 1;
        }
        proof {
            lemma_proc_views(self.children@);
        }
        assert(proc_views(self.children@) =~= done);
        assert(done.take(n as int) == done);
        own_proc
    }

    /// Sorts the children of every process by total private size, largest
    /// first; equal sizes keep their order (see `procs_sorted`).
    pub fn sort_by_size(&mut self)
        ensures
            final(self)@ == procs_sorted(old(self)@),
        decreases *old(self),
    {
        let n = self.children.len();
        let ghost cs = proc_views(self.children@);
        let mut i: usize = 0;
        proof {
            lemma_all_procs_sorted(cs);
            lemma_proc_views(self.children@);
        }
        while i < n
            invariant
                n == self.children.len(),
                cs == proc_views(old(self).children@),
                n == old(self).children@.len(),
                self.pid == old(self).pid,
                self.ppid == old(self).ppid,
                self.private_size == old(self).private_size,
                self.total_private == old(self).total_private,
                self.pss == old(self).pss,
                self.total_pss == old(self).total_pss,
                self.name@ == old(self).name@,
                i <= n,
                all_procs_sorted(cs).len() == n,
                forall|k: int| 0 <= k < i ==> #[trigger] self.children@[k]@ == all_procs_sorted(cs)[k],
                forall|k: int| i <= k < n ==> #[trigger] self.children@[k] == old(self).children@[k],
                forall|k: int| 0 <= k < n ==> #[trigger] all_procs_sorted(cs)[k] == procs_sorted(cs[k]),
                forall|k: int| 0 <= k < n ==> #[trigger] cs[k] == old(self).children@[k]@,
            decreases n - i,
        {
            assert(decreases_to!(*old(self) => old(self).children));
            assert(decreases_to!(old(self).children => old(self).children@));
            assert(decreases_to!(old(self).children@ => old(self).children@[i as int]));
            self.children[i].sort_by_size();
            i += 1;
        }
        proof {
            lemma_proc_views(self.children@);
        }
        assert(proc_views(self.children@) =~= all_procs_sorted(cs));
        let ghost mid = self.children@;
        sort_by_key::<Proc, ByTotalPrivateDesc>(&mut self.children);
        proof {
            let f = |r: Proc| r@;
            lemma_proc_views_map(mid);
            lemma_proc_views_map(self.children@);
            lemma_stable_sort_map::<Proc, ProcView, ByTotalPrivateDesc>(mid, f);
        }
    }
}

/// The order by shared size, largest first.
pub struct BySharedDesc;

impl SpecKey<BySharedDesc> for Exe {
    open spec fn sort_key(&self) -> int {
        -(self.total_size as int)
    }
}

impl SortKey<BySharedDesc> for Exe {
    fn key_less(&self, other: &Self) -> (b: bool) {
        self.total_size > other.total_size
    }
}

impl SpecKey<BySharedDesc> for Lib {
    open spec fn sort_key(&self) -> int {
        -(self.total_size as int)
    }
}

impl SortKey<BySharedDesc> for Lib {
    fn key_less(&self, other: &Self) -> (b: bool) {
        self.total_size > other.total_size
    }
}

impl SpecKey<BySharedDesc> for SharedView {
    open spec fn sort_key(&self) -> int {
        -(self.total_size as int)
    }
}

/// A copy of `v`.
fn copy_entries<T: SharedEntry>(v: &Vec<T>) -> (r: Vec<T>)
    ensures
        r@.map_values(|e: T| e@) == v@.map_values(|e: T| e@),
{
    let mut r: Vec<T> = Vec::new();
    let mut i: usize = 0;
    while i < v.len()
        invariant
            i <= v.len(),
            r.len() == i,
            forall|k: int| 0 <= k < i ==> #[trigger] r@[k]@ == v@[k]@,
        decreases v.len() - i,
    {
        r.push(T::new_entry(v[i].entry_name().clone(), v[i].entry_size()));
        i += 1;
    }
    assert(r@.map_values(|e: T| e@) =~= v@.map_values(|e: T| e@));
    r
}

impl ProcTree {
    /// Sorts the roots and the children of every process by total private
    /// size, and lists the executables and the libraries by shared size, all
    /// largest first; equal sizes keep their order.
    pub fn sort_by_size(&mut self)
        ensures
            final(self)@ == (ProcTreeView {
                roots: stable_sort::<ProcView, ByTotalPrivateDesc>(all_procs_sorted(old(self)@.roots)),
                sorted_exes: stable_sort::<SharedView, BySharedDesc>(old(self)@.exes),
                sorted_libs: stable_sort::<SharedView, BySharedDesc>(old(self)@.libs),
                ..old(self)@
            }),
    {
        let n = self.roots.len();
        let ghost cs = proc_views(self.roots@);
        let mut i: usize = 0;
        proof {
            lemma_all_procs_sorted(cs);
            lemma_proc_views(self.roots@);
        }
        while i < n
            invariant
                n == self.roots.len(),
                cs == proc_views(old(self).roots@),
                n == old(self).roots@.len(),
                self@ == (ProcTreeView { roots: self@.roots, ..old(self)@ }),
                i <= n,
                all_procs_sorted(cs).len() == n,
                forall|k: int| 0 <= k < i ==> #[trigger] self.roots@[k]@ == all_procs_sorted(cs)[k],
                forall|k: int| i <= k < n ==> #[trigger] self.roots@[k] == old(self).roots@[k],
                forall|k: int| 0 <= k < n ==> #[trigger] all_procs_sorted(cs)[k] == procs_sorted(cs[k]),
                forall|k: int| 0 <= k < n ==> #[trigger] cs[k] == old(self).roots@[k]@,
            decreases n - i,
        {
            self.roots[i].sort_by_size();
            i += 1;
        }
        proof {
            lemma_proc_views(self.roots@);
        }
        assert(proc_views(self.roots@) =~= all_procs_sorted(cs));
        let ghost mid = self.roots@;
        sort_by_key::<Proc, ByTotalPrivateDesc>(&mut self.roots);
        proof {
            let f = |r: Proc| r@;
            lemma_proc_views_map(mid);
            lemma_proc_views_map(self.roots@);
            lemma_stable_sort_map::<Proc, ProcView, ByTotalPrivateDesc>(mid, f);
        }
        let mut exes = copy_entries(&self.exes);
        let ghost e0 = exes@;
        sort_by_key::<Exe, BySharedDesc>(&mut exes);
        proof {
            lemma_stable_sort_map::<Exe, SharedView, BySharedDesc>(e0, |e: Exe| e@);
        }
        self.sorted_exes = exes;
        let mut libs = copy_entries(&self.libs);
        let ghost l0 = libs@;
        sort_by_key::<Lib, BySharedDesc>(&mut libs);
        proof {
            lemma_stable_sort_map::<Lib, SharedView, BySharedDesc>(l0, |e: Lib| e@);
        }
        self.sorted_libs = libs;
    }
}


/// The processes among `ps[..n]` whose parent is `parent`, in order, each with
/// its children found the same way, down to `fuel` levels below (see
/// `forest_complete` for why `ps.len()` levels are enough).
pub open spec fn kids(ps: Seq<ProcView>, parent: u32, fuel: nat, n: nat) -> Seq<ProcView>
    decreases fuel, n,
{
    if n == 0 || n > ps.len() {
        Seq::empty()
    } else {
        let before = kids(ps, parent, fuel, (n - 1) as nat);
        if ps[n - 1].ppid == parent {
            before.push(adopt(ps, (n - 1) as nat, fuel))
        } else {
            before
        }
    }
}

/// `ps[i]` with its children: the processes whose parent it is, `fuel` levels
/// deep.
pub open spec fn adopt(ps: Seq<ProcView>, i: nat, fuel: nat) -> ProcView
    decreases fuel, 0nat,
{
    ProcView {
        children: if fuel == 0 {
            Seq::empty()
        } else {
            kids(ps, ps[i as int].pid, (fuel - 1) as nat, ps.len())
        },
        ..ps[i as int]
    }
}

/// The process trees of `ps`: the processes with parent 0, each with the
/// processes below it.
pub open spec fn forest(ps: Seq<ProcView>) -> Seq<ProcView> {
    kids(ps, 0, ps.len(), ps.len())
}

/// Whether `js` indexes a chain of processes of `ps` below `parent`: the
/// first one's parent is `parent`, and each next one's parent is the one
/// before it.
pub open spec fn is_chain(ps: Seq<ProcView>, parent: u32, js: Seq<int>) -> bool {
    &&& js.len() > 0
    &&& forall|t: int| 0 <= t < js.len() ==> 0 <= #[trigger] js[t] < ps.len()
    &&& ps[js[0]].ppid == parent
    &&& forall|t: int| 0 < t < js.len() ==> #[trigger] ps[js[t]].ppid == ps[js[t - 1]].pid
}

/// Whether no chain below `parent` is longer than `f`.
pub open spec fn chains_at_most(ps: Seq<ProcView>, parent: u32, f: nat) -> bool {
    forall|js: Seq<int>| #[trigger] is_chain(ps, parent, js) ==> js.len() <= f
}

/// Whether the pids of `ps` are positive and distinct, as those read from
/// `/proc` are.
pub open spec fn pids_distinct(ps: Seq<ProcView>) -> bool {
    &&& forall|i: int| 0 <= i < ps.len() ==> #[trigger] ps[i].pid > 0
    &&& forall|i: int, j: int| 0 <= i < j < ps.len() ==> #[trigger] ps[i].pid != #[trigger] ps[j].pid
}

proof fn lemma_kids_stable(ps: Seq<ProcView>, parent: u32, f: nat, g: nat, n: nat)
    requires
        chains_at_most(ps, parent, f),
        f <= g,
    ensures
        kids(ps, parent, f, n) == kids(ps, parent, g, n),
    decreases f, n,
{
    if n == 0 || n > ps.len() {
    } else {
        lemma_kids_stable(ps, parent, f, g, (n - 1) as nat);
        let k = (n - 1) as nat;
        if ps[k as int].ppid == parent {
            let one = seq![k as int];
            assert(is_chain(ps, parent, one));
            assert(f > 0);
            let pid = ps[k as int].pid;
            assert forall|js: Seq<int>| #[trigger] is_chain(ps, pid, js) implies js.len() <= (f - 1) as nat by {
                let longer = one + js;
                assert(longer[0] == k);
                assert forall|t: int| 0 < t < longer.len() implies #[trigger] ps[longer[t]].ppid
                    == ps[longer[t - 1]].pid by {
                    if t > 1 {
                        assert(longer[t] == js[t - 1]);
                        assert(longer[t - 1] == js[t - 2]);
                    } else {
                        assert(longer[1] == js[0]);
                    }
                }
                assert forall|t: int| 0 <= t < longer.len() implies 0 <= #[trigger] longer[t] < ps.len() by {
                    if t > 0 {
                        assert(longer[t] == js[t - 1]);
                    }
                }
                assert(is_chain(ps, parent, longer));
            }
            lemma_kids_stable(ps, pid, (f - 1) as nat, (g - 1) as nat, ps.len());
            assert(adopt(ps, k, f) == adopt(ps, k, g));
        }
    }
}

proof fn lemma_chain_no_repeat(ps: Seq<ProcView>, js: Seq<int>, a: int, b: int)
    requires
        pids_distinct(ps),
        is_chain(ps, 0, js),
        0 <= a < b < js.len(),
    ensures
        js[a] != js[b],
    decreases a,
{
    if js[a] == js[b] {
        assert(ps[js[b]].ppid == ps[js[b - 1]].pid);
        assert(ps[js[b - 1]].pid > 0);
        if a > 0 {
            assert(ps[js[a]].ppid == ps[js[a - 1]].pid);
            lemma_chain_no_repeat(ps, js, a - 1, b - 1);
            assert(js[a - 1] != js[b - 1]);
            assert(0 <= js[a - 1] < ps.len());
            assert(0 <= js[b - 1] < ps.len());
            if js[a - 1] < js[b - 1] {
                assert(ps[js[a - 1]].pid != ps[js[b - 1]].pid);
            } else {
                assert(ps[js[b - 1]].pid != ps[js[a - 1]].pid);
            }
        }
    }
}

/// With positive, distinct pids, `forest` holds every process below the
/// roots: looking any number of levels deeper than `ps.len()` finds the same
/// trees, so no process is cut off.
pub proof fn forest_complete(ps: Seq<ProcView>, g: nat)
    requires
        pids_distinct(ps),
        g >= ps.len(),
    ensures
        kids(ps, 0, g, ps.len()) == forest(ps),
{
    assert forall|js: Seq<int>| #[trigger] is_chain(ps, 0, js) implies js.len() <= ps.len() by {
        assert forall|a: int, b: int| 0 <= a < js.len() && 0 <= b < js.len() && a != b implies js[a]
            != js[b] by {
            if a < b {
                lemma_chain_no_repeat(ps, js, a, b);
            } else {
                lemma_chain_no_repeat(ps, js, b, a);
            }
        }
        assert(js.no_duplicates());
        js.unique_seq_to_set();
        lemma_int_range(0, ps.len() as int);
        assert(js.to_set().subset_of(set_int_range(0, ps.len() as int)));
        lemma_len_subset(js.to_set(), set_int_range(0, ps.len() as int));
    }
    lemma_kids_stable(ps, 0, ps.len(), g, ps.len());
}

/// The process with pid `own` below one of `rs` (see `own_below`), the last
/// root with one winning, or `prev` where no root has one.
pub open spec fn own_in_roots(rs: Seq<ProcView>, own: u32, prev: Option<ProcView>) -> Option<ProcView>
    decreases rs.len(),
{
    if rs.len() == 0 {
        prev
    } else {
        match own_below(rs.last(), own) {
            Some(x) => Some(x),
            None => own_in_roots(rs.drop_last(), own, prev),
        }
    }
}

/// Copies of the processes of `procs` whose parent is `parent`, in order, each
/// with its children (see `kids`).
fn adopt_children(procs: &Vec<Proc>, parent: u32, fuel: usize) -> (r: Vec<Proc>)
    ensures
        proc_views(r@) == kids(proc_views(procs@), parent, fuel as nat, procs@.len()),
    decreases fuel,
{
    let ghost ps = proc_views(procs@);
    proof {
        lemma_proc_views(procs@);
    }
    let n = procs.len();
    let mut r: Vec<Proc> = Vec::new();
    let mut i: usize = 0;
    while i < n
        invariant
            n == procs.len(),
            ps == proc_views(procs@),
            ps.len() == n,
            forall|k: int| 0 <= k < n ==> #[trigger] ps[k] == procs@[k]@,
            i <= n,
            proc_views(r@) == kids(ps, parent, fuel as nat, i as nat),
        decreases n - i,
    {
        if procs[i].ppid == parent {
            let children = if fuel == 0 {
                Vec::new()
            } else {
                adopt_children(procs, procs[i].pid, fuel - 1)
            };
            let p = Proc {
                pid: procs[i].pid,
                ppid: procs[i].ppid,
                private_size: procs[i].private_size,
                total_private: procs[i].total_private,
                pss: procs[i].pss,
                total_pss: procs[i].total_pss,
                name: procs[i].name.clone(),
                children,
            };
            assert(proc_views(p.children@) =~= adopt(ps, i as nat, fuel as nat).children);
            assert(p@ == adopt(ps, i as nat, fuel as nat));
            let ghost before = r@;
            r.push(p);
            assert(r@.drop_last() == before);
        }
        i += 1;
    }
    r
}

impl ProcTree {
    /// Builds the process trees from `procs`, the processes read from
    /// `/proc`: the roots become the processes with parent 0, each with the
    /// processes below it (see `forest`), in the order of `procs`; when no
    /// process has parent 0, the roots stay as they were. Then sets the
    /// totals of every process below the roots (see `with_totals`), adds
    /// those of the roots to the totals of the tree, and keeps a copy of the
    /// process with pid `own_pid` (see `own_in_roots`).
    pub fn parse(&mut self, procs: Vec<Proc>, own_pid: u32)
        ensures
            final(self)@.roots == all_with_totals(
                if forest(proc_views(procs@)).len() > 0 {
                    forest(proc_views(procs@))
                } else {
                    old(self)@.roots
                },
            ),
            final(self)@.total_private == sum_total_private(old(self).total_private, final(self)@.roots),
            final(self)@.total_pss == sum_total_pss(old(self).total_pss, final(self)@.roots),
            final(self)@.own_proc == own_in_roots(final(self)@.roots, own_pid, old(self)@.own_proc),
            final(self)@ == (ProcTreeView {
                roots: final(self)@.roots,
                total_private: final(self)@.total_private,
                total_pss: final(self)@.total_pss,
                own_proc: final(self)@.own_proc,
                ..old(self)@
            }),
    {
        let n0 = procs.len();
        proof {
            lemma_proc_views(procs@);
        }
        let built = adopt_children(&procs, 0, n0);
        proof {
            lemma_proc_views(built@);
        }
        if built.len() > 0 {
            self.roots = built;
        }
        assert(proc_views(self.roots@) == (if forest(proc_views(procs@)).len() > 0 {
            forest(proc_views(procs@))
        } else {
            old(self)@.roots
        }));
        let ghost cs = proc_views(self.roots@);
        let ghost done = all_with_totals(cs);
        let ghost t0 = self@;
        let n = self.roots.len();
        proof {
            lemma_proc_views(self.roots@);
            lemma_all_with_totals(cs);
        }
        let mut i: usize = 0;
        assert(done.take(0) =~= Seq::<ProcView>::empty());
        while i < n
            invariant
                n == self.roots.len(),
                cs.len() == n,
                done == all_with_totals(cs),
                done.len() == n,
                forall|k: int| 0 <= k < n ==> #[trigger] done[k] == with_totals(cs[k]),
                i <= n,
                forall|k: int| 0 <= k < i ==> #[trigger] self.roots@[k]@ == done[k],
                forall|k: int| i <= k < n ==> #[trigger] self.roots@[k]@ == cs[k],
                self.total_private == sum_total_private(old(self).total_private, done.take(i as int)),
                self.total_pss == sum_total_pss(old(self).total_pss, done.take(i as int)),
                opt_proc_view(self.own_proc) == own_in_roots(done.take(i as int), own_pid, old(self)@.own_proc),
                self@ == (ProcTreeView {
                    roots: self@.roots,
                    total_private: self.total_private,
                    total_pss: self.total_pss,
                    own_proc: self@.own_proc,
                    ..old(self)@
                }),
            decreases n - i,
        {
            let own = self.roots[i].update_totals(own_pid);
            assert(done.take(i + 1).drop_last() == done.take(i as int));
            assert(done.take(i + 1).last() == done[i as int]);
            if own.is_some() {
                self.own_proc = own;
            }
            self.total_private = self.total_private.wrapping_add(self.roots[i].total_private);
            self.total_pss = self.total_pss.wrapping_add(self.roots[i].total_pss);
            i += 1;
        }
        proof {
            lemma_proc_views(self.roots@);
        }
        assert(proc_views(self.roots@) =~= done);
        assert(done.take(n as int) == done);
    }
}

/// One line of a printed process tree: a process without its children, with
/// its depth below the roots.
#[derive(Debug)]
pub struct ProcRow {
    pub depth: usize,
    pub pid: u32,
    pub name: String,
    pub private_size: u64,
    pub pss: u64,
    pub total_private: u64,
    pub total_pss: u64,
}

/// The value of a `ProcRow`.
pub struct ProcRowView {
    pub depth: usize,
    pub pid: u32,
    pub name: Seq<char>,
    pub private_size: u64,
    pub pss: u64,
    pub total_private: u64,
    pub total_pss: u64,
}

impl View for ProcRow {
    type V = ProcRowView;

    open spec fn view(&self) -> ProcRowView {
        ProcRowView {
            depth: self.depth,
            pid: self.pid,
            name: self.name@,
            private_size: self.private_size,
            pss: self.pss,
            total_private: self.total_private,
            total_pss: self.total_pss,
        }
    }
}

/// The values of `rows`, in order.
pub open spec fn proc_row_views(rows: Seq<ProcRow>) -> Seq<ProcRowView> {
    rows.map_values(|x: ProcRow| x@)
}

/// The lines of `p` printed at `depth`: `p` itself, then the lines of each
/// child one level deeper (the depth stops at `usize::MAX`), in order.
pub open spec fn proc_rows(p: ProcView, depth: usize) -> Seq<ProcRowView>
    decreases p, 0nat,
{
    seq![ProcRowView {
        depth,
        pid: p.pid,
        name: p.name,
        private_size: p.private_size,
        pss: p.pss,
        total_private: p.total_private,
        total_pss: p.total_pss,
    }] + proc_rows_of(p.children, depth.saturating_add(1))
}

/// The lines of each of `cs` printed at `depth`, one after the other.
pub open spec fn proc_rows_of(cs: Seq<ProcView>, depth: usize) -> Seq<ProcRowView>
    decreases cs, 0nat,
{
    if cs.len() == 0 {
        Seq::empty()
    } else {
        proc_rows_of(cs.drop_last(), depth) + proc_rows(cs.last(), depth)
    }
}

/// The processes of `p` in depth-first order: `p` itself, then the processes
/// below each child in turn.
pub open spec fn proc_preorder(p: ProcView) -> Seq<ProcView>
    decreases p, 0nat,
{
    seq![p] + proc_preorder_all(p.children)
}

/// The processes of each of `cs` in depth-first order, one after the other.
pub open spec fn proc_preorder_all(cs: Seq<ProcView>) -> Seq<ProcView>
    decreases cs, 0nat,
{
    if cs.len() == 0 {
        Seq::empty()
    } else {
        proc_preorder_all(cs.drop_last()) + proc_preorder(cs.last())
    }
}

/// Whether row `r` shows process `p`: its pid, name and sizes.
pub open spec fn proc_row_shows(r: ProcRowView, p: ProcView) -> bool {
    &&& r.pid == p.pid
    &&& r.name == p.name
    &&& r.private_size == p.private_size
    &&& r.pss == p.pss
    &&& r.total_private == p.total_private
    &&& r.total_pss == p.total_pss
}

/// The listing of a process (`Proc::push_rows`) has one row per process
/// below and including it, in depth-first order, and each row shows the
/// process it stands for.
pub proof fn proc_rows_show(p: ProcView, depth: usize)
    ensures
        proc_rows(p, depth).len() == proc_preorder(p).len(),
        forall|k: int| 0 <= k < proc_preorder(p).len() ==> proc_row_shows(#[trigger] proc_rows(p, depth)[k], proc_preorder(p)[k]),
    decreases p, 0nat,
{
    proc_rows_show_all(p.children, depth.saturating_add(1));
}

/// The listing of processes `cs` (`ProcTree::rows`) has one row per process
/// of their trees, in depth-first order, and each row shows the process it
/// stands for.
pub proof fn proc_rows_show_all(cs: Seq<ProcView>, depth: usize)
    ensures
        proc_rows_of(cs, depth).len() == proc_preorder_all(cs).len(),
        forall|k: int| 0 <= k < proc_preorder_all(cs).len() ==> proc_row_shows(#[trigger] proc_rows_of(cs, depth)[k], proc_preorder_all(cs)[k]),
    decreases cs, 0nat,
{
    if cs.len() > 0 {
        proc_rows_show_all(cs.drop_last(), depth);
        proc_rows_show(cs.last(), depth);
        let r1 = proc_rows_of(cs.drop_last(), depth);
        let p1 = proc_preorder_all(cs.drop_last());
        let r2 = proc_rows(cs.last(), depth);
        let p2 = proc_preorder(cs.last());
        assert forall|k: int| 0 <= k < proc_preorder_all(cs).len() implies proc_row_shows(
            #[trigger] proc_rows_of(cs, depth)[k],
            proc_preorder_all(cs)[k],
        ) by {
            if k < p1.len() {
                assert(proc_rows_of(cs, depth)[k] == r1[k]);
                assert(proc_preorder_all(cs)[k] == p1[k]);
            } else {
                assert(proc_rows_of(cs, depth)[k] == r2[k - r1.len()]);
                assert(proc_preorder_all(cs)[k] == p2[k - p1.len()]);
            }
        }
    }
}

/// The value of an smaps counter line: the key, white space `w`, the
/// decimal digits of `n`, white space `w2`, and `kB`.
pub open spec fn smaps_line_of(key: Seq<char>, w: char, n: u64, w2: char) -> Seq<char> {
    key + seq![w] + (decimal(n as nat) + seq![w2] + "kB"@)
}

/// smaps counters are read in decimal kB and counted in bytes: a line
/// `Key: n kB` gives `n * 1024` (wrapping past `u64::MAX`), whatever its key.
pub proof fn smaps_value_in_bytes(key: Seq<char>, w: char, n: u64, w2: char)
    requires
        key.len() > 0,
        no_ws(key),
        is_ws(w),
        is_ws(w2),
    ensures
        smaps_value(smaps_line_of(key, w, n, w2)) == Some(u64_specs::wrapping_mul(n, 1024)),
{
    reveal_strlit("kB");
    let d = decimal(n as nat);
    lemma_decimal(n as nat);
    lemma_parse_dec_decimal(n);
    assert(no_ws("kB"@));
    lemma_words_first(key, w, d + seq![w2] + "kB"@);
    lemma_words_two(d, w2, "kB"@);
}

impl Proc {
    /// Appends to `out` the lines of this process printed at `depth` (see
    /// `proc_rows`).
    pub fn push_rows(&self, depth: usize, out: &mut Vec<ProcRow>)
        ensures
            proc_row_views(final(out)@) == proc_row_views(old(out)@) + proc_rows(self@, depth),
        decreases self,
    {
        let ghost start = proc_row_views(out@);
        out.push(
            ProcRow {
                depth,
                pid: self.pid,
                name: self.name.clone(),
                private_size: self.private_size,
                pss: self.pss,
                total_private: self.total_private,
                total_pss: self.total_pss,
            },
        );
        let ghost head = proc_row_views(out@);
        assert(head =~= start + proc_rows(self@, depth).take(1));
        let d = depth.saturating_add(1);
        let n = self.children.len();
        let ghost cs = proc_views(self.children@);
        proof {
            lemma_proc_views(self.children@);
        }
        let mut i: usize = 0;
        assert(cs.take(0) =~= Seq::<ProcView>::empty());
        while i < n
            invariant
                n == self.children.len(),
                cs == proc_views(self.children@),
                cs.len() == n,
                forall|k: int| 0 <= k < n ==> #[trigger] cs[k] == self.children@[k]@,
                i <= n,
                d == depth.saturating_add(1),
                proc_row_views(out@) == head + proc_rows_of(cs.take(i as int), d),
            decreases n - i,
        {
            assert(decreases_to!(self => self.children));
            assert(decreases_to!(self.children => self.children@));
            assert(decreases_to!(self.children@ => self.children@[i as int]));
            self.children[i].push_rows(d, out);
            assert(cs.take(i + 1).drop_last() == cs.take(i as int));
            assert(cs.take(i + 1).last() == cs[i as int]);
            assert(proc_row_views(out@) =~= head + proc_rows_of(cs.take(i + 1), d));
            i += 1;
        }
        assert(cs.take(n as int) == cs);
        assert(proc_row_views(out@) =~= start + proc_rows(self@, depth));
    }
}

impl ProcTree {
    /// The lines of the printed tree: each root and every process below it,
    /// depth first, children one level deeper (see `proc_rows_of`).
    pub fn rows(&self) -> (rows: Vec<ProcRow>)
        ensures
            proc_row_views(rows@) == proc_rows_of(self@.roots, 0),
    {
        let mut out: Vec<ProcRow> = Vec::new();
        let n = self.roots.len();
        let ghost cs = proc_views(self.roots@);
        proof {
            lemma_proc_views(self.roots@);
        }
        let mut i: usize = 0;
        assert(cs.take(0) =~= Seq::<ProcView>::empty());
        assert(proc_row_views(out@) =~= Seq::<ProcRowView>::empty());
        while i < n
            invariant
                n == self.roots.len(),
                cs == proc_views(self.roots@),
                cs.len() == n,
                forall|k: int| 0 <= k < n ==> #[trigger] cs[k] == self.roots@[k]@,
                i <= n,
                proc_row_views(out@) == proc_rows_of(cs.take(i as int), 0),
            decreases n - i,
        {
            self.roots[i].push_rows(0, &mut out);
            assert(cs.take(i + 1).drop_last() == cs.take(i as int));
            assert(cs.take(i + 1).last() == cs[i as int]);
            i += 1;
        }
        assert(cs.take(n as int) == cs);
        out
    }
}

/// After `ProcTree::sort_by_size`: the roots come largest first by total
/// private size, and so do the children of every process below them; the
/// roots are the same ones, each sorted in turn; the executables and the libraries are listed
/// largest first by shared size, each list holding exactly the entries that
/// were counted.
pub proof fn tree_sort_orders(t: ProcTreeView)
    ensures
        ({
            let r = stable_sort::<ProcView, ByTotalPrivateDesc>(all_procs_sorted(t.roots));
            &&& r.len() == t.roots.len()
            &&& r.to_multiset() == all_procs_sorted(t.roots).to_multiset()
            &&& forall|i: int, j: int| 0 <= i < j < r.len() ==> r[i].total_private >= r[j].total_private
            &&& forall|i: int| 0 <= i < r.len() ==> sorted_every_level(#[trigger] r[i])
        }),
        shared_sorted(stable_sort::<SharedView, BySharedDesc>(t.exes)),
        stable_sort::<SharedView, BySharedDesc>(t.exes).to_multiset() == t.exes.to_multiset(),
        shared_sorted(stable_sort::<SharedView, BySharedDesc>(t.libs)),
        stable_sort::<SharedView, BySharedDesc>(t.libs).to_multiset() == t.libs.to_multiset(),
{
    let top = ProcView {
        pid: 0,
        ppid: 0,
        private_size: 0,
        total_private: 0,
        pss: 0,
        total_pss: 0,
        name: Seq::empty(),
        children: t.roots,
    };
    sort_orders_every_level(top);
    shared_sort_orders(t.exes);
    shared_sort_orders(t.libs);
}

/// Whether `s` comes largest first by `total_size`.
pub open spec fn shared_sorted(s: Seq<SharedView>) -> bool {
    forall|i: int, j: int| 0 <= i < j < s.len() ==> s[i].total_size >= s[j].total_size
}

/// Sorting executables or libraries by shared size puts the largest first and
/// keeps exactly the same entries.
pub proof fn shared_sort_orders(s: Seq<SharedView>)
    ensures
        shared_sorted(stable_sort::<SharedView, BySharedDesc>(s)),
        stable_sort::<SharedView, BySharedDesc>(s).to_multiset() == s.to_multiset(),
{
    let r = stable_sort::<SharedView, BySharedDesc>(s);
    lemma_stable_sort_sorted::<SharedView, BySharedDesc>(s);
    lemma_stable_sort_permutes::<SharedView, BySharedDesc>(s);
    assert forall|i: int, j: int| 0 <= i < j < r.len() implies r[i].total_size >= r[j].total_size by {
        assert(SpecKey::<BySharedDesc>::sort_key(&r[i]) <= SpecKey::<BySharedDesc>::sort_key(&r[j]));
    }
}

impl ProcTree {
    /// The total private size of this program's process, or 0 when it was not
    /// found below the roots.
    pub fn own_private(&self) -> (r: u64)
        ensures
            r == match self@.own_proc {
                Some(p) => p.total_private,
                None => 0,
            },
    {
        match &self.own_proc {
            Some(p) => p.total_private,
            None => 0,
        }
    }
}

} // verus!
