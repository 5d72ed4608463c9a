use vstd::prelude::*;
use crate::text::{
    same_chars, split_on, split_text,
    has_prefix, lines, parse_u64, parsed_u64, starts_with, text_chars, text_lines, text_words, trim,
    trim_bounds, words,
};

use crate::online::{lists_in_order, texts_view};
use crate::textmap::TextMap;

verus! {

/// `a * b`, or `u64::MAX` where the product does not fit.
pub open spec fn saturated_product(a: u64, b: u64) -> u64 {
    if a * b > u64::MAX {
        u64::MAX
    } else {
        (a * b) as u64
    }
}

/// `a * b`, saturating at `u64::MAX`.
pub fn saturating_mul_u64(a: u64, b: u64) -> (r: u64)
    ensures
        r == saturated_product(a, b),
{
    match a.checked_mul(b) {
        Some(p) => p,
        None => u64::MAX,
    }
}

/// `a + b`, or `u64::MAX` where the sum does not fit.
pub open spec fn saturated_sum(a: u64, b: u64) -> u64 {
    if a + b > u64::MAX {
        u64::MAX
    } else {
        (a + b) as u64
    }
}

/// The parsed value of a number, or 0 where it does not parse.
pub open spec fn number_or_zero(s: Seq<char>) -> u64 {
    match parsed_u64(s) {
        Some(v) => v,
        None => 0,
    }
}

/// The bytes a `/proc` status value such as `" 1234 kB"` stands for: its first word
/// read as KiB (saturating); 0 when there is no number.
pub open spec fn status_kib_bytes(value: Seq<char>) -> u64 {
    let w = words(value);
    if w.len() > 0 {
        match parsed_u64(w[0]) {
            Some(kib) => saturated_product(kib, 1024),
            None => 0,
        }
    } else {
        0
    }
}

fn status_kib_chars(value: &[char]) -> (r: u64)
    ensures
        r == status_kib_bytes(value@),
{
    let w = text_words(value);
    proof {
        assert(w@.len() == w@.map_values(|p: Vec<char>| p@).len());
    }
    if w.len() == 0 {
        return 0;
    }
    proof {
        assert(w@.map_values(|p: Vec<char>| p@)[0] == w@[0]@);
    }
    match parse_u64(w[0].as_slice()) {
        Some(kib) => saturating_mul_u64(kib, 1024),
        None => 0,
    }
}

/// Reads a `/proc` status value given in KiB, such as `" 1234 kB"`, as bytes.
pub fn parse_status_kib(value: &str) -> (r: u64)
    ensures
        r == status_kib_bytes(value@),
{
    let chars = text_chars(value);
    status_kib_chars(chars.as_slice())
}

/// The resident memory and thread count of a `/proc/self/status` text, given the
/// values found in the lines before: a `VmRSS:` line sets the memory (from KiB), a
/// `Threads:` line the count (0 where it does not parse); later lines win.
pub open spec fn process_status_from(ls: Seq<Seq<char>>, memory: u64, threads: u64) -> (u64, u64)
    decreases ls.len(),
{
    if ls.len() == 0 {
        (memory, threads)
    } else {
        let line = ls[0];
        if has_prefix(line, "VmRSS:"@) {
            process_status_from(
                ls.drop_first(),
                status_kib_bytes(line.skip("VmRSS:"@.len() as int)),
                threads,
            )
        } else if has_prefix(line, "Threads:"@) {
            process_status_from(
                ls.drop_first(),
                memory,
                number_or_zero(trim(line.skip("Threads:"@.len() as int))),
            )
        } else {
            process_status_from(ls.drop_first(), memory, threads)
        }
    }
}

/// The resident memory (bytes) and thread count reported by a `/proc/self/status` text.
pub fn process_status_snapshot(status: &str) -> (r: (u64, u64))
    ensures
        r == process_status_from(lines(status@), 0, 0),
{
    let chars = text_chars(status);
    let ls = text_lines(chars.as_slice());
    let ghost all = ls@.map_values(|p: Vec<char>| p@);
    let memory_key = text_chars("VmRSS:");
    let threads_key = text_chars("Threads:");
    let mut memory: u64 = 0;
    let mut threads: u64 = 0;
    let mut i: usize = 0;
    proof {
        assert(all.skip(0) =~= all);
    }
    while i < ls.len()
        invariant
            all == ls@.map_values(|p: Vec<char>| p@),
            all == lines(status@),
            memory_key@ == "VmRSS:"@,
            threads_key@ == "Threads:"@,
            i <= ls@.len(),
            process_status_from(all, 0, 0) == process_status_from(all.skip(i as int), memory, threads),
        decreases ls@.len() - i,
    {
        let line = ls[i].as_slice();
        proof {
            assert(all.skip(i as int)[0] == line@);
            assert(all.skip(i as int).drop_first() =~= all.skip(i + 1));
        }
        if starts_with(line, memory_key.as_slice()) {
            let value = &line[memory_key.len()..line.len()];
            proof {
                assert(value@ =~= line@.skip("VmRSS:"@.len() as int));
            }
            memory = status_kib_chars(value);
        } else if starts_with(line, threads_key.as_slice()) {
            let value = &line[threads_key.len()..line.len()];
            proof {
                assert(value@ =~= line@.skip("Threads:"@.len() as int));
            }
            let (a, b) = trim_bounds(value);
            threads = match parse_u64(&value[a..b]) {
                Some(n) => n,
                None => 0,
            };
        }
        i += 1;
    }
    proof {
        assert(all.skip(i as int) =~= Seq::<Seq<char>>::empty());
    }
    (memory, threads)
}

/// Devices whose counters the disk I/O totals leave out: loop, RAM, floppy and
/// optical devices.
pub open spec fn skipped_device(name: Seq<char>) -> bool {
    has_prefix(name, "loop"@) || has_prefix(name, "ram"@) || has_prefix(name, "fd"@) || has_prefix(
        name,
        "sr"@,
    )
}

/// Bytes read and written according to the `/proc/diskstats` lines `ls`, on top of
/// the totals so far: each line with at least 14 fields whose device is not skipped
/// adds its sectors read (field 5) and written (field 9), 512 bytes each; fields that
/// do not parse count as 0, and every step saturates.
pub open spec fn disk_io_from(ls: Seq<Seq<char>>, read: u64, write: u64) -> (u64, u64)
    decreases ls.len(),
{
    if ls.len() == 0 {
        (read, write)
    } else {
        let f = words(ls[0]);
        if f.len() < 14 || skipped_device(f[2]) {
            disk_io_from(ls.drop_first(), read, write)
        } else {
            disk_io_from(
                ls.drop_first(),
                saturated_sum(read, saturated_product(number_or_zero(f[5]), 512)),
                saturated_sum(write, saturated_product(number_or_zero(f[9]), 512)),
            )
        }
    }
}

/// A `/proc/diskstats` line of a loop, RAM, floppy or optical device (its device name
/// starts with `loop`, `ram`, `fd` or `sr`), or one with fewer than 14 fields, leaves
/// the totals as they are, wherever it stands among the lines.
pub proof fn lemma_skipped_lines_count_nothing(
    before: Seq<Seq<char>>,
    line: Seq<char>,
    after: Seq<Seq<char>>,
    read: u64,
    write: u64,
)
    requires
        words(line).len() < 14 || has_prefix(words(line)[2], "loop"@) || has_prefix(
            words(line)[2],
            "ram"@,
        ) || has_prefix(words(line)[2], "fd"@) || has_prefix(words(line)[2], "sr"@),
    ensures
        disk_io_from(before + seq![line] + after, read, write) == disk_io_from(
            before + after,
            read,
            write,
        ),
    decreases before.len(),
{
    if before.len() == 0 {
        assert(before + seq![line] + after =~= seq![line] + after);
        assert((seq![line] + after).drop_first() =~= after);
        assert(before + after =~= after);
    } else {
        let f = words(before[0]);
        let with = before + seq![line] + after;
        let without = before + after;
        assert(with[0] == before[0] && without[0] == before[0]);
        assert(with.drop_first() =~= before.drop_first() + seq![line] + after);
        assert(without.drop_first() =~= before.drop_first() + after);
        if f.len() < 14 || skipped_device(f[2]) {
            lemma_skipped_lines_count_nothing(before.drop_first(), line, after, read, write);
        } else {
            lemma_skipped_lines_count_nothing(
                before.drop_first(),
                line,
                after,
                saturated_sum(read, saturated_product(number_or_zero(f[5]), 512)),
                saturated_sum(write, saturated_product(number_or_zero(f[9]), 512)),
            );
        }
    }
}

fn number_or_zero_chars(s: &[char]) -> (r: u64)
    ensures
        r == number_or_zero(s@),
{
    match parse_u64(s) {
        Some(v) => v,
        None => 0,
    }
}

/// Total bytes read and written by the block devices listed in a `/proc/diskstats` text.
pub fn disk_io_totals(content: &str) -> (r: (u64, u64))
    ensures
        r == disk_io_from(lines(content@), 0, 0),
{
    let chars = text_chars(content);
    let ls = text_lines(chars.as_slice());
    let ghost all = ls@.map_values(|p: Vec<char>| p@);
    let loop_prefix = text_chars("loop");
    let ram_prefix = text_chars("ram");
    let fd_prefix = text_chars("fd");
    let sr_prefix = text_chars("sr");
    let mut read: u64 = 0;
    let mut write: u64 = 0;
    let mut i: usize = 0;
    proof {
        assert(all.skip(0) =~= all);
    }
    while i < ls.len()
        invariant
            all == ls@.map_values(|p: Vec<char>| p@),
            all == lines(content@),
            loop_prefix@ == "loop"@,
            ram_prefix@ == "ram"@,
            fd_prefix@ == "fd"@,
            sr_prefix@ == "sr"@,
            i <= ls@.len(),
            disk_io_from(all, 0, 0) == disk_io_from(all.skip(i as int), read, write),
        decreases ls@.len() - i,
    {
        let line = ls[i].as_slice();
        proof {
            assert(all.skip(i as int)[0] == line@);
            assert(all.skip(i as int).drop_first() =~= all.skip(i + 1));
        }
        let fields = text_words(line);
        let ghost fs = fields@.map_values(|p: Vec<char>| p@);
        proof {
            assert(fs.len() == fields@.len());
        }
        if fields.len() >= 14 {
            let name = fields[2].as_slice();
            proof {
                assert(fs[2] == name@);
                assert(fs[5] == fields@[5]@);
                assert(fs[9] == fields@[9]@);
            }
            if !(starts_with(name, loop_prefix.as_slice()) || starts_with(name, ram_prefix.as_slice())
                || starts_with(name, fd_prefix.as_slice()) || starts_with(
                name,
                sr_prefix.as_slice(),
            )) {
                let sectors_read = number_or_zero_chars(fields[5].as_slice());
                let sectors_written = number_or_zero_chars(fields[9].as_slice());
                read = read.saturating_add(saturating_mul_u64(sectors_read, 512));
                write = write.saturating_add(saturating_mul_u64(sectors_written, 512));
            }
        }
        i += 1;
    }
    proof {
        assert(all.skip(i as int) =~= Seq::<Seq<char>>::empty());
    }
    (read, write)
}

/// The sizes of one mounted disk, and whether it is mounted at `/`.
#[derive(Debug, Clone, Copy, PartialEq, Eq, Structural)]
pub struct DiskInfo {
    pub is_root: bool,
    pub total_space: u64,
    pub available_space: u64,
}

/// Space used and total space of a disk.
#[derive(Debug, Clone, Copy, PartialEq, Eq, Structural)]
pub struct DiskUsage {
    pub current: u64,
    pub total: u64,
}

/// The index of the last disk with the largest total space among the first `n`.
pub open spec fn largest_disk(disks: Seq<DiskInfo>, n: int) -> int
    decreases n,
{
    if n <= 1 {
        0
    } else {
        let best = largest_disk(disks, n - 1);
        if disks[n - 1].total_space >= disks[best].total_space {
            n - 1
        } else {
            best
        }
    }
}

/// The index of the first disk mounted at `/`, if any.
pub open spec fn root_disk(disks: Seq<DiskInfo>) -> Option<int> {
    if exists|i: int| 0 <= i < disks.len() && #[trigger] disks[i].is_root {
        Some(choose|i: int| 0 <= i < disks.len() && #[trigger] disks[i].is_root && forall|j: int|
            0 <= j < i ==> !(#[trigger] disks[j].is_root))
    } else {
        None
    }
}

/// The usage of one disk: total space less what is available (never below zero).
pub open spec fn usage_of(d: DiskInfo) -> DiskUsage {
    DiskUsage {
        current: if d.total_space >= d.available_space {
            (d.total_space - d.available_space) as u64
        } else {
            0
        },
        total: d.total_space,
    }
}

/// The disk the status page reports: the one mounted at `/`, else the last of the
/// largest ones; nothing at all counts as an empty disk.
pub open spec fn reported_usage(disks: Seq<DiskInfo>) -> DiskUsage {
    match root_disk(disks) {
        Some(i) => usage_of(disks[i]),
        None => if disks.len() == 0 {
            DiskUsage { current: 0, total: 0 }
        } else {
            usage_of(disks[largest_disk(disks, disks.len() as int)])
        },
    }
}

/// Whether disk `i` has the largest total space, and no later disk has as much.
pub open spec fn last_largest(disks: Seq<DiskInfo>, i: int) -> bool {
    &&& 0 <= i < disks.len()
    &&& forall|j: int| 0 <= j < disks.len() ==> #[trigger] disks[j].total_space <= disks[i].total_space
    &&& forall|j: int| i < j < disks.len() ==> #[trigger] disks[j].total_space < disks[i].total_space
}

/// Whether disk `i` is the first one mounted at `/`.
pub open spec fn first_root(disks: Seq<DiskInfo>, i: int) -> bool {
    &&& 0 <= i < disks.len()
    &&& disks[i].is_root
    &&& forall|j: int| 0 <= j < i ==> !(#[trigger] disks[j].is_root)
}

/// With no disk mounted at `/`, the status page reports a disk with the largest total
/// space (the last such one); otherwise it reports the first disk mounted at `/`.
pub proof fn lemma_reported_disk(disks: Seq<DiskInfo>)
    ensures
        disks.len() > 0 && (forall|j: int| 0 <= j < disks.len() ==> !(#[trigger] disks[j].is_root))
            ==> (exists|i: int| last_largest(disks, i) && reported_usage(disks) == usage_of(disks[i])),
        forall|i: int| first_root(disks, i) ==> reported_usage(disks) == usage_of(disks[i]),
        disks.len() == 0 ==> reported_usage(disks).total == 0 && reported_usage(disks).current == 0,
{
    if disks.len() > 0 && forall|j: int| 0 <= j < disks.len() ==> !(#[trigger] disks[j].is_root) {
        assert(root_disk(disks) is None);
        let n = disks.len() as int;
        lemma_largest_disk_is_largest(disks, n);
        let b = largest_disk(disks, n);
        assert(last_largest(disks, b));
    }
    assert forall|i: int| first_root(disks, i) implies reported_usage(disks) == usage_of(disks[i]) by {
        assert(disks[i].is_root);
        let k = root_disk(disks)->0;
        assert(0 <= k < disks.len() && disks[k].is_root);
        assert(k == i) by {
            if k < i {
                assert(!disks[k].is_root);
            } else if k > i {
                assert(!disks[i].is_root);
            }
        }
    }
}

proof fn lemma_largest_disk_is_largest(disks: Seq<DiskInfo>, n: int)
    requires
        1 <= n <= disks.len(),
    ensures
        0 <= largest_disk(disks, n) < n,
        forall|j: int| 0 <= j < n ==> #[trigger] disks[j].total_space <= disks[largest_disk(disks, n)].total_space,
        forall|j: int|
            largest_disk(disks, n) < j < n ==> #[trigger] disks[j].total_space < disks[largest_disk(
                disks,
                n,
            )].total_space,
    decreases n,
{
    if n > 1 {
        lemma_largest_disk_is_largest(disks, n - 1);
    }
}

proof fn lemma_largest_disk_range(disks: Seq<DiskInfo>, n: int)
    requires
        1 <= n <= disks.len(),
    ensures
        0 <= largest_disk(disks, n) < n,
    decreases n,
{
    if n > 1 {
        lemma_largest_disk_range(disks, n - 1);
    }
}

/// Picks the disk to report and computes its usage.
pub fn disk_usage(disks: &Vec<DiskInfo>) -> (r: DiskUsage)
    ensures
        r == reported_usage(disks@),
{
    let mut i: usize = 0;
    while i < disks.len()
        invariant
            i <= disks@.len(),
            forall|j: int| 0 <= j < i ==> !(#[trigger] disks@[j].is_root),
        decreases disks@.len() - i,
    {
        if disks[i].is_root {
            let d = disks[i];
            proof {
                let r = root_disk(disks@);
                assert(disks@[i as int].is_root);
                let k = r->0;
                assert(k == i as int) by {
                    if k < i {
                        assert(!disks@[k].is_root);
                    } else if k > i {
                        assert(!disks@[i as int].is_root);
                    }
                }
            }
            return DiskUsage { current: d.total_space.saturating_sub(d.available_space), total: d.total_space };
        }
        i += 1;
    }
    proof {
        assert(root_disk(disks@) is None);
    }
    if disks.len() == 0 {
        return DiskUsage { current: 0, total: 0 };
    }
    let mut best: usize = 0;
    let mut k: usize = 1;
    while k < disks.len()
        invariant
            1 <= k <= disks@.len(),
            best as int == largest_disk(disks@, k as int),
            best < k,
        decreases disks@.len() - k,
    {
        proof {
            lemma_largest_disk_range(disks@, k as int);
        }
        if disks[k].total_space >= disks[best].total_space {
            best = k;
        }
        k += 1;
    }
    let d = disks[best];
    DiskUsage { current: d.total_space.saturating_sub(d.available_space), total: d.total_space }
}

/// Totals over all network interfaces.
#[derive(Debug, Clone, Copy, PartialEq, Eq, Structural)]
pub struct NetworkTotals {
    pub sent: u64,
    pub recv: u64,
    pub psent: u64,
    pub precv: u64,
}

/// Bytes and packets sent and received by one interface.
#[derive(Debug, Clone, Copy, PartialEq, Eq, Structural)]
pub struct InterfaceCounters {
    pub transmitted: u64,
    pub received: u64,
    pub packets_transmitted: u64,
    pub packets_received: u64,
}

/// A sum of counters that saturates at `u64::MAX`.
pub open spec fn capped_total(n: int) -> u64 {
    if n > u64::MAX {
        u64::MAX
    } else {
        n as u64
    }
}

/// The sum of one counter over the first `n` interfaces.
pub open spec fn counter_sum(xs: Seq<InterfaceCounters>, n: int, pick: spec_fn(InterfaceCounters) -> u64) -> int
    decreases n,
{
    if n <= 0 {
        0
    } else {
        counter_sum(xs, n - 1, pick) + pick(xs[n - 1]) as int
    }
}

/// Adds the counters of every interface; each total stops at `u64::MAX`.
pub fn network_totals(interfaces: &Vec<InterfaceCounters>) -> (r: NetworkTotals)
    ensures
        r.sent == capped_total(
            counter_sum(interfaces@, interfaces@.len() as int, |c: InterfaceCounters| c.transmitted),
        ),
        r.recv == capped_total(
            counter_sum(interfaces@, interfaces@.len() as int, |c: InterfaceCounters| c.received),
        ),
        r.psent == capped_total(
            counter_sum(
                interfaces@,
                interfaces@.len() as int,
                |c: InterfaceCounters| c.packets_transmitted,
            ),
        ),
        r.precv == capped_total(
            counter_sum(interfaces@, interfaces@.len() as int, |c: InterfaceCounters| c.packets_received),
        ),
{
    let ghost f0 = |c: InterfaceCounters| c.transmitted;
    let ghost f1 = |c: InterfaceCounters| c.received;
    let ghost f2 = |c: InterfaceCounters| c.packets_transmitted;
    let ghost f3 = |c: InterfaceCounters| c.packets_received;
    let mut t = NetworkTotals { sent: 0, recv: 0, psent: 0, precv: 0 };
    let mut i: usize = 0;
    while i < interfaces.len()
        invariant
            i <= interfaces@.len(),
            f0 == (|c: InterfaceCounters| c.transmitted),
            f1 == (|c: InterfaceCounters| c.received),
            f2 == (|c: InterfaceCounters| c.packets_transmitted),
            f3 == (|c: InterfaceCounters| c.packets_received),
            t.sent == capped_total(counter_sum(interfaces@, i as int, f0)),
            t.recv == capped_total(counter_sum(interfaces@, i as int, f1)),
            t.psent == capped_total(counter_sum(interfaces@, i as int, f2)),
            t.precv == capped_total(counter_sum(interfaces@, i as int, f3)),
            counter_sum(interfaces@, i as int, f0) >= 0,
            counter_sum(interfaces@, i as int, f1) >= 0,
            counter_sum(interfaces@, i as int, f2) >= 0,
            counter_sum(interfaces@, i as int, f3) >= 0,
        decreases interfaces@.len() - i,
    {
        let c = interfaces[i];
        t = NetworkTotals {
            sent: t.sent.saturating_add(c.transmitted),
            recv: t.recv.saturating_add(c.received),
            psent: t.psent.saturating_add(c.packets_transmitted),
            precv: t.precv.saturating_add(c.packets_received),
        };
        i += 1;
    }
    t
}

/// A section of the status page.
#[derive(Debug, Clone, Copy, PartialEq, Eq, Structural)]
pub enum StatusSection {
    Cpu,
    Mem,
    Dsk,
    Dio,
    Swp,
    Net,
    Sys,
    Sbd,
    Db,
}

/// The section a request item names, if it names one.
pub open spec fn section_named(item: Seq<char>) -> Option<StatusSection> {
    if item == "cpu"@ {
        Some(StatusSection::Cpu)
    } else if item == "mem"@ {
        Some(StatusSection::Mem)
    } else if item == "dsk"@ {
        Some(StatusSection::Dsk)
    } else if item == "dio"@ {
        Some(StatusSection::Dio)
    } else if item == "swp"@ {
        Some(StatusSection::Swp)
    } else if item == "net"@ {
        Some(StatusSection::Net)
    } else if item == "sys"@ {
        Some(StatusSection::Sys)
    } else if item == "sbd"@ {
        Some(StatusSection::Sbd)
    } else if item == "db"@ {
        Some(StatusSection::Db)
    } else {
        None
    }
}

/// The sections named by the items, in order; items naming no section are dropped.
pub open spec fn sections_named(items: Seq<Seq<char>>) -> Seq<StatusSection>
    decreases items.len(),
{
    if items.len() == 0 {
        Seq::empty()
    } else {
        let earlier = sections_named(items.drop_last());
        match section_named(items.last()) {
            Some(section) => earlier.push(section),
            None => earlier,
        }
    }
}

fn section_of(item: &[char]) -> (r: Option<StatusSection>)
    ensures
        r == section_named(item@),
{
    if same_chars(item, text_chars("cpu").as_slice()) {
        Some(StatusSection::Cpu)
    } else if same_chars(item, text_chars("mem").as_slice()) {
        Some(StatusSection::Mem)
    } else if same_chars(item, text_chars("dsk").as_slice()) {
        Some(StatusSection::Dsk)
    } else if same_chars(item, text_chars("dio").as_slice()) {
        Some(StatusSection::Dio)
    } else if same_chars(item, text_chars("swp").as_slice()) {
        Some(StatusSection::Swp)
    } else if same_chars(item, text_chars("net").as_slice()) {
        Some(StatusSection::Net)
    } else if same_chars(item, text_chars("sys").as_slice()) {
        Some(StatusSection::Sys)
    } else if same_chars(item, text_chars("sbd").as_slice()) {
        Some(StatusSection::Sbd)
    } else if same_chars(item, text_chars("db").as_slice()) {
        Some(StatusSection::Db)
    } else {
        None
    }
}

/// The sections a comma-separated status request asks for, in request order.
pub fn status_sections(request: &str) -> (r: Vec<StatusSection>)
    ensures
        r@ == sections_named(split_on(request@, ","@)),
{
    proof {
        reveal_strlit(",");
    }
    let chars = text_chars(request);
    let comma = text_chars(",");
    let items = split_text(chars.as_slice(), comma.as_slice());
    let ghost all = items@.map_values(|p: Vec<char>| p@);
    let mut sections: Vec<StatusSection> = Vec::new();
    let mut i: usize = 0;
    proof {
        assert(all.take(0) =~= Seq::<Seq<char>>::empty());
    }
    while i < items.len()
        invariant
            all == items@.map_values(|p: Vec<char>| p@),
            all == split_on(request@, ","@),
            i <= items@.len(),
            sections@ == sections_named(all.take(i as int)),
        decreases items@.len() - i,
    {
        proof {
            assert(all.take(i + 1).drop_last() =~= all.take(i as int));
            assert(all.take(i + 1).last() == items@[i as int]@);
        }
        match section_of(items[i].as_slice()) {
            Some(section) => sections.push(section),
            None => {},
        }
        i += 1;
    }
    proof {
        assert(all.take(i as int) =~= all);
    }
    sections
}

/// One address of a network interface, as text.
#[derive(Debug, Clone, PartialEq, Eq)]
pub struct InterfaceAddress {
    pub is_loopback: bool,
    pub is_ipv6: bool,
    pub ip: String,
}

/// The addresses the status page lists: of non-loopback interfaces, IPv4 ones, or
/// IPv6 ones that are not link-local (`fe80:`).
pub open spec fn listed_addresses(entries: Seq<InterfaceAddress>, ipv6: bool) -> Set<Seq<char>> {
    Set::new(
        |ip: Seq<char>|
            exists|i: int|
                0 <= i < entries.len() && #[trigger] entries[i].ip@ == ip && !entries[i].is_loopback
                    && entries[i].is_ipv6 == ipv6 && (ipv6 ==> !has_prefix(ip, "fe80:"@)),
    )
}

/// The IPv4 and IPv6 addresses to list, each sorted and without repeats.
pub fn interface_address_lists(entries: &Vec<InterfaceAddress>) -> (r: (Vec<String>, Vec<String>))
    ensures
        lists_in_order(texts_view(r.0), listed_addresses(entries@, false)),
        lists_in_order(texts_view(r.1), listed_addresses(entries@, true)),
{
    let link_local = text_chars("fe80:");
    let mut ipv4: TextMap<()> = TextMap::new();
    let mut ipv6: TextMap<()> = TextMap::new();
    let mut i: usize = 0;
    proof {
        assert(ipv4@.dom() =~= listed_addresses(entries@.take(0), false));
        assert(ipv6@.dom() =~= listed_addresses(entries@.take(0), true));
    }
    while i < entries.len()
        invariant
            i <= entries@.len(),
            link_local@ == "fe80:"@,
            ipv4@.dom() == listed_addresses(entries@.take(i as int), false),
            ipv6@.dom() == listed_addresses(entries@.take(i as int), true),
        decreases entries@.len() - i,
    {
        let entry = &entries[i];
        let ghost t = entries@.take(i + 1);
        let ghost before = entries@.take(i as int);
        proof {
            assert(t =~= before.push(*entry));
        }
        let mut added: bool = false;
        if !entry.is_loopback {
            if !entry.is_ipv6 {
                ipv4.insert(entry.ip.clone(), ());
                added = true;
            } else {
                let chars = text_chars(entry.ip.as_str());
                if !starts_with(chars.as_slice(), link_local.as_slice()) {
                    ipv6.insert(entry.ip.clone(), ());
                    added = true;
                }
            }
        }
        proof {
            let counted = !entry.is_loopback && (entry.is_ipv6 ==> !has_prefix(entry.ip@, "fe80:"@));
            assert(added == counted);
            assert forall|v6: bool| #[trigger] listed_addresses(t, v6) =~= if counted && entry.is_ipv6
                == v6 {
                listed_addresses(before, v6).insert(entry.ip@)
            } else {
                listed_addresses(before, v6)
            } by {
                assert forall|x: Seq<char>| #[trigger] listed_addresses(t, v6).contains(x) == (if counted
                    && entry.is_ipv6 == v6 {
                    listed_addresses(before, v6).insert(entry.ip@)
                } else {
                    listed_addresses(before, v6)
                }).contains(x) by {
                    if listed_addresses(t, v6).contains(x) {
                        let j = choose|j: int|
                            0 <= j < t.len() && #[trigger] t[j].ip@ == x && !t[j].is_loopback
                                && t[j].is_ipv6 == v6 && (v6 ==> !has_prefix(x, "fe80:"@));
                        if j < i {
                            assert(before[j] == t[j]);
                        }
                    }
                    if listed_addresses(before, v6).contains(x) {
                        let j = choose|j: int|
                            0 <= j < before.len() && #[trigger] before[j].ip@ == x
                                && !before[j].is_loopback && before[j].is_ipv6 == v6 && (v6
                                ==> !has_prefix(x, "fe80:"@));
                        assert(t[j] == before[j]);
                    }
                    if counted && entry.is_ipv6 == v6 && x == entry.ip@ {
                        assert(t[i as int] == *entry);
                    }
                }
            }
            assert(ipv4@.dom() =~= listed_addresses(t, false));
            assert(ipv6@.dom() =~= listed_addresses(t, true));
        }
        i += 1;
    }
    proof {
        assert(entries@.take(i as int) =~= entries@);
    }
    (ipv4.into_keys(), ipv6.into_keys())
}

} // verus!
