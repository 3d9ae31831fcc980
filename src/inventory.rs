//! The device inventory: devices and partitions read from a disk-listing report.
use vstd::prelude::*;
use vstd::utf8::{decode_utf8, encode_utf8, valid_utf8};
use crate::mounts::{is_mounted, mounted_in};
use crate::text::{
    all_digits, is_blank, lemma_skip_to, lemma_word_to, decimal_u64, decode_text, field, field_end, field_start, next_field,
    parse_decimal, range_eq, range_starts_with, text_in,
};

verus! {

/// One partition row of the report.
pub struct PartitionData {
    pub id: String,
    pub start: u64,
    pub end: u64,
    pub size: String,
    pub fstype: String,
    /// Whether the mount table listed the partition when it was read.
    pub is_mounted: bool,
}

pub struct PartitionView {
    pub id: Seq<char>,
    pub start: u64,
    pub end: u64,
    pub size: Seq<char>,
    pub fstype: Seq<char>,
    pub mounted: bool,
}

impl View for PartitionData {
    type V = PartitionView;

    open spec fn view(&self) -> PartitionView {
        PartitionView {
            id: self.id@,
            start: self.start,
            end: self.end,
            size: self.size@,
            fstype: self.fstype@,
            mounted: self.is_mounted,
        }
    }
}

/// One device of the report, with the partitions listed under it.
pub struct DiskData {
    pub path: String,
    /// The size as the report displays it, such as `931.51`.
    pub size: String,
    /// The unit of the displayed size, such as `GiB`.
    pub size_unit: String,
    /// The byte count that the report gives.
    pub bytes: u64,
    pub partitions: Vec<PartitionData>,
}

pub struct DiskView {
    pub path: Seq<char>,
    pub size: Seq<char>,
    pub size_unit: Seq<char>,
    pub bytes: u64,
    pub partitions: Seq<PartitionView>,
}

pub open spec fn partition_views(ps: Seq<PartitionData>) -> Seq<PartitionView> {
    ps.map_values(|p: PartitionData| p@)
}

pub open spec fn disk_views(ds: Seq<DiskData>) -> Seq<DiskView> {
    ds.map_values(|d: DiskData| d@)
}

impl View for DiskData {
    type V = DiskView;

    open spec fn view(&self) -> DiskView {
        DiskView {
            path: self.path@,
            size: self.size@,
            size_unit: self.size_unit@,
            bytes: self.bytes,
            partitions: partition_views(self.partitions@),
        }
    }
}

pub open spec fn prefix_of(p: Seq<u8>, s: Seq<u8>) -> bool {
    p.len() <= s.len() && s.subrange(0, p.len() as int) == p
}

/// A row of a bootable partition carries `*` as its second field.
pub open spec fn is_boot_row(line: Seq<u8>) -> bool {
    field(line, 1) == seq![42u8]
}

/// The partition that a report line describes, if it has the shape of a
/// partition row: identifier, an optional `*`, start, end, sector count,
/// size and filesystem type. The mount flag comes from `table`.
pub open spec fn partition_of(line: Seq<u8>, table: Seq<u8>) -> Option<PartitionView> {
    let o: nat = if is_boot_row(line) { 1 } else { 0 };
    let id = field(line, 0);
    let start = decimal_u64(field(line, 1 + o));
    let end = decimal_u64(field(line, 2 + o));
    let sectors = decimal_u64(field(line, 3 + o));
    let size = field(line, 4 + o);
    let fstype = field(line, 5 + o);
    if id.len() > 0 && start is Some && end is Some && sectors is Some && start.unwrap()
        <= end.unwrap() && size.len() > 0 && fstype.len() > 0 && valid_utf8(id) && valid_utf8(
        size,
    ) && valid_utf8(fstype) {
        Some(
            PartitionView {
                id: decode_utf8(id),
                start: start.unwrap(),
                end: end.unwrap(),
                size: decode_utf8(size),
                fstype: decode_utf8(fstype),
                mounted: mounted_in(id, table),
            },
        )
    } else {
        None
    }
}

/// The device that a header line `Disk <path>: <size> <unit>, <bytes> bytes...`
/// announces, with no partitions yet.
pub open spec fn header_of(line: Seq<u8>) -> Option<DiskView> {
    let f1 = field(line, 1);
    let size = field(line, 2);
    let f3 = field(line, 3);
    let bytes = decimal_u64(field(line, 4));
    let f5 = field(line, 5);
    if field(line, 0) == seq![68u8, 105u8, 115u8, 107u8] && f1.len() >= 2 && f1[0] == 47u8
        && f1.last() == 58u8 && size.len() > 0 && f3.len() >= 2 && f3.last() == 44u8
        && bytes is Some && f5.len() >= 5 && f5.subrange(0, 5) == seq![
        98u8,
        121u8,
        116u8,
        101u8,
        115u8,
    ] && valid_utf8(f1.drop_last()) && valid_utf8(size) && valid_utf8(f3.drop_last()) {
        Some(
            DiskView {
                path: decode_utf8(f1.drop_last()),
                size: decode_utf8(size),
                size_unit: decode_utf8(f3.drop_last()),
                bytes: bytes.unwrap(),
                partitions: seq![],
            },
        )
    } else {
        None
    }
}

/// Whether a line belongs to device `d`: its first field begins with the device path.
pub open spec fn belongs_to(line: Seq<u8>, d: DiskView) -> bool {
    prefix_of(encode_utf8(d.path), field(line, 0))
}

/// The devices after a partition row is appended to each device it belongs to.
pub open spec fn attach_row(disks: Seq<DiskView>, line: Seq<u8>, table: Seq<u8>) -> Seq<DiskView> {
    disks.map_values(
        |d: DiskView|
            if belongs_to(line, d) && partition_of(line, table) is Some {
                DiskView { partitions: d.partitions.push(partition_of(line, table).unwrap()), ..d }
            } else {
                d
            },
    )
}

/// The devices after one report line: a header adds a device, then a row
/// joins the devices it belongs to; any other line changes nothing.
pub open spec fn read_line(disks: Seq<DiskView>, line: Seq<u8>, table: Seq<u8>) -> Seq<DiskView> {
    let added = match header_of(line) {
        Some(h) => disks.push(h),
        None => disks,
    };
    attach_row(added, line, table)
}

/// Index of the newline that ends the line beginning at `i`, or the end of the report.
pub open spec fn line_end(s: Seq<u8>, i: int) -> int
    decreases s.len() - i,
{
    if 0 <= i < s.len() && s[i] != 10u8 {
        line_end(s, i + 1)
    } else {
        i
    }
}

/// The devices after reading the report `s` from index `i` on, one line at a time.
pub open spec fn read_from(disks: Seq<DiskView>, s: Seq<u8>, table: Seq<u8>, i: int) -> Seq<
    DiskView,
>
    decreases s.len() - i,
{
    let e = line_end(s, i);
    let next = read_line(disks, s.subrange(i, e), table);
    if 0 <= i <= e && e < s.len() {
        read_from(next, s, table, e + 1)
    } else {
        next
    }
}

/// The devices after reading a whole report.
pub open spec fn read_report(disks: Seq<DiskView>, s: Seq<u8>, table: Seq<u8>) -> Seq<DiskView> {
    read_from(disks, s, table, 0)
}

fn find_line_end(s: &[u8], from: usize) -> (r: usize)
    requires
        from <= s@.len(),
    ensures
        r == line_end(s@, from as int),
        from <= r <= s@.len(),
{
    let mut i: usize = from;
    while i < s.len() && s[i] != 10u8
        invariant
            from <= i <= s@.len(),
            line_end(s@, i as int) == line_end(s@, from as int),
        decreases s@.len() - i,
    {
        i = i + 1;
    }
    i
}

/// Start and end of each of the first `n` fields of a line.
fn field_bounds(s: &[u8], n: usize) -> (r: Vec<(usize, usize)>)
    ensures
        r@.len() == n,
        forall|k: int|
            0 <= k < n ==> #[trigger] r@[k].0 == field_start(s@, k as nat) && r@[k].1 == field_end(
                s@,
                k as nat,
            ),
        forall|k: int| 0 <= k < n ==> r@[k].0 <= #[trigger] r@[k].1 <= s@.len(),
{
    let mut out: Vec<(usize, usize)> = Vec::new();
    let mut pos: usize = 0;
    let mut k: usize = 0;
    while k < n
        invariant
            0 <= k <= n,
            out@.len() == k,
            pos <= s@.len(),
            k > 0 ==> pos == field_end(s@, (k - 1) as nat),
            k == 0 ==> pos == 0,
            forall|j: int|
                0 <= j < k ==> #[trigger] out@[j].0 == field_start(s@, j as nat) && out@[j].1
                    == field_end(s@, j as nat),
            forall|j: int| 0 <= j < k ==> out@[j].0 <= #[trigger] out@[j].1 <= s@.len(),
        decreases n - k,
    {
        let (a, b) = next_field(s, pos);
        proof {
            assert(a == field_start(s@, k as nat));
        }
        out.push((a, b));
        pos = b;
        k = k + 1;
    }
    out
}

impl PartitionData {
    /// Reads a partition row; `mount_table` is the content of the mount table
    /// that decides the mount flag. `None` when the line has no row shape.
    pub fn new(part_line: &[u8], mount_table: &[u8]) -> (r: Option<PartitionData>)
        ensures
            r matches Some(p) ==> partition_of(part_line@, mount_table@) == Some(p@),
            r is None ==> partition_of(part_line@, mount_table@) is None,
    {
        let ghost s = part_line@;
        let f = field_bounds(part_line, 7);
        let star: Vec<u8> = vec![42u8];
        let boot = range_eq(part_line, f[1].0, f[1].1, star.as_slice());
        let o: usize = if boot {
            1
        } else {
            0
        };
        let start = parse_decimal(part_line, f[1 + o].0, f[1 + o].1);
        let end = parse_decimal(part_line, f[2 + o].0, f[2 + o].1);
        let sectors = parse_decimal(part_line, f[3 + o].0, f[3 + o].1);
        let (ia, ib) = f[0];
        let (sa, sb) = f[4 + o];
        let (ta, tb) = f[5 + o];
        proof {
            assert(star@ =~= seq![42u8]);
            assert(boot == is_boot_row(s));
            let on: nat = if is_boot_row(s) { 1 } else { 0 };
            assert(on == o);
            assert(field(s, 0) == s.subrange(ia as int, ib as int));
            assert(field(s, 1 + on) == s.subrange(f@[1 + o].0 as int, f@[1 + o].1 as int));
            assert(field(s, 2 + on) == s.subrange(f@[2 + o].0 as int, f@[2 + o].1 as int));
            assert(field(s, 3 + on) == s.subrange(f@[3 + o].0 as int, f@[3 + o].1 as int));
            assert(field(s, 4 + on) == s.subrange(sa as int, sb as int));
            assert(field(s, 5 + on) == s.subrange(ta as int, tb as int));
        }
        match (start, end, sectors) {
            (Some(st), Some(en), Some(_)) => {
                if ia == ib || st > en || sa == sb || ta == tb {
                    return None;
                }
                let id = text_in(part_line, ia, ib);
                let size = text_in(part_line, sa, sb);
                let fstype = text_in(part_line, ta, tb);
                match (id, size, fstype) {
                    (Some(id), Some(size), Some(fstype)) => {
                        let id_bytes = vstd::slice::slice_subrange(part_line, ia, ib);
                        let is_mounted = is_mounted(id_bytes, mount_table);
                        Some(PartitionData { id, start: st, end: en, size, fstype, is_mounted })
                    },
                    _ => None,
                }
            },
            _ => None,
        }
    }
}

/// Why a report could not be read.
#[derive(PartialEq, Eq, Structural, Clone, Copy, Debug)]
pub enum InventoryError {
    /// The report is not valid UTF-8 text.
    NotText,
}

impl DiskData {
    /// Reads a device header line; `None` when the line is not one.
    pub fn new(disk_line: &[u8]) -> (r: Option<DiskData>)
        ensures
            r matches Some(d) ==> header_of(disk_line@) == Some(d@),
            r is None ==> header_of(disk_line@) is None,
    {
        let ghost s = disk_line@;
        let f = field_bounds(disk_line, 6);
        let (a0, b0) = f[0];
        let (a1, b1) = f[1];
        let (a2, b2) = f[2];
        let (a3, b3) = f[3];
        let (a4, b4) = f[4];
        let (a5, b5) = f[5];
        proof {
            assert(field(s, 0) == s.subrange(a0 as int, b0 as int));
            assert(field(s, 1) == s.subrange(a1 as int, b1 as int));
            assert(field(s, 2) == s.subrange(a2 as int, b2 as int));
            assert(field(s, 3) == s.subrange(a3 as int, b3 as int));
            assert(field(s, 4) == s.subrange(a4 as int, b4 as int));
            assert(field(s, 5) == s.subrange(a5 as int, b5 as int));
            if b1 - a1 >= 2 {
                assert(field(s, 1)[0] == s[a1 as int]);
                assert(field(s, 1).last() == s[b1 - 1]);
            }
            if b3 - a3 >= 2 {
                assert(field(s, 3).last() == s[b3 - 1]);
            }
        }
        let disk_word: Vec<u8> = vec![68u8, 105u8, 115u8, 107u8];
        let bytes_word: Vec<u8> = vec![98u8, 121u8, 116u8, 101u8, 115u8];
        proof {
            assert(disk_word@ =~= seq![68u8, 105u8, 115u8, 107u8]);
            assert(bytes_word@ =~= seq![98u8, 121u8, 116u8, 101u8, 115u8]);
        }
        if !range_eq(disk_line, a0, b0, disk_word.as_slice()) {
            return None;
        }
        if b1 - a1 < 2 || disk_line[a1] != 47u8 || disk_line[b1 - 1] != 58u8 {
            return None;
        }
        if a2 == b2 {
            return None;
        }
        if b3 - a3 < 2 || disk_line[b3 - 1] != 44u8 {
            return None;
        }
        let bytes = match parse_decimal(disk_line, a4, b4) {
            Some(v) => v,
            None => return None,
        };
        proof {
            if b5 - a5 >= 5 {
                assert(field(s, 5).subrange(0, 5) =~= s.subrange(a5 as int, a5 + 5));
            }
        }
        if !range_starts_with(disk_line, a5, b5, bytes_word.as_slice()) {
            return None;
        }
        proof {
            assert(field(s, 1).drop_last() =~= s.subrange(a1 as int, b1 - 1));
            assert(field(s, 3).drop_last() =~= s.subrange(a3 as int, b3 - 1));
            assert(field(s, 5).subrange(0, 5) =~= s.subrange(a5 as int, a5 + 5));
        }
        let path = text_in(disk_line, a1, b1 - 1);
        let size = text_in(disk_line, a2, b2);
        let size_unit = text_in(disk_line, a3, b3 - 1);
        match (path, size, size_unit) {
            (Some(path), Some(size), Some(size_unit)) => {
                let d = DiskData { path, size, size_unit, bytes, partitions: Vec::new() };
                proof {
                    assert(d@.partitions =~= Seq::<PartitionView>::empty());
                }
                Some(d)
            },
            _ => None,
        }
    }

    /// Appends a partition to the device's list.
    pub fn add_partition(&mut self, part: PartitionData)
        ensures
            final(self)@ == (DiskView {
                partitions: old(self)@.partitions.push(part@),
                ..old(self)@
            }),
    {
        self.partitions.push(part);
        proof {
            assert(partition_views(self.partitions@) =~= partition_views(
                old(self).partitions@,
            ).push(part@));
        }
    }
}

/// Applies one report line to the device list.
fn apply_line(drives: &mut Vec<DiskData>, line: &[u8], table: &[u8])
    ensures
        disk_views(final(drives)@) == read_line(disk_views(old(drives)@), line@, table@),
{
    let ghost before = disk_views(drives@);
    match DiskData::new(line) {
        Some(d) => {
            drives.push(d);
        },
        None => {},
    }
    let ghost added = match header_of(line@) {
        Some(h) => before.push(h),
        None => before,
    };
    proof {
        assert(disk_views(drives@) =~= added);
    }
    let (a0, b0) = next_field(line, 0);
    proof {
        assert(field(line@, 0) == line@.subrange(a0 as int, b0 as int));
    }
    let n = drives.len();
    let mut j: usize = 0;
    while j < n
        invariant
            n == drives@.len() == added.len(),
            0 <= j <= n,
            a0 <= b0 <= line@.len(),
            field(line@, 0) == line@.subrange(a0 as int, b0 as int),
            forall|k: int| 0 <= k < j ==> #[trigger] drives@[k]@ == attach_row(added, line@, table@)[k],
            forall|k: int| j <= k < n ==> #[trigger] drives@[k]@ == added[k],
        decreases n - j,
    {
        let path_text = drives[j].path.as_str();
        let path_bytes = path_text.as_bytes();
        let belongs = range_starts_with(line, a0, b0, path_bytes);
        proof {
            let d = added[j as int];
            assert(drives@[j as int]@ == d);
            assert(path_text@ == d.path);
            assert(path_bytes@ == encode_utf8(d.path));
            if belongs {
                assert(field(line@, 0).subrange(0, encode_utf8(d.path).len() as int) =~= line@.subrange(
                    a0 as int,
                    a0 + encode_utf8(d.path).len(),
                ));
            } else if encode_utf8(d.path).len() <= field(line@, 0).len() {
                assert(field(line@, 0).subrange(0, encode_utf8(d.path).len() as int) =~= line@.subrange(
                    a0 as int,
                    a0 + encode_utf8(d.path).len(),
                ));
            }
            assert(belongs == belongs_to(line@, d));
        }
        if belongs {
            match PartitionData::new(line, table) {
                Some(p) => {
                    let mut d = drives.remove(j);
                    d.add_partition(p);
                    drives.insert(j, d);
                },
                None => {},
            }
        }
        j = j + 1;
    }
    proof {
        assert(disk_views(drives@) =~= attach_row(added, line@, table@));
    }
}

/// Reads a disk-listing report line by line into `drives_vec`: each device
/// header appends a device, and each partition row is appended to every
/// device whose path begins its identifier; `mount_table` (the content of
/// the live mount table) gives each partition its mount flag. Fails, leaving
/// `drives_vec` as it was, when the report is not UTF-8 text.
pub fn parse_partitions(report: &[u8], mount_table: &[u8], drives_vec: &mut Vec<DiskData>) -> (r:
    Result<(), InventoryError>)
    ensures
        valid_utf8(report@) ==> r is Ok && disk_views(final(drives_vec)@) == read_report(
            disk_views(old(drives_vec)@),
            report@,
            mount_table@,
        ),
        !valid_utf8(report@) ==> r == Err::<(), InventoryError>(InventoryError::NotText)
            && final(drives_vec)@ == old(drives_vec)@,
        inventory_wf(disk_views(old(drives_vec)@)) ==> inventory_wf(
            disk_views(final(drives_vec)@),
        ),
{
    proof {
        if inventory_wf(disk_views(drives_vec@)) {
            lemma_partitions_belong(disk_views(drives_vec@), report@, mount_table@);
        }
    }
    if decode_text(report).is_none() {
        return Err(InventoryError::NotText);
    }
    let ghost s = report@;
    let ghost t = mount_table@;
    let ghost goal = read_report(disk_views(drives_vec@), s, t);
    let mut i: usize = 0;
    let mut done = false;
    while !done
        invariant
            i <= s.len(),
            s == report@,
            t == mount_table@,
            !done ==> goal == read_from(disk_views(drives_vec@), s, t, i as int),
            done ==> goal == disk_views(drives_vec@),
        decreases s.len() - i + (if done { 0int } else { 1int }),
    {
        let e = find_line_end(report, i);
        let line = vstd::slice::slice_subrange(report, i, e);
        apply_line(drives_vec, line, mount_table);
        if e < report.len() {
            i = e + 1;
        } else {
            done = true;
        }
    }
    Ok(())
}

/// Every partition of every device has an identifier whose bytes begin
/// with the device path, and starts no later than it ends.
pub open spec fn inventory_wf(disks: Seq<DiskView>) -> bool {
    forall|d: int, k: int|
        0 <= d < disks.len() && 0 <= k < disks[d].partitions.len() ==> {
            let p = #[trigger] disks[d].partitions[k];
            prefix_of(encode_utf8(disks[d].path), encode_utf8(p.id)) && p.start <= p.end
        }
}

proof fn lemma_read_line_wf(disks: Seq<DiskView>, line: Seq<u8>, table: Seq<u8>)
    requires
        inventory_wf(disks),
    ensures
        inventory_wf(read_line(disks, line, table)),
{
    let added = match header_of(line) {
        Some(h) => disks.push(h),
        None => disks,
    };
    assert(inventory_wf(added)) by {
        assert forall|d: int, k: int|
            0 <= d < added.len() && 0 <= k < added[d].partitions.len() implies {
                let p = #[trigger] added[d].partitions[k];
                prefix_of(encode_utf8(added[d].path), encode_utf8(p.id)) && p.start <= p.end
            } by {
            if d < disks.len() {
                assert(added[d] == disks[d]);
            }
        }
    }
    let out = attach_row(added, line, table);
    assert forall|d: int, k: int|
        0 <= d < out.len() && 0 <= k < out[d].partitions.len() implies {
            let p = #[trigger] out[d].partitions[k];
            prefix_of(encode_utf8(out[d].path), encode_utf8(p.id)) && p.start <= p.end
        } by {
        let a = added[d];
        if belongs_to(line, a) && partition_of(line, table) is Some && k == a.partitions.len() {
            let p = partition_of(line, table).unwrap();
            vstd::utf8::decode_utf8_encode_utf8(field(line, 0));
            assert(encode_utf8(p.id) == field(line, 0));
        } else {
            assert(out[d].partitions[k] == a.partitions[k]);
        }
    }
}

proof fn lemma_read_from_wf(disks: Seq<DiskView>, s: Seq<u8>, table: Seq<u8>, i: int)
    requires
        inventory_wf(disks),
    ensures
        inventory_wf(read_from(disks, s, table, i)),
    decreases s.len() - i,
{
    let e = line_end(s, i);
    lemma_read_line_wf(disks, s.subrange(i, e), table);
    if 0 <= i <= e && e < s.len() {
        lemma_read_from_wf(read_line(disks, s.subrange(i, e), table), s, table, e + 1);
    }
}

/// Reading a report keeps the inventory well formed: each partition row
/// joins only devices whose path begins its identifier, and has start <= end.
pub proof fn lemma_partitions_belong(disks: Seq<DiskView>, report: Seq<u8>, table: Seq<u8>)
    requires
        inventory_wf(disks),
    ensures
        inventory_wf(read_report(disks, report, table)),
{
    lemma_read_from_wf(disks, report, table, 0);
}

pub open spec fn no_blanks(w: Seq<u8>) -> bool {
    forall|i: int| 0 <= i < w.len() ==> !is_blank(#[trigger] w[i])
}

/// The header line `Disk <path>: <size> <unit>, <bytes> bytes`.
#[verifier::opaque]
pub open spec fn header_line(path: Seq<u8>, size: Seq<u8>, unit: Seq<u8>, bytes: Seq<u8>) -> Seq<
    u8,
> {
    seq![68u8, 105u8, 115u8, 107u8, 32u8] + path + seq![58u8, 32u8] + size + seq![32u8] + unit
        + seq![44u8, 32u8] + bytes + seq![32u8, 98u8, 121u8, 116u8, 101u8, 115u8]
}

/// Where each part of a header line lies.
proof fn lemma_header_layout(path: Seq<u8>, size: Seq<u8>, unit: Seq<u8>, bytes: Seq<u8>)
    ensures
        ({
            let s = header_line(path, size, unit, bytes);
            let p = path.len() as int;
            let z = size.len() as int;
            let u = unit.len() as int;
            let b = bytes.len() as int;
            &&& s.len() == 16 + p + z + u + b
            &&& forall|j: int| 0 <= j < 4 ==> !is_blank(#[trigger] s[j])
            &&& is_blank(s[4])
            &&& forall|j: int| 5 <= j < 5 + p ==> #[trigger] s[j] == path[j - 5]
            &&& s[5 + p] == 58u8
            &&& is_blank(s[6 + p])
            &&& forall|j: int| 7 + p <= j < 7 + p + z ==> #[trigger] s[j] == size[j - 7 - p]
            &&& is_blank(s[7 + p + z])
            &&& forall|j: int| 8 + p + z <= j < 8 + p + z + u ==> #[trigger] s[j] == unit[j - 8 - p - z]
            &&& s[8 + p + z + u] == 44u8
            &&& is_blank(s[9 + p + z + u])
            &&& forall|j: int|
                10 + p + z + u <= j < 10 + p + z + u + b ==> #[trigger] s[j] == bytes[j - 10 - p - z - u]
            &&& is_blank(s[10 + p + z + u + b])
            &&& s.subrange(0, 4) == seq![68u8, 105u8, 115u8, 107u8]
            &&& s.subrange(11 + p + z + u + b, 16 + p + z + u + b) == seq![98u8, 121u8, 116u8, 101u8, 115u8]
        }),
{
    reveal(header_line);
    let s = header_line(path, size, unit, bytes);
    let p = path.len() as int;
    let z = size.len() as int;
    let u = unit.len() as int;
    let b = bytes.len() as int;
    assert(s.len() == 16 + p + z + u + b);
    assert forall|j: int| 0 <= j < 4 implies !is_blank(#[trigger] s[j]) by {}
    assert(is_blank(s[4]));
    assert forall|j: int| 5 <= j < 5 + p implies s[j] == path[j - 5] by {}
    assert(s[5 + p] == 58u8);
    assert(is_blank(s[6 + p]));
    assert forall|j: int| 7 + p <= j < 7 + p + z implies s[j] == size[j - 7 - p] by {}
    assert(is_blank(s[7 + p + z]));
    assert forall|j: int| 8 + p + z <= j < 8 + p + z + u implies s[j] == unit[j - 8 - p - z] by {}
    assert(s[8 + p + z + u] == 44u8);
    assert(is_blank(s[9 + p + z + u]));
    assert forall|j: int| 10 + p + z + u <= j < 10 + p + z + u + b implies s[j] == bytes[j - 10 - p
        - z - u] by {}
    assert(is_blank(s[10 + p + z + u + b]));
    assert(s.subrange(0, 4) =~= seq![68u8, 105u8, 115u8, 107u8]);
    assert(s.subrange(11 + p + z + u + b, 16 + p + z + u + b) =~= seq![98u8, 121u8, 116u8, 101u8, 115u8]);
}

/// A device header line `Disk <path>: <size> <unit>, <bytes> bytes` reads as
/// a device with that path, that displayed size and unit, the byte count
/// that `<bytes>` spells, and no partitions.
#[verifier::spinoff_prover]
#[verifier::rlimit(50)]
pub proof fn lemma_header_line(path: Seq<u8>, size: Seq<u8>, unit: Seq<u8>, bytes: Seq<u8>)
    requires
        path.len() > 0,
        path[0] == 47u8,
        no_blanks(path),
        size.len() > 0,
        no_blanks(size),
        unit.len() > 0,
        no_blanks(unit),
        decimal_u64(bytes) is Some,
        valid_utf8(path),
        valid_utf8(size),
        valid_utf8(unit),
    ensures
        header_of(header_line(path, size, unit, bytes)) == Some(
            DiskView {
                path: decode_utf8(path),
                size: decode_utf8(size),
                size_unit: decode_utf8(unit),
                bytes: decimal_u64(bytes).unwrap(),
                partitions: seq![],
            },
        ),
{
    let s = header_line(path, size, unit, bytes);
    let p = path.len() as int;
    let z = size.len() as int;
    let u = unit.len() as int;
    let b = bytes.len() as int;
    assert(all_digits(bytes));
    lemma_header_layout(path, size, unit, bytes);
    // field 0: "Disk"
    lemma_skip_to(s, 0, 0);
    lemma_word_to(s, 0, 4);
    assert(field(s, 0) == s.subrange(0, 4));
    // field 1: path and ':'
    assert forall|j: int| 5 <= j < 6 + p implies !is_blank(#[trigger] s[j]) by {
        if j < 5 + p {
            assert(s[j] == path[j - 5]);
        }
    }
    lemma_skip_to(s, 4, 5);
    lemma_word_to(s, 5, 6 + p);
    assert(field(s, 1).drop_last() =~= path);
    // field 2: the displayed size
    assert forall|j: int| 7 + p <= j < 7 + p + z implies !is_blank(#[trigger] s[j]) by {
        assert(s[j] == size[j - 7 - p]);
    }
    lemma_skip_to(s, 6 + p, 7 + p);
    lemma_word_to(s, 7 + p, 7 + p + z);
    assert(field(s, 2) =~= size);
    // field 3: the unit and ','
    assert forall|j: int| 8 + p + z <= j < 9 + p + z + u implies !is_blank(#[trigger] s[j]) by {
        if j < 8 + p + z + u {
            assert(s[j] == unit[j - 8 - p - z]);
        }
    }
    lemma_skip_to(s, 7 + p + z, 8 + p + z);
    lemma_word_to(s, 8 + p + z, 9 + p + z + u);
    assert(field(s, 3).drop_last() =~= unit);
    // field 4: the byte count
    assert forall|j: int| 10 + p + z + u <= j < 10 + p + z + u + b implies !is_blank(
        #[trigger] s[j],
    ) by {
        assert(s[j] == bytes[j - 10 - p - z - u]);
        assert(crate::text::is_digit(bytes[j - 10 - p - z - u]));
    }
    lemma_skip_to(s, 9 + p + z + u, 10 + p + z + u);
    lemma_word_to(s, 10 + p + z + u, 10 + p + z + u + b);
    assert(field(s, 4) =~= bytes);
    // field 5: "bytes"
    let word = s.subrange(11 + p + z + u + b, 16 + p + z + u + b);
    assert forall|j: int| 11 + p + z + u + b <= j < 16 + p + z + u + b implies !is_blank(
        #[trigger] s[j],
    ) by {
        assert(s[j] == word[j - 11 - p - z - u - b]);
    }
    lemma_skip_to(s, 10 + p + z + u + b, 11 + p + z + u + b);
    lemma_word_to(s, 11 + p + z + u + b, 16 + p + z + u + b);
    assert(field(s, 5).subrange(0, 5) =~= word);
    assert(header_of(s).unwrap().partitions =~= Seq::<PartitionView>::empty());
}

} // verus!
