//! FAT16 on-disk format: BPB geometry, 8.3 root-directory lookup, single-cluster
//! and cluster-chain reads, directory listing, and single-cluster file creation.
//! The disk is a byte image; sector `n` is bytes `[512 n, 512 n + 512)`, and a
//! sector past the end of the image is a failed block read or write.

use vstd::prelude::*;
use crate::bytes::{le16, le32, get_le16, get_le32};

verus! {

/// First sector of the FAT16 volume.
pub const VOL_LBA: u64 = 2048;
pub const SECTOR: u64 = 512;

/// Sector `lba` exists in the image.
pub open spec fn sec_ok(d: Seq<u8>, lba: int) -> bool {
    0 <= lba && (lba + 1) * 512 <= d.len()
}

/// Absolute byte position of `off` within sector `lba`.
pub open spec fn at(lba: int, off: int) -> int {
    lba * 512 + off
}

/// The volume geometry the BIOS parameter block describes.
#[derive(Clone, Copy)]
pub struct Fat16Geom {
    pub bps: u64,
    pub spc: u64,
    pub reserved: u64,
    pub nfats: u64,
    pub root_entries: u64,
    pub spf: u64,
}

impl Fat16Geom {
    pub open spec fn fat_lba(self) -> int {
        VOL_LBA + self.reserved
    }

    pub open spec fn root_lba(self) -> int {
        self.fat_lba() + self.nfats * self.spf
    }

    pub open spec fn root_sectors(self) -> int {
        (self.root_entries * 32 + 511) / 512
    }

    pub open spec fn data_lba(self) -> int {
        self.root_lba() + self.root_sectors()
    }

    pub open spec fn bounded(self) -> bool {
        self.spc < 256 && self.reserved < 0x1_0000 && self.nfats < 256 && self.root_entries < 0x1_0000
            && self.spf < 0x1_0000
    }
}

/// The geometry recorded in the boot sector of the volume in `d`.
pub open spec fn bpb_of(d: Seq<u8>) -> Fat16Geom {
    let b = at(VOL_LBA as int, 0);
    Fat16Geom {
        bps: le16(d, b + 11) as u64,
        spc: d[b + 13] as u64,
        reserved: le16(d, b + 14) as u64,
        nfats: d[b + 16] as u64,
        root_entries: le16(d, b + 17) as u64,
        spf: le16(d, b + 22) as u64,
    }
}

/// Whether the block device can read sector `lba` of `disk`.
pub fn sector_readable(disk: &[u8], lba: u64) -> (r: bool)
    ensures
        r == sec_ok(disk@, lba as int),
{
    lba < (disk.len() / 512) as u64
}

/// Byte offset of sector `lba` in `disk`.
pub fn sector_base(disk: &[u8], lba: u64) -> (b: usize)
    requires
        sec_ok(disk@, lba as int),
    ensures
        b == lba * 512,
        b + 512 <= disk.len(),
{
    let n = disk.len();
    assert(lba * 512 + 512 <= n);
    let x: u64 = lba * SECTOR;
    x as usize
}

/// Reads the BIOS parameter block, or `None` when the boot sector cannot be read.
pub fn fat16_read_bpb(disk: &[u8]) -> (g: Option<Fat16Geom>)
    ensures
        g is None <==> !sec_ok(disk@, VOL_LBA as int),
        g matches Some(geom) ==> geom == bpb_of(disk@) && geom.bounded(),
{
    if !sector_readable(disk, VOL_LBA) {
        return None;
    }
    let b: usize = sector_base(disk, VOL_LBA);
    Some(
        Fat16Geom {
            bps: get_le16(disk, b + 11) as u64,
            spc: disk[b + 13] as u64,
            reserved: get_le16(disk, b + 14) as u64,
            nfats: disk[b + 16] as u64,
            root_entries: get_le16(disk, b + 17) as u64,
            spf: get_le16(disk, b + 22) as u64,
        },
    )
}

/// The FAT, root-directory and data-area start sectors and the root-directory
/// length in sectors.
fn geom_lbas(g: Fat16Geom) -> (r: (u64, u64, u64, u64))
    requires
        g.bounded(),
    ensures
        r.0 == g.fat_lba(),
        r.1 == g.root_lba(),
        r.2 == g.root_sectors(),
        r.3 == g.data_lba(),
        r.1 < 0x200_0000,
        r.2 <= 0x1000,
        r.3 < 0x200_0000,
{
    assert(g.nfats * g.spf < 0x100_0000) by (nonlinear_arith)
        requires
            g.nfats < 256,
            g.spf < 0x1_0000,
    ;
    let fat_lba = VOL_LBA + g.reserved;
    let root_lba = fat_lba + g.nfats * g.spf;
    let root_sectors = (g.root_entries * 32 + 511) / 512;
    (fat_lba, root_lba, root_sectors, root_lba + root_sectors)
}

/// Outcome of the root-directory search.
pub enum DirLookup {
    /// A directory sector could not be read.
    Fail,
    /// The end-of-directory marker, or the end of the directory, came first.
    Absent,
    /// The entry's first cluster and file size.
    Found(u64, u64),
}

/// The 11 name bytes of root-directory entry `e` equal `target`.
pub open spec fn entry_named(d: Seq<u8>, root_lba: int, e: int, target: Seq<u8>) -> bool {
    let p = at(root_lba + e / 16, (e % 16) * 32);
    d.subrange(p, p + 11) == target
}

/// Searches root-directory entries from `e` on, sector by sector, stopping at
/// the first end-of-directory entry (first byte zero) or the first entry named
/// `target`.
pub open spec fn dir_lookup(d: Seq<u8>, root_lba: int, root_sectors: int, target: Seq<u8>, e: int) -> DirLookup
    decreases root_sectors * 16 - e,
{
    if e < 0 || e >= root_sectors * 16 {
        DirLookup::Absent
    } else if !sec_ok(d, root_lba + e / 16) {
        DirLookup::Fail
    } else {
        let p = at(root_lba + e / 16, (e % 16) * 32);
        if d[p] == 0 {
            DirLookup::Absent
        } else if entry_named(d, root_lba, e, target) {
            DirLookup::Found(le16(d, p + 26) as u64, le32(d, p + 28) as u64)
        } else {
            dir_lookup(d, root_lba, root_sectors, target, e + 1)
        }
    }
}

/// Searches the root directory of the volume with geometry `g` for `target`.
fn find_entry(disk: &[u8], g: Fat16Geom, target: &[u8; 11]) -> (r: DirLookup)
    requires
        g.bounded(),
    ensures
        r == dir_lookup(disk@, g.root_lba(), g.root_sectors(), target@, 0),
        r matches DirLookup::Found(c, sz) ==> c < 0x1_0000 && sz < 0x1_0000_0000,
{
    let (_fat_lba, root_lba, root_sectors, _data_lba) = geom_lbas(g);
    let mut s: u64 = 0;
    while s < root_sectors
        invariant
            g.bounded(),
            root_lba == g.root_lba(),
            root_sectors == g.root_sectors(),
            root_lba < 0x200_0000,
            root_sectors <= 0x1000,
            s <= root_sectors,
            dir_lookup(disk@, g.root_lba(), g.root_sectors(), target@, 0) == dir_lookup(
                disk@,
                g.root_lba(),
                g.root_sectors(),
                target@,
                16 * s as int,
            ),
        decreases root_sectors - s,
    {
        if !sector_readable(disk, root_lba + s) {
            assert(dir_lookup(disk@, g.root_lba(), g.root_sectors(), target@, 16 * s as int)
                == DirLookup::Fail);
            return DirLookup::Fail;
        }
        let mut e: usize = 0;
        while e < 16
            invariant
                g.bounded(),
                root_lba == g.root_lba(),
                root_sectors == g.root_sectors(),
                root_lba < 0x200_0000,
                root_sectors <= 0x1000,
                s < root_sectors,
                e <= 16,
                sec_ok(disk@, root_lba + s),
                dir_lookup(disk@, g.root_lba(), g.root_sectors(), target@, 0) == dir_lookup(
                    disk@,
                    g.root_lba(),
                    g.root_sectors(),
                    target@,
                    16 * s + e,
                ),
            decreases 16 - e,
        {
            let ghost ei = 16 * s + e;
            assert(ei / 16 == s && ei % 16 == e);
            let base = sector_base(disk, root_lba + s) + e * 32;
            assert(base == at(root_lba + ei / 16, (ei % 16) * 32));
            if disk[base] == 0 {
                return DirLookup::Absent;
            }
            if names_equal(disk, base, target) {
                assert(entry_named(disk@, g.root_lba(), ei, target@));
                let cluster = get_le16(disk, base + 26) as u64;
                let size = get_le32(disk, base + 28) as u64;
                return DirLookup::Found(cluster, size);
            }
            e += 1;
        }
        s += 1;
    }
    DirLookup::Absent
}

/// The 11 bytes of `disk` at `base` equal `target`.
fn names_equal(disk: &[u8], base: usize, target: &[u8; 11]) -> (r: bool)
    requires
        base + 11 <= disk.len(),
    ensures
        r == (disk@.subrange(base as int, base + 11) == target@),
{
    let mut i: usize = 0;
    while i < 11
        invariant
            i <= 11,
            base + 11 <= disk.len(),
            forall|j: int| 0 <= j < i ==> disk@[base + j] == target@[j],
        decreases 11 - i,
    {
        if disk[base + i] != target[i] {
            assert(disk@.subrange(base as int, base + 11)[i as int] != target@[i as int]);
            return false;
        }
        i += 1;
    }
    assert(disk@.subrange(base as int, base + 11) =~= target@);
    true
}

/// What `fat16_read_named` returns: the first `min(size, out_len, 512)` bytes of
/// the file's first cluster, or `None` on a bad volume, an absent or empty file,
/// or a failed read.
pub open spec fn read_named_spec(d: Seq<u8>, target: Seq<u8>, out_len: int) -> Option<Seq<u8>> {
    if !sec_ok(d, VOL_LBA as int) {
        None
    } else {
        let g = bpb_of(d);
        if g.bps != 512 || g.spc == 0 || g.nfats == 0 {
            None
        } else {
            match dir_lookup(d, g.root_lba(), g.root_sectors(), target, 0) {
                DirLookup::Found(c, sz) => {
                    if c < 2 || sz == 0 {
                        None
                    } else {
                        let lba = g.data_lba() + (c - 2) * g.spc;
                        if !sec_ok(d, lba) {
                            None
                        } else {
                            let n = min3(sz as int, out_len, 512);
                            Some(d.subrange(at(lba, 0), at(lba, 0) + n))
                        }
                    }
                },
                _ => None,
            }
        }
    }
}

pub open spec fn min3(a: int, b: int, c: int) -> int {
    let m = if a < b { a } else { b };
    if m < c { m } else { c }
}

/// Reads a file by its 8.3 name from the first cluster only (at most one sector
/// and at most `out_len` bytes).
pub fn fat16_read_named(disk: &[u8], target: &[u8; 11], out_len: usize) -> (r: Option<Vec<u8>>)
    ensures
        match r {
            Some(v) => read_named_spec(disk@, target@, out_len as int) == Some(v@),
            None => read_named_spec(disk@, target@, out_len as int) is None,
        },
{
    let g = match fat16_read_bpb(disk) {
        Some(g) => g,
        None => return None,
    };
    if g.bps != 512 || g.spc == 0 || g.nfats == 0 {
        return None;
    }
    let (first_cluster, file_size) = match find_entry(disk, g, target) {
        DirLookup::Found(c, sz) => (c, sz),
        _ => return None,
    };
    if first_cluster < 2 || file_size == 0 {
        return None;
    }
    let (_fat_lba, _root_lba, _root_sectors, data_lba) = geom_lbas(g);
    assert((first_cluster - 2) * g.spc < 0x100_0000) by (nonlinear_arith)
        requires
            first_cluster <= 0xFFFF,
            first_cluster >= 2,
            g.spc < 256,
    ;
    let cluster_lba = data_lba + (first_cluster - 2) * g.spc;
    if !sector_readable(disk, cluster_lba) {
        return None;
    }
    let mut n: u64 = if file_size < out_len as u64 { file_size } else { out_len as u64 };
    if n > 512 {
        n = 512;
    }
    let start = sector_base(disk, cluster_lba);
    let v = copy_bytes(disk, start, n as usize);
    Some(v)
}

/// A copy of the `n` bytes of `s` at `start`.
pub fn copy_bytes(s: &[u8], start: usize, n: usize) -> (v: Vec<u8>)
    requires
        start + n <= s.len(),
    ensures
        v@ == s@.subrange(start as int, start + n),
{
    let mut v: Vec<u8> = Vec::new();
    let mut i: usize = 0;
    while i < n
        invariant
            i <= n,
            start + n <= s.len(),
            v@ == s@.subrange(start as int, start + i),
        decreases n - i,
    {
        v.push(s[start + i]);
        i += 1;
        assert(v@ =~= s@.subrange(start as int, start + i));
    }
    v
}

/// `a` prepended to the outcome `o`.
pub open spec fn opt_cat(a: Seq<u8>, o: Option<Seq<u8>>) -> Option<Seq<u8>> {
    match o {
        Some(x) => Some(a + x),
        None => None,
    }
}

/// The bytes taken from the cluster at `lba`, sector `sec` onward, until `rem`
/// bytes are taken or the cluster ends; `None` if a needed sector is unreadable.
pub open spec fn cluster_bytes(d: Seq<u8>, lba: int, spc: int, rem: int, sec: int) -> Option<Seq<u8>>
    decreases spc - sec,
{
    if sec >= spc || rem <= 0 {
        Some(Seq::empty())
    } else if !sec_ok(d, lba + sec) {
        None
    } else {
        let n = if rem < 512 { rem } else { 512 };
        opt_cat(d.subrange(at(lba + sec, 0), at(lba + sec, 0) + n), cluster_bytes(d, lba, spc, rem - n, sec + 1))
    }
}

/// The FAT entry (next cluster) of `cluster`, read from the first FAT.
pub open spec fn fat_next(d: Seq<u8>, g: Fat16Geom, cluster: int) -> int {
    let fat_byte = cluster * 2;
    le16(d, at(g.fat_lba() + fat_byte / 512, fat_byte % 512))
}

/// The bytes read by following the cluster chain from `cluster` while it names
/// a data cluster ([2, 0xFFF0)) and fewer than `rem` more bytes are wanted;
/// `seen` holds the clusters already read. Coming back to a cluster already
/// read (a looping chain), visiting more than `max` clusters, or an unreadable
/// sector is a failure.
pub open spec fn chain_from(d: Seq<u8>, g: Fat16Geom, cluster: int, rem: int, seen: Seq<u64>, max: int) -> Option<Seq<u8>>
    decreases max - seen.len(),
{
    if !(2 <= cluster < 0xFFF0 && rem > 0) {
        Some(Seq::empty())
    } else if seen.len() + 1 > max || seen.contains(cluster as u64) {
        None
    } else {
        match cluster_bytes(d, g.data_lba() + (cluster - 2) * g.spc, g.spc as int, rem, 0) {
            None => None,
            Some(data) => {
                let fs = g.fat_lba() + (cluster * 2) / 512;
                if !sec_ok(d, fs) {
                    None
                } else {
                    opt_cat(data, chain_from(d, g, fat_next(d, g, cluster), rem - data.len(), seen.push(cluster as u64), max))
                }
            },
        }
    }
}

/// What `fat16_read_chain` returns: the first `min(size, out_len)` bytes of the
/// file reached by following its cluster chain.
pub open spec fn read_chain_spec(d: Seq<u8>, target: Seq<u8>, out_len: int) -> Option<Seq<u8>> {
    if !sec_ok(d, VOL_LBA as int) {
        None
    } else {
        let g = bpb_of(d);
        if g.bps != 512 || g.spc == 0 || g.nfats == 0 {
            None
        } else {
            match dir_lookup(d, g.root_lba(), g.root_sectors(), target, 0) {
                DirLookup::Found(c, sz) => {
                    if c < 2 || sz == 0 {
                        None
                    } else {
                        let want = if (sz as int) < out_len { sz as int } else { out_len };
                        chain_from(d, g, c as int, want, Seq::empty(), out_len / (g.spc * 512) + 4)
                    }
                },
                _ => None,
            }
        }
    }
}

proof fn lemma_cluster_bytes_len(d: Seq<u8>, lba: int, spc: int, rem: int, sec: int)
    ensures
        cluster_bytes(d, lba, spc, rem, sec) matches Some(x) ==> x.len() <= (if rem < 0 { 0 } else { rem }),
    decreases spc - sec,
{
    if !(sec >= spc || rem <= 0) && sec_ok(d, lba + sec) {
        let n = if rem < 512 { rem } else { 512 };
        lemma_cluster_bytes_len(d, lba, spc, rem - n, sec + 1);
    }
}

proof fn lemma_cluster_bytes_exact(d: Seq<u8>, lba: int, spc: int, rem: int, sec: int)
    requires
        rem > 0,
        sec <= spc,
    ensures
        cluster_bytes(d, lba, spc, rem, sec) matches Some(x) ==> x.len() == (if rem < (spc - sec) * 512 { rem } else { (spc - sec) * 512 }),
    decreases spc - sec,
{
    if sec < spc && sec_ok(d, lba + sec) {
        let n = if rem < 512 { rem } else { 512 };
        if rem - n > 0 {
            lemma_cluster_bytes_exact(d, lba, spc, rem - n, sec + 1);
        }
    }
}

/// A file whose first cluster links to itself in the FAT, and that is longer
/// than one cluster, cannot be read: with more than one cluster's worth of
/// bytes wanted, the read returns None rather than repeat the cluster.
pub proof fn law_self_linked_chain_fails(d: Seq<u8>, target: Seq<u8>, out_len: int)
    requires
        ({
            let g = bpb_of(d);
            dir_lookup(d, g.root_lba(), g.root_sectors(), target, 0) matches DirLookup::Found(c, sz)
                && c < 0xFFF0 && fat_next(d, g, c as int) == c && sz > g.spc * 512 && out_len > g.spc * 512
        }),
    ensures
        read_chain_spec(d, target, out_len) is None,
{
    let g = bpb_of(d);
    if sec_ok(d, VOL_LBA as int) && !(g.bps != 512 || g.spc == 0 || g.nfats == 0) {
        if let DirLookup::Found(c, sz) = dir_lookup(d, g.root_lba(), g.root_sectors(), target, 0) {
            if c >= 2 && sz != 0 {
                let want = if (sz as int) < out_len { sz as int } else { out_len };
                let max = out_len / (g.spc * 512) + 4;
                let c0 = c as int;
                let e = Seq::<u64>::empty();
                assert(max >= 4) by (nonlinear_arith)
                    requires
                        max == out_len / (g.spc * 512) + 4,
                        out_len > 0,
                        g.spc > 0,
                ;
                if 2 <= c0 < 0xFFF0 && e.len() + 1 <= max {
                    let lba = g.data_lba() + (c0 - 2) * g.spc;
                    lemma_cluster_bytes_exact(d, lba, g.spc as int, want, 0);
                    if let Some(data) = cluster_bytes(d, lba, g.spc as int, want, 0) {
                        let s1 = e.push(c0 as u64);
                        assert(s1.contains(c0 as u64)) by {
                            assert(s1[0] == c0 as u64);
                        }
                        assert(chain_from(d, g, c0, want - data.len(), s1, max) is None);
                        assert(chain_from(d, g, c0, want, e, max) is None);
                    } else {
                        assert(chain_from(d, g, c0, want, e, max) is None);
                    }
                }
            }
        }
    }
}

/// Whether `x` occurs in `v`.
fn seq_has(v: &Vec<u64>, x: u64) -> (r: bool)
    ensures
        r == v@.contains(x),
{
    let mut i: usize = 0;
    while i < v.len()
        invariant
            i <= v.len(),
            forall|j: int| 0 <= j < i ==> v@[j] != x,
        decreases v.len() - i,
    {
        if v[i] == x {
            assert(v@[i as int] == x);
            return true;
        }
        i += 1;
    }
    false
}

/// Reads a file by its 8.3 name, following its FAT cluster chain, into at most
/// `out_len` bytes; None on a bad volume, an absent file, an unreadable
/// sector, or a corrupt chain that comes back to a cluster already read.
pub fn fat16_read_chain(disk: &[u8], target: &[u8; 11], out_len: usize) -> (r: Option<Vec<u8>>)
    ensures
        match r {
            Some(v) => read_chain_spec(disk@, target@, out_len as int) == Some(v@),
            None => read_chain_spec(disk@, target@, out_len as int) is None,
        },
{
    let g = match fat16_read_bpb(disk) {
        Some(g) => g,
        None => return None,
    };
    if g.bps != 512 || g.spc == 0 || g.nfats == 0 {
        return None;
    }
    let (fat_lba, _root_lba, _root_sectors, data_lba) = geom_lbas(g);
    let (mut cluster, file_size) = match find_entry(disk, g, target) {
        DirLookup::Found(c, sz) => (c, sz),
        _ => return None,
    };
    if cluster < 2 || file_size == 0 {
        return None;
    }
    let want: usize = if file_size < out_len as u64 { file_size as usize } else { out_len };
    let mut out: Vec<u8> = Vec::new();
    let mut guard: u64 = 0;
    let per: u64 = g.spc * 512;
    let q: u64 = (out_len as u64) / per;
    assert(q <= (out_len as u64) / 512) by (nonlinear_arith)
        requires
            per >= 512,
            q == (out_len as u64) / per,
    ;
    let max_clusters: u64 = q + 4;
    let ghost max = out_len as int / (g.spc * 512) + 4;
    assert(max_clusters == max);
    let mut visited: Vec<u64> = Vec::new();
    let ghost total = chain_from(disk@, g, cluster as int, want as int, visited@, max);
    assert(read_chain_spec(disk@, target@, out_len as int) == total);
    assert(out@ + chain_from(disk@, g, cluster as int, want as int, visited@, max)->0 =~= chain_from(disk@, g, cluster as int, want as int, visited@, max)->0);
    while cluster >= 2 && cluster < 0xFFF0 && out.len() < want
        invariant
            g.bounded(),
            g.spc > 0,
            fat_lba == g.fat_lba(),
            data_lba == g.data_lba(),
            data_lba < 0x200_0000,
            fat_lba < 0x1_1000,
            cluster < 0x1_0000,
            out.len() <= want,
            max_clusters == max,
            max_clusters <= (out_len as u64) / 512 + 4,
            guard <= max,
            guard == visited@.len(),
            total == opt_cat(out@, chain_from(disk@, g, cluster as int, want - out.len(), visited@, max)),
            read_chain_spec(disk@, target@, out_len as int) == total,
        decreases max - guard,
    {
        guard += 1;
        if guard > max_clusters {
            return None;
        }
        if seq_has(&visited, cluster) {
            return None;
        }
        let ghost seen = visited@;
        visited.push(cluster);
        assert((cluster - 2) * g.spc < 0x100_0000) by (nonlinear_arith)
            requires
                cluster < 0x1_0000,
                cluster >= 2,
                g.spc < 256,
        ;
        let cluster_lba = data_lba + (cluster - 2) * g.spc;
        let ghost rem0 = want - out.len();
        let ghost before = out@;
        let mut sec: u64 = 0;
        proof {
            assert(before + Seq::<u8>::empty() =~= before);
        }
        while sec < g.spc && out.len() < want
            invariant
                g.spc < 256,
                sec <= g.spc,
                out.len() <= want,
                cluster_lba < 0x300_0000,
                rem0 == want - before.len(),
                rem0 > 0,
                2 <= cluster < 0xFFF0,
                1 <= guard <= max,
                g.bounded(),
                cluster_lba == g.data_lba() + (cluster - 2) * g.spc,
                seen.len() == guard - 1,
                visited@ == seen.push(cluster),
                !seen.contains(cluster),
                total == opt_cat(before, chain_from(disk@, g, cluster as int, rem0, seen, max)),
                read_chain_spec(disk@, target@, out_len as int) == total,
                out@.len() >= before.len(),
                out@.subrange(0, before.len() as int) == before,
                cluster_bytes(disk@, cluster_lba as int, g.spc as int, rem0, 0) == opt_cat(
                    out@.subrange(before.len() as int, out@.len() as int),
                    cluster_bytes(disk@, cluster_lba as int, g.spc as int, want - out.len(), sec as int),
                ),
            decreases g.spc - sec,
        {
            if !sector_readable(disk, cluster_lba + sec) {
                return None;
            }
            let n: usize = if want - out.len() < 512 { want - out.len() } else { 512 };
            let base = sector_base(disk, cluster_lba + sec);
            let ghost mid = out@;
            let chunk = copy_bytes(disk, base, n);
            let mut k: usize = 0;
            while k < n
                invariant
                    k <= n,
                    out@ == mid + chunk@.subrange(0, k as int),
                    chunk@.len() == n,
                decreases n - k,
            {
                out.push(chunk[k]);
                k += 1;
                assert(out@ =~= mid + chunk@.subrange(0, k as int));
            }
            assert(chunk@.subrange(0, n as int) =~= chunk@);
            proof {
                assert(out@.subrange(0, before.len() as int) =~= before);
                assert(out@.subrange(before.len() as int, out@.len() as int) =~= mid.subrange(before.len() as int, mid.len() as int) + chunk@);
            }
            sec += 1;
        }
        proof {
            let got = out@.subrange(before.len() as int, out@.len() as int);
            assert(cluster_bytes(disk@, cluster_lba as int, g.spc as int, want - out.len(), sec as int) == Some(Seq::<u8>::empty()));
            assert(got + Seq::<u8>::empty() =~= got);
            assert(out@ =~= before + got);
        }
        let fat_byte = cluster * 2;
        let fat_sec = fat_lba + fat_byte / 512;
        let off = (fat_byte % 512) as usize;
        if !sector_readable(disk, fat_sec) {
            return None;
        }
        let fb = sector_base(disk, fat_sec);
        let ghost old_cluster = cluster;
        cluster = get_le16(disk, fb + off) as u64;
        assert(cluster == fat_next(disk@, g, old_cluster as int));
    }
    proof {
        assert(out@ + Seq::<u8>::empty() =~= out@);
    }
    Some(out)
}

/// The console line `fat16_list` writes for the entry at byte `p`.
pub open spec fn list_line(d: Seq<u8>, p: int) -> Seq<u8> {
    fatls_prefix() + d.subrange(p, p + 11) + size_infix() + crate::serial::hex16(le32(d, p + 28) as u64)
        + seq![0x0Au8]
}

pub open spec fn fatls_prefix() -> Seq<u8> {
    seq![0x46u8, 0x41, 0x54, 0x4C, 0x53, 0x3A, 0x20]
}

pub open spec fn size_infix() -> Seq<u8> {
    seq![0x20u8, 0x73, 0x69, 0x7A, 0x65, 0x3D, 0x30, 0x78]
}

/// The listing of root-directory entries from `e` on: the lines written and
/// the number of live entries, or `None` for the count when a sector could
/// not be read (the lines before the failure are still written). Free (0xE5)
/// and long-name (attribute 0x0F) entries are skipped; a zero first byte ends
/// the directory.
pub open spec fn list_from(d: Seq<u8>, root_lba: int, root_sectors: int, e: int) -> (Seq<u8>, Option<nat>)
    decreases root_sectors * 16 - e,
{
    if e < 0 || e >= root_sectors * 16 {
        (Seq::empty(), Some(0))
    } else if !sec_ok(d, root_lba + e / 16) {
        (Seq::empty(), None)
    } else {
        let p = at(root_lba + e / 16, (e % 16) * 32);
        if d[p] == 0 {
            (Seq::empty(), Some(0))
        } else {
            let rest = list_from(d, root_lba, root_sectors, e + 1);
            if d[p] != 0xE5 && d[p + 11] != 0x0F {
                (list_line(d, p) + rest.0, match rest.1 {
                    Some(c) => Some(c + 1),
                    None => None,
                })
            } else {
                rest
            }
        }
    }
}

/// Root-directory entry `e` (32 bytes at `root_lba * 512 + e * 32`) is a
/// live file: its first byte is neither 0x00 (end) nor 0xE5 (deleted), and
/// its attribute byte is not 0x0F (a long-name part).
pub open spec fn entry_live(d: Seq<u8>, root_lba: int, e: int) -> bool {
    let p = root_lba * 512 + e * 32;
    d[p] != 0 && d[p] != 0xE5 && d[p + 11] != 0x0F
}

/// The first byte of root-directory entry `e`.
pub open spec fn entry_first(d: Seq<u8>, root_lba: int, e: int) -> u8 {
    d[root_lba * 512 + e * 32]
}

/// Number of live entries among entries `e..end`.
pub open spec fn live_count(d: Seq<u8>, root_lba: int, e: int, end: int) -> nat
    decreases end - e,
{
    if e >= end {
        0
    } else {
        live_count(d, root_lba, e + 1, end) + if entry_live(d, root_lba, e) { 1nat } else { 0nat }
    }
}

proof fn lemma_list_counts(d: Seq<u8>, root_lba: int, root_sectors: int, e: int, end: int)
    requires
        0 <= e <= end <= root_sectors * 16,
        root_lba >= 0,
        (root_lba + root_sectors) * 512 <= d.len(),
        forall|k: int| 0 <= k < end ==> #[trigger] entry_first(d, root_lba, k) != 0,
        end < root_sectors * 16 ==> entry_first(d, root_lba, end) == 0,
    ensures
        list_from(d, root_lba, root_sectors, e).1 == Some(live_count(d, root_lba, e, end)),
    decreases end - e,
{
    if e < root_sectors * 16 {
        let p = at(root_lba + e / 16, (e % 16) * 32);
        assert(p == root_lba * 512 + e * 32);
        assert(sec_ok(d, root_lba + e / 16)) by {
            assert(e / 16 < root_sectors);
        }
        if e < end {
            assert(entry_first(d, root_lba, e) != 0);
            lemma_list_counts(d, root_lba, root_sectors, e + 1, end);
        } else {
            assert(entry_first(d, root_lba, e) == 0);
        }
    }
}

/// The directory listing counts every live entry up to the end-of-directory
/// entry: when the root directory's sectors are all readable and its first
/// entry with a zero first byte is entry `end` (or there is none and `end`
/// is the number of entries), the listing reports exactly the live entries
/// among `0..end`. Deleted (0xE5) and long-name entries are skipped without
/// hiding the entries after them.
pub proof fn law_list_counts_live_entries(d: Seq<u8>, root_lba: int, root_sectors: int, end: int)
    requires
        0 <= end <= root_sectors * 16,
        root_lba >= 0,
        (root_lba + root_sectors) * 512 <= d.len(),
        forall|k: int| 0 <= k < end ==> #[trigger] entry_first(d, root_lba, k) != 0,
        end < root_sectors * 16 ==> entry_first(d, root_lba, end) == 0,
    ensures
        list_from(d, root_lba, root_sectors, 0).1 == Some(live_count(d, root_lba, 0, end)),
{
    lemma_list_counts(d, root_lba, root_sectors, 0, end);
}

fn fatls_bytes() -> (r: [u8; 7])
    ensures
        r@ == fatls_prefix(),
{
    let r = [0x46u8, 0x41, 0x54, 0x4C, 0x53, 0x3A, 0x20];
    assert(r@ =~= fatls_prefix());
    r
}

fn size_bytes() -> (r: [u8; 8])
    ensures
        r@ == size_infix(),
{
    let r = [0x20u8, 0x73, 0x69, 0x7A, 0x65, 0x3D, 0x30, 0x78];
    assert(r@ =~= size_infix());
    r
}

/// Lists the root directory on the console, one `FATLS: <name> size=0x<hex>`
/// line per live entry, returning the count, or `u64::MAX` on a bad volume or
/// a failed read.
pub fn fat16_list(disk: &[u8], out: &mut Vec<u8>) -> (r: u64)
    ensures
        ({
            let d = disk@;
            if !sec_ok(d, VOL_LBA as int) || bpb_of(d).bps != 512 || bpb_of(d).nfats == 0 {
                r == u64::MAX && final(out)@ == old(out)@
            } else {
                let l = list_from(d, bpb_of(d).root_lba(), bpb_of(d).root_sectors(), 0);
                &&& final(out)@ == old(out)@ + l.0
                &&& r == match l.1 {
                    Some(c) => c as u64,
                    None => u64::MAX,
                }
            }
        }),
{
    let g = match fat16_read_bpb(disk) {
        Some(g) => g,
        None => return u64::MAX,
    };
    if g.bps != 512 || g.nfats == 0 {
        return u64::MAX;
    }
    let (_fat_lba, root_lba, root_sectors, _data_lba) = geom_lbas(g);
    let ghost start = out@;
    let ghost full = list_from(disk@, g.root_lba(), g.root_sectors(), 0);
    let mut count: u64 = 0;
    let mut s: u64 = 0;
    proof {
        assert(start + full.0 =~= start + full.0);
        assert(out@.subrange(start.len() as int, out@.len() as int) =~= Seq::<u8>::empty());
    }
    while s < root_sectors
        invariant
            g.bounded(),
            root_lba == g.root_lba(),
            root_sectors == g.root_sectors(),
            root_lba < 0x200_0000,
            root_sectors <= 0x1000,
            s <= root_sectors,
            count <= 16 * s,
            full == list_from(disk@, g.root_lba(), g.root_sectors(), 0),
            start == old(out)@,
            g == bpb_of(disk@),
            g.bps == 512 && g.nfats != 0,
            sec_ok(disk@, VOL_LBA as int),
            out@.len() >= start.len(),
            out@.subrange(0, start.len() as int) == start,
            full.0 == out@.subrange(start.len() as int, out@.len() as int) + list_from(disk@, g.root_lba(), g.root_sectors(), 16 * s as int).0,
            full.1 == match list_from(disk@, g.root_lba(), g.root_sectors(), 16 * s as int).1 {
                Some(c) => Some((c + count) as nat),
                None => None,
            },
        decreases root_sectors - s,
    {
        if !sector_readable(disk, root_lba + s) {
            proof {
                assert(list_from(disk@, g.root_lba(), g.root_sectors(), 16 * s as int) == (Seq::<u8>::empty(), None::<nat>));
                assert(out@.subrange(start.len() as int, out@.len() as int) + Seq::<u8>::empty() =~= out@.subrange(start.len() as int, out@.len() as int));
                assert(out@ =~= start + full.0);
            }
            return u64::MAX;
        }
        let mut e: usize = 0;
        while e < 16
            invariant
                g.bounded(),
                root_lba == g.root_lba(),
                root_sectors == g.root_sectors(),
                root_lba < 0x200_0000,
                root_sectors <= 0x1000,
                s < root_sectors,
                e <= 16,
                count <= 16 * s + e,
                sec_ok(disk@, root_lba + s),
                full == list_from(disk@, g.root_lba(), g.root_sectors(), 0),
                start == old(out)@,
                g == bpb_of(disk@),
                g.bps == 512 && g.nfats != 0,
                sec_ok(disk@, VOL_LBA as int),
                out@.len() >= start.len(),
                out@.subrange(0, start.len() as int) == start,
                full.0 == out@.subrange(start.len() as int, out@.len() as int) + list_from(disk@, g.root_lba(), g.root_sectors(), 16 * s + e).0,
                full.1 == match list_from(disk@, g.root_lba(), g.root_sectors(), 16 * s + e).1 {
                    Some(c) => Some((c + count) as nat),
                    None => None,
                },
            decreases 16 - e,
        {
            let ghost ei = 16 * s + e;
            assert(ei / 16 == s && ei % 16 == e);
            let base = sector_base(disk, root_lba + s) + e * 32;
            assert(base == at(root_lba + ei / 16, (ei % 16) * 32));
            let first = disk[base];
            if first == 0 {
                proof {
                    assert(list_from(disk@, g.root_lba(), g.root_sectors(), ei) == (Seq::<u8>::empty(), Some(0nat)));
                    assert(out@.subrange(start.len() as int, out@.len() as int) + Seq::<u8>::empty() =~= out@.subrange(start.len() as int, out@.len() as int));
                    assert(out@ =~= start + full.0);
                }
                return count;
            }
            if first != 0xE5 && disk[base + 11] != 0x0F {
                let ghost before = out@;
                crate::serial::serial_write(out, &fatls_bytes());
                let name = copy_bytes(disk, base, 11);
                crate::serial::serial_write(out, name.as_slice());
                crate::serial::serial_write(out, &size_bytes());
                crate::serial::serial_write_hex(out, get_le32(disk, base + 28) as u64);
                crate::serial::serial_write(out, &[0x0Au8]);
                count += 1;
                proof {
                    assert(out@ =~= before + list_line(disk@, base as int));
                    assert(out@.subrange(0, start.len() as int) =~= start);
                    assert(out@.subrange(start.len() as int, out@.len() as int) =~= before.subrange(start.len() as int, before.len() as int) + list_line(disk@, base as int));
                }
            }
            e += 1;
        }
        s += 1;
    }
    proof {
        assert(list_from(disk@, g.root_lba(), g.root_sectors(), 16 * s as int) == (Seq::<u8>::empty(), Some(0nat)));
        assert(out@.subrange(start.len() as int, out@.len() as int) + Seq::<u8>::empty() =~= out@.subrange(start.len() as int, out@.len() as int));
        assert(out@ =~= start + full.0);
    }
    count
}

/// The image with sector `lba` replaced by the 512 bytes of `buf`.
pub open spec fn write_sec(d: Seq<u8>, lba: int, buf: Seq<u8>) -> Seq<u8> {
    Seq::new(d.len(), |i: int| if at(lba, 0) <= i < at(lba, 0) + 512 { buf[i - at(lba, 0)] } else { d[i] })
}

/// The 512 bytes of sector `lba`.
pub open spec fn sector_of(d: Seq<u8>, lba: int) -> Seq<u8> {
    d.subrange(at(lba, 0), at(lba, 0) + 512)
}

/// Writes `buf` over sector `lba`; false, changing nothing, when the sector
/// is past the end of the image.
pub fn write_sector(disk: &mut Vec<u8>, lba: u64, buf: &[u8]) -> (ok: bool)
    requires
        buf.len() == 512,
    ensures
        ok == sec_ok(old(disk)@, lba as int),
        ok ==> final(disk)@ == write_sec(old(disk)@, lba as int, buf@),
        !ok ==> final(disk)@ == old(disk)@,
{
    if !sector_readable(disk.as_slice(), lba) {
        return false;
    }
    let base = sector_base(disk.as_slice(), lba);
    let mut i: usize = 0;
    while i < 512
        invariant
            i <= 512,
            buf.len() == 512,
            base == lba * 512,
            base + 512 <= disk.len(),
            disk@.len() == old(disk)@.len(),
            forall|j: int| 0 <= j < disk@.len() ==> #[trigger] disk@[j] == (if base <= j < base + i { buf@[j - base] } else { old(disk)@[j] }),
        decreases 512 - i,
    {
        disk.set(base + i, buf[i]);
        i += 1;
    }
    assert(disk@ =~= write_sec(old(disk)@, lba as int, buf@));
    true
}

/// Outcome of the free-slot scan of the root directory.
pub enum SlotScan {
    Fail,
    Duplicate,
    /// The first free slot (its sector and byte offset), if any.
    Slot(Option<(int, int)>),
}

/// Scans root-directory entries from `e` on for the first reusable slot (a
/// deleted 0xE5 entry, or the end-of-directory entry), refusing a live entry
/// already named `target`. Entries after the end-of-directory entry are not
/// looked at.
pub open spec fn scan_slot(d: Seq<u8>, root_lba: int, root_sectors: int, target: Seq<u8>, e: int, found: Option<(int, int)>) -> SlotScan
    decreases root_sectors * 16 - e,
{
    if e < 0 || e >= root_sectors * 16 {
        SlotScan::Slot(found)
    } else if !sec_ok(d, root_lba + e / 16) {
        SlotScan::Fail
    } else {
        let here = (root_lba + e / 16, (e % 16) * 32);
        let p = at(here.0, here.1);
        let b0 = d[p];
        if b0 == 0 {
            SlotScan::Slot(if found is None { Some(here) } else { found })
        } else if b0 != 0xE5 && entry_named(d, root_lba, e, target) {
            SlotScan::Duplicate
        } else if b0 == 0xE5 && found is None {
            scan_slot(d, root_lba, root_sectors, target, e + 1, Some(here))
        } else {
            scan_slot(d, root_lba, root_sectors, target, e + 1, found)
        }
    }
}

/// The first cluster from `c` up to 255 whose FAT entry (in the first FAT
/// sector `fat`) is zero.
pub open spec fn first_free_cluster(fat: Seq<u8>, c: int) -> Option<int>
    decreases 256 - c,
{
    if c < 0 || c >= 256 {
        None
    } else if le16(fat, 2 * c) == 0 {
        Some(c)
    } else {
        first_free_cluster(fat, c + 1)
    }
}

/// Writes `buf` to the first sector of FAT copies `f..nfats`, stopping at the
/// first failed write.
pub open spec fn fat_writes(d: Seq<u8>, buf: Seq<u8>, fat_lba: int, spf: int, nfats: int, f: int) -> (bool, Seq<u8>)
    decreases nfats - f,
{
    if f >= nfats {
        (true, d)
    } else if !sec_ok(d, fat_lba + f * spf) {
        (false, d)
    } else {
        fat_writes(write_sec(d, fat_lba + f * spf, buf), buf, fat_lba, spf, nfats, f + 1)
    }
}

/// Directory sector `sec` with the 32-byte entry at `off` describing a file
/// named `target` in cluster `c` with `len` bytes.
pub open spec fn with_entry(sec: Seq<u8>, off: int, target: Seq<u8>, c: int, len: int) -> Seq<u8> {
    Seq::new(sec.len(), |i: int| if off <= i < off + 32 {
        let k = i - off;
        if k < 11 {
            target[k]
        } else if k == 11 {
            0x20u8
        } else if k == 26 {
            (c % 256) as u8
        } else if k == 27 {
            ((c / 256) % 256) as u8
        } else if k >= 28 {
            ((len / pow256(k - 28)) % 256) as u8
        } else {
            0u8
        }
    } else {
        sec[i]
    })
}

pub open spec fn pow256(k: int) -> int {
    if k <= 0 {
        1
    } else if k == 1 {
        0x100
    } else if k == 2 {
        0x1_0000
    } else {
        0x100_0000
    }
}

/// The data-cluster and directory writes that follow the FAT writes.
pub open spec fn after_fat(d1: Seq<u8>, g: Fat16Geom, c: int, slot: (int, int), target: Seq<u8>, data: Seq<u8>) -> (bool, Seq<u8>) {
    let clba = g.data_lba() + (c - 2) * g.spc;
    if !sec_ok(d1, clba) {
        (false, d1)
    } else {
        let dbuf = data + Seq::new((512 - data.len()) as nat, |i: int| 0u8);
        let d2 = write_sec(d1, clba, dbuf);
        if !sec_ok(d2, slot.0) {
            (false, d2)
        } else {
            (true, write_sec(d2, slot.0, with_entry(sector_of(d2, slot.0), slot.1, target, c, data.len() as int)))
        }
    }
}

/// What `fat16_write_named` does: the result and the disk afterwards. Nothing
/// is written unless the data fits one sector, the volume is sound, a slot is
/// free, the name is new, and a cluster among 2..255 is free; a failed write
/// part-way leaves the earlier writes in place.
pub open spec fn write_named_spec(d: Seq<u8>, target: Seq<u8>, data: Seq<u8>) -> (bool, Seq<u8>) {
    if data.len() == 0 || data.len() > 512 || !sec_ok(d, VOL_LBA as int) {
        (false, d)
    } else {
        let g = bpb_of(d);
        if g.bps != 512 || g.spc == 0 || g.nfats == 0 || g.spf == 0 {
            (false, d)
        } else {
            match scan_slot(d, g.root_lba(), g.root_sectors(), target, 0, None) {
                SlotScan::Slot(Some(slot)) => {
                    if !sec_ok(d, g.fat_lba()) {
                        (false, d)
                    } else {
                        let fat = sector_of(d, g.fat_lba());
                        match first_free_cluster(fat, 2) {
                            Some(c) => {
                                let buf = fat.update(2 * c, 0xFFu8).update(2 * c + 1, 0xFFu8);
                                let (ok1, d1) = fat_writes(d, buf, g.fat_lba(), g.spf as int, g.nfats as int, 0);
                                if !ok1 {
                                    (false, d1)
                                } else {
                                    after_fat(d1, g, c, slot, target, data)
                                }
                            },
                            None => (false, d),
                        }
                    }
                },
                _ => (false, d),
            }
        }
    }
}

/// A write refused before anything is written: empty or oversized data, a
/// geometry the driver does not take, the name already in use, no free root
/// slot, or no free cluster in the first FAT sector.
pub open spec fn write_refused(d: Seq<u8>, target: Seq<u8>, data: Seq<u8>) -> bool {
    let g = bpb_of(d);
    let sc = scan_slot(d, g.root_lba(), g.root_sectors(), target, 0, None);
    ||| data.len() == 0 || data.len() > 512
    ||| g.bps != 512 || g.spc == 0 || g.nfats == 0 || g.spf == 0
    ||| sc is Duplicate
    ||| sc == SlotScan::Slot(None)
    ||| (sc matches SlotScan::Slot(Some(_)) && sec_ok(d, g.fat_lba()) && first_free_cluster(sector_of(d, g.fat_lba()), 2) is None)
}

/// A refused write leaves the disk as it was: for empty or oversized data,
/// a bad boot sector, a duplicate name, a full directory or a full FAT,
/// `fat16_write_named` returns false and writes nothing.
pub proof fn law_refused_write_leaves_disk(d: Seq<u8>, target: Seq<u8>, data: Seq<u8>)
    requires
        write_refused(d, target, data),
    ensures
        write_named_spec(d, target, data) == (false, d),
{
}

/// Exec form of the slot scan.
pub enum SlotFound {
    Fail,
    Duplicate,
    Full,
    At(u64, usize),
}

pub open spec fn slot_found_matches(r: SlotFound, sc: SlotScan) -> bool {
    match r {
        SlotFound::Fail => sc is Fail,
        SlotFound::Duplicate => sc is Duplicate,
        SlotFound::Full => sc == SlotScan::Slot(None),
        SlotFound::At(l, o) => sc == SlotScan::Slot(Some((l as int, o as int))),
    }
}

fn find_slot(disk: &[u8], g: Fat16Geom, target: &[u8; 11]) -> (r: SlotFound)
    requires
        g.bounded(),
    ensures
        slot_found_matches(r, scan_slot(disk@, g.root_lba(), g.root_sectors(), target@, 0, None)),
        r matches SlotFound::At(l, o) ==> o + 32 <= 512 && sec_ok(disk@, l as int),
{
    let (_fat_lba, root_lba, root_sectors, _data_lba) = geom_lbas(g);
    let mut found = false;
    let mut slot_lba: u64 = 0;
    let mut slot_off: usize = 0;
    let mut s: u64 = 0;
    while s < root_sectors
        invariant
            g.bounded(),
            root_lba == g.root_lba(),
            root_sectors == g.root_sectors(),
            root_lba < 0x200_0000,
            root_sectors <= 0x1000,
            s <= root_sectors,
            found ==> slot_off + 32 <= 512 && sec_ok(disk@, slot_lba as int),
            scan_slot(disk@, g.root_lba(), g.root_sectors(), target@, 0, None) == scan_slot(disk@, g.root_lba(), g.root_sectors(), target@, 16 * s as int, if found { Some((slot_lba as int, slot_off as int)) } else { None }),
        decreases root_sectors - s,
    {
        if !sector_readable(disk, root_lba + s) {
            return SlotFound::Fail;
        }
        let mut e: usize = 0;
        while e < 16
            invariant
                g.bounded(),
                root_lba == g.root_lba(),
                root_sectors == g.root_sectors(),
                root_lba < 0x200_0000,
                root_sectors <= 0x1000,
                s < root_sectors,
                e <= 16,
                sec_ok(disk@, root_lba + s),
                found ==> slot_off + 32 <= 512 && sec_ok(disk@, slot_lba as int),
                scan_slot(disk@, g.root_lba(), g.root_sectors(), target@, 0, None) == scan_slot(disk@, g.root_lba(), g.root_sectors(), target@, 16 * s + e, if found { Some((slot_lba as int, slot_off as int)) } else { None }),
            decreases 16 - e,
        {
            let ghost ei = 16 * s + e;
            assert(ei / 16 == s && ei % 16 == e);
            let base = sector_base(disk, root_lba + s) + e * 32;
            assert(base == at(root_lba + ei / 16, (ei % 16) * 32));
            let b0 = disk[base];
            if b0 == 0 {
                if !found {
                    return SlotFound::At(root_lba + s, e * 32);
                }
                return SlotFound::At(slot_lba, slot_off);
            }
            if b0 != 0xE5 && names_equal(disk, base, target) {
                assert(entry_named(disk@, g.root_lba(), ei, target@));
                return SlotFound::Duplicate;
            }
            if b0 == 0xE5 && !found {
                slot_lba = root_lba + s;
                slot_off = e * 32;
                found = true;
            }
            e += 1;
        }
        s += 1;
    }
    if found {
        SlotFound::At(slot_lba, slot_off)
    } else {
        SlotFound::Full
    }
}

/// The first free cluster among 2..255 in the first FAT sector, whose bytes
/// start at `base`.
fn find_free_cluster(disk: &[u8], base: usize) -> (r: Option<u64>)
    requires
        base + 512 <= disk.len(),
    ensures
        match r {
            Some(c) => first_free_cluster(disk@.subrange(base as int, base + 512), 2) == Some(c as int) && 2 <= c < 256,
            None => first_free_cluster(disk@.subrange(base as int, base + 512), 2) is None,
        },
{
    let ghost fat = disk@.subrange(base as int, base + 512);
    let mut c: usize = 2;
    while c < 256
        invariant
            2 <= c <= 256,
            base + 512 <= disk.len(),
            fat == disk@.subrange(base as int, base + 512),
            first_free_cluster(fat, 2) == first_free_cluster(fat, c as int),
        decreases 256 - c,
    {
        let v = get_le16(disk, base + c * 2);
        assert(le16(fat, 2 * c) == le16(disk@, base + c * 2));
        if v == 0 {
            return Some(c as u64);
        }
        c += 1;
    }
    None
}

/// Creates a single-cluster file `target` holding `data` (1 to 512 bytes) in
/// the root directory: marks the first free cluster end-of-chain in every FAT
/// copy, writes the data there, and fills the first free directory slot.
/// Refuses a duplicate name, a full directory and a full FAT before writing
/// anything.
pub fn fat16_write_named(disk: &mut Vec<u8>, target: &[u8; 11], data: &[u8]) -> (ok: bool)
    ensures
        (ok, final(disk)@) == write_named_spec(old(disk)@, target@, data@),
{
    if data.len() == 0 || data.len() > 512 {
        return false;
    }
    let g = match fat16_read_bpb(disk.as_slice()) {
        Some(g) => g,
        None => return false,
    };
    if g.bps != 512 || g.spc == 0 || g.nfats == 0 || g.spf == 0 {
        return false;
    }
    let (fat_lba, _root_lba, _root_sectors, data_lba) = geom_lbas(g);
    let (slot_lba, slot_off) = match find_slot(disk.as_slice(), g, target) {
        SlotFound::At(l, o) => (l, o),
        _ => return false,
    };
    if !sector_readable(disk.as_slice(), fat_lba) {
        return false;
    }
    let fat_base = sector_base(disk.as_slice(), fat_lba);
    let cluster = match find_free_cluster(disk.as_slice(), fat_base) {
        Some(c) => c,
        None => return false,
    };
    let ghost d0 = disk@;
    let ghost expected = write_named_spec(old(disk)@, target@, data@);
    let mut buf = copy_bytes(disk.as_slice(), fat_base, 512);
    buf.set((cluster as usize) * 2, 0xFF);
    buf.set((cluster as usize) * 2 + 1, 0xFF);
    let ghost fbuf = buf@;
    assert(fbuf == sector_of(d0, g.fat_lba()).update(2 * cluster as int, 0xFFu8).update(2 * cluster + 1, 0xFFu8));
    assert(g.nfats * g.spf < 0x100_0000) by (nonlinear_arith)
        requires
            g.nfats < 256,
            g.spf < 0x1_0000,
    ;
    let mut f: u64 = 0;
    assert(expected == {
        let (ok1, d1) = fat_writes(disk@, fbuf, g.fat_lba(), g.spf as int, g.nfats as int, 0);
        if !ok1 {
            (false, d1)
        } else {
            after_fat(d1, g, cluster as int, (slot_lba as int, slot_off as int), target@, data@)
        }
    });
    while f < g.nfats
        invariant
            g.bounded(),
            f <= g.nfats,
            g.nfats * g.spf < 0x100_0000,
            fat_lba == g.fat_lba(),
            fat_lba < 0x1_1000,
            buf@ == fbuf,
            buf.len() == 512,
            disk@.len() == d0.len(),
            fat_writes(d0, fbuf, g.fat_lba(), g.spf as int, g.nfats as int, 0) == fat_writes(disk@, fbuf, g.fat_lba(), g.spf as int, g.nfats as int, f as int),
            expected == write_named_spec(old(disk)@, target@, data@),
            expected == {
                let (ok1, d1) = fat_writes(disk@, fbuf, g.fat_lba(), g.spf as int, g.nfats as int, f as int);
                if !ok1 {
                    (false, d1)
                } else {
                    after_fat(d1, g, cluster as int, (slot_lba as int, slot_off as int), target@, data@)
                }
            },
        decreases g.nfats - f,
    {
        assert(f * g.spf <= g.nfats * g.spf) by (nonlinear_arith)
            requires
                f <= g.nfats,
        ;
        if !write_sector(disk, fat_lba + f * g.spf, buf.as_slice()) {
            return false;
        }
        f += 1;
    }
    assert((cluster - 2) * g.spc < 0x100_0000) by (nonlinear_arith)
        requires
            cluster < 256,
            cluster >= 2,
            g.spc < 256,
    ;
    let cluster_lba = data_lba + (cluster - 2) * g.spc;
    let mut dbuf: Vec<u8> = vec![0u8; 512];
    let mut i: usize = 0;
    while i < data.len()
        invariant
            i <= data.len() <= 512,
            dbuf.len() == 512,
            forall|j: int| 0 <= j < 512 ==> #[trigger] dbuf@[j] == (if j < i { data@[j] } else { 0u8 }),
        decreases data.len() - i,
    {
        dbuf.set(i, data[i]);
        i += 1;
    }
    assert(dbuf@ =~= data@ + Seq::new((512 - data.len()) as nat, |i: int| 0u8));
    if !write_sector(disk, cluster_lba, dbuf.as_slice()) {
        return false;
    }
    if !sector_readable(disk.as_slice(), slot_lba) {
        return false;
    }
    let sb = sector_base(disk.as_slice(), slot_lba);
    let mut ent = copy_bytes(disk.as_slice(), sb, 512);
    let ghost sec0 = ent@;
    let len32 = data.len() as u32;
    let mut k: usize = 0;
    while k < 32
        invariant
            k <= 32,
            slot_off + 32 <= 512,
            ent.len() == 512,
            sec0.len() == 512,
            cluster < 256,
            len32 == data.len(),
            len32 <= 512,
            forall|j: int| 0 <= j < 512 ==> #[trigger] ent@[j] == (if slot_off <= j < slot_off + k { with_entry(sec0, slot_off as int, target@, cluster as int, len32 as int)[j] } else { sec0[j] }),
        decreases 32 - k,
    {
        let b: u8 = if k < 11 {
            target[k]
        } else if k == 11 {
            0x20
        } else if k == 26 {
            (cluster % 256) as u8
        } else if k == 27 {
            ((cluster / 256) % 256) as u8
        } else if k == 28 {
            (len32 % 256) as u8
        } else if k == 29 {
            ((len32 / 0x100) % 256) as u8
        } else if k == 30 {
            ((len32 / 0x1_0000) % 256) as u8
        } else if k == 31 {
            ((len32 / 0x100_0000) % 256) as u8
        } else {
            0
        };
        ent.set(slot_off + k, b);
        k += 1;
    }
    assert(ent@ =~= with_entry(sec0, slot_off as int, target@, cluster as int, data.len() as int));
    let ok = write_sector(disk, slot_lba, ent.as_slice());
    ok
}

// ---------------- reading back a write ----------------

/// Byte position of root-directory entry `k`.
pub open spec fn entry_pos(root_lba: int, k: int) -> int {
    at(root_lba + k / 16, (k % 16) * 32)
}

/// Entry `k` is readable, in use (not the end of the directory), and not a
/// live entry named `target`.
pub open spec fn passes(d: Seq<u8>, root_lba: int, k: int, target: Seq<u8>) -> bool {
    &&& sec_ok(d, root_lba + k / 16)
    &&& d[entry_pos(root_lba, k)] != 0
    &&& (d[entry_pos(root_lba, k)] == 0xE5 || !entry_named(d, root_lba, k, target))
}

/// Index of the root-directory entry at sector `slot.0`, offset `slot.1`.
pub open spec fn slot_index(root_lba: int, slot: (int, int)) -> int {
    (slot.0 - root_lba) * 16 + slot.1 / 32
}

proof fn lemma_scan_slot(d: Seq<u8>, rl: int, rs: int, target: Seq<u8>, e: int, found: Option<(int, int)>)
    requires
        0 <= e,
        0 <= rl,
        found is None ==> forall|k: int| 0 <= k < e ==> #[trigger] passes(d, rl, k, target),
        found matches Some(sl) ==> {
            let ks = slot_index(rl, sl);
            &&& 0 <= ks < e
            &&& ks < rs * 16
            &&& sl == (rl + ks / 16, (ks % 16) * 32)
            &&& sec_ok(d, rl + ks / 16)
            &&& d[entry_pos(rl, ks)] == 0xE5
            &&& forall|k: int| 0 <= k < ks ==> #[trigger] passes(d, rl, k, target)
        },
    ensures
        scan_slot(d, rl, rs, target, e, found) matches SlotScan::Slot(Some(sl)) ==> {
            let ks = slot_index(rl, sl);
            &&& 0 <= ks < rs * 16
            &&& sl == (rl + ks / 16, (ks % 16) * 32)
            &&& sec_ok(d, rl + ks / 16)
            &&& forall|k: int| 0 <= k < ks ==> #[trigger] passes(d, rl, k, target)
        },
    decreases rs * 16 - e,
{
    if e >= rs * 16 {
    } else if !sec_ok(d, rl + e / 16) {
    } else {
        let here = (rl + e / 16, (e % 16) * 32);
        assert(slot_index(rl, here) == e);
        let p = at(here.0, here.1);
        let b0 = d[p];
        if b0 == 0 {
        } else if b0 != 0xE5 && entry_named(d, rl, e, target) {
        } else if b0 == 0xE5 && found is None {
            lemma_scan_slot(d, rl, rs, target, e + 1, Some(here));
        } else {
            if found is None {
                assert(passes(d, rl, e, target));
                assert forall|k: int| 0 <= k < e + 1 implies #[trigger] passes(d, rl, k, target) by {
                    if k < e {
                    }
                }
            }
            lemma_scan_slot(d, rl, rs, target, e + 1, found);
        }
    }
}

proof fn lemma_fat_writes_frame(d: Seq<u8>, buf: Seq<u8>, fl: int, spf: int, nfats: int, f: int)
    requires
        buf.len() == 512,
        spf >= 1,
        0 <= f,
        fl >= 0,
    ensures
        fat_writes(d, buf, fl, spf, nfats, f).1.len() == d.len(),
        forall|i: int| 0 <= i < d.len() && (i < fl * 512 || i >= (fl + nfats * spf) * 512) ==> #[trigger] fat_writes(d, buf, fl, spf, nfats, f).1[i] == d[i],
    decreases nfats - f,
{
    if f >= nfats {
    } else if !sec_ok(d, fl + f * spf) {
    } else {
        let d1 = write_sec(d, fl + f * spf, buf);
        lemma_fat_writes_frame(d1, buf, fl, spf, nfats, f + 1);
        assert forall|i: int| 0 <= i < d.len() && (i < fl * 512 || i >= (fl + nfats * spf) * 512) implies d1[i] == d[i] by {
            assert(fl * 512 <= at(fl + f * spf, 0)) by (nonlinear_arith)
                requires
                    f >= 0,
                    spf >= 1,
            ;
            assert(at(fl + f * spf, 0) + 512 <= (fl + nfats * spf) * 512) by (nonlinear_arith)
                requires
                    f < nfats,
                    spf >= 1,
            ;
        }
    }
}

proof fn lemma_dir_lookup_found(d: Seq<u8>, rl: int, rs: int, target: Seq<u8>, e: int, ks: int)
    requires
        0 <= e <= ks < rs * 16,
        0 <= rl,
        forall|k: int| e <= k < ks ==> #[trigger] passes(d, rl, k, target),
        target.len() == 11,
        target[0] != 0xE5,
        sec_ok(d, rl + ks / 16),
        d[entry_pos(rl, ks)] != 0,
        entry_named(d, rl, ks, target),
    ensures
        dir_lookup(d, rl, rs, target, e) == DirLookup::Found(le16(d, entry_pos(rl, ks) + 26) as u64, le32(d, entry_pos(rl, ks) + 28) as u64),
    decreases ks - e,
{
    if e < ks {
        assert(passes(d, rl, e, target));
        let p = entry_pos(rl, e);
        if d[p] == 0xE5 {
            assert(d.subrange(p, p + 11)[0] != target[0]);
        }
        lemma_dir_lookup_found(d, rl, rs, target, e + 1, ks);
    }
}

proof fn lemma_first_free_range(fat: Seq<u8>, c: int)
    requires
        0 <= c,
    ensures
        first_free_cluster(fat, c) matches Some(x) ==> c <= x < 256,
    decreases 256 - c,
{
    if c < 256 && le16(fat, 2 * c) != 0 {
        lemma_first_free_range(fat, c + 1);
    }
}

/// Reading back a file that `fat16_write_named` has just created gives the
/// data written, as much of it as the read asks for. This holds for a real
/// 8.3 name (one that does not start with 0x00 or 0xE5, the marks of free
/// directory entries) on a volume whose FAT does not share the boot sector.
#[verifier::rlimit(100)]
pub proof fn law_read_after_write(d: Seq<u8>, target: Seq<u8>, data: Seq<u8>, out_len: int)
    requires
        target.len() == 11,
        target[0] != 0,
        target[0] != 0xE5,
        bpb_of(d).reserved >= 1,
        write_named_spec(d, target, data).0,
        out_len >= 0,
    ensures
        read_named_spec(write_named_spec(d, target, data).1, target, out_len) == Some(
            data.subrange(0, min3(data.len() as int, out_len, 512)),
        ),
{
    let g = bpb_of(d);
    let rl = g.root_lba();
    let rs = g.root_sectors();
    let fl = g.fat_lba();
    let slot = match scan_slot(d, rl, rs, target, 0, None) {
        SlotScan::Slot(Some(sl)) => sl,
        _ => (0, 0),
    };
    lemma_scan_slot(d, rl, rs, target, 0, None);
    let ks = slot_index(rl, slot);
    let fat = sector_of(d, fl);
    let c = first_free_cluster(fat, 2).unwrap();
    lemma_first_free_range(fat, 2);
    let buf = fat.update(2 * c, 0xFFu8).update(2 * c + 1, 0xFFu8);
    let d1 = fat_writes(d, buf, fl, g.spf as int, g.nfats as int, 0).1;
    lemma_fat_writes_frame(d, buf, fl, g.spf as int, g.nfats as int, 0);
    let clba = g.data_lba() + (c - 2) * g.spc;
    let len = data.len() as int;
    let dbuf = data + Seq::new((512 - len) as nat, |i: int| 0u8);
    let d2 = write_sec(d1, clba, dbuf);
    let ent = with_entry(sector_of(d2, slot.0), slot.1, target, c, len);
    let d3 = write_sec(d2, slot.0, ent);
    assert(write_named_spec(d, target, data) == (true, d3));
    assert(fl + g.nfats * g.spf == rl);
    assert(clba >= g.data_lba()) by (nonlinear_arith)
        requires
            clba == g.data_lba() + (c - 2) * g.spc,
            c >= 2,
            g.spc >= 1,
    ;
    assert(g.data_lba() == rl + rs);
    assert(rl <= slot.0 < rl + rs);
    // Bytes outside the FAT sectors, the data cluster and the directory slot
    // are as they were.
    assert forall|i: int| 0 <= i < d.len() && i < fl * 512 implies #[trigger] d3[i] == d[i] by {
        assert(d1[i] == d[i]);
    }
    assert(bpb_of(d3) == g) by {
        assert forall|j: int| 0 <= j < 512 implies #[trigger] d3[at(VOL_LBA as int, j)] == d[at(VOL_LBA as int, j)] by {
            assert(at(VOL_LBA as int, j) < fl * 512);
        }
    }
    // Entries before the slot still pass, the slot now names the file.
    assert forall|k: int| 0 <= k < ks implies #[trigger] passes(d3, rl, k, target) by {
        assert(passes(d, rl, k, target));
        let pk = entry_pos(rl, k);
        assert(rl <= rl + k / 16 < rl + rs);
        assert forall|j: int| 0 <= j < 32 implies #[trigger] d3[pk + j] == d[pk + j] by {
            assert(d1[pk + j] == d[pk + j]);
            assert(d2[pk + j] == d1[pk + j]);
            if rl + k / 16 == slot.0 {
                assert((k % 16) * 32 != slot.1);
            }
        }
        assert(d3.subrange(pk, pk + 11) =~= d.subrange(pk, pk + 11));
        assert(d3[pk] == d[pk + 0]);
    }
    let ps = entry_pos(rl, ks);
    assert(ps == at(slot.0, slot.1));
    assert forall|j: int| 0 <= j < 32 implies #[trigger] d3[ps + j] == ent[slot.1 + j] by {}
    assert(d3.subrange(ps, ps + 11) =~= target);
    assert(d3[ps] == target[0]);
    lemma_dir_lookup_found(d3, rl, rs, target, 0, ks);
    assert(le16(d3, ps + 26) == c);
    assert(le32(d3, ps + 28) == len) by {
        assert(d3[ps + 28] == (len % 256) as u8);
        assert(d3[ps + 29] == ((len / 256) % 256) as u8);
        assert(d3[ps + 30] == ((len / 0x1_0000) % 256) as u8);
        assert(d3[ps + 31] == ((len / 0x100_0000) % 256) as u8);
    }
    // The data cluster holds the data.
    let n = min3(len, out_len, 512);
    assert(d3.subrange(at(clba, 0), at(clba, 0) + n) =~= data.subrange(0, n)) by {
        assert forall|j: int| 0 <= j < n implies d3[at(clba, 0) + j] == data[j] by {
            assert(d2[at(clba, 0) + j] == dbuf[j]);
        }
    }
}

} // verus!
