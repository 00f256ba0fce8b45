//! The mount table: a path-prefix -> filesystem registry with longest-prefix
//! matching on path-component boundaries.

use vstd::prelude::*;

verus! {

pub const MOUNT_MAX: usize = 8;
pub const PREFIX_MAX: usize = 24;

/// One registry slot.
#[derive(Clone, Copy)]
pub struct Mount {
    pub prefix: [u8; PREFIX_MAX],
    pub prefix_len: usize,
    pub fs_type: u8,
    pub active: bool,
}

/// What a slot means: its prefix, the filesystem it routes to, and whether it is live.
pub struct MountView {
    pub prefix: Seq<u8>,
    pub fs_type: u8,
    pub active: bool,
}

impl Mount {
    pub open spec fn view(&self) -> MountView {
        MountView {
            prefix: self.prefix@.subrange(0, self.prefix_len as int),
            fs_type: self.fs_type,
            active: self.active,
        }
    }

    pub open spec fn wf(&self) -> bool {
        self.active ==> 1 <= self.prefix_len <= PREFIX_MAX
    }

    fn empty() -> (m: Mount)
        ensures
            !m.active,
            m.wf(),
    {
        Mount { prefix: [0u8; PREFIX_MAX], prefix_len: 0, fs_type: 0, active: false }
    }
}

/// `path` lies under the live mount `m`: the prefix matches and ends on a
/// component boundary (the whole path, a following '/', or a prefix ending in '/').
pub open spec fn mount_matches(m: MountView, path: Seq<u8>) -> bool {
    let pl = m.prefix.len();
    &&& m.active
    &&& 1 <= pl <= path.len()
    &&& path.subrange(0, pl as int) == m.prefix
    &&& (pl == path.len() || path[pl as int] == 0x2F || m.prefix[pl - 1] == 0x2F)
}

/// The fixed-size registry.
pub struct MountTable {
    pub mounts: Vec<Mount>,
}

impl MountTable {
    pub open spec fn view(&self) -> Seq<MountView> {
        self.mounts@.map_values(|m: Mount| m.view())
    }

    pub open spec fn wf(&self) -> bool {
        &&& self.mounts.len() == MOUNT_MAX
        &&& forall|i: int| 0 <= i < MOUNT_MAX ==> (#[trigger] self.mounts@[i]).wf()
    }

    /// An empty table.
    pub fn new() -> (t: MountTable)
        ensures
            t.wf(),
            forall|i: int| 0 <= i < MOUNT_MAX ==> !(#[trigger] t@[i]).active,
    {
        let mut mounts: Vec<Mount> = Vec::new();
        let mut i: usize = 0;
        while i < MOUNT_MAX
            invariant
                i <= MOUNT_MAX,
                mounts.len() == i,
                forall|j: int| 0 <= j < i ==> !(#[trigger] mounts@[j]).active && mounts@[j].wf(),
            decreases MOUNT_MAX - i,
        {
            mounts.push(Mount::empty());
            i += 1;
        }
        MountTable { mounts }
    }

    /// Deactivates every slot.
    pub fn mount_clear(&mut self)
        requires
            old(self).wf(),
        ensures
            final(self).wf(),
            forall|i: int| 0 <= i < MOUNT_MAX ==> !(#[trigger] final(self)@[i]).active,
    {
        let mut i: usize = 0;
        while i < MOUNT_MAX
            invariant
                i <= MOUNT_MAX,
                self.wf(),
                forall|j: int| 0 <= j < i ==> !(#[trigger] self.mounts@[j]).active,
            decreases MOUNT_MAX - i,
        {
            let mut m = self.mounts[i];
            m.active = false;
            self.mounts.set(i, m);
            i += 1;
        }
    }

    /// Registers `prefix` -> `fs_type` in the first free slot. Returns false,
    /// changing nothing, when the prefix is empty or too long or the table is full.
    pub fn mount_register(&mut self, prefix: &[u8], fs_type: u8) -> (ok: bool)
        requires
            old(self).wf(),
        ensures
            final(self).wf(),
            ok <==> (1 <= prefix.len() <= PREFIX_MAX && exists|i: int|
                0 <= i < MOUNT_MAX && !(#[trigger] old(self)@[i]).active),
            !ok ==> final(self)@ == old(self)@,
            ok ==> exists|i: int|
                0 <= i < MOUNT_MAX && !(#[trigger] old(self)@[i]).active && (forall|j: int|
                    0 <= j < i ==> (#[trigger] old(self)@[j]).active) && final(self)@ == old(
                    self,
                )@.update(i, MountView { prefix: prefix@, fs_type, active: true }),
    {
        if prefix.len() == 0 || prefix.len() > PREFIX_MAX {
            return false;
        }
        let mut i: usize = 0;
        while i < MOUNT_MAX
            invariant
                i <= MOUNT_MAX,
                self.wf(),
                *self == *old(self),
                1 <= prefix.len() <= PREFIX_MAX,
                forall|j: int| 0 <= j < i ==> (#[trigger] self@[j]).active,
            decreases MOUNT_MAX - i,
        {
            if !self.mounts[i].active {
                assert(!old(self)@[i as int].active);
                assert(forall|j: int| 0 <= j < i ==> (#[trigger] old(self)@[j]).active);
                let mut m = self.mounts[i];
                let mut k: usize = 0;
                while k < prefix.len()
                    invariant
                        k <= prefix.len() <= PREFIX_MAX,
                        forall|j: int| 0 <= j < k ==> m.prefix@[j] == prefix@[j],
                    decreases prefix.len() - k,
                {
                    m.prefix[k] = prefix[k];
                    k += 1;
                }
                m.prefix_len = prefix.len();
                m.fs_type = fs_type;
                m.active = true;
                assert(m.view().prefix =~= prefix@);
                self.mounts.set(i, m);
                assert(self@ =~= old(self)@.update(
                    i as int,
                    MountView { prefix: prefix@, fs_type, active: true },
                ));
                return true;
            }
            i += 1;
        }
        false
    }

    /// Longest-prefix match of `path` on component boundaries; on a tie the
    /// earliest slot wins. Returns the matched mount's filesystem type.
    pub fn mount_lookup(&self, path: &[u8]) -> (r: Option<u8>)
        requires
            self.wf(),
        ensures
            r is None <==> forall|i: int| 0 <= i < MOUNT_MAX ==> !mount_matches(#[trigger] self@[i], path@),
            r matches Some(t) ==> exists|i: int|
                0 <= i < MOUNT_MAX && mount_matches(#[trigger] self@[i], path@) && self@[i].fs_type == t
                    && (forall|j: int|
                    0 <= j < MOUNT_MAX && mount_matches(#[trigger] self@[j], path@)
                        ==> self@[j].prefix.len() <= self@[i].prefix.len()) && (forall|j: int|
                    0 <= j < i && mount_matches(#[trigger] self@[j], path@)
                        ==> self@[j].prefix.len() < self@[i].prefix.len()),
    {
        let mut best: Option<u8> = None;
        let mut best_len: usize = 0;
        let ghost mut best_i: int = 0;
        let mut i: usize = 0;
        while i < MOUNT_MAX
            invariant
                i <= MOUNT_MAX,
                self.wf(),
                best is None <==> forall|j: int| 0 <= j < i ==> !mount_matches(#[trigger] self@[j], path@),
                best matches Some(t) ==> {
                    &&& 0 <= best_i < i
                    &&& mount_matches(self@[best_i], path@)
                    &&& self@[best_i].fs_type == t
                    &&& best_len == self@[best_i].prefix.len()
                    &&& forall|j: int| 0 <= j < i && mount_matches(#[trigger] self@[j], path@) ==> self@[j].prefix.len() <= best_len
                    &&& forall|j: int| 0 <= j < best_i && mount_matches(#[trigger] self@[j], path@) ==> self@[j].prefix.len() < best_len
                },
            decreases MOUNT_MAX - i,
        {
            let m = self.mounts[i];
            assert(self@[i as int] == m.view());
            if m.active {
                let pl = m.prefix_len;
                if pl <= path.len() && prefix_eq(&m.prefix, path, pl) {
                    let boundary = pl == path.len() || path[pl] == 0x2F || m.prefix[pl - 1] == 0x2F;
                    if boundary && (best.is_none() || pl > best_len) {
                        best = Some(m.fs_type);
                        best_len = pl;
                        proof {
                            best_i = i as int;
                        }
                    }
                    assert(boundary <==> mount_matches(self@[i as int], path@));
                } else {
                    assert(!mount_matches(self@[i as int], path@)) by {
                        if pl <= path.len() {
                            assert(path@.subrange(0, pl as int)[pl - 1] == path@[pl - 1]);
                        }
                    }
                }
            }
            i += 1;
        }
        best
    }
}

/// The first `n` bytes of `prefix` equal the first `n` bytes of `path`.
fn prefix_eq(prefix: &[u8; PREFIX_MAX], path: &[u8], n: usize) -> (r: bool)
    requires
        n <= PREFIX_MAX,
        n <= path.len(),
    ensures
        r <==> prefix@.subrange(0, n as int) == path@.subrange(0, n as int),
{
    let mut k: usize = 0;
    while k < n
        invariant
            k <= n <= PREFIX_MAX,
            n <= path.len(),
            forall|j: int| 0 <= j < k ==> prefix@[j] == path@[j],
        decreases n - k,
    {
        if prefix[k] != path[k] {
            assert(prefix@.subrange(0, n as int)[k as int] != path@.subrange(0, n as int)[k as int]);
            return false;
        }
        k += 1;
    }
    assert(prefix@.subrange(0, n as int) =~= path@.subrange(0, n as int));
    true
}

/// "MOUNT: table ok\n" and "MOUNT: table fail\n".
pub open spec fn mount_ok_msg() -> Seq<u8> {
    seq![0x4Du8, 0x4F, 0x55, 0x4E, 0x54, 0x3A, 0x20, 0x74, 0x61, 0x62, 0x6C, 0x65, 0x20, 0x6F, 0x6B, 0x0A]
}

pub open spec fn mount_fail_msg() -> Seq<u8> {
    seq![0x4Du8, 0x4F, 0x55, 0x4E, 0x54, 0x3A, 0x20, 0x74, 0x61, 0x62, 0x6C, 0x65, 0x20, 0x66, 0x61, 0x69, 0x6C, 0x0A]
}

/// A lookup whose result satisfies `mount_lookup`'s contract, on a table
/// where slot `i` matches and every other match is shorter, is slot `i`'s
/// filesystem.
proof fn lemma_lookup_is(tbl: Seq<MountView>, path: Seq<u8>, i: int, r: Option<u8>)
    requires
        0 <= i < MOUNT_MAX,
        mount_matches(tbl[i], path),
        forall|j: int| 0 <= j < MOUNT_MAX && j != i && mount_matches(#[trigger] tbl[j], path) ==> tbl[j].prefix.len() < tbl[i].prefix.len(),
        r is None <==> forall|k: int| 0 <= k < MOUNT_MAX ==> !mount_matches(#[trigger] tbl[k], path),
        r matches Some(t) ==> exists|k: int|
            0 <= k < MOUNT_MAX && mount_matches(#[trigger] tbl[k], path) && tbl[k].fs_type == t
                && (forall|j: int|
                0 <= j < MOUNT_MAX && mount_matches(#[trigger] tbl[j], path)
                    ==> tbl[j].prefix.len() <= tbl[k].prefix.len()) && (forall|j: int|
                0 <= j < k && mount_matches(#[trigger] tbl[j], path)
                    ==> tbl[j].prefix.len() < tbl[k].prefix.len()),
    ensures
        r == Some(tbl[i].fs_type),
{
    assert(!(forall|k: int| 0 <= k < MOUNT_MAX ==> !mount_matches(#[trigger] tbl[k], path)));
    let t = r.unwrap();
    let k = choose|k: int|
        0 <= k < MOUNT_MAX && mount_matches(#[trigger] tbl[k], path) && tbl[k].fs_type == t
            && (forall|j: int|
            0 <= j < MOUNT_MAX && mount_matches(#[trigger] tbl[j], path)
                ==> tbl[j].prefix.len() <= tbl[k].prefix.len()) && (forall|j: int|
            0 <= j < k && mount_matches(#[trigger] tbl[j], path)
                ==> tbl[j].prefix.len() < tbl[k].prefix.len());
    assert(tbl[i].prefix.len() <= tbl[k].prefix.len());
}

/// The slot a successful registration used, when slots before `k` are live
/// and slot `k` is free.
proof fn lemma_register_at(old: Seq<MountView>, new: Seq<MountView>, k: int, m: MountView)
    requires
        0 <= k < MOUNT_MAX,
        forall|j: int| 0 <= j < k ==> (#[trigger] old[j]).active,
        !old[k].active,
        exists|i: int|
            0 <= i < MOUNT_MAX && !(#[trigger] old[i]).active && (forall|j: int|
                0 <= j < i ==> (#[trigger] old[j]).active) && new == old.update(i, m),
    ensures
        new == old.update(k, m),
{
    let i = choose|i: int|
        0 <= i < MOUNT_MAX && !(#[trigger] old[i]).active && (forall|j: int|
            0 <= j < i ==> (#[trigger] old[j]).active) && new == old.update(i, m);
    if i < k {
        assert(old[i].active);
    } else if i > k {
        assert(old[k].active);
    }
}

impl MountTable {
    /// The mount-table self-check: registers overlapping mounts and checks
    /// longest-prefix matching, component boundaries and the root fallback,
    /// then clears the table. Returns 1 and reports "table ok".
    pub fn mount_selftest(&mut self, out: &mut Vec<u8>) -> (r: u64)
        requires
            old(self).wf(),
        ensures
            final(self).wf(),
            forall|i: int| 0 <= i < MOUNT_MAX ==> !(#[trigger] final(self)@[i]).active,
            r == 1,
            final(out)@ == old(out)@ + mount_ok_msg(),
    {
        let root: [u8; 1] = [0x2F];
        let data: [u8; 5] = [0x2F, 0x64, 0x61, 0x74, 0x61];
        let mnt: [u8; 4] = [0x2F, 0x6D, 0x6E, 0x74];
        let special: [u8; 13] = [0x2F, 0x64, 0x61, 0x74, 0x61, 0x2F, 0x73, 0x70, 0x65, 0x63, 0x69, 0x61, 0x6C];
        self.mount_clear();
        let ghost t0 = self@;
        assert(!t0[0].active);
        let ok0 = self.mount_register(&root, 9);
        proof {
            lemma_register_at(t0, self@, 0, MountView { prefix: root@, fs_type: 9, active: true });
        }
        let ghost t1 = self@;
        assert(!t1[1].active);
        let ok1 = self.mount_register(&data, 0);
        proof {
            lemma_register_at(t1, self@, 1, MountView { prefix: data@, fs_type: 0, active: true });
        }
        let ghost t2 = self@;
        assert(!t2[2].active);
        let ok2 = self.mount_register(&mnt, 1);
        proof {
            lemma_register_at(t2, self@, 2, MountView { prefix: mnt@, fs_type: 1, active: true });
        }
        let ghost t3 = self@;
        assert(!t3[3].active);
        let ok3 = self.mount_register(&special, 4);
        proof {
            lemma_register_at(t3, self@, 3, MountView { prefix: special@, fs_type: 4, active: true });
        }
        let reg = ok0 && ok1 && ok2 && ok3;
        let ghost tbl = self@;
        assert(tbl[0].prefix =~= seq![0x2Fu8]);
        assert(tbl[1].prefix =~= seq![0x2Fu8, 0x64, 0x61, 0x74, 0x61]);
        assert(tbl[2].prefix =~= seq![0x2Fu8, 0x6D, 0x6E, 0x74]);
        assert(tbl[3].prefix =~= seq![0x2Fu8, 0x64, 0x61, 0x74, 0x61, 0x2F, 0x73, 0x70, 0x65, 0x63, 0x69, 0x61, 0x6C]);
        assert(forall|j: int| 4 <= j < MOUNT_MAX ==> !(#[trigger] tbl[j]).active);

        let p1: [u8; 10] = [0x2F, 0x64, 0x61, 0x74, 0x61, 0x2F, 0x66, 0x69, 0x6C, 0x65];
        let l1 = self.mount_lookup(&p1);
        proof {
            assert(p1@.subrange(0, 1) =~= tbl[0].prefix);
            assert(p1@.subrange(0, 5) =~= tbl[1].prefix);
            assert(p1@.subrange(0, 4)[1] != tbl[2].prefix[1]);
            lemma_lookup_is(tbl, p1@, 1, l1);
        }
        let p2: [u8; 14] = [0x2F, 0x6D, 0x6E, 0x74, 0x2F, 0x48, 0x45, 0x4C, 0x4C, 0x4F, 0x2E, 0x54, 0x58, 0x54];
        let l2 = self.mount_lookup(&p2);
        proof {
            assert(p2@.subrange(0, 1) =~= tbl[0].prefix);
            assert(p2@.subrange(0, 5)[1] != tbl[1].prefix[1]);
            assert(p2@.subrange(0, 4) =~= tbl[2].prefix);
            assert(p2@.subrange(0, 13)[1] != tbl[3].prefix[1]);
            lemma_lookup_is(tbl, p2@, 2, l2);
        }
        let p3: [u8; 15] = [0x2F, 0x64, 0x61, 0x74, 0x61, 0x2F, 0x73, 0x70, 0x65, 0x63, 0x69, 0x61, 0x6C, 0x2F, 0x78];
        let l3 = self.mount_lookup(&p3);
        proof {
            assert(p3@.subrange(0, 1) =~= tbl[0].prefix);
            assert(p3@.subrange(0, 5) =~= tbl[1].prefix);
            assert(p3@.subrange(0, 4)[1] != tbl[2].prefix[1]);
            assert(p3@.subrange(0, 13) =~= tbl[3].prefix);
            lemma_lookup_is(tbl, p3@, 3, l3);
        }
        let p4: [u8; 6] = [0x2F, 0x6F, 0x74, 0x68, 0x65, 0x72];
        let l4 = self.mount_lookup(&p4);
        proof {
            assert(p4@.subrange(0, 1) =~= tbl[0].prefix);
            assert(p4@.subrange(0, 5)[1] != tbl[1].prefix[1]);
            assert(p4@.subrange(0, 4)[1] != tbl[2].prefix[1]);
            lemma_lookup_is(tbl, p4@, 0, l4);
        }
        let p5: [u8; 11] = [0x2F, 0x64, 0x61, 0x74, 0x61, 0x62, 0x61, 0x73, 0x65, 0x2F, 0x78];
        let l5 = self.mount_lookup(&p5);
        proof {
            assert(p5@.subrange(0, 1) =~= tbl[0].prefix);
            assert(p5@[5] != 0x2F);
            assert(p5@.subrange(0, 4)[1] != tbl[2].prefix[1]);
            assert(p5@.subrange(0, 11)[5] != tbl[3].prefix[5]);
            lemma_lookup_is(tbl, p5@, 0, l5);
        }
        let p6: [u8; 5] = [0x2F, 0x64, 0x61, 0x74, 0x61];
        let l6 = self.mount_lookup(&p6);
        proof {
            assert(p6@.subrange(0, 1) =~= tbl[0].prefix);
            assert(p6@.subrange(0, 5) =~= tbl[1].prefix);
            assert(p6@.subrange(0, 4)[1] != tbl[2].prefix[1]);
            lemma_lookup_is(tbl, p6@, 1, l6);
        }
        let ok = reg && l1 == Some(0u8) && l2 == Some(1u8) && l3 == Some(4u8) && l4 == Some(9u8) && l5 == Some(9u8) && l6 == Some(0u8);
        self.mount_clear();
        if ok {
            let msg: [u8; 16] = [0x4D, 0x4F, 0x55, 0x4E, 0x54, 0x3A, 0x20, 0x74, 0x61, 0x62, 0x6C, 0x65, 0x20, 0x6F, 0x6B, 0x0A];
            assert(msg@ =~= mount_ok_msg());
            crate::serial::serial_write(out, &msg);
            1
        } else {
            let msg: [u8; 18] = [0x4D, 0x4F, 0x55, 0x4E, 0x54, 0x3A, 0x20, 0x74, 0x61, 0x62, 0x6C, 0x65, 0x20, 0x66, 0x61, 0x69, 0x6C, 0x0A];
            crate::serial::serial_write(out, &msg);
            0
        }
    }
}

} // verus!
