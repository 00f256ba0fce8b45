//! The dmesg ring: a fixed-capacity byte ring that captures the console
//! transcript. Once full, the oldest bytes are overwritten; reads return the
//! most recent bytes in oldest-to-newest order.

use vstd::prelude::*;

verus! {

pub const KLOG_CAP: usize = 8192;

pub struct Klog {
    buf: Vec<u8>,
    head: usize,
    len: usize,
    contents: Ghost<Seq<u8>>,
}

/// The last `n` bytes of `s` (all of `s` when it is shorter).
pub open spec fn last_bytes(s: Seq<u8>, n: nat) -> Seq<u8> {
    if s.len() <= n {
        s
    } else {
        s.subrange(s.len() - n, s.len() as int)
    }
}

impl Klog {
    /// The retained log, oldest byte first.
    pub closed spec fn view(&self) -> Seq<u8> {
        self.contents@
    }

    /// Slot of the `k`-th retained byte.
    spec fn slot(&self, k: int) -> int {
        (self.head - self.len + k + KLOG_CAP) % (KLOG_CAP as int)
    }

    pub closed spec fn wf(&self) -> bool {
        &&& self.buf.len() == KLOG_CAP
        &&& self.head < KLOG_CAP
        &&& self.len <= KLOG_CAP
        &&& self.contents@.len() == self.len
        &&& forall|k: int| 0 <= k < self.len ==> self.buf@[#[trigger] self.slot(k)] == self.contents@[k]
    }

    /// An empty ring.
    pub fn new() -> (r: Klog)
        ensures
            r.wf(),
            r@ == Seq::<u8>::empty(),
    {
        Klog { buf: vec![0u8; KLOG_CAP], head: 0, len: 0, contents: Ghost(Seq::empty()) }
    }

    /// Number of retained bytes.
    pub fn len(&self) -> (n: usize)
        requires
            self.wf(),
        ensures
            n == self@.len(),
    {
        self.len
    }

    /// Appends `s` to the ring, dropping the oldest bytes beyond the capacity.
    pub fn klog_append(&mut self, s: &[u8])
        requires
            old(self).wf(),
        ensures
            final(self).wf(),
            final(self)@ == last_bytes(old(self)@ + s@, KLOG_CAP as nat),
    {
        let ghost start = self@;
        let mut i: usize = 0;
        while i < s.len()
            invariant
                i <= s.len(),
                self.wf(),
                self@ == last_bytes(start + s@.subrange(0, i as int), KLOG_CAP as nat),
            decreases s.len() - i,
        {
            let b = s[i];
            let ghost before = self@;
            let ghost old_self = *self;
            self.buf.set(self.head, b);
            self.head = (self.head + 1) % KLOG_CAP;
            if self.len < KLOG_CAP {
                self.len += 1;
                self.contents = Ghost(before.push(b));
                assert forall|k: int| 0 <= k < self.len implies self.buf@[#[trigger] self.slot(k)]
                    == self.contents@[k] by {
                    if k < old_self.len {
                        assert(self.slot(k) == old_self.slot(k));
                    }
                }
            } else {
                self.contents = Ghost(before.push(b).subrange(1, KLOG_CAP as int + 1));
                assert forall|k: int| 0 <= k < self.len implies self.buf@[#[trigger] self.slot(k)]
                    == self.contents@[k] by {
                    if k < KLOG_CAP - 1 {
                        assert(self.slot(k) == old_self.slot(k + 1));
                    }
                }
            }
            proof {
                let all = start + s@.subrange(0, i + 1);
                assert(all =~= (start + s@.subrange(0, i as int)).push(b));
                assert(self@ =~= last_bytes(all, KLOG_CAP as nat));
            }
            i += 1;
        }
        assert(s@.subrange(0, s.len() as int) =~= s@);
    }

    /// The most recent `min(len, retained)` bytes, oldest first.
    pub fn klog_read(&self, len: usize) -> (r: Vec<u8>)
        requires
            self.wf(),
        ensures
            r@ == last_bytes(self@, len as nat),
    {
        let n = if len < self.len { len } else { self.len };
        let mut out: Vec<u8> = Vec::new();
        let start = (self.head + KLOG_CAP - n) % KLOG_CAP;
        let mut k: usize = 0;
        while k < n
            invariant
                k <= n <= self.len,
                self.wf(),
                start == (self.head + KLOG_CAP - n) % (KLOG_CAP as int),
                out@.len() == k,
                forall|j: int| 0 <= j < k ==> out@[j] == self@[self.len - n + j],
            decreases n - k,
        {
            let idx = (start + k) % KLOG_CAP;
            assert(idx == self.slot(self.len - n + k));
            out.push(self.buf[idx]);
            k += 1;
        }
        assert(out@ =~= last_bytes(self@, len as nat));
        out
    }
}

/// What a read gives back of a write: after appending `s` (no longer than the
/// ring) to any log, reading `|s|` bytes returns exactly `s`.
pub proof fn law_read_returns_latest_write(log: Seq<u8>, s: Seq<u8>)
    requires
        s.len() <= KLOG_CAP,
    ensures
        last_bytes(last_bytes(log + s, KLOG_CAP as nat), s.len()) == s,
{
    let all = log + s;
    let kept = last_bytes(all, KLOG_CAP as nat);
    assert(last_bytes(kept, s.len()) =~= s);
}

/// The log after appending each of `writes` in turn to an empty ring.
pub open spec fn log_after(writes: Seq<Seq<u8>>) -> Seq<u8>
    decreases writes.len(),
{
    if writes.len() == 0 {
        Seq::empty()
    } else {
        last_bytes(log_after(writes.drop_last()) + writes.last(), KLOG_CAP as nat)
    }
}

/// Everything written, in order.
pub open spec fn all_written(writes: Seq<Seq<u8>>) -> Seq<u8>
    decreases writes.len(),
{
    if writes.len() == 0 {
        Seq::empty()
    } else {
        all_written(writes.drop_last()) + writes.last()
    }
}

proof fn lemma_last_bytes_append(a: Seq<u8>, b: Seq<u8>, n: nat)
    ensures
        last_bytes(last_bytes(a, n) + b, n) == last_bytes(a + b, n),
{
    let l = last_bytes(a, n);
    assert(last_bytes(l + b, n) =~= last_bytes(a + b, n));
}

/// Whatever the appends since boot, the ring holds the last (at most
/// `KLOG_CAP`) bytes of everything appended, so a read of `len` bytes
/// returns the most recent `min(len, kept)` bytes of that history.
pub proof fn law_log_keeps_latest_history(writes: Seq<Seq<u8>>, len: nat)
    ensures
        log_after(writes) == last_bytes(all_written(writes), KLOG_CAP as nat),
        last_bytes(log_after(writes), len) == last_bytes(last_bytes(all_written(writes), KLOG_CAP as nat), len),
    decreases writes.len(),
{
    if writes.len() == 0 {
        assert(last_bytes(Seq::<u8>::empty(), KLOG_CAP as nat) =~= Seq::<u8>::empty());
    } else {
        law_log_keeps_latest_history(writes.drop_last(), len);
        lemma_last_bytes_append(all_written(writes.drop_last()), writes.last(), KLOG_CAP as nat);
    }
}

} // verus!
