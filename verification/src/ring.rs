//! Fixed-capacity pools for operation slots and I/O buffers.
//!
//! A slot (entry) describes one outstanding kernel operation; its pool index
//! is used verbatim as the operation's user-data tag. Buffers come from two
//! free-listed pools (receive and send) whose backing storage is allocated
//! once at startup; a buffer is owned by at most one slot at a time.

use vstd::prelude::*;
use vstd::seq_lib::*;
use vstd::set_lib::*;

verus! {

/// Pool index of a slot; handed to the kernel as the per-operation user-data tag.
pub type EntryIdx = u64;

/// Pool index of a buffer.
pub type BufferIdx = usize;

/// An IPv4 socket address held as plain values.
#[derive(Clone, Copy, PartialEq, Eq, Structural, Debug, Hash)]
pub struct TargetAddr {
    /// The address as a 32-bit big-endian-ordered integer (`a.b.c.d` is
    /// `a*2^24 + b*2^16 + c*2^8 + d`).
    pub ip: u32,
    /// The target TCP port.
    pub port: u16,
}

/// Which of the two buffer pools a buffer belongs to.
#[derive(Clone, Copy, PartialEq, Eq, Structural, Debug)]
pub enum BufferDirection {
    RX,
    TX,
}

/// Ownership handle to one pooled buffer.
#[derive(Clone, Copy, Debug)]
pub struct BufferInfo {
    pub idx: BufferIdx,
    pub direction: BufferDirection,
}

/// The information stored in one allocated slot.
#[derive(Clone, Copy, Debug)]
pub struct EntryInfo {
    /// Target address shared by every slot of one chain.
    pub ip: TargetAddr,
    /// Position of this operation in its capability's per-IP chain.
    pub step: u8,
    /// Buffer owned by this slot, if any; released when the slot is freed.
    pub buf: Option<BufferInfo>,
    /// Socket file descriptor the operation acts on.
    pub fd: i32,
    /// Monotonic timestamp (milliseconds) captured at allocation; used only
    /// to report round-trip latency.
    pub start: u64,
}

/// A freshly allocated buffer: its pool index and usable length.
pub struct Buffer {
    pub idx: BufferIdx,
    pub len: usize,
}

/// Mathematical state of a `RingAllocator`.
#[verifier::ext_equal]
pub ghost struct RingView {
    pub entries: Seq<Option<EntryInfo>>,
    pub free_entries: Seq<int>,
    pub free_rx: Seq<int>,
    pub free_tx: Seq<int>,
    pub bufs: Seq<Seq<u8>>,
    pub rx_size: nat,
    pub tx_size: Option<nat>,
}

impl RingView {
    /// Total number of slots; fixed at construction.
    pub open spec fn cap(self) -> int {
        self.entries.len() as int
    }

    /// Number of buffers in the backing store.
    pub open spec fn n_bufs(self) -> int {
        if self.tx_size is Some {
            2 * self.cap()
        } else {
            self.cap()
        }
    }

    /// Buffer indices below `cap` are receive buffers.
    pub open spec fn is_rx_idx(self, b: int) -> bool {
        0 <= b < self.cap()
    }

    /// When a send size was declared, indices `cap..2*cap` are send buffers.
    pub open spec fn is_tx_idx(self, b: int) -> bool {
        self.tx_size is Some && self.cap() <= b < 2 * self.cap()
    }

    pub open spec fn buf_size(self, direction: BufferDirection) -> nat {
        match direction {
            BufferDirection::RX => self.rx_size,
            BufferDirection::TX => self.tx_size.unwrap(),
        }
    }

    /// Whether slot `i` is currently allocated.
    pub open spec fn allocated(self, i: int) -> bool {
        0 <= i < self.cap() && self.entries[i] is Some
    }

    /// The information stored in allocated slot `i`.
    pub open spec fn entry(self, i: int) -> EntryInfo {
        self.entries[i].unwrap()
    }

    /// Whether allocated slot `i` owns buffer `b`.
    pub open spec fn owns_buf(self, i: int, b: int) -> bool {
        self.allocated(i) && self.entry(i).buf is Some && self.entry(i).buf.unwrap().idx == b
    }

    /// The owned buffer of slot `i` is in range for its direction and absent
    /// from the free list of that direction.
    pub open spec fn entry_buf_ok(self, i: int) -> bool {
        self.entry(i).buf is Some ==> {
            let bi = self.entry(i).buf.unwrap();
            &&& (bi.direction is RX ==> self.is_rx_idx(bi.idx as int) && !self.free_rx.contains(
                bi.idx as int,
            ))
            &&& (bi.direction is TX ==> self.is_tx_idx(bi.idx as int) && !self.free_tx.contains(
                bi.idx as int,
            ))
        }
    }

    /// Pool invariant: free lists are duplicate-free and in range, a slot is
    /// free exactly when it is on the free list, buffer sizes are fixed, and
    /// a buffer is referenced by at most one slot and never while free.
    pub open spec fn wf(self) -> bool {
        &&& self.free_entries.no_duplicates()
        &&& (forall|k: int|
            0 <= k < self.free_entries.len() ==> 0 <= #[trigger] self.free_entries[k]
                < self.cap())
        &&& (forall|k: int|
            0 <= k < self.free_entries.len() ==> self.entries[#[trigger] self.free_entries[k]]
                is None)
        &&& (forall|i: int|
            0 <= i < self.cap() && self.entries[i] is None ==> #[trigger] self.free_entries.contains(
                i,
            ))
        &&& self.bufs.len() == self.n_bufs()
        &&& (forall|b: int|
            0 <= b < self.cap() ==> (#[trigger] self.bufs[b]).len() == self.rx_size)
        &&& (self.tx_size is Some ==> forall|b: int|
            self.cap() <= b < 2 * self.cap() ==> (#[trigger] self.bufs[b]).len()
                == self.tx_size.unwrap())
        &&& self.free_rx.no_duplicates()
        &&& (forall|k: int|
            0 <= k < self.free_rx.len() ==> self.is_rx_idx(#[trigger] self.free_rx[k]))
        &&& self.free_tx.no_duplicates()
        &&& (forall|k: int|
            0 <= k < self.free_tx.len() ==> self.is_tx_idx(#[trigger] self.free_tx[k]))
        &&& (forall|i: int| #[trigger] self.allocated(i) ==> self.entry_buf_ok(i))
        &&& (forall|i: int, j: int|
            #[trigger] self.owns_buf(i, self.entry(i).buf.unwrap().idx as int)
                && #[trigger] self.owns_buf(j, self.entry(j).buf.unwrap().idx as int) && i != j
                ==> self.entry(i).buf.unwrap().idx != self.entry(j).buf.unwrap().idx)
    }

    /// Slots counted as allocated: capacity minus the free-list length.
    pub open spec fn allocated_count(self) -> int {
        self.cap() - self.free_entries.len()
    }

    /// The set of allocated slot indices.
    pub open spec fn allocated_set(self) -> Set<int> {
        Set::new(|i: int| self.allocated(i))
    }

    /// Buffer `b` is accounted for: either free or owned by some slot.
    pub open spec fn buf_covered(self, b: int) -> bool {
        ||| (self.is_rx_idx(b) && self.free_rx.contains(b))
        ||| (self.is_tx_idx(b) && self.free_tx.contains(b))
        ||| exists|i: int| self.owns_buf(i, b)
    }

    /// No buffer has leaked: every buffer is either free or owned.
    pub open spec fn buf_complete(self) -> bool {
        forall|b: int|
            self.is_rx_idx(b) || self.is_tx_idx(b) ==> #[trigger] self.buf_covered(b)
    }

    /// Like `buf_complete`, but buffer `x` is allowed to be in transit
    /// between its free list and the slot that will own it.
    pub open spec fn buf_complete_except(self, x: int) -> bool {
        forall|b: int|
            (self.is_rx_idx(b) || self.is_tx_idx(b)) && b != x ==> #[trigger] self.buf_covered(b)
    }

    /// `info`'s buffer handle, if any, may be claimed: in range for its
    /// direction, not free, and owned by no slot.
    pub open spec fn buf_claim_ok(self, info: EntryInfo) -> bool {
        match info.buf {
            None => true,
            Some(bi) => {
                &&& (bi.direction is RX ==> self.is_rx_idx(bi.idx as int)
                    && !self.free_rx.contains(bi.idx as int))
                &&& (bi.direction is TX ==> self.is_tx_idx(bi.idx as int)
                    && !self.free_tx.contains(bi.idx as int))
                &&& (forall|j: int| !self.owns_buf(j, bi.idx as int))
            },
        }
    }

    /// State after allocating a slot holding `info`, with the chosen index
    /// (the last element of the free list).
    pub open spec fn model_alloc(self, info: EntryInfo) -> (RingView, int) {
        let i = self.free_entries.last();
        (
            RingView {
                entries: self.entries.update(i, Some(info)),
                free_entries: self.free_entries.drop_last(),
                ..self
            },
            i,
        )
    }

    /// State after releasing slot `i`: its buffer (if any) returns to its
    /// pool, the slot returns to the free list.
    pub open spec fn model_free(self, i: int) -> RingView {
        let e = self.entries[i].unwrap();
        let v1 = match e.buf {
            Some(bi) => match bi.direction {
                BufferDirection::RX => RingView { free_rx: self.free_rx.push(bi.idx as int), ..self },
                BufferDirection::TX => RingView { free_tx: self.free_tx.push(bi.idx as int), ..self },
            },
            None => self,
        };
        RingView {
            entries: v1.entries.update(i, None),
            free_entries: v1.free_entries.push(i),
            ..v1
        }
    }
}

/// Tracks slot and buffer state for the ring engine.
pub struct RingAllocator {
    buffers: Vec<Vec<u8>>,
    rx_buf_size: usize,
    tx_buf_size: Option<usize>,
    entries: Vec<Option<EntryInfo>>,
    free_entry_idx: Vec<EntryIdx>,
    free_rx_buf_idx: Vec<BufferIdx>,
    free_tx_buf_idx: Vec<BufferIdx>,
}

impl View for RingAllocator {
    type V = RingView;

    closed spec fn view(&self) -> RingView {
        RingView {
            entries: self.entries@,
            free_entries: self.free_entry_idx@.map_values(|x: u64| x as int),
            free_rx: self.free_rx_buf_idx@.map_values(|x: usize| x as int),
            free_tx: self.free_tx_buf_idx@.map_values(|x: usize| x as int),
            bufs: self.buffers@.map_values(|b: Vec<u8>| b@),
            rx_size: self.rx_buf_size as nat,
            tx_size: match self.tx_buf_size {
                Some(s) => Some(s as nat),
                None => None,
            },
        }
    }
}

/// A vector of `n` zero bytes.
fn zero_vec(n: usize) -> (r: Vec<u8>)
    ensures
        r@ == Seq::new(n as nat, |i: int| 0u8),
{
    let mut v: Vec<u8> = Vec::new();
    while v.len() < n
        invariant
            v@.len() <= n,
            v@ == Seq::new(v@.len(), |i: int| 0u8),
        decreases n - v@.len(),
    {
        v.push(0);
        proof {
            assert(v@ =~= Seq::new(v@.len(), |i: int| 0u8));
        }
    }
    proof {
        assert(v@ =~= Seq::new(n as nat, |i: int| 0u8));
    }
    v
}

impl RingAllocator {
    /// Builds a pool of `ring_size` slots, `ring_size` receive buffers of
    /// `rx_buf_size` bytes each and, when `tx_buf_size` is declared,
    /// `ring_size` send buffers of that size. All slots and buffers start
    /// free; buffers start zeroed.
    pub fn new(ring_size: usize, rx_buf_size: usize, tx_buf_size: Option<usize>) -> (r: Self)
        requires
            ring_size * 2 <= usize::MAX,
        ensures
            r@.wf(),
            r@.cap() == ring_size,
            r@.rx_size == rx_buf_size as nat,
            (match tx_buf_size {
                Some(s) => r@.tx_size == Some(s as nat),
                None => r@.tx_size is None,
            }),
            r@.free_entries == Seq::new(ring_size as nat, |i: int| i),
            r@.free_rx == Seq::new(ring_size as nat, |i: int| i),
            (tx_buf_size is Some ==> r@.free_tx == Seq::new(
                ring_size as nat,
                |i: int| ring_size + i,
            )),
            (tx_buf_size is None ==> r@.free_tx.len() == 0),
            forall|i: int| 0 <= i < ring_size ==> r@.entries[i] is None,
            r@.bufs.len() == (if tx_buf_size is Some {
                2 * ring_size
            } else {
                ring_size as int
            }),
            forall|b: int|
                0 <= b < r@.bufs.len() ==> (#[trigger] r@.bufs[b]) == Seq::new(
                    r@.bufs[b].len(),
                    |i: int| 0u8,
                ),
    {
        let mut buffers: Vec<Vec<u8>> = Vec::new();
        let mut k: usize = 0;
        while k < ring_size
            invariant
                k <= ring_size,
                buffers@.len() == k,
                forall|b: int|
                    0 <= b < k ==> (#[trigger] buffers@[b])@ == Seq::new(
                        rx_buf_size as nat,
                        |i: int| 0u8,
                    ),
            decreases ring_size - k,
        {
            buffers.push(zero_vec(rx_buf_size));
            k += 1;
        }
        if let Some(ts) = tx_buf_size {
            let mut k2: usize = 0;
            while k2 < ring_size
                invariant
                    k2 <= ring_size,
                    buffers@.len() == ring_size + k2,
                    forall|b: int|
                        0 <= b < ring_size ==> (#[trigger] buffers@[b])@ == Seq::new(
                            rx_buf_size as nat,
                            |i: int| 0u8,
                        ),
                    forall|b: int|
                        ring_size <= b < ring_size + k2 ==> (#[trigger] buffers@[b])@ == Seq::new(
                            ts as nat,
                            |i: int| 0u8,
                        ),
                decreases ring_size - k2,
            {
                buffers.push(zero_vec(ts));
                k2 += 1;
            }
        }
        let mut entries: Vec<Option<EntryInfo>> = Vec::new();
        let mut free_entry_idx: Vec<EntryIdx> = Vec::new();
        let mut free_rx_buf_idx: Vec<BufferIdx> = Vec::new();
        let mut free_tx_buf_idx: Vec<BufferIdx> = Vec::new();
        let mut k3: usize = 0;
        while k3 < ring_size
            invariant
                k3 <= ring_size,
                ring_size * 2 <= usize::MAX,
                entries@.len() == k3,
                forall|i: int| 0 <= i < k3 ==> entries@[i] is None,
                free_entry_idx@.len() == k3,
                forall|i: int| 0 <= i < k3 ==> (#[trigger] free_entry_idx@[i]) as int == i,
                free_rx_buf_idx@.len() == k3,
                forall|i: int| 0 <= i < k3 ==> (#[trigger] free_rx_buf_idx@[i]) as int == i,
                (tx_buf_size is Some ==> free_tx_buf_idx@.len() == k3),
                (tx_buf_size is Some ==> forall|i: int|
                    0 <= i < k3 ==> (#[trigger] free_tx_buf_idx@[i]) as int == ring_size + i),
                (tx_buf_size is None ==> free_tx_buf_idx@.len() == 0),
            decreases ring_size - k3,
        {
            entries.push(None);
            free_entry_idx.push(k3 as u64);
            free_rx_buf_idx.push(k3);
            if tx_buf_size.is_some() {
                free_tx_buf_idx.push(ring_size + k3);
            }
            k3 += 1;
        }
        let r = RingAllocator {
            buffers,
            rx_buf_size,
            tx_buf_size,
            entries,
            free_entry_idx,
            free_rx_buf_idx,
            free_tx_buf_idx,
        };
        proof {
            let v = r@;
            assert(v.free_entries =~= Seq::new(ring_size as nat, |i: int| i));
            assert(v.free_rx =~= Seq::new(ring_size as nat, |i: int| i));
            if tx_buf_size is Some {
                assert(v.free_tx =~= Seq::new(ring_size as nat, |i: int| ring_size + i));
            }
            assert forall|i: int|
                0 <= i < v.cap() && v.entries[i] is None implies #[trigger] v.free_entries.contains(
                i,
            ) by {
                assert(v.free_entries[i] == i);
            }
            assert forall|b: int| 0 <= b < v.bufs.len() implies (#[trigger] v.bufs[b]) == Seq::new(
                v.bufs[b].len(),
                |i: int| 0u8,
            ) by {
                assert(v.bufs[b] == r.buffers@[b]@);
            }
        }
        r
    }

    /// The fixed number of slots.
    pub fn capacity(&self) -> (r: usize)
        ensures
            r as int == self@.cap(),
    {
        self.entries.len()
    }

    /// The number of buffers backing both pools: no send size declared, no
    /// send buffers allocated.
    pub fn buffer_count(&self) -> (r: usize)
        ensures
            r as int == self@.bufs.len(),
    {
        self.buffers.len()
    }

    /// Read-only access to the slot at `idx`: `Some` exactly when allocated.
    pub fn get_entry(&self, idx: EntryIdx) -> (r: Option<&EntryInfo>)
        requires
            (idx as int) < self@.cap(),
        ensures
            (r is Some) == self@.allocated(idx as int),
            r is Some ==> *r.unwrap() == self@.entry(idx as int),
    {
        let _n = self.entries.len();
        self.entries[idx as usize].as_ref()
    }

    /// Whether at least `count` slots are free.
    pub fn has_free_entry_count(&self, count: usize) -> (r: bool)
        ensures
            r == (self@.free_entries.len() >= count),
    {
        self.free_entry_idx.len() >= count
    }

    /// Capacity minus the free-list length.
    pub fn allocated_entry_count(&self) -> (r: usize)
        requires
            self@.wf(),
        ensures
            r as int == self@.allocated_count(),
    {
        proof {
            lemma_free_entries_le_cap(self@);
        }
        self.entries.len() - self.free_entry_idx.len()
    }

    /// Reserves a slot and stores `info` in it, returning the slot index
    /// popped from the free list. Fails (returns `None`) exactly when the
    /// free list is empty.
    pub fn alloc_entry(&mut self, info: EntryInfo) -> (r: Option<EntryIdx>)
        requires
            old(self)@.wf(),
            old(self)@.buf_claim_ok(info),
        ensures
            final(self)@.wf(),
            (r is Some) == (old(self)@.free_entries.len() > 0),
            (r is None ==> final(self)@ == old(self)@),
            (r is Some ==> final(self)@ == old(self)@.model_alloc(info).0),
            (r is Some ==> r.unwrap() as int == old(self)@.model_alloc(info).1),
            (info.buf is None && old(self)@.buf_complete() ==> final(self)@.buf_complete()),
            (forall|x: int|
                info.buf is None && old(self)@.buf_complete_except(x)
                    ==> final(self)@.buf_complete_except(x)),
            (match info.buf {
                Some(bi) => r is Some && old(self)@.buf_complete_except(bi.idx as int)
                    ==> final(self)@.buf_complete(),
                None => true,
            }),
    {
        let _n = self.entries.len();
        match self.free_entry_idx.pop() {
            Some(idx) => {
                proof {
                    let v = old(self)@;
                    assert(v.free_entries[v.free_entries.len() - 1] == idx as int);
                    assert(0 <= (idx as int) && (idx as int) < v.cap());
                }
                let i = idx as usize;
                self.entries[i] = Some(info);
                proof {
                    let v = old(self)@;
                    let w = self@;
                    let fi = v.free_entries.last();
                    assert(w.free_entries =~= v.free_entries.drop_last());
                    assert(w.entries =~= v.entries.update(fi, Some(info)));
                    assert(w =~= v.model_alloc(info).0);
                    assert_alloc_entry_wf(v, w, info);
                }
                Some(idx)
            },
            None => {
                proof {
                    assert(self@ =~= old(self)@);
                }
                None
            },
        }
    }

    /// Releases slot `idx`; an owned buffer returns to its pool first, then
    /// the slot returns to the free list.
    pub fn free_entry(&mut self, idx: EntryIdx)
        requires
            old(self)@.wf(),
            old(self)@.allocated(idx as int),
        ensures
            final(self)@.wf(),
            final(self)@ == old(self)@.model_free(idx as int),
            (old(self)@.buf_complete() ==> final(self)@.buf_complete()),
            (forall|x: int|
                old(self)@.buf_complete_except(x) ==> final(self)@.buf_complete_except(x)),
    {
        let _n = self.entries.len();
        let i = idx as usize;
        if let Some(e) = self.entries[i] {
            match e.buf {
                Some(b) => {
                    match b.direction {
                        BufferDirection::RX => self.free_rx_buf_idx.push(b.idx),
                        BufferDirection::TX => self.free_tx_buf_idx.push(b.idx),
                    }
                },
                None => {},
            }
            self.free_entry_idx.push(idx);
            self.entries[i] = None;
            proof {
                let v = old(self)@;
                let w = self@;
                assert(w.free_entries =~= v.free_entries.push(idx as int));
                assert(w.entries =~= v.entries.update(idx as int, None));
                match v.entry(idx as int).buf {
                    Some(bi) => {
                        if bi.direction is RX {
                            assert(w.free_rx =~= v.free_rx.push(bi.idx as int));
                            assert(w.free_tx =~= v.free_tx);
                        } else {
                            assert(w.free_tx =~= v.free_tx.push(bi.idx as int));
                            assert(w.free_rx =~= v.free_rx);
                        }
                    },
                    None => {
                        assert(w.free_rx =~= v.free_rx);
                        assert(w.free_tx =~= v.free_tx);
                    },
                }
                assert(w =~= v.model_free(idx as int));
                assert_free_entry_wf(v, w, idx as int);
            }
        }
    }

    /// Borrow the backing bytes of buffer `idx`.
    pub fn get_buf(&self, idx: BufferIdx) -> (r: &Vec<u8>)
        requires
            (idx as int) < self@.bufs.len(),
        ensures
            r@ == self@.bufs[idx as int],
    {
        &self.buffers[idx]
    }

    /// Returns buffer `idx` to the free list of `direction`.
    pub fn free_buf(&mut self, direction: &BufferDirection, idx: BufferIdx)
        requires
            old(self)@.wf(),
            (*direction is RX ==> old(self)@.is_rx_idx(idx as int) && !old(self)@.free_rx.contains(
                idx as int,
            )),
            (*direction is TX ==> old(self)@.is_tx_idx(idx as int) && !old(self)@.free_tx.contains(
                idx as int,
            )),
            forall|j: int| !old(self)@.owns_buf(j, idx as int),
        ensures
            final(self)@.wf(),
            final(self)@.entries == old(self)@.entries,
            final(self)@.free_entries == old(self)@.free_entries,
            final(self)@.bufs == old(self)@.bufs,
            final(self)@.rx_size == old(self)@.rx_size,
            final(self)@.tx_size == old(self)@.tx_size,
            (*direction is RX ==> final(self)@.free_rx == old(self)@.free_rx.push(idx as int)
                && final(self)@.free_tx == old(self)@.free_tx),
            (*direction is TX ==> final(self)@.free_tx == old(self)@.free_tx.push(idx as int)
                && final(self)@.free_rx == old(self)@.free_rx),
            (old(self)@.buf_complete_except(idx as int) ==> final(self)@.buf_complete()),
            (old(self)@.buf_complete() ==> final(self)@.buf_complete()),
    {
        match direction {
            BufferDirection::RX => self.free_rx_buf_idx.push(idx),
            BufferDirection::TX => self.free_tx_buf_idx.push(idx),
        }
        proof {
            let v = old(self)@;
            let w = self@;
            if *direction is RX {
                assert(w.free_rx =~= v.free_rx.push(idx as int));
                assert(w.free_tx =~= v.free_tx);
            } else {
                assert(w.free_tx =~= v.free_tx.push(idx as int));
                assert(w.free_rx =~= v.free_rx);
            }
            assert_free_buf_wf(v, w, *direction, idx as int);
        }
    }

    /// Takes a free buffer of `direction`, optionally priming its head with
    /// `init_val` (the rest is zeroed). Requires a free buffer: the engine
    /// never asks for more buffers than slots, and slot reservation is the
    /// admission gate.
    pub fn alloc_buf(&mut self, direction: BufferDirection, init_val: Option<&[u8]>) -> (r: Buffer)
        requires
            old(self)@.wf(),
            (direction is RX ==> old(self)@.free_rx.len() > 0),
            (direction is TX ==> old(self)@.free_tx.len() > 0),
            (match init_val {
                Some(s) => s@.len() <= old(self)@.buf_size(direction),
                None => true,
            }),
        ensures
            final(self)@.wf(),
            final(self)@.entries == old(self)@.entries,
            final(self)@.free_entries == old(self)@.free_entries,
            final(self)@.rx_size == old(self)@.rx_size,
            final(self)@.tx_size == old(self)@.tx_size,
            r.len as nat == old(self)@.buf_size(direction),
            (direction is RX ==> r.idx as int == old(self)@.free_rx.last() && final(self)@.free_rx
                == old(self)@.free_rx.drop_last() && final(self)@.free_tx == old(self)@.free_tx
                && final(self)@.is_rx_idx(r.idx as int)),
            (direction is TX ==> r.idx as int == old(self)@.free_tx.last() && final(self)@.free_tx
                == old(self)@.free_tx.drop_last() && final(self)@.free_rx == old(self)@.free_rx
                && final(self)@.is_tx_idx(r.idx as int)),
            (match init_val {
                Some(s) => final(self)@.bufs == old(self)@.bufs.update(
                    r.idx as int,
                    s@ + Seq::new((old(self)@.buf_size(direction) - s@.len()) as nat, |i: int| 0u8),
                ),
                None => final(self)@.bufs == old(self)@.bufs,
            }),
            (direction is RX ==> !final(self)@.free_rx.contains(r.idx as int)),
            (direction is TX ==> !final(self)@.free_tx.contains(r.idx as int)),
            forall|j: int| !final(self)@.owns_buf(j, r.idx as int),
            (old(self)@.buf_complete() ==> final(self)@.buf_complete_except(r.idx as int)),
    {
        proof {
            if direction is TX {
                assert(old(self)@.is_tx_idx(old(self)@.free_tx.last()));
            } else {
                assert(old(self)@.is_rx_idx(old(self)@.free_rx.last()));
            }
        }
        let idx = match direction {
            BufferDirection::RX => self.free_rx_buf_idx.pop().unwrap(),
            BufferDirection::TX => self.free_tx_buf_idx.pop().unwrap(),
        };
        let blen = match direction {
            BufferDirection::RX => self.rx_buf_size,
            BufferDirection::TX => self.tx_buf_size.unwrap(),
        };
        proof {
            let v = old(self)@;
            if direction is RX {
                assert(self@.free_rx =~= v.free_rx.drop_last());
                assert(self@.free_tx =~= v.free_tx);
                assert(!self@.free_rx.contains(idx as int)) by {
                    assert(v.free_rx.no_duplicates());
                    if self@.free_rx.contains(idx as int) {
                        let k = choose|k: int|
                            0 <= k < self@.free_rx.len() && self@.free_rx[k] == idx as int;
                        assert(v.free_rx[k] == idx as int);
                    }
                }
            } else {
                assert(self@.free_tx =~= v.free_tx.drop_last());
                assert(self@.free_rx =~= v.free_rx);
                assert(!self@.free_tx.contains(idx as int)) by {
                    assert(v.free_tx.no_duplicates());
                    if self@.free_tx.contains(idx as int) {
                        let k = choose|k: int|
                            0 <= k < self@.free_tx.len() && self@.free_tx[k] == idx as int;
                        assert(v.free_tx[k] == idx as int);
                    }
                }
            }
        }
        if let Some(s) = init_val {
            let mut nb: Vec<u8> = Vec::new();
            let mut j: usize = 0;
            while j < s.len()
                invariant
                    j <= s@.len(),
                    nb@ == s@.subrange(0, j as int),
                decreases s@.len() - j,
            {
                let b = s[j];
                nb.push(b);
                j += 1;
                proof {
                    assert(nb@ =~= s@.subrange(0, j as int));
                }
            }
            proof {
                assert(nb@ =~= s@);
            }
            while nb.len() < blen
                invariant
                    nb@.len() >= s@.len(),
                    nb@.len() <= blen || nb@.len() == s@.len(),
                    nb@ == s@ + Seq::new((nb@.len() - s@.len()) as nat, |i: int| 0u8),
                decreases blen - nb@.len(),
            {
                nb.push(0);
                proof {
                    assert(nb@ =~= s@ + Seq::new((nb@.len() - s@.len()) as nat, |i: int| 0u8));
                }
            }
            let bl = self.buffers.len();
            self.buffers[idx] = nb;
            proof {
                let v = old(self)@;
                assert(self@.bufs =~= v.bufs.update(
                    idx as int,
                    s@ + Seq::new((v.buf_size(direction) - s@.len()) as nat, |i: int| 0u8),
                ));
            }
        } else {
            proof {
                assert(self@.bufs =~= old(self)@.bufs);
            }
        }
        proof {
            let v = old(self)@;
            let w = self@;
            assert forall|j: int| !w.owns_buf(j, idx as int) by {
                if w.owns_buf(j, idx as int) {
                    assert(v.owns_buf(j, idx as int));
                    assert(v.entry_buf_ok(j));
                    let bi = v.entry(j).buf.unwrap();
                    if bi.direction is RX {
                        assert(!v.free_rx.contains(idx as int));
                    } else {
                        assert(!v.free_tx.contains(idx as int));
                    }
                    if direction is RX {
                        assert(v.free_rx.contains(idx as int));
                    } else {
                        assert(v.free_tx.contains(idx as int));
                    }
                }
            }
            assert_alloc_buf_wf(v, w, direction, idx as int);
        }
        Buffer { idx, len: blen }
    }
}

/// Returning an unowned, non-free buffer to its list keeps the pool
/// well-formed and restores its coverage.
proof fn assert_free_buf_wf(v: RingView, w: RingView, direction: BufferDirection, b: int)
    requires
        v.wf(),
        (direction is RX ==> v.is_rx_idx(b) && !v.free_rx.contains(b) && w == RingView {
            free_rx: v.free_rx.push(b),
            ..v
        }),
        (direction is TX ==> v.is_tx_idx(b) && !v.free_tx.contains(b) && w == RingView {
            free_tx: v.free_tx.push(b),
            ..v
        }),
        forall|j: int| !v.owns_buf(j, b),
    ensures
        w.wf(),
        (v.buf_complete_except(b) ==> w.buf_complete()),
        (v.buf_complete() ==> w.buf_complete()),
{
    if direction is RX {
        assert(w.free_rx.no_duplicates()) by {
            assert(forall|p: int| 0 <= p < v.free_rx.len() ==> w.free_rx[p] == v.free_rx[p]);
        }
        assert forall|k: int| 0 <= k < w.free_rx.len() implies w.is_rx_idx(
            #[trigger] w.free_rx[k],
        ) by {
            if k < v.free_rx.len() {
                assert(w.free_rx[k] == v.free_rx[k]);
            }
        }
    } else {
        assert(w.free_tx.no_duplicates()) by {
            assert(forall|p: int| 0 <= p < v.free_tx.len() ==> w.free_tx[p] == v.free_tx[p]);
        }
        assert forall|k: int| 0 <= k < w.free_tx.len() implies w.is_tx_idx(
            #[trigger] w.free_tx[k],
        ) by {
            if k < v.free_tx.len() {
                assert(w.free_tx[k] == v.free_tx[k]);
            }
        }
    }
    assert forall|i: int| #[trigger] w.allocated(i) implies w.entry_buf_ok(i) by {
        assert(v.allocated(i));
        assert(v.entry_buf_ok(i));
        assert(w.entry(i) == v.entry(i));
        match v.entry(i).buf {
            Some(ob) => {
                assert(v.owns_buf(i, ob.idx as int));
                assert(ob.idx != b);
                if ob.direction is RX {
                    assert(!w.free_rx.contains(ob.idx as int)) by {
                        if w.free_rx.contains(ob.idx as int) {
                            let k = choose|k: int|
                                0 <= k < w.free_rx.len() && w.free_rx[k] == ob.idx as int;
                            if k < v.free_rx.len() {
                                assert(v.free_rx.contains(ob.idx as int));
                            }
                        }
                    }
                } else {
                    assert(!w.free_tx.contains(ob.idx as int)) by {
                        if w.free_tx.contains(ob.idx as int) {
                            let k = choose|k: int|
                                0 <= k < w.free_tx.len() && w.free_tx[k] == ob.idx as int;
                            if k < v.free_tx.len() {
                                assert(v.free_tx.contains(ob.idx as int));
                            }
                        }
                    }
                }
            },
            None => {},
        }
    }
    assert forall|i: int, j: int|
        #[trigger] w.owns_buf(i, w.entry(i).buf.unwrap().idx as int) && #[trigger] w.owns_buf(
            j,
            w.entry(j).buf.unwrap().idx as int,
        ) && i != j implies w.entry(i).buf.unwrap().idx != w.entry(j).buf.unwrap().idx by {
        assert(v.owns_buf(i, v.entry(i).buf.unwrap().idx as int));
        assert(v.owns_buf(j, v.entry(j).buf.unwrap().idx as int));
    }
    assert forall|c: int| v.buf_covered(c) implies w.buf_covered(c) by {
        if exists|i: int| v.owns_buf(i, c) {
            let i = choose|i: int| v.owns_buf(i, c);
            assert(w.owns_buf(i, c));
        } else if v.is_rx_idx(c) && v.free_rx.contains(c) {
            let k = choose|k: int| 0 <= k < v.free_rx.len() && v.free_rx[k] == c;
            assert(w.free_rx[k] == c);
            assert(w.free_rx.contains(c));
        } else if v.is_tx_idx(c) && v.free_tx.contains(c) {
            let k = choose|k: int| 0 <= k < v.free_tx.len() && v.free_tx[k] == c;
            assert(w.free_tx[k] == c);
            assert(w.free_tx.contains(c));
        }
    }
    if direction is RX {
        assert(w.free_rx.last() == b);
        assert(w.free_rx.contains(b));
        assert(w.buf_covered(b));
    } else {
        assert(w.free_tx.last() == b);
        assert(w.free_tx.contains(b));
        assert(w.buf_covered(b));
    }
}

/// Popping a free buffer (and rewriting its contents) keeps the pool
/// well-formed; only the popped buffer loses coverage.
proof fn assert_alloc_buf_wf(v: RingView, w: RingView, direction: BufferDirection, b: int)
    requires
        v.wf(),
        w.entries == v.entries,
        w.free_entries == v.free_entries,
        w.rx_size == v.rx_size,
        w.tx_size == v.tx_size,
        w.bufs == v.bufs || (0 <= b < v.bufs.len() && w.bufs == v.bufs.update(b, w.bufs[b])
            && w.bufs[b].len() == v.bufs[b].len()),
        (direction is RX ==> v.free_rx.len() > 0 && b == v.free_rx.last() && w.free_rx
            == v.free_rx.drop_last() && w.free_tx == v.free_tx),
        (direction is TX ==> v.free_tx.len() > 0 && b == v.free_tx.last() && w.free_tx
            == v.free_tx.drop_last() && w.free_rx == v.free_rx),
    ensures
        w.wf(),
        (v.buf_complete() ==> w.buf_complete_except(b)),
{
    if direction is RX {
        assert(w.free_rx.no_duplicates()) by {
            assert(forall|p: int| 0 <= p < w.free_rx.len() ==> w.free_rx[p] == v.free_rx[p]);
        }
        assert forall|k: int| 0 <= k < w.free_rx.len() implies w.is_rx_idx(
            #[trigger] w.free_rx[k],
        ) by {
            assert(w.free_rx[k] == v.free_rx[k]);
        }
    } else {
        assert(w.free_tx.no_duplicates()) by {
            assert(forall|p: int| 0 <= p < w.free_tx.len() ==> w.free_tx[p] == v.free_tx[p]);
        }
        assert forall|k: int| 0 <= k < w.free_tx.len() implies w.is_tx_idx(
            #[trigger] w.free_tx[k],
        ) by {
            assert(w.free_tx[k] == v.free_tx[k]);
        }
    }
    assert forall|i: int| #[trigger] w.allocated(i) implies w.entry_buf_ok(i) by {
        assert(v.allocated(i));
        assert(v.entry_buf_ok(i));
        assert(w.entry(i) == v.entry(i));
        match v.entry(i).buf {
            Some(ob) => {
                if ob.direction is RX {
                    assert(!w.free_rx.contains(ob.idx as int)) by {
                        if w.free_rx.contains(ob.idx as int) {
                            let k = choose|k: int|
                                0 <= k < w.free_rx.len() && w.free_rx[k] == ob.idx as int;
                            if direction is RX {
                                assert(v.free_rx[k] == ob.idx as int);
                            }
                        }
                    }
                } else {
                    assert(!w.free_tx.contains(ob.idx as int)) by {
                        if w.free_tx.contains(ob.idx as int) {
                            let k = choose|k: int|
                                0 <= k < w.free_tx.len() && w.free_tx[k] == ob.idx as int;
                            if direction is TX {
                                assert(v.free_tx[k] == ob.idx as int);
                            }
                        }
                    }
                }
            },
            None => {},
        }
    }
    assert forall|i: int, j: int|
        #[trigger] w.owns_buf(i, w.entry(i).buf.unwrap().idx as int) && #[trigger] w.owns_buf(
            j,
            w.entry(j).buf.unwrap().idx as int,
        ) && i != j implies w.entry(i).buf.unwrap().idx != w.entry(j).buf.unwrap().idx by {
        assert(v.owns_buf(i, v.entry(i).buf.unwrap().idx as int));
        assert(v.owns_buf(j, v.entry(j).buf.unwrap().idx as int));
    }
    assert forall|c: int| v.buf_covered(c) && c != b implies w.buf_covered(c) by {
        if exists|i: int| v.owns_buf(i, c) {
            let i = choose|i: int| v.owns_buf(i, c);
            assert(w.owns_buf(i, c));
        } else if v.is_rx_idx(c) && v.free_rx.contains(c) {
            let k = choose|k: int| 0 <= k < v.free_rx.len() && v.free_rx[k] == c;
            if direction is RX {
                assert(k != v.free_rx.len() - 1);
                assert(w.free_rx[k] == c);
            } else {
                assert(w.free_rx[k] == c);
            }
            assert(w.free_rx.contains(c));
        } else if v.is_tx_idx(c) && v.free_tx.contains(c) {
            let k = choose|k: int| 0 <= k < v.free_tx.len() && v.free_tx[k] == c;
            if direction is TX {
                assert(k != v.free_tx.len() - 1);
                assert(w.free_tx[k] == c);
            } else {
                assert(w.free_tx[k] == c);
            }
            assert(w.free_tx.contains(c));
        }
    }
}

/// `model_alloc` preserves well-formedness and buffer accounting.
proof fn assert_alloc_entry_wf(v: RingView, w: RingView, info: EntryInfo)
    requires
        v.wf(),
        v.buf_claim_ok(info),
        v.free_entries.len() > 0,
        w == v.model_alloc(info).0,
    ensures
        w.wf(),
        (info.buf is None && v.buf_complete() ==> w.buf_complete()),
        (forall|x: int|
            info.buf is None && v.buf_complete_except(x) ==> w.buf_complete_except(x)),
        (match info.buf {
            Some(bi) => v.buf_complete_except(bi.idx as int) ==> w.buf_complete(),
            None => true,
        }),
{
    let fi = v.free_entries.last();
    assert(v.free_entries.contains(fi));
    // free list: drop_last keeps distinctness, range, and free-slot property
    assert(w.free_entries.no_duplicates()) by {
        assert(forall|p: int, q: int|
            0 <= p < q < w.free_entries.len() ==> w.free_entries[p] == v.free_entries[p]
                && w.free_entries[q] == v.free_entries[q]);
    }
    assert forall|k: int| 0 <= k < w.free_entries.len() implies w.entries[
        #[trigger] w.free_entries[k]
    ] is None by {
        assert(w.free_entries[k] == v.free_entries[k]);
        assert(v.free_entries[k] != fi) by {
            assert(v.free_entries.no_duplicates());
        }
    }
    assert forall|i: int|
        0 <= i < w.cap() && w.entries[i] is None implies #[trigger] w.free_entries.contains(
        i,
    ) by {
        assert(i != fi);
        assert(v.entries[i] is None);
        assert(v.free_entries.contains(i));
        let k = choose|k: int| 0 <= k < v.free_entries.len() && v.free_entries[k] == i;
        assert(k != v.free_entries.len() - 1);
        assert(w.free_entries[k] == i);
    }
    // every allocated slot keeps a valid buffer claim
    assert forall|i: int| #[trigger] w.allocated(i) implies w.entry_buf_ok(i) by {
        if i == fi {
            assert(w.entry(i) == info);
        } else {
            assert(v.allocated(i));
            assert(v.entry_buf_ok(i));
            assert(w.entry(i) == v.entry(i));
        }
    }
    assert forall|i: int, j: int|
        #[trigger] w.owns_buf(i, w.entry(i).buf.unwrap().idx as int) && #[trigger] w.owns_buf(
            j,
            w.entry(j).buf.unwrap().idx as int,
        ) && i != j implies w.entry(i).buf.unwrap().idx != w.entry(j).buf.unwrap().idx by {
        if i == fi {
            assert(v.owns_buf(j, v.entry(j).buf.unwrap().idx as int));
            assert(!v.owns_buf(j, info.buf.unwrap().idx as int));
        } else if j == fi {
            assert(v.owns_buf(i, v.entry(i).buf.unwrap().idx as int));
            assert(!v.owns_buf(i, info.buf.unwrap().idx as int));
        } else {
            assert(v.owns_buf(i, v.entry(i).buf.unwrap().idx as int));
            assert(v.owns_buf(j, v.entry(j).buf.unwrap().idx as int));
        }
    }
    // buffer coverage: free lists unchanged, ownership only grows
    assert forall|b: int| v.buf_covered(b) implies w.buf_covered(b) by {
        if exists|i: int| v.owns_buf(i, b) {
            let i = choose|i: int| v.owns_buf(i, b);
            assert(i != fi);
            assert(w.owns_buf(i, b));
        }
    }
    match info.buf {
        Some(bi) => {
            assert(w.owns_buf(fi, bi.idx as int));
            assert(w.buf_covered(bi.idx as int));
        },
        None => {},
    }
}

/// `model_free` preserves well-formedness and buffer accounting.
proof fn assert_free_entry_wf(v: RingView, w: RingView, fi: int)
    requires
        v.wf(),
        v.allocated(fi),
        w == v.model_free(fi),
    ensures
        w.wf(),
        (v.buf_complete() ==> w.buf_complete()),
        (forall|x: int| v.buf_complete_except(x) ==> w.buf_complete_except(x)),
{
    let e = v.entry(fi);
    // the freed slot was not on the free list
    assert(!v.free_entries.contains(fi)) by {
        if v.free_entries.contains(fi) {
            let k = choose|k: int| 0 <= k < v.free_entries.len() && v.free_entries[k] == fi;
            assert(v.entries[v.free_entries[k]] is None);
        }
    }
    assert(w.free_entries.no_duplicates()) by {
        assert(forall|p: int|
            0 <= p < v.free_entries.len() ==> w.free_entries[p] == v.free_entries[p]);
        assert(w.free_entries.last() == fi);
    }
    assert forall|k: int| 0 <= k < w.free_entries.len() implies 0 <= #[trigger] w.free_entries[k]
        < w.cap() by {
        if k < v.free_entries.len() {
            assert(w.free_entries[k] == v.free_entries[k]);
        }
    }
    assert forall|k: int| 0 <= k < w.free_entries.len() implies w.entries[
        #[trigger] w.free_entries[k]
    ] is None by {
        if k < v.free_entries.len() {
            assert(w.free_entries[k] == v.free_entries[k]);
            assert(v.free_entries[k] != fi);
        }
    }
    assert forall|i: int|
        0 <= i < w.cap() && w.entries[i] is None implies #[trigger] w.free_entries.contains(
        i,
    ) by {
        if i == fi {
            assert(w.free_entries[w.free_entries.len() - 1] == fi);
        } else {
            assert(v.entries[i] is None);
            assert(v.free_entries.contains(i));
            let k = choose|k: int| 0 <= k < v.free_entries.len() && v.free_entries[k] == i;
            assert(w.free_entries[k] == i);
        }
    }
    // buffer free lists: a released buffer was owned, hence not free and
    // owned by nobody else
    match e.buf {
        Some(bi) => {
            let b = bi.idx as int;
            assert(v.owns_buf(fi, b));
            assert(v.entry_buf_ok(fi));
            if bi.direction is RX {
                assert(w.free_rx.no_duplicates()) by {
                    assert(forall|p: int|
                        0 <= p < v.free_rx.len() ==> w.free_rx[p] == v.free_rx[p]);
                }
                assert forall|k: int| 0 <= k < w.free_rx.len() implies w.is_rx_idx(
                    #[trigger] w.free_rx[k],
                ) by {
                    if k < v.free_rx.len() {
                        assert(w.free_rx[k] == v.free_rx[k]);
                    }
                }
            } else {
                assert(w.free_tx.no_duplicates()) by {
                    assert(forall|p: int|
                        0 <= p < v.free_tx.len() ==> w.free_tx[p] == v.free_tx[p]);
                }
                assert forall|k: int| 0 <= k < w.free_tx.len() implies w.is_tx_idx(
                    #[trigger] w.free_tx[k],
                ) by {
                    if k < v.free_tx.len() {
                        assert(w.free_tx[k] == v.free_tx[k]);
                    }
                }
            }
        },
        None => {},
    }
    // remaining owners keep valid claims: their buffers differ from the
    // released one by ownership uniqueness
    assert forall|i: int| #[trigger] w.allocated(i) implies w.entry_buf_ok(i) by {
        assert(i != fi);
        assert(v.allocated(i));
        assert(v.entry_buf_ok(i));
        assert(w.entry(i) == v.entry(i));
        match v.entry(i).buf {
            Some(ob) => {
                assert(v.owns_buf(i, ob.idx as int));
                match e.buf {
                    Some(bi) => {
                        assert(v.owns_buf(fi, bi.idx as int));
                        assert(ob.idx != bi.idx);
                        if ob.direction is RX {
                            assert(!w.free_rx.contains(ob.idx as int)) by {
                                if w.free_rx.contains(ob.idx as int) {
                                    let k = choose|k: int|
                                        0 <= k < w.free_rx.len() && w.free_rx[k] == ob.idx as int;
                                    if k < v.free_rx.len() {
                                        assert(v.free_rx.contains(ob.idx as int));
                                    }
                                }
                            }
                        } else {
                            assert(!w.free_tx.contains(ob.idx as int)) by {
                                if w.free_tx.contains(ob.idx as int) {
                                    let k = choose|k: int|
                                        0 <= k < w.free_tx.len() && w.free_tx[k] == ob.idx as int;
                                    if k < v.free_tx.len() {
                                        assert(v.free_tx.contains(ob.idx as int));
                                    }
                                }
                            }
                        }
                    },
                    None => {},
                }
            },
            None => {},
        }
    }
    assert forall|i: int, j: int|
        #[trigger] w.owns_buf(i, w.entry(i).buf.unwrap().idx as int) && #[trigger] w.owns_buf(
            j,
            w.entry(j).buf.unwrap().idx as int,
        ) && i != j implies w.entry(i).buf.unwrap().idx != w.entry(j).buf.unwrap().idx by {
        assert(v.owns_buf(i, v.entry(i).buf.unwrap().idx as int));
        assert(v.owns_buf(j, v.entry(j).buf.unwrap().idx as int));
    }
    // coverage: the released buffer moves from owned to free; other buffers
    // keep their witness
    assert forall|b: int| v.buf_covered(b) implies w.buf_covered(b) by {
        if exists|i: int| v.owns_buf(i, b) {
            let i = choose|i: int| v.owns_buf(i, b);
            if i == fi {
                let bi = e.buf.unwrap();
                assert(b == bi.idx as int);
                if bi.direction is RX {
                    assert(w.free_rx.last() == b);
                    assert(w.free_rx.contains(b));
                } else {
                    assert(w.free_tx.last() == b);
                    assert(w.free_tx.contains(b));
                }
            } else {
                assert(w.owns_buf(i, b));
            }
        } else {
            if v.is_rx_idx(b) && v.free_rx.contains(b) {
                let k = choose|k: int| 0 <= k < v.free_rx.len() && v.free_rx[k] == b;
                assert(w.free_rx[k] == b);
                assert(w.free_rx.contains(b));
            }
            if v.is_tx_idx(b) && v.free_tx.contains(b) {
                let k = choose|k: int| 0 <= k < v.free_tx.len() && v.free_tx[k] == b;
                assert(w.free_tx[k] == b);
                assert(w.free_tx.contains(b));
            }
        }
    }
}

/// In a well-formed pool the free list cannot exceed the capacity: its
/// entries are distinct indices of the slot range.
pub proof fn lemma_free_entries_le_cap(v: RingView)
    requires
        v.wf(),
    ensures
        v.free_entries.len() <= v.cap(),
{
    v.free_entries.unique_seq_to_set();
    lemma_int_range(0, v.cap());
    lemma_len_subset(v.free_entries.to_set(), set_int_range(0, v.cap()));
}

/// Slot conservation: at every observation point the number of allocated
/// slots plus the free-list length equals the capacity, and the count the
/// pool reports is exactly the number of allocated slots.
pub proof fn lemma_slot_conservation(v: RingView)
    requires
        v.wf(),
    ensures
        v.allocated_set().finite(),
        v.allocated_set().len() + v.free_entries.len() == v.cap(),
        v.allocated_set().len() == v.allocated_count(),
{
    let range = set_int_range(0, v.cap());
    lemma_int_range(0, v.cap());
    v.free_entries.unique_seq_to_set();
    let fs = v.free_entries.to_set();
    assert(fs.subset_of(range)) by {
        assert forall|i: int| fs.contains(i) implies range.contains(i) by {
            let k = choose|k: int| 0 <= k < v.free_entries.len() && v.free_entries[k] == i;
        }
    }
    lemma_len_subset(fs, range);
    lemma_len_subset(v.allocated_set(), range);
    assert(fs.disjoint(v.allocated_set())) by {
        assert forall|i: int| fs.contains(i) implies !v.allocated_set().contains(i) by {
            let k = choose|k: int| 0 <= k < v.free_entries.len() && v.free_entries[k] == i;
            assert(v.entries[i] is None);
        }
    }
    assert((fs + v.allocated_set()) =~= range) by {
        assert forall|i: int| range.contains(i) implies (fs + v.allocated_set()).contains(i) by {
            if v.entries[i] is Some {
                assert(v.allocated_set().contains(i));
            } else {
                assert(v.free_entries.contains(i));
            }
        }
    }
    lemma_set_disjoint_lens(fs, v.allocated_set());
}

/// Exactly-one-reference: two distinct allocated slots never hold the same
/// buffer index.
pub proof fn lemma_buffer_exclusive(v: RingView, i: int, j: int)
    requires
        v.wf(),
        i != j,
        v.allocated(i),
        v.allocated(j),
        v.entry(i).buf is Some,
        v.entry(j).buf is Some,
    ensures
        v.entry(i).buf.unwrap().idx != v.entry(j).buf.unwrap().idx,
{
    assert(v.owns_buf(i, v.entry(i).buf.unwrap().idx as int));
    assert(v.owns_buf(j, v.entry(j).buf.unwrap().idx as int));
}

/// Round trip: allocating a slot and then freeing it restores the free-list
/// length — indeed the whole pool state when the slot claimed no buffer.
pub proof fn lemma_alloc_free_roundtrip(v: RingView, info: EntryInfo)
    requires
        v.wf(),
        v.free_entries.len() > 0,
        info.buf is None,
    ensures
        v.model_alloc(info).0.model_free(v.model_alloc(info).1).free_entries.len()
            == v.free_entries.len(),
        v.model_alloc(info).0.model_free(v.model_alloc(info).1) == v,
{
    let (w, i) = v.model_alloc(info);
    let u = w.model_free(i);
    assert(v.free_entries[v.free_entries.len() - 1] == i);
    assert(v.entries[i] is None);
    assert(u.free_entries =~= v.free_entries);
    assert(u.entries =~= v.entries);
    assert(u =~= v);
}

/// Headroom for one buffer direction: free buffers + allocated slots cover
/// the capacity.
proof fn lemma_headroom_dir(v: RingView, rx: bool)
    requires
        v.wf(),
        v.buf_complete(),
        !rx ==> v.tx_size is Some,
    ensures
        (if rx {
            v.free_rx.len() as int
        } else {
            v.free_tx.len() as int
        }) + v.allocated_set().len() >= v.cap(),
{
    lemma_slot_conservation(v);
    let lo: int = if rx {
        0
    } else {
        v.cap()
    };
    let hi: int = lo + v.cap();
    let fl = if rx {
        v.free_rx
    } else {
        v.free_tx
    };
    let range = set_int_range(lo, hi);
    lemma_int_range(lo, hi);
    fl.unique_seq_to_set();
    let fs = fl.to_set();
    assert(fs.subset_of(range)) by {
        assert forall|b: int| fs.contains(b) implies range.contains(b) by {
            let k = choose|k: int| 0 <= k < fl.len() && fl[k] == b;
        }
    }
    lemma_len_subset(fs, range);
    let used = range.difference(fs);
    lemma_len_subset(used, range);
    let f = |b: int| choose|i: int| v.owns_buf(i, b);
    assert forall|b: int| #[trigger] used.contains(b) implies v.owns_buf(f(b), b)
        && v.allocated_set().contains(f(b)) by {
        assert(v.is_rx_idx(b) || v.is_tx_idx(b));
        assert(v.buf_covered(b));
        if rx {
            assert(!v.is_tx_idx(b));
            assert(!fs.contains(b));
            assert(exists|i: int| v.owns_buf(i, b));
        } else {
            assert(!v.is_rx_idx(b));
            assert(!fs.contains(b));
            assert(exists|i: int| v.owns_buf(i, b));
        }
        assert(v.owns_buf(f(b), b));
    }
    assert(vstd::relations::injective_on(f, used)) by {
        assert forall|b1: int, b2: int|
            #![trigger used.contains(b1), used.contains(b2)]
            used.contains(b1) && used.contains(b2) && f(b1) == f(b2) implies b1 == b2 by {
            assert(v.owns_buf(f(b1), b1));
            assert(v.owns_buf(f(b2), b2));
        }
    }
    lemma_map_size(used, used.map(f), f);
    assert(used.map(f).subset_of(v.allocated_set())) by {
        assert forall|y: int| used.map(f).contains(y) implies v.allocated_set().contains(y) by {
            let b = choose|b: int| used.contains(b) && f(b) == y;
        }
    }
    lemma_len_subset(used.map(f), v.allocated_set());
    assert(fs.disjoint(used));
    assert((fs + used) =~= range);
    lemma_set_disjoint_lens(fs, used);
}

/// The pool state after releasing each listed slot in turn.
pub open spec fn model_free_seq(v: RingView, uds: Seq<int>) -> RingView
    decreases uds.len(),
{
    if uds.len() == 0 {
        v
    } else {
        model_free_seq(v.model_free(uds.first()), uds.drop_first())
    }
}

/// A completed chain restores the pool: releasing the distinct slots a
/// chain allocated — one per completion, in whatever order the kernel
/// delivers them — brings the allocated count back by exactly their number,
/// and keeps the pool well-formed.
pub proof fn lemma_drain_restores_count(v: RingView, uds: Seq<int>)
    requires
        v.wf(),
        uds.no_duplicates(),
        forall|i: int| 0 <= i < uds.len() ==> v.allocated(#[trigger] uds[i]),
    ensures
        model_free_seq(v, uds).wf(),
        model_free_seq(v, uds).allocated_count() == v.allocated_count() - uds.len(),
    decreases uds.len(),
{
    if uds.len() > 0 {
        let u0 = uds.first();
        let v1 = v.model_free(u0);
        assert_free_entry_wf(v, v1, u0);
        let rest = uds.drop_first();
        assert(rest.no_duplicates()) by {
            assert(forall|i: int| 0 <= i < rest.len() ==> rest[i] == uds[i + 1]);
        }
        assert forall|i: int| 0 <= i < rest.len() implies v1.allocated(#[trigger] rest[i]) by {
            assert(rest[i] == uds[i + 1]);
            assert(uds[i + 1] != u0);
            assert(v.allocated(uds[i + 1]));
        }
        lemma_drain_restores_count(v1, rest);
    }
}

/// Backpressure safety: in a fully accounted pool each buffer direction has
/// at least as many free buffers as there are free slots, so a chain that
/// has reserved its slots can always draw the buffers it needs.
pub proof fn lemma_buffer_headroom(v: RingView)
    requires
        v.wf(),
        v.buf_complete(),
    ensures
        v.free_rx.len() >= v.free_entries.len(),
        (v.tx_size is Some ==> v.free_tx.len() >= v.free_entries.len()),
{
    lemma_slot_conservation(v);
    lemma_headroom_dir(v, true);
    if v.tx_size is Some {
        lemma_headroom_dir(v, false);
    }
}

} // verus!
