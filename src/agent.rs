//! Download bookkeeping: the torrent registry, the shared download buffer and
//! the per-torrent session that decides which peer to dial next.
use crate::error::{AgentError, PeerError};
use crate::torrent::Torrent;
use crate::value::compare_bytes;
use vstd::prelude::*;

verus! {

/// The first position of `h` in `hs`.
pub open spec fn index_of(hs: Seq<Seq<u8>>, h: Seq<u8>) -> Option<int>
    decreases hs.len(),
{
    if hs.len() == 0 {
        None
    } else if hs[0] == h {
        Some(0)
    } else {
        match index_of(hs.drop_first(), h) {
            Some(i) => Some(i + 1),
            None => None,
        }
    }
}

proof fn lemma_index_of_at(hs: Seq<Seq<u8>>, h: Seq<u8>, i: int)
    requires
        0 <= i <= hs.len(),
        forall|j: int| 0 <= j < i ==> #[trigger] hs[j] != h,
    ensures
        i < hs.len() && hs[i] == h ==> index_of(hs, h) == Some(i),
        i == hs.len() ==> index_of(hs, h) is None,
    decreases i,
{
    if i > 0 {
        assert(hs[0] != h);
        let t = hs.drop_first();
        assert forall|j: int| 0 <= j < i - 1 implies #[trigger] t[j] != h by {
            assert(t[j] == hs[j + 1]);
        }
        lemma_index_of_at(t, h, i - 1);
    }
}

proof fn lemma_index_of_bounds(hs: Seq<Seq<u8>>, h: Seq<u8>)
    ensures
        index_of(hs, h) matches Some(i) ==> 0 <= i < hs.len() && hs[i] == h,
    decreases hs.len(),
{
    if hs.len() > 0 && hs[0] != h {
        lemma_index_of_bounds(hs.drop_first(), h);
    }
}

proof fn lemma_index_of_push(hs: Seq<Seq<u8>>, x: Seq<u8>, h: Seq<u8>)
    ensures
        index_of(hs.push(x), h) == match index_of(hs, h) {
            Some(i) => Some(i),
            None => if x == h {
                Some(hs.len() as int)
            } else {
                None
            },
        },
    decreases hs.len(),
{
    assert(hs.push(x)[0] == if hs.len() > 0 { hs[0] } else { x });
    if hs.len() > 0 {
        assert(hs.push(x).drop_first() =~= hs.drop_first().push(x));
        lemma_index_of_push(hs.drop_first(), x, h);
    } else {
        assert(hs.push(x).drop_first() =~= Seq::<Seq<u8>>::empty());
    }
}

/// The info-hashes of `files`, in order.
pub open spec fn hashes(files: Seq<Torrent>) -> Seq<Seq<u8>> {
    files.map_values(|t: Torrent| t.model().info_hash)
}

/// Agent, which keeps the torrents to download, each under its info-hash.
pub struct Agent {
    files: Vec<Torrent>,
}

impl Agent {
    /// The torrent registered under `hash`.
    pub closed spec fn lookup(&self, hash: Seq<u8>) -> Option<Torrent> {
        match index_of(hashes(self.files@), hash) {
            Some(i) => Some(self.files@[i]),
            None => None,
        }
    }

    /// The number of registered torrents.
    pub closed spec fn count(&self) -> nat {
        self.files@.len()
    }

    /// The port this client announces.
    pub open spec fn spec_port(&self) -> u16 {
        6881
    }

    /// Create a new `Agent`, with no torrent.
    pub fn new() -> (r: Self)
        ensures
            forall|h: Seq<u8>| r.lookup(h) is None,
            r.count() == 0,
    {
        Agent { files: Vec::new() }
    }

    /// Get the torrent registered under `hash`.
    pub fn get_file(&self, hash: &[u8]) -> (r: Result<&Torrent, AgentError>)
        ensures
            match self.lookup(hash@) {
                Some(t) => r is Ok && *r->Ok_0 == t,
                None => r == Err::<&Torrent, AgentError>(AgentError::FileNotFound),
            },
    {
        let ghost hs = hashes(self.files@);
        let mut i: usize = 0;
        while i < self.files.len()
            invariant
                i <= self.files@.len(),
                hs == hashes(self.files@),
                hs.len() == self.files@.len(),
                forall|j: int| 0 <= j < i ==> #[trigger] hs[j] != hash@,
            decreases self.files@.len() - i,
        {
            assert(hs[i as int] == self.files@[i as int].model().info_hash);
            if compare_bytes(self.files[i].get_hash(), hash) == 0 {
                proof {
                    lemma_index_of_at(hs, hash@, i as int);
                }
                return Ok(&self.files[i]);
            }
            i = i + 1;
        }
        proof {
            lemma_index_of_at(hs, hash@, i as int);
        }
        Err(AgentError::FileNotFound)
    }

    /// Get IP port.
    pub fn get_port(&self) -> (r: u16)
        ensures
            r == self.spec_port(),
    {
        6881
    }

    /// Register `torrent` under its info-hash. A torrent already registered
    /// under the same hash is replaced (the later descriptor wins).
    pub fn add_torrent(&mut self, torrent: Torrent)
        ensures
            final(self).lookup(torrent.model().info_hash) == Some(torrent),
            forall|h: Seq<u8>| h != torrent.model().info_hash ==> #[trigger] final(self).lookup(h) == old(self).lookup(h),
    {
        let ghost h = torrent.model().info_hash;
        let ghost hs = hashes(self.files@);
        let ghost t = torrent;
        let mut i: usize = 0;
        while i < self.files.len()
            invariant
                i <= self.files@.len(),
                hs == hashes(self.files@),
                hs.len() == self.files@.len(),
                self.files@ == old(self).files@,
                h == torrent.model().info_hash,
                t == torrent,
                forall|j: int| 0 <= j < i ==> #[trigger] hs[j] != h,
            decreases self.files@.len() - i,
        {
            assert(hs[i as int] == self.files@[i as int].model().info_hash);
            if compare_bytes(self.files[i].get_hash(), torrent.get_hash()) == 0 {
                proof {
                    lemma_index_of_at(hs, h, i as int);
                }
                self.files.set(i, torrent);
                proof {
                    assert(hashes(self.files@) =~= hs);
                    assert forall|g: Seq<u8>| g != h implies #[trigger] self.lookup(g) == old(self).lookup(g) by {
                        lemma_index_of_bounds(hs, g);
                    }
                }
                return;
            }
            i = i + 1;
        }
        proof {
            lemma_index_of_at(hs, h, i as int);
        }
        self.files.push(torrent);
        proof {
            assert(hashes(self.files@) =~= hs.push(h));
            lemma_index_of_push(hs, h, h);
            assert forall|g: Seq<u8>| g != h implies #[trigger] self.lookup(g) == old(self).lookup(g) by {
                lemma_index_of_push(hs, h, g);
                lemma_index_of_bounds(hs, g);
            }
        }
    }

    /// The registered torrents, in registration order.
    pub fn torrents(&self) -> (r: &Vec<Torrent>)
        ensures
            r@.len() == self.count(),
            forall|h: Seq<u8>| #[trigger] self.lookup(h) is Some ==> r@.contains(self.lookup(h)->0),
    {
        proof {
            assert forall|h: Seq<u8>| #[trigger] self.lookup(h) is Some implies self.files@.contains(self.lookup(h)->0) by {
                lemma_index_of_bounds(hashes(self.files@), h);
                let i = index_of(hashes(self.files@), h)->0;
                assert(self.files@[i] == self.lookup(h)->0);
            }
        }
        &self.files
    }

    /// Hand over every registered torrent, for download.
    pub fn into_torrents(self) -> (r: Vec<Torrent>)
        ensures
            r@.len() == self.count(),
            forall|h: Seq<u8>| #[trigger] self.lookup(h) is Some ==> r@.contains(self.lookup(h)->0),
    {
        proof {
            assert forall|h: Seq<u8>| #[trigger] self.lookup(h) is Some implies self.files@.contains(self.lookup(h)->0) by {
                lemma_index_of_bounds(hashes(self.files@), h);
                let i = index_of(hashes(self.files@), h)->0;
                assert(self.files@[i] == self.lookup(h)->0);
            }
        }
        self.files
    }
}

/// `data` with `block` written over it at `offset`.
pub open spec fn spliced(data: Seq<u8>, offset: int, block: Seq<u8>) -> Seq<u8> {
    data.subrange(0, offset) + block + data.subrange(offset + block.len(), data.len() as int)
}

/// Where a block of piece `index` starts: `index * piece_length + begin`.
pub open spec fn block_offset(index: u32, begin: u32, piece_length: nat) -> int {
    index * piece_length + begin
}

/// One torrent's download buffer: a fixed number of bytes, written one block
/// at a time, never past its end.
pub struct DownloadBuffer {
    data: Vec<u8>,
    piece_length: usize,
}

impl DownloadBuffer {
    /// The current bytes.
    pub closed spec fn bytes(&self) -> Seq<u8> {
        self.data@
    }

    /// The piece length that block offsets are counted in.
    pub closed spec fn spec_piece_length(&self) -> nat {
        self.piece_length as nat
    }

    /// A zero-filled buffer of `length` bytes.
    pub fn new(length: usize, piece_length: usize) -> (r: Self)
        ensures
            r.bytes() == Seq::new(length as nat, |i: int| 0u8),
            r.spec_piece_length() == piece_length,
    {
        let mut data: Vec<u8> = Vec::new();
        let mut k: usize = 0;
        while k < length
            invariant
                k <= length,
                data@ == Seq::new(k as nat, |i: int| 0u8),
            decreases length - k,
        {
            data.push(0u8);
            k = k + 1;
            assert(data@ =~= Seq::new(k as nat, |i: int| 0u8));
        }
        DownloadBuffer { data, piece_length }
    }

    /// The buffer for `torrent`: its total length, zero-filled.
    pub fn for_torrent(torrent: &Torrent) -> (r: Self)
        ensures
            r.bytes() == Seq::new(torrent.spec_length(), |i: int| 0u8),
            r.spec_piece_length() == torrent.model().info.piece_length,
    {
        Self::new(torrent.total_length(), torrent.piece_length())
    }

    /// Write `block` of piece `index` at offset `begin` in that piece. A block
    /// that would run past the end of the buffer is refused and nothing is
    /// written.
    pub fn write_piece(&mut self, index: u32, begin: u32, block: &[u8]) -> (r: Result<(), PeerError>)
        ensures
            final(self).spec_piece_length() == old(self).spec_piece_length(),
            ({
                let off = block_offset(index, begin, old(self).spec_piece_length());
                if off + block@.len() <= old(self).bytes().len() {
                    &&& r is Ok
                    &&& final(self).bytes() == spliced(old(self).bytes(), off, block@)
                } else {
                    &&& r == Err::<(), PeerError>(PeerError::OutOfBounds)
                    &&& final(self).bytes() == old(self).bytes()
                }
            }),
    {
        let len = self.data.len();
        let start = match (index as usize).checked_mul(self.piece_length) {
            Some(x) => match x.checked_add(begin as usize) {
                Some(y) => y,
                None => return Err(PeerError::OutOfBounds),
            },
            None => return Err(PeerError::OutOfBounds),
        };
        if start > len || block.len() > len - start {
            return Err(PeerError::OutOfBounds);
        }
        let ghost before = self.data@;
        let mut k: usize = 0;
        while k < block.len()
            invariant
                k <= block@.len(),
                start + block@.len() <= len,
                self.data@.len() == len,
                before.len() == len,
                self.piece_length == old(self).piece_length,
                self.data@ == spliced(before, start as int, block@.subrange(0, k as int)),
            decreases block@.len() - k,
        {
            self.data.set(start + k, block[k]);
            k = k + 1;
            assert(self.data@ =~= spliced(before, start as int, block@.subrange(0, k as int)));
        }
        assert(block@.subrange(0, k as int) =~= block@);
        Ok(())
    }

    /// The bytes written so far.
    pub fn as_bytes(&self) -> (r: &[u8])
        ensures
            r@ == self.bytes(),
    {
        self.data.as_slice()
    }
}

/// Where one peer connection stands.
#[derive(Debug, Clone, Copy, PartialEq, Eq, Structural)]
pub enum PeerStatus {
    /// Not dialled yet.
    Waiting,
    /// Dialled; handshake not done.
    Connecting,
    /// Handshake done; exchanging messages.
    Active,
    /// Closed after a normal end.
    Finished,
    /// Unreachable, handshake refused, or failed while active.
    Failed,
}

/// What happened to a peer connection.
#[derive(Debug, Clone, Copy, PartialEq, Eq, Structural)]
pub enum SessionEvent {
    /// The handshake with peer `i` succeeded.
    Connected(usize),
    /// Peer `i` could not be reached, or its handshake did not match.
    ConnectFailed(usize),
    /// Peer `i`'s connection ended normally.
    Closed(usize),
    /// Peer `i`'s connection ended with an error.
    Errored(usize),
}

/// What to do next.
#[derive(Debug, Clone, Copy, PartialEq, Eq, Structural)]
pub enum SessionAction {
    /// Dial peer `i`.
    Dial(usize),
    /// Wait for events.
    Wait,
    /// Every peer is done with: the torrent's download is complete.
    Complete,
}

/// Whether a peer needs nothing more.
pub open spec fn is_resolved(s: PeerStatus) -> bool {
    s == PeerStatus::Finished || s == PeerStatus::Failed
}

/// The status of a peer after `event` (events for other peers, and events
/// that do not fit the peer's status, change nothing).
pub open spec fn status_after(s: PeerStatus, i: int, event: SessionEvent) -> PeerStatus {
    match event {
        SessionEvent::Connected(j) => if j == i && s == PeerStatus::Connecting {
            PeerStatus::Active
        } else {
            s
        },
        SessionEvent::ConnectFailed(j) => if j == i && s == PeerStatus::Connecting {
            PeerStatus::Failed
        } else {
            s
        },
        SessionEvent::Closed(j) => if j == i && s == PeerStatus::Active {
            PeerStatus::Finished
        } else {
            s
        },
        SessionEvent::Errored(j) => if j == i && (s == PeerStatus::Active || s == PeerStatus::Connecting) {
            PeerStatus::Failed
        } else {
            s
        },
    }
}

/// The download of one torrent from the peers a tracker named: one status
/// per peer. A failure concerns its own peer only.
pub struct DownloadSession {
    statuses: Vec<PeerStatus>,
}

impl DownloadSession {
    pub closed spec fn statuses(&self) -> Seq<PeerStatus> {
        self.statuses@
    }

    /// Whether every peer is finished or failed.
    pub open spec fn spec_complete(&self) -> bool {
        forall|i: int| 0 <= i < self.statuses().len() ==> is_resolved(#[trigger] self.statuses()[i])
    }

    /// A session over `peer_count` peers, none dialled yet.
    pub fn new(peer_count: usize) -> (r: Self)
        ensures
            r.statuses() == Seq::new(peer_count as nat, |i: int| PeerStatus::Waiting),
    {
        let mut statuses: Vec<PeerStatus> = Vec::new();
        let mut k: usize = 0;
        while k < peer_count
            invariant
                k <= peer_count,
                statuses@ == Seq::new(k as nat, |i: int| PeerStatus::Waiting),
            decreases peer_count - k,
        {
            statuses.push(PeerStatus::Waiting);
            k = k + 1;
            assert(statuses@ =~= Seq::new(k as nat, |i: int| PeerStatus::Waiting));
        }
        DownloadSession { statuses }
    }

    /// Apply an event.
    pub fn on_event(&mut self, event: SessionEvent)
        ensures
            final(self).statuses().len() == old(self).statuses().len(),
            forall|i: int|
                0 <= i < old(self).statuses().len() ==> #[trigger] final(self).statuses()[i] == status_after(
                    old(self).statuses()[i],
                    i,
                    event,
                ),
    {
        let (i, from, to) = match event {
            SessionEvent::Connected(i) => (i, PeerStatus::Connecting, PeerStatus::Active),
            SessionEvent::ConnectFailed(i) => (i, PeerStatus::Connecting, PeerStatus::Failed),
            SessionEvent::Closed(i) => (i, PeerStatus::Active, PeerStatus::Finished),
            SessionEvent::Errored(i) => (i, PeerStatus::Active, PeerStatus::Failed),
        };
        if i < self.statuses.len() {
            let s = self.statuses[i];
            let errored_early = match event {
                SessionEvent::Errored(_) => s == PeerStatus::Connecting,
                _ => false,
            };
            if s == from || errored_early {
                self.statuses.set(i, to);
            }
        }
    }

    /// Decide what to do next: dial the first peer not dialled yet (it is then
    /// connecting), else report completion once every peer is finished or
    /// failed, else wait.
    pub fn next_action(&mut self) -> (r: SessionAction)
        ensures
            final(self).statuses().len() == old(self).statuses().len(),
            match r {
                SessionAction::Dial(i) => 0 <= i < old(self).statuses().len()
                    && old(self).statuses()[i as int] == PeerStatus::Waiting
                    && (forall|j: int| 0 <= j < i ==> old(self).statuses()[j] != PeerStatus::Waiting)
                    && final(self).statuses() == old(self).statuses().update(i as int, PeerStatus::Connecting),
                SessionAction::Complete => old(self).spec_complete() && final(self).statuses() == old(self).statuses(),
                SessionAction::Wait => !old(self).spec_complete()
                    && (forall|j: int| 0 <= j < old(self).statuses().len() ==> #[trigger] old(self).statuses()[j] != PeerStatus::Waiting)
                    && final(self).statuses() == old(self).statuses(),
            },
    {
        let mut i: usize = 0;
        let mut all_resolved = true;
        while i < self.statuses.len()
            invariant
                i <= self.statuses@.len(),
                self.statuses@ == old(self).statuses@,
                forall|j: int| 0 <= j < i ==> #[trigger] self.statuses@[j] != PeerStatus::Waiting,
                all_resolved <==> forall|j: int| 0 <= j < i ==> is_resolved(#[trigger] self.statuses@[j]),
            decreases self.statuses@.len() - i,
        {
            let s = self.statuses[i];
            if s == PeerStatus::Waiting {
                self.statuses.set(i, PeerStatus::Connecting);
                return SessionAction::Dial(i);
            }
            if !(s == PeerStatus::Finished || s == PeerStatus::Failed) {
                all_resolved = false;
            }
            i = i + 1;
        }
        if all_resolved {
            SessionAction::Complete
        } else {
            SessionAction::Wait
        }
    }

    /// Whether every peer is finished or failed.
    pub fn is_complete(&self) -> (r: bool)
        ensures
            r == self.spec_complete(),
    {
        let mut i: usize = 0;
        while i < self.statuses.len()
            invariant
                i <= self.statuses@.len(),
                forall|j: int| 0 <= j < i ==> is_resolved(#[trigger] self.statuses@[j]),
            decreases self.statuses@.len() - i,
        {
            let s = self.statuses[i];
            if !(s == PeerStatus::Finished || s == PeerStatus::Failed) {
                assert(!is_resolved(self.statuses()[i as int]));
                return false;
            }
            i = i + 1;
        }
        true
    }

    /// The status of peer `i`.
    pub fn status(&self, i: usize) -> (r: Option<PeerStatus>)
        ensures
            i < self.statuses().len() ==> r == Some(self.statuses()[i as int]),
            i >= self.statuses().len() ==> r is None,
    {
        if i < self.statuses.len() {
            Some(self.statuses[i])
        } else {
            None
        }
    }
}

} // verus!
