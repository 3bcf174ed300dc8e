//! Ephemeral presence: who is editing where, broadcast on its own
//! channel and never merged into the document.
//!
//! Presence is non-authoritative last-write-wins state keyed by peer id.
//! A peer that stops updating is pruned after a fixed staleness timeout
//! whether or not it said goodbye.

use vstd::prelude::*;

use crate::canvas::Position;
use crate::document::ShapeId;

verus! {

/// Staleness threshold in milliseconds: a peer silent for longer is
/// removed on the next prune tick.
pub const STALE_MS: u64 = 5000;

/// The number of distinct remote-cursor colors.
pub const PEER_COLOR_COUNT: u8 = 8;

/// Unique peer identifier (a 32-byte public key).
#[derive(Debug, Clone, Copy, PartialEq, Eq, Hash)]
pub struct PeerId(pub [u8; 32]);

impl PeerId {
    /// Take a peer id from the first 32 bytes of a key.
    pub fn from_bytes(bytes: &[u8]) -> (r: Option<PeerId>)
        ensures
            match r {
                Some(p) => bytes@.len() >= 32 && p.0@ == bytes@.subrange(0, 32),
                None => bytes@.len() < 32,
            },
    {
        if bytes.len() >= 32 {
            let arr: [u8; 32] = [
                bytes[0],
                bytes[1],
                bytes[2],
                bytes[3],
                bytes[4],
                bytes[5],
                bytes[6],
                bytes[7],
                bytes[8],
                bytes[9],
                bytes[10],
                bytes[11],
                bytes[12],
                bytes[13],
                bytes[14],
                bytes[15],
                bytes[16],
                bytes[17],
                bytes[18],
                bytes[19],
                bytes[20],
                bytes[21],
                bytes[22],
                bytes[23],
                bytes[24],
                bytes[25],
                bytes[26],
                bytes[27],
                bytes[28],
                bytes[29],
                bytes[30],
                bytes[31],
            ];
            proof {
                assert(arr@ =~= bytes@.subrange(0, 32));
            }
            Some(PeerId(arr))
        } else {
            None
        }
    }
}

/// Whether two peer ids are the same key.
pub open spec fn peer_id_eq(a: PeerId, b: PeerId) -> bool {
    a.0@ == b.0@
}

/// Decide peer id equality.
pub fn peer_eq(a: &PeerId, b: &PeerId) -> (r: bool)
    ensures
        r == peer_id_eq(*a, *b),
{
    let mut i: usize = 0;
    while i < 32
        invariant
            i <= 32,
            forall|j: int| 0 <= j < i ==> a.0@[j] == b.0@[j],
        decreases 32 - i,
    {
        if a.0[i] != b.0[i] {
            return false;
        }
        i = i + 1;
    }
    proof {
        assert(a.0@ =~= b.0@);
    }
    true
}

/// Tool kind for presence (simplified from the full tool palette).
#[derive(Debug, Clone, Copy, PartialEq, Eq, Structural)]
pub enum ToolKind {
    Select,
    Freehand,
    Text,
    Line,
    Arrow,
    Rectangle,
    DoubleBox,
    Diamond,
    Ellipse,
    Triangle,
    Parallelogram,
    Hexagon,
    Trapezoid,
    RoundedRect,
    Cylinder,
    Cloud,
    Star,
}

/// Cursor activity state.
#[derive(Debug, Clone, Copy, PartialEq, Eq, Structural)]
pub enum CursorActivity {
    /// Idle - cursor visible but not actively doing anything.
    Idle,
    /// Drawing a shape (with preview bounds).
    Drawing { tool: ToolKind, start: Position, current: Position },
    /// Has a shape selected.
    Selected { shape_id: ShapeId },
    /// Dragging a shape.
    Dragging { shape_id: ShapeId },
    /// Resizing a shape.
    Resizing { shape_id: ShapeId },
    /// Typing text.
    Typing { position: Position },
}

/// The display label of an activity.
pub open spec fn activity_label(a: CursorActivity) -> Seq<char> {
    match a {
        CursorActivity::Idle => "Idle"@,
        CursorActivity::Drawing { .. } => "Drawing"@,
        CursorActivity::Selected { .. } => "Selected"@,
        CursorActivity::Dragging { .. } => "Moving"@,
        CursorActivity::Resizing { .. } => "Resizing"@,
        CursorActivity::Typing { .. } => "Typing"@,
    }
}

impl CursorActivity {
    /// Get a human-readable activity label.
    pub fn label(&self) -> (r: &'static str)
        ensures
            r@ == activity_label(*self),
    {
        match self {
            CursorActivity::Idle => "Idle",
            CursorActivity::Drawing { .. } => "Drawing",
            CursorActivity::Selected { .. } => "Selected",
            CursorActivity::Dragging { .. } => "Moving",
            CursorActivity::Resizing { .. } => "Resizing",
            CursorActivity::Typing { .. } => "Typing",
        }
    }
}

/// A peer's presence state.
#[derive(Debug, Clone, Copy, PartialEq, Eq)]
pub struct PeerPresence {
    pub peer_id: PeerId,
    pub cursor_pos: Position,
    pub activity: CursorActivity,
    pub color_index: u8,
    pub timestamp_ms: u64,
}

impl PeerPresence {
    /// Build a presence record; the color follows from the peer id, so
    /// every replica shows a peer in the same color.
    pub fn new(peer_id: PeerId, cursor_pos: Position, activity: CursorActivity, timestamp_ms: u64)
        -> (r: PeerPresence)
        ensures
            r.peer_id == peer_id,
            r.cursor_pos == cursor_pos,
            r.activity == activity,
            r.timestamp_ms == timestamp_ms,
            r.color_index == peer_id.0@[0] as u8 % PEER_COLOR_COUNT,
    {
        PeerPresence {
            peer_id,
            cursor_pos,
            activity,
            color_index: peer_id.0[0] % PEER_COLOR_COUNT,
            timestamp_ms,
        }
    }
}

/// Presence message types for the presence channel.
#[derive(Debug, Clone, Copy, PartialEq, Eq)]
pub enum PresenceMessage {
    /// Full presence update.
    Update(PeerPresence),
    /// Peer leaving gracefully.
    Leave { peer_id: PeerId },
    /// Request all peers to send their presence (on connect).
    RequestAll,
}

/// One tracked remote peer: its presence and when it was last heard
/// from, in the local clock's milliseconds.
#[derive(Debug, Clone, Copy)]
pub struct PeerEntry {
    pub presence: PeerPresence,
    pub last_seen_ms: u64,
}

/// Manages all remote peers' presence, keyed by peer id.  Time comes in
/// as an argument, so staleness is decided by the caller's clock.
#[derive(Debug)]
pub struct PresenceManager {
    pub local: PeerId,
    pub peers: Vec<PeerEntry>,
}

/// An entry is fresh at `now` when its last update is within the
/// staleness threshold.
pub open spec fn fresh_at(e: PeerEntry, now: u64) -> bool {
    now <= e.last_seen_ms + STALE_MS
}

impl PresenceManager {
    /// Well-formed: one entry per peer, never the local peer.
    pub open spec fn wf(&self) -> bool {
        &&& forall|a: int, b: int|
            0 <= a < b < self.peers@.len() ==> !peer_id_eq(
                (#[trigger] self.peers@[a]).presence.peer_id,
                (#[trigger] self.peers@[b]).presence.peer_id,
            )
        &&& forall|a: int|
            0 <= a < self.peers@.len() ==> !peer_id_eq(
                (#[trigger] self.peers@[a]).presence.peer_id,
                self.local,
            )
    }

    pub fn new(local_peer_id: PeerId) -> (r: PresenceManager)
        ensures
            r.wf(),
            r.local == local_peer_id,
            r.peers@.len() == 0,
    {
        PresenceManager { local: local_peer_id, peers: Vec::new() }
    }

    /// Get our local peer ID.
    pub fn local_peer_id(&self) -> (r: PeerId)
        ensures
            r == self.local,
    {
        self.local
    }

    /// Update or add a peer's presence, replacing it wholesale; our own
    /// presence is never stored.
    pub fn update_peer(&mut self, presence: PeerPresence, now_ms: u64)
        requires
            old(self).wf(),
        ensures
            final(self).wf(),
            final(self).local == old(self).local,
            peer_id_eq(presence.peer_id, old(self).local) ==> final(self).peers@ == old(
                self,
            ).peers@,
            !peer_id_eq(presence.peer_id, old(self).local) ==> final(self).peers@ == old(
                self,
            ).peers@.filter(
                |e: PeerEntry| !peer_id_eq(e.presence.peer_id, presence.peer_id),
            ).push(PeerEntry { presence, last_seen_ms: now_ms }),
    {
        if peer_eq(&presence.peer_id, &self.local) {
            return;
        }
        self.drop_peer(presence.peer_id);
        let ghost kept = self.peers@;
        self.peers.push(PeerEntry { presence, last_seen_ms: now_ms });
        proof {
            assert(self.peers@ =~= kept.push(PeerEntry { presence, last_seen_ms: now_ms }));
            crate::document::lemma_filter_sub(
                old(self).peers@,
                |e: PeerEntry| !peer_id_eq(e.presence.peer_id, presence.peer_id),
            );
            old(self).peers@.filter_lemma(
                |e: PeerEntry| !peer_id_eq(e.presence.peer_id, presence.peer_id),
            );
            lemma_filtered_keys_distinct(
                old(self).peers@,
                |e: PeerEntry| !peer_id_eq(e.presence.peer_id, presence.peer_id),
            );
            assert forall|a: int, b: int|
                0 <= a < b < self.peers@.len() implies !peer_id_eq(
                (#[trigger] self.peers@[a]).presence.peer_id,
                (#[trigger] self.peers@[b]).presence.peer_id,
            ) by {
                if b < kept.len() {
                } else {
                    assert(self.peers@[b].presence.peer_id == presence.peer_id);
                    assert(kept.contains(kept[a]));
                    let j = choose|j: int|
                        0 <= j < old(self).peers@.len() && old(self).peers@[j] == kept[a];
                }
            }
            assert forall|a: int|
                0 <= a < self.peers@.len() implies !peer_id_eq(
                (#[trigger] self.peers@[a]).presence.peer_id,
                self.local,
            ) by {
                if a < kept.len() {
                    assert(kept.contains(kept[a]));
                    let j = choose|j: int|
                        0 <= j < old(self).peers@.len() && old(self).peers@[j] == kept[a];
                }
            }
        }
    }

    /// Remove every entry for a peer id (internal helper).
    fn drop_peer(&mut self, id: PeerId)
        requires
            old(self).wf(),
        ensures
            final(self).wf(),
            final(self).local == old(self).local,
            final(self).peers@ == old(self).peers@.filter(
                |e: PeerEntry| !peer_id_eq(e.presence.peer_id, id),
            ),
    {
        let ghost cl = |e: PeerEntry| !peer_id_eq(e.presence.peer_id, id);
        let mut out: Vec<PeerEntry> = Vec::new();
        let mut i: usize = 0;
        proof {
            reveal(Seq::filter);
            assert(out@ =~= self.peers@.subrange(0, 0).filter(cl));
        }
        while i < self.peers.len()
            invariant
                i <= self.peers@.len(),
                out@ == self.peers@.subrange(0, i as int).filter(cl),
                cl == (|e: PeerEntry| !peer_id_eq(e.presence.peer_id, id)),
            decreases self.peers@.len() - i,
        {
            let keep = !peer_eq(&self.peers[i].presence.peer_id, &id);
            let ghost pre = out@;
            if keep {
                let e = self.peers[i];
                out.push(e);
            }
            proof {
                reveal(Seq::filter);
                let t0 = self.peers@.subrange(0, i as int);
                let t1 = self.peers@.subrange(0, i + 1);
                assert(t1.drop_last() =~= t0);
                assert(t1.last() == self.peers@[i as int]);
                if keep {
                    assert(out@ =~= pre.push(self.peers@[i as int]));
                } else {
                    assert(out@ =~= pre);
                }
            }
            i = i + 1;
        }
        proof {
            assert(self.peers@.subrange(0, self.peers@.len() as int) =~= self.peers@);
        }
        let ghost orig = self.peers@;
        self.peers = out;
        proof {
            crate::document::lemma_filter_sub(orig, cl);
            orig.filter_lemma(cl);
            lemma_filtered_keys_distinct(orig, cl);
            assert forall|a: int, b: int|
                0 <= a < b < self.peers@.len() implies !peer_id_eq(
                (#[trigger] self.peers@[a]).presence.peer_id,
                (#[trigger] self.peers@[b]).presence.peer_id,
            ) by {
                assert(orig.contains(self.peers@[a]));
                assert(orig.contains(self.peers@[b]));
            }
            assert forall|a: int|
                0 <= a < self.peers@.len() implies !peer_id_eq(
                (#[trigger] self.peers@[a]).presence.peer_id,
                self.local,
            ) by {
                assert(orig.contains(self.peers@[a]));
                let j = choose|j: int| 0 <= j < orig.len() && orig[j] == self.peers@[a];
            }
        }
    }

    /// Remove a peer (graceful disconnect).
    pub fn remove_peer(&mut self, peer_id: &PeerId)
        requires
            old(self).wf(),
        ensures
            final(self).wf(),
            final(self).local == old(self).local,
            final(self).peers@ == old(self).peers@.filter(
                |e: PeerEntry| !peer_id_eq(e.presence.peer_id, *peer_id),
            ),
    {
        self.drop_peer(*peer_id);
    }

    /// Remove every peer not updated within the staleness threshold.
    pub fn prune_stale(&mut self, now_ms: u64)
        requires
            old(self).wf(),
        ensures
            final(self).wf(),
            final(self).local == old(self).local,
            final(self).peers@ == old(self).peers@.filter(|e: PeerEntry| fresh_at(e, now_ms)),
    {
        let ghost cl = |e: PeerEntry| fresh_at(e, now_ms);
        let mut out: Vec<PeerEntry> = Vec::new();
        let mut i: usize = 0;
        proof {
            reveal(Seq::filter);
            assert(out@ =~= self.peers@.subrange(0, 0).filter(cl));
        }
        while i < self.peers.len()
            invariant
                i <= self.peers@.len(),
                out@ == self.peers@.subrange(0, i as int).filter(cl),
                cl == (|e: PeerEntry| fresh_at(e, now_ms)),
            decreases self.peers@.len() - i,
        {
            let e = self.peers[i];
            let keep = now_ms <= e.last_seen_ms || now_ms - e.last_seen_ms <= STALE_MS;
            let ghost pre = out@;
            if keep {
                out.push(e);
            }
            proof {
                reveal(Seq::filter);
                let t0 = self.peers@.subrange(0, i as int);
                let t1 = self.peers@.subrange(0, i + 1);
                assert(t1.drop_last() =~= t0);
                assert(t1.last() == self.peers@[i as int]);
                assert(keep == fresh_at(self.peers@[i as int], now_ms));
                if keep {
                    assert(out@ =~= pre.push(self.peers@[i as int]));
                } else {
                    assert(out@ =~= pre);
                }
            }
            i = i + 1;
        }
        proof {
            assert(self.peers@.subrange(0, self.peers@.len() as int) =~= self.peers@);
        }
        let ghost orig = self.peers@;
        self.peers = out;
        proof {
            crate::document::lemma_filter_sub(orig, cl);
            lemma_filtered_keys_distinct(orig, cl);
            assert forall|a: int, b: int|
                0 <= a < b < self.peers@.len() implies !peer_id_eq(
                (#[trigger] self.peers@[a]).presence.peer_id,
                (#[trigger] self.peers@[b]).presence.peer_id,
            ) by {
                assert(self.peers@[a] == orig.filter(cl)[a]);
                assert(self.peers@[b] == orig.filter(cl)[b]);
            }
            assert forall|a: int|
                0 <= a < self.peers@.len() implies !peer_id_eq(
                (#[trigger] self.peers@[a]).presence.peer_id,
                self.local,
            ) by {
                assert(orig.contains(self.peers@[a]));
                let j = choose|j: int| 0 <= j < orig.len() && orig[j] == self.peers@[a];
            }
        }
    }

    /// All tracked presences, for rendering.
    pub fn active_peers(&self) -> (r: Vec<PeerPresence>)
        ensures
            r@ == self.peers@.map_values(|e: PeerEntry| e.presence),
    {
        let mut out: Vec<PeerPresence> = Vec::new();
        let mut i: usize = 0;
        while i < self.peers.len()
            invariant
                i <= self.peers@.len(),
                out@ == self.peers@.subrange(0, i as int).map_values(|e: PeerEntry| e.presence),
            decreases self.peers@.len() - i,
        {
            let ghost pre = out@;
            out.push(self.peers[i].presence);
            proof {
                let t0 = self.peers@.subrange(0, i as int);
                let t1 = self.peers@.subrange(0, i + 1);
                assert(t1.drop_last() =~= t0);
                assert forall|j: int| 0 <= j < out@.len() implies out@[j] == t1.map_values(
                    |e: PeerEntry| e.presence,
                )[j] by {
                    if j < pre.len() {
                        assert(out@[j] == pre[j]);
                        assert(t1[j] == t0[j]);
                    } else {
                        assert(t1[j] == self.peers@[i as int]);
                    }
                }
                assert(out@ =~= t1.map_values(|e: PeerEntry| e.presence));
            }
            i = i + 1;
        }
        proof {
            assert(self.peers@.subrange(0, self.peers@.len() as int) =~= self.peers@);
        }
        out
    }

    /// Get peer count.
    pub fn peer_count(&self) -> (r: usize)
        ensures
            r == self.peers@.len(),
    {
        self.peers.len()
    }
}

/// Filtering preserves key-distinctness of the tracked peers.
proof fn lemma_filtered_keys_distinct(orig: Seq<PeerEntry>, cl: spec_fn(PeerEntry) -> bool)
    requires
        forall|a: int, b: int|
            0 <= a < b < orig.len() ==> !peer_id_eq(
                (#[trigger] orig[a]).presence.peer_id,
                (#[trigger] orig[b]).presence.peer_id,
            ),
    ensures
        forall|a: int, b: int|
            0 <= a < b < orig.filter(cl).len() ==> !peer_id_eq(
                (#[trigger] orig.filter(cl)[a]).presence.peer_id,
                (#[trigger] orig.filter(cl)[b]).presence.peer_id,
            ),
{
    crate::document::lemma_filter_sub(orig, cl);
    assert forall|p: int, q: int| 0 <= p < q < orig.len() implies orig[p] != orig[q] by {
        assert(!peer_id_eq(orig[p].presence.peer_id, orig[q].presence.peer_id));
    }
    crate::document::lemma_filter_distinct(orig, cl);
    assert forall|a: int, b: int|
        0 <= a < b < orig.filter(cl).len() implies !peer_id_eq(
        (#[trigger] orig.filter(cl)[a]).presence.peer_id,
        (#[trigger] orig.filter(cl)[b]).presence.peer_id,
    ) by {
        let x = orig.filter(cl)[a];
        let y = orig.filter(cl)[b];
        assert(x != y);
        assert(orig.contains(x));
        assert(orig.contains(y));
        if peer_id_eq(x.presence.peer_id, y.presence.peer_id) {
            let j1 = choose|j: int| 0 <= j < orig.len() && orig[j] == x;
            let j2 = choose|j: int| 0 <= j < orig.len() && orig[j] == y;
            if j1 < j2 {
                assert(!peer_id_eq(orig[j1].presence.peer_id, orig[j2].presence.peer_id));
            } else if j2 < j1 {
                assert(!peer_id_eq(orig[j2].presence.peer_id, orig[j1].presence.peer_id));
            }
        }
    }
}

/// Pruning removes exactly the stale peers: after a prune at `now`, a
/// peer is tracked if and only if it was tracked and fresh.
pub proof fn lemma_prune_exact(peers: Seq<PeerEntry>, now: u64, e: PeerEntry)
    ensures
        peers.filter(|x: PeerEntry| fresh_at(x, now)).contains(e) <==> (peers.contains(e)
            && fresh_at(e, now)),
{
    let cl = |x: PeerEntry| fresh_at(x, now);
    crate::document::lemma_filter_sub(peers, cl);
    peers.filter_lemma(cl);
    if peers.filter(cl).contains(e) {
        let i = peers.filter(cl).index_of(e);
        assert(peers.filter(cl)[i] == e);
        assert(peers.contains(e) && fresh_at(e, now));
    }
    if peers.contains(e) && fresh_at(e, now) {
        let i = peers.index_of(e);
        assert(peers[i] == e);
        assert(peers.filter(cl).contains(peers[i]));
    }
}

} // verus!
