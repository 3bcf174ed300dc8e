//! The document store: the sole owner of the replicated object graph.
//!
//! Every replicated collection is a last-writer-wins map (see `crdt`):
//! shape records, z-order ranks, groups, layers and layer-order ranks.
//! The z-order of shapes is not a replicated list but a rank per shape;
//! reading the order sorts the present ranks, and every reordering
//! rewrites every rank, so a reordering is one atomic statement of the
//! whole new order rather than a splice.  Undo history is a
//! stack of encoded snapshots of the shape set kept per replica: the
//! design note on replicated undo history leaves concurrent undo
//! ill-defined, so this store takes the documented simpler alternative
//! and keeps history local.
//!
//! Identifiers are minted as `actor * 2^64 + counter`, so two replicas
//! with different actor ids can never collide, and one replica never
//! reuses a counter value.

use vstd::prelude::*;

use crate::crdt::{LwwMap, Reg, RegV, Stamp};
use crate::canvas::Position;
use crate::layers::{Layer, LayerId, LayerV};
use crate::shapes::{kind_bounded, ShapeKind, ShapeKindV};

verus! {

/// Unique identifier for a document (for sharing/sync).
#[derive(Debug, Clone, Copy, PartialEq, Eq, Hash, Structural)]
pub struct DocumentId(pub u128);

impl DocumentId {
    pub fn new(raw: u128) -> (r: Self)
        ensures
            r.0 == raw,
    {
        DocumentId(raw)
    }
}

/// Shape identifier, stable across merges.
#[derive(Debug, Clone, Copy, PartialEq, Eq, Hash, Structural)]
pub struct ShapeId(pub u128);

impl ShapeId {
    pub fn new(raw: u128) -> (r: Self)
        ensures
            r.0 == raw,
    {
        ShapeId(raw)
    }
}

/// Group identifier, stable across merges.
#[derive(Debug, Clone, Copy, PartialEq, Eq, Hash, Structural)]
pub struct GroupId(pub u128);

impl GroupId {
    pub fn new(raw: u128) -> (r: Self)
        ensures
            r.0 == raw,
    {
        GroupId(raw)
    }
}

/// The id a replica mints for its `n`-th allocation.
pub open spec fn id_of(actor: u64, n: u64) -> u128 {
    (actor * 0x1_0000_0000_0000_0000 + n) as u128
}

/// Mint an id.
pub fn make_id(actor: u64, n: u64) -> (r: u128)
    ensures
        r == id_of(actor, n),
{
    (actor as u128) * 0x1_0000_0000_0000_0000u128 + (n as u128)
}

/// Group data structure.
#[derive(Debug, Clone)]
pub struct Group {
    pub id: GroupId,
    pub members: Vec<ShapeId>,
    pub parent: Option<GroupId>,
}

/// Ghost mirror of a group.
pub struct GroupV {
    pub id: u128,
    pub members: Seq<u128>,
    pub parent: Option<u128>,
}

impl View for Group {
    type V = GroupV;

    open spec fn view(&self) -> GroupV {
        GroupV {
            id: self.id.0,
            members: self.members@.map_values(|m: ShapeId| m.0),
            parent: match self.parent {
                Some(g) => Some(g.0),
                None => None,
            },
        }
    }
}

/// A shape as stored: its record plus its layer and group references.
#[derive(Debug)]
pub struct StoredShape {
    pub kind: ShapeKind,
    pub layer: Option<u128>,
    pub group: Option<u128>,
}

/// Ghost mirror of a stored shape.
pub struct StoredShapeV {
    pub kind: ShapeKindV,
    pub layer: Option<u128>,
    pub group: Option<u128>,
}

impl View for StoredShape {
    type V = StoredShapeV;

    open spec fn view(&self) -> StoredShapeV {
        StoredShapeV { kind: self.kind@, layer: self.layer, group: self.group }
    }
}

/// A group as stored.
#[derive(Debug)]
pub struct GroupRec {
    pub members: Vec<u128>,
    pub parent: Option<u128>,
}

/// Ghost mirror of a stored group.
pub struct GroupRecV {
    pub members: Seq<u128>,
    pub parent: Option<u128>,
}

impl View for GroupRec {
    type V = GroupRecV;

    open spec fn view(&self) -> GroupRecV {
        GroupRecV { members: self.members@, parent: self.parent }
    }
}

/// A layer as stored.
#[derive(Debug)]
pub struct LayerRec {
    pub name: String,
    pub visible: bool,
    pub locked: bool,
}

/// Ghost mirror of a stored layer.
pub struct LayerRecV {
    pub name: Seq<char>,
    pub visible: bool,
    pub locked: bool,
}

impl View for LayerRec {
    type V = LayerRecV;

    open spec fn view(&self) -> LayerRecV {
        LayerRecV { name: self.name@, visible: self.visible, locked: self.locked }
    }
}

/// The replicated content of a document: five last-writer-wins maps.
pub struct DocState {
    pub shapes: LwwMap<StoredShape>,
    pub order: LwwMap<i128>,
    pub groups: LwwMap<GroupRec>,
    pub layers: LwwMap<LayerRec>,
    pub layer_order: LwwMap<i128>,
}

/// Ghost mirror of the replicated content.
pub struct DocStateV {
    pub shapes: Map<u128, RegV<StoredShapeV>>,
    pub order: Map<u128, RegV<i128>>,
    pub groups: Map<u128, RegV<GroupRecV>>,
    pub layers: Map<u128, RegV<LayerRecV>>,
    pub layer_order: Map<u128, RegV<i128>>,
}

impl View for DocState {
    type V = DocStateV;

    open spec fn view(&self) -> DocStateV {
        DocStateV {
            shapes: self.shapes@,
            order: self.order@,
            groups: self.groups@,
            layers: self.layers@,
            layer_order: self.layer_order@,
        }
    }
}

impl DocState {
    /// Well-formed: every map holds each key once.
    pub open spec fn wf(&self) -> bool {
        &&& self.shapes.wf()
        &&& self.order.wf()
        &&& self.groups.wf()
        &&& self.layers.wf()
        &&& self.layer_order.wf()
    }

    pub fn new() -> (r: DocState)
        ensures
            r.wf(),
            r@.shapes == Map::<u128, RegV<StoredShapeV>>::empty(),
            r@.order == Map::<u128, RegV<i128>>::empty(),
            r@.groups == Map::<u128, RegV<GroupRecV>>::empty(),
            r@.layers == Map::<u128, RegV<LayerRecV>>::empty(),
            r@.layer_order == Map::<u128, RegV<i128>>::empty(),
    {
        DocState {
            shapes: LwwMap::new(),
            order: LwwMap::new(),
            groups: LwwMap::new(),
            layers: LwwMap::new(),
            layer_order: LwwMap::new(),
        }
    }
}

/// Typed, recoverable store errors.
#[derive(Debug, Clone, Copy, PartialEq, Eq, Structural)]
pub enum StoreError {
    /// A shape whose coordinates or text exceed the representable bounds.
    InvalidShape,
    /// A group must have at least one member.
    EmptyGroup,
    /// The last remaining layer cannot be deleted.
    LastLayer,
    /// No layer exists (possible after concurrent layer deletions merge).
    NoLayer,
    /// A stored or received record did not decode.
    Corrupt,
}

impl StoreError {
    /// A short description for display.
    pub fn describe(&self) -> (r: &'static str)
        ensures
            r@ == match self {
                StoreError::InvalidShape => "shape out of range"@,
                StoreError::EmptyGroup => "cannot create empty group"@,
                StoreError::LastLayer => "cannot delete the last layer"@,
                StoreError::NoLayer => "no layers in document"@,
                StoreError::Corrupt => "malformed stored record"@,
            },
    {
        match self {
            StoreError::InvalidShape => "shape out of range",
            StoreError::EmptyGroup => "cannot create empty group",
            StoreError::LastLayer => "cannot delete the last layer",
            StoreError::NoLayer => "no layers in document",
            StoreError::Corrupt => "malformed stored record",
        }
    }
}

/// The document: replicated state plus this replica's identity, clock,
/// local undo history and dirtiness.
pub struct Document {
    pub state: DocState,
    pub actor: u64,
    pub clock: u64,
    pub doc_id: u128,
    pub dirty: bool,
    /// Bumped on every change; the sync engine uses it as its
    /// never-losing change signal.
    pub change_count: u64,
    pub undo_stack: Vec<Vec<u8>>,
    pub redo_stack: Vec<Vec<u8>>,
}

impl Document {
    /// Well-formed: unique keys everywhere, and every stored shape within
    /// bounds (the store refuses out-of-range shapes on every path).
    pub open spec fn wf(&self) -> bool {
        &&& self.state.wf()
        &&& forall|k: u128|
            #![trigger self.state@.shapes[k]]
            self.state@.shapes.contains_key(k) && self.state@.shapes[k].val is Some
                ==> kind_bounded(self.state@.shapes[k].val->0.kind)
    }

    /// The stamp the next local write will carry.
    pub open spec fn next_stamp(&self) -> Stamp {
        Stamp { time: self.clock, actor: self.actor }
    }

    /// Advance the clock, saturating at the top (unreachable in practice).
    fn tick(&mut self)
        ensures
            final(self).clock == if old(self).clock < u64::MAX {
                (old(self).clock + 1) as u64
            } else {
                u64::MAX
            },
            final(self).state == old(self).state,
            final(self).actor == old(self).actor,
            final(self).doc_id == old(self).doc_id,
            final(self).dirty == old(self).dirty,
            final(self).change_count == old(self).change_count,
            final(self).undo_stack == old(self).undo_stack,
            final(self).redo_stack == old(self).redo_stack,
    {
        if self.clock < u64::MAX {
            self.clock = self.clock + 1;
        }
    }

    /// Note a local change: mark dirty and signal the sync engines.
    fn touch(&mut self)
        ensures
            final(self).dirty,
            final(self).change_count == if old(self).change_count < u64::MAX {
                (old(self).change_count + 1) as u64
            } else {
                u64::MAX
            },
            final(self).state == old(self).state,
            final(self).actor == old(self).actor,
            final(self).clock == old(self).clock,
            final(self).doc_id == old(self).doc_id,
            final(self).undo_stack == old(self).undo_stack,
            final(self).redo_stack == old(self).redo_stack,
    {
        self.dirty = true;
        if self.change_count < u64::MAX {
            self.change_count = self.change_count + 1;
        }
    }

    /// Create a new empty document: one default layer named "Layer 1",
    /// nothing else.
    pub fn new(actor: u64) -> (r: Document)
        ensures
            r.wf(),
            r.actor == actor,
            r.doc_id == id_of(actor, 0),
            !r.dirty,
            r.undo_stack@.len() == 0,
            r.redo_stack@.len() == 0,
            r.state@.shapes == Map::<u128, RegV<StoredShapeV>>::empty(),
            r.state@.order == Map::<u128, RegV<i128>>::empty(),
            r.state@.groups == Map::<u128, RegV<GroupRecV>>::empty(),
            r.state@.layers == Map::<u128, RegV<LayerRecV>>::empty().insert(
                id_of(actor, 1),
                RegV {
                    stamp: Stamp { time: 1, actor },
                    val: Some(LayerRecV { name: "Layer 1"@, visible: true, locked: false }),
                },
            ),
            r.state@.layer_order == Map::<u128, RegV<i128>>::empty().insert(
                id_of(actor, 1),
                RegV { stamp: Stamp { time: 1, actor }, val: Some(0i128) },
            ),
    {
        let mut state = DocState::new();
        let layer_id = make_id(actor, 1);
        state.layers.put(
            layer_id,
            Reg {
                stamp: Stamp { time: 1, actor },
                val: Some(
                    LayerRec { name: String::from_str("Layer 1"), visible: true, locked: false },
                ),
            },
        );
        state.layer_order.put(
            layer_id,
            Reg { stamp: Stamp { time: 1, actor }, val: Some(0i128) },
        );
        Document {
            state,
            actor,
            clock: 2,
            doc_id: make_id(actor, 0),
            dirty: false,
            change_count: 0,
            undo_stack: Vec::new(),
            redo_stack: Vec::new(),
        }
    }

    /// Get document ID.
    pub fn id(&self) -> (r: DocumentId)
        ensures
            r.0 == self.doc_id,
    {
        DocumentId(self.doc_id)
    }

    /// Check if dirty.
    pub fn is_dirty(&self) -> (r: bool)
        ensures
            r == self.dirty,
    {
        self.dirty
    }

    /// Mark as dirty.
    pub fn mark_dirty(&mut self)
        ensures
            final(self).dirty,
            final(self).state == old(self).state,
            final(self).clock == old(self).clock,
            final(self).actor == old(self).actor,
    {
        self.dirty = true;
    }

    /// Clear the dirty flag after a successful save.
    pub fn mark_saved(&mut self)
        ensures
            !final(self).dirty,
            final(self).state == old(self).state,
    {
        self.dirty = false;
    }
}

/// Lexicographic order on `(rank, id)`: the rendering order of two
/// shapes present in the order map.
pub open spec fn rank_lt(m: Map<u128, RegV<i128>>, a: u128, b: u128) -> bool {
    let ra = m[a].val->0;
    let rb = m[b].val->0;
    ra < rb || (ra == rb && a < b)
}

/// `s` is the render order of the order map `m`: exactly the keys whose
/// register holds a rank, sorted by `(rank, id)`.  The strict sort makes
/// the sequence unique.
pub open spec fn is_order_seq(m: Map<u128, RegV<i128>>, s: Seq<u128>) -> bool {
    &&& forall|i: int|
        0 <= i < s.len() ==> m.contains_key(#[trigger] s[i]) && m[s[i]].val is Some
    &&& forall|k: u128| m.contains_key(k) && (#[trigger] m[k]).val is Some ==> s.contains(k)
    &&& forall|i: int, j: int| 0 <= i < j < s.len() ==> rank_lt(m, s[i], s[j])
}

/// Every rank in the map leaves room above it.
pub open spec fn order_has_room(m: Map<u128, RegV<i128>>) -> bool {
    forall|k: u128|
        m.contains_key(k) && (#[trigger] m[k]).val is Some ==> m[k].val->0 < i128::MAX
}

impl Document {
    /// The largest rank among present order entries, or 0 when there is
    /// none.
    fn top_rank(&self) -> (r: i128)
        requires
            self.state.wf(),
        ensures
            forall|k: u128|
                self.state@.order.contains_key(k) && (#[trigger] self.state@.order[k]).val is Some
                    ==> self.state@.order[k].val->0 <= r,
            r >= 0,
    {
        let mut best: i128 = 0;
        let mut i: usize = 0;
        let n = self.state.order.entries.len();
        while i < n
            invariant
                i <= n,
                n == self.state.order.entries@.len(),
                self.state.wf(),
                best >= 0,
                forall|j: int|
                    0 <= j < i ==> ((#[trigger] self.state.order.entries@[j]).1.val is Some
                        ==> self.state.order.entries@[j].1.val->0 <= best),
            decreases n - i,
        {
            let has_rank = match &self.state.order.entries[i].1.val {
                Some(z) => {
                    if *z > best {
                        best = *z;
                    }
                    true
                },
                None => true,
            };
            proof {
                let _ = has_rank;
            }
            i = i + 1;
        }
        proof {
            assert forall|k: u128|
                self.state@.order.contains_key(k) && (#[trigger] self.state@.order[k]).val
                    is Some implies self.state@.order[k].val->0 <= best by {
                crate::crdt::lemma_map_of_index(self.state.order.entry_views(), k);
                let j = choose|j: int|
                    0 <= j < self.state.order.entry_views().len() && (
                    #[trigger] self.state.order.entry_views()[j]).0 == k;
                crate::crdt::lemma_map_of_at(self.state.order.entry_views(), j);
            }
        }
        best
    }

    /// Add a new shape to the document: a fresh id, the record stored
    /// with no layer or group reference, and a rank above every existing
    /// one so the shape renders on top.  Rejected only when the record is
    /// out of range.
    pub fn add_shape(&mut self, kind: ShapeKind) -> (r: Result<ShapeId, StoreError>)
        requires
            old(self).wf(),
        ensures
            final(self).wf(),
            final(self).actor == old(self).actor,
            match r {
                Ok(id) => {
                    &&& kind_bounded(kind@)
                    &&& id.0 == id_of(old(self).actor, old(self).clock)
                    &&& final(self).state@.shapes == old(self).state@.shapes.insert(
                        id.0,
                        RegV {
                            stamp: old(self).next_stamp(),
                            val: Some(StoredShapeV { kind: kind@, layer: None, group: None }),
                        },
                    )
                    &&& exists|z: i128|
                        final(self).state@.order == old(self).state@.order.insert(
                            id.0,
                            RegV { stamp: old(self).next_stamp(), val: Some(z) },
                        )
                    &&& (order_has_room(old(self).state@.order) && !(
                    old(self).state@.order.contains_key(id.0) && old(self).state@.order[id.0].val
                        is Some) ==> forall|s: Seq<u128>|
                        is_order_seq(old(self).state@.order, s) ==> is_order_seq(
                            final(self).state@.order,
                            s.push(id.0),
                        ))
                    &&& final(self).state@.groups == old(self).state@.groups
                    &&& final(self).state@.layers == old(self).state@.layers
                    &&& final(self).state@.layer_order == old(self).state@.layer_order
                    &&& final(self).dirty
                },
                Err(e) => {
                    &&& e == StoreError::InvalidShape
                    &&& !kind_bounded(kind@)
                    &&& *final(self) == *old(self)
                },
            },
    {
        if !kind.is_bounded() {
            return Err(StoreError::InvalidShape);
        }
        let id = make_id(self.actor, self.clock);
        let stamp = Stamp { time: self.clock, actor: self.actor };
        let top = self.top_rank();
        let z: i128 = if top < i128::MAX {
            top + 1
        } else {
            top
        };
        self.state.shapes.put(
            id,
            Reg { stamp, val: Some(StoredShape { kind, layer: None, group: None }) },
        );
        self.state.order.put(id, Reg { stamp, val: Some(z) });
        self.tick();
        self.touch();
        proof {
            let pre = old(self).state@.order;
            let post = self.state@.order;
            if order_has_room(pre) && !(pre.contains_key(id) && pre[id].val is Some) {
                assert forall|s: Seq<u128>| is_order_seq(pre, s) implies is_order_seq(
                    post,
                    s.push(id),
                ) by {
                    let t = s.push(id);
                    assert forall|i: int| 0 <= i < t.len() implies post.contains_key(
                        #[trigger] t[i],
                    ) && post[t[i]].val is Some by {
                        if i < s.len() {
                            assert(s.contains(s[i]));
                        }
                    }
                    assert forall|k: u128|
                        post.contains_key(k) && (#[trigger] post[k]).val is Some implies t.contains(
                        k,
                    ) by {
                        if k == id {
                            assert(t[t.len() - 1] == id);
                        } else {
                            assert(s.contains(k));
                            let i = choose|i: int| 0 <= i < s.len() && s[i] == k;
                            assert(t[i] == k);
                        }
                    }
                    assert forall|i: int, j: int| 0 <= i < j < t.len() implies rank_lt(
                        post,
                        t[i],
                        t[j],
                    ) by {
                        if j < s.len() {
                            assert(rank_lt(pre, s[i], s[j]));
                            assert(s.contains(s[i]));
                            assert(s.contains(s[j]));
                            assert(s[i] != id && s[j] != id);
                        } else {
                            assert(s.contains(s[i]));
                            assert(s[i] != id);
                            assert(post[t[i]].val->0 < z);
                        }
                    }
                }
            }
        }
        Ok(ShapeId(id))
    }

    /// Update an existing shape: the record is replaced wholesale under
    /// the same id, which also clears its layer and group references.
    /// Two concurrent updates of different fields do not merge; the later
    /// whole-record write wins.
    pub fn update_shape(&mut self, id: ShapeId, kind: ShapeKind) -> (r: Result<(), StoreError>)
        requires
            old(self).wf(),
        ensures
            final(self).wf(),
            final(self).actor == old(self).actor,
            match r {
                Ok(()) => {
                    &&& kind_bounded(kind@)
                    &&& final(self).state@.shapes == old(self).state@.shapes.insert(
                        id.0,
                        RegV {
                            stamp: old(self).next_stamp(),
                            val: Some(StoredShapeV { kind: kind@, layer: None, group: None }),
                        },
                    )
                    &&& final(self).state@.order == old(self).state@.order
                    &&& final(self).state@.groups == old(self).state@.groups
                    &&& final(self).state@.layers == old(self).state@.layers
                    &&& final(self).state@.layer_order == old(self).state@.layer_order
                    &&& final(self).dirty
                },
                Err(e) => {
                    &&& e == StoreError::InvalidShape
                    &&& !kind_bounded(kind@)
                    &&& *final(self) == *old(self)
                },
            },
    {
        if !kind.is_bounded() {
            return Err(StoreError::InvalidShape);
        }
        let stamp = Stamp { time: self.clock, actor: self.actor };
        self.state.shapes.put(
            id.0,
            Reg { stamp, val: Some(StoredShape { kind, layer: None, group: None }) },
        );
        self.tick();
        self.touch();
        Ok(())
    }

    /// Delete a shape: its record and its order rank become tombstones.
    /// Deleting an absent shape is a no-op on the content (the tombstone
    /// is still written), never an error.
    pub fn delete_shape(&mut self, id: ShapeId)
        requires
            old(self).wf(),
        ensures
            final(self).wf(),
            final(self).actor == old(self).actor,
            final(self).state@.shapes == old(self).state@.shapes.insert(
                id.0,
                RegV { stamp: old(self).next_stamp(), val: None },
            ),
            final(self).state@.order == old(self).state@.order.insert(
                id.0,
                RegV { stamp: old(self).next_stamp(), val: None },
            ),
            final(self).state@.groups == old(self).state@.groups,
            final(self).state@.layers == old(self).state@.layers,
            final(self).state@.layer_order == old(self).state@.layer_order,
            final(self).dirty,
    {
        let stamp = Stamp { time: self.clock, actor: self.actor };
        self.state.shapes.put(id.0, Reg { stamp, val: None });
        self.state.order.put(id.0, Reg { stamp, val: None });
        self.tick();
        self.touch();
    }

    /// Read a single shape.
    pub fn read_shape(&self, id: ShapeId) -> (r: Option<ShapeKind>)
        requires
            self.wf(),
        ensures
            match r {
                Some(k) => {
                    &&& self.state@.shapes.contains_key(id.0)
                    &&& self.state@.shapes[id.0].val is Some
                    &&& k@ == self.state@.shapes[id.0].val->0.kind
                    &&& kind_bounded(k@)
                },
                None => !(self.state@.shapes.contains_key(id.0) && self.state@.shapes[id.0].val
                    is Some),
            },
    {
        match self.state.shapes.get(id.0) {
            Some(reg) => match &reg.val {
                Some(stored) => Some(stored.kind.duplicate()),
                None => None,
            },
            None => None,
        }
    }

    /// Read all shapes (for building a view cache): every present record,
    /// in storage order.  A record is returned together with its id.
    pub fn read_all_shapes(&self) -> (r: Vec<(ShapeId, ShapeKind)>)
        requires
            self.wf(),
        ensures
            forall|i: int|
                0 <= i < r@.len() ==> {
                    let id = (#[trigger] r@[i]).0.0;
                    &&& self.state@.shapes.contains_key(id)
                    &&& self.state@.shapes[id].val is Some
                    &&& r@[i].1@ == self.state@.shapes[id].val->0.kind
                },
            forall|k: u128|
                self.state@.shapes.contains_key(k) && (#[trigger] self.state@.shapes[k]).val
                    is Some ==> exists|i: int| 0 <= i < r@.len() && (#[trigger] r@[i]).0.0 == k,
            forall|i: int, j: int|
                0 <= i < j < r@.len() ==> (#[trigger] r@[i]).0.0 != (#[trigger] r@[j]).0.0,
    {
        let mut out: Vec<(ShapeId, ShapeKind)> = Vec::new();
        let n = self.state.shapes.entries.len();
        let mut i: usize = 0;
        while i < n
            invariant
                i <= n,
                self.wf(),
                n == self.state.shapes.entries@.len(),
                forall|a: int|
                    0 <= a < out@.len() ==> exists|j: int|
                        0 <= j < i && (#[trigger] out@[a]).0.0 == self.state.shapes.entries@[j].0
                            && self.state.shapes.entries@[j].1.val is Some && out@[a].1@ == (
                        self.state.shapes.entries@[j].1.val->0)@.kind,
                forall|j: int|
                    0 <= j < i && (#[trigger] self.state.shapes.entries@[j]).1.val is Some
                        ==> exists|a: int|
                        0 <= a < out@.len() && (#[trigger] out@[a]).0.0
                            == self.state.shapes.entries@[j].0,
                forall|a: int, b: int|
                    0 <= a < b < out@.len() ==> (#[trigger] out@[a]).0.0 != (
                    #[trigger] out@[b]).0.0,
            decreases n - i,
        {
            let key = self.state.shapes.entries[i].0;
            match &self.state.shapes.entries[i].1.val {
                Some(stored) => {
                    proof {
                        assert forall|a: int| 0 <= a < out@.len() implies (#[trigger] out@[a]).0.0
                            != key by {
                            let j = choose|j: int|
                                0 <= j < i && out@[a].0.0 == (
                                #[trigger] self.state.shapes.entries@[j].0)
                                    && self.state.shapes.entries@[j].1.val is Some;
                            assert(self.state.shapes.entry_views()[j].0
                                != self.state.shapes.entry_views()[i as int].0);
                        }
                    }
                    let ghost pre = out@;
                    out.push((ShapeId(key), stored.kind.duplicate()));
                    proof {
                        assert(out@[out@.len() - 1].0.0 == key);
                        assert forall|a: int| 0 <= a < out@.len() implies exists|j: int|
                            0 <= j < i + 1 && (#[trigger] out@[a]).0.0
                                == self.state.shapes.entries@[j].0
                                && self.state.shapes.entries@[j].1.val is Some && out@[a].1@ == (
                            self.state.shapes.entries@[j].1.val->0)@.kind by {
                            if a < pre.len() {
                                let j = choose|j: int|
                                    0 <= j < i && (#[trigger] pre[a]).0.0
                                        == self.state.shapes.entries@[j].0
                                        && self.state.shapes.entries@[j].1.val is Some && pre[a].1@
                                        == (self.state.shapes.entries@[j].1.val->0)@.kind;
                                assert(out@[a] == pre[a]);
                            } else {
                                assert(out@[a].0.0 == self.state.shapes.entries@[i as int].0
                                    && self.state.shapes.entries@[i as int].1.val is Some
                                    && out@[a].1@ == (
                                self.state.shapes.entries@[i as int].1.val->0)@.kind);
                            }
                        }
                        assert forall|j: int|
                            0 <= j < i + 1 && (#[trigger] self.state.shapes.entries@[j]).1.val
                                is Some implies exists|a: int|
                            0 <= a < out@.len() && (#[trigger] out@[a]).0.0
                                == self.state.shapes.entries@[j].0 by {
                            if j < i {
                                let a = choose|a: int|
                                    0 <= a < pre.len() && (#[trigger] pre[a]).0.0
                                        == self.state.shapes.entries@[j].0;
                                assert(out@[a].0.0 == self.state.shapes.entries@[j].0);
                            } else {
                                assert(out@[out@.len() - 1].0.0
                                    == self.state.shapes.entries@[j].0);
                            }
                        }
                    }
                },
                None => {},
            }
            i = i + 1;
        }
        proof {
            assert forall|a: int| 0 <= a < out@.len() implies {
                let id = (#[trigger] out@[a]).0.0;
                &&& self.state@.shapes.contains_key(id)
                &&& self.state@.shapes[id].val is Some
                &&& out@[a].1@ == self.state@.shapes[id].val->0.kind
            } by {
                let j = choose|j: int|
                    0 <= j < n && out@[a].0.0 == (#[trigger] self.state.shapes.entries@[j].0)
                        && self.state.shapes.entries@[j].1.val is Some && out@[a].1@ == (
                    self.state.shapes.entries@[j].1.val->0)@.kind;
                crate::crdt::lemma_map_of_at(self.state.shapes.entry_views(), j);
            }
            assert forall|k: u128|
                self.state@.shapes.contains_key(k) && (#[trigger] self.state@.shapes[k]).val
                    is Some implies exists|a: int| 0 <= a < out@.len() && (#[trigger] out@[a]).0.0
                == k by {
                crate::crdt::lemma_map_of_index(self.state.shapes.entry_views(), k);
                let j = choose|j: int|
                    0 <= j < self.state.shapes.entry_views().len() && (
                    #[trigger] self.state.shapes.entry_views()[j]).0 == k;
                crate::crdt::lemma_map_of_at(self.state.shapes.entry_views(), j);
            }
        }
        out
    }
}

/// Lexicographic order on `(rank, id)` pairs.
pub open spec fn pair_lt(a: (i128, u128), b: (i128, u128)) -> bool {
    a.0 < b.0 || (a.0 == b.0 && a.1 < b.1)
}

/// Strictly sorted pair sequence.
pub open spec fn sorted_pairs(s: Seq<(i128, u128)>) -> bool {
    forall|i: int, j: int| 0 <= i < j < s.len() ==> pair_lt(#[trigger] s[i], #[trigger] s[j])
}

fn pair_before(a: (i128, u128), b: (i128, u128)) -> (r: bool)
    ensures
        r == pair_lt(a, b),
{
    a.0 < b.0 || (a.0 == b.0 && a.1 < b.1)
}

/// Insert a pair into a sorted sequence of pairs with distinct ids.
fn sorted_insert(v: &mut Vec<(i128, u128)>, x: (i128, u128))
    requires
        sorted_pairs(old(v)@),
        forall|i: int| 0 <= i < old(v)@.len() ==> (#[trigger] old(v)@[i]).1 != x.1,
    ensures
        sorted_pairs(final(v)@),
        final(v)@.len() == old(v)@.len() + 1,
        forall|y: (i128, u128)| #![auto]
            final(v)@.contains(y) <==> (old(v)@.contains(y) || y == x),
{
    let mut pos: usize = 0;
    let n = v.len();
    while pos < n
        invariant
            pos <= n,
            n == v@.len(),
            sorted_pairs(v@),
            v@ == old(v)@,
            forall|i: int| 0 <= i < pos ==> pair_lt(#[trigger] v@[i], x),
            forall|i: int| 0 <= i < v@.len() ==> (#[trigger] v@[i]).1 != x.1,
        ensures
            pos <= n,
            n == v@.len(),
            sorted_pairs(v@),
            v@ == old(v)@,
            forall|i: int| 0 <= i < pos ==> pair_lt(#[trigger] v@[i], x),
            forall|i: int| 0 <= i < v@.len() ==> (#[trigger] v@[i]).1 != x.1,
            pos < n ==> !pair_lt(v@[pos as int], x),
        decreases n - pos,
    {
        if !pair_before(v[pos], x) {
            break;
        }
        pos = pos + 1;
    }
    proof {
        assert forall|i: int| pos <= i < v@.len() implies pair_lt(x, #[trigger] v@[i]) by {
            if i == pos {
                assert(!pair_lt(v@[pos as int], x));
                assert(v@[pos as int].1 != x.1);
            } else {
                assert(!pair_lt(v@[pos as int], x));
                assert(pair_lt(v@[pos as int], v@[i]));
                assert(v@[pos as int].1 != x.1);
            }
        }
    }
    let ghost pre = v@;
    v.insert(pos, x);
    proof {
        assert forall|i: int, j: int| 0 <= i < j < v@.len() implies pair_lt(
            #[trigger] v@[i],
            #[trigger] v@[j],
        ) by {
            let a = if i < pos { pre[i] } else if i == pos { x } else { pre[i - 1] };
            let b = if j < pos { pre[j] } else if j == pos { x } else { pre[j - 1] };
            assert(v@[i] == a);
            assert(v@[j] == b);
        }
        assert forall|y: (i128, u128)| #![auto] v@.contains(y) <==> (old(v)@.contains(y) || y == x) by {
            if v@.contains(y) {
                let i = choose|i: int| 0 <= i < v@.len() && v@[i] == y;
                if i < pos {
                    assert(old(v)@[i] == y);
                    assert(old(v)@.contains(y));
                } else if i > pos {
                    assert(old(v)@[i - 1] == y);
                    assert(old(v)@.contains(y));
                }
            }
            if y == x {
                assert(v@[pos as int] == x);
                assert(v@.contains(y));
            }
            if old(v)@.contains(y) {
                let i = choose|i: int| 0 <= i < old(v)@.len() && old(v)@[i] == y;
                if i < pos {
                    assert(v@[i] == y);
                } else {
                    assert(v@[i + 1] == y);
                }
                assert(v@.contains(y));
            }
        }
    }
}

/// The render order is unique: two order sequences of the same map are
/// equal.
pub proof fn lemma_order_seq_unique(m: Map<u128, RegV<i128>>, s1: Seq<u128>, s2: Seq<u128>)
    requires
        is_order_seq(m, s1),
        is_order_seq(m, s2),
    ensures
        s1 == s2,
    decreases s1.len(),
{
    if s1.len() == 0 {
        if s2.len() > 0 {
            assert(s2.contains(s2[0]));
            assert(s1.contains(s2[0]));
        }
        assert(s1 =~= s2);
    } else {
        assert(s1.contains(s1[0]));
        if s2.len() == 0 {
            assert(s2.contains(s1[0]));
            assert(false);
        }
        // The heads agree: each is the unique minimum.
        assert(s1[0] == s2[0]) by {
            if s1[0] != s2[0] {
                assert(s2.contains(s1[0]));
                let k = choose|k: int| 0 <= k < s2.len() && s2[k] == s1[0];
                assert(k > 0);
                assert(rank_lt(m, s2[0], s2[k]));
                assert(s1.contains(s2[0]));
                let l = choose|l: int| 0 <= l < s1.len() && s1[l] == s2[0];
                assert(l > 0);
                assert(rank_lt(m, s1[0], s1[l]));
            }
        }
        let m1 = m.remove(s1[0]);
        let t1 = s1.drop_first();
        let t2 = s2.drop_first();
        assert(is_order_seq(m1, t1)) by {
            assert forall|i: int| 0 <= i < t1.len() implies m1.contains_key(#[trigger] t1[i])
                && m1[t1[i]].val is Some by {
                assert(t1[i] == s1[i + 1]);
                assert(rank_lt(m, s1[0], s1[i + 1]));
            }
            assert forall|k: u128|
                m1.contains_key(k) && (#[trigger] m1[k]).val is Some implies t1.contains(k) by {
                assert(s1.contains(k));
                let i = choose|i: int| 0 <= i < s1.len() && s1[i] == k;
                assert(i > 0);
                assert(t1[i - 1] == k);
            }
            assert forall|i: int, j: int| 0 <= i < j < t1.len() implies rank_lt(
                m1,
                t1[i],
                t1[j],
            ) by {
                assert(rank_lt(m, s1[i + 1], s1[j + 1]));
                assert(rank_lt(m, s1[0], s1[i + 1]));
                assert(rank_lt(m, s1[0], s1[j + 1]));
            }
        }
        assert(is_order_seq(m1, t2)) by {
            assert forall|i: int| 0 <= i < t2.len() implies m1.contains_key(#[trigger] t2[i])
                && m1[t2[i]].val is Some by {
                assert(t2[i] == s2[i + 1]);
                assert(rank_lt(m, s2[0], s2[i + 1]));
            }
            assert forall|k: u128|
                m1.contains_key(k) && (#[trigger] m1[k]).val is Some implies t2.contains(k) by {
                assert(s2.contains(k));
                let i = choose|i: int| 0 <= i < s2.len() && s2[i] == k;
                assert(i > 0);
                assert(t2[i - 1] == k);
            }
            assert forall|i: int, j: int| 0 <= i < j < t2.len() implies rank_lt(
                m1,
                t2[i],
                t2[j],
            ) by {
                assert(rank_lt(m, s2[i + 1], s2[j + 1]));
                assert(rank_lt(m, s2[0], s2[i + 1]));
                assert(rank_lt(m, s2[0], s2[j + 1]));
            }
        }
        lemma_order_seq_unique(m1, t1, t2);
        assert forall|i: int| 0 <= i < s1.len() implies s1[i] == s2[i] by {
            if i > 0 {
                assert(t1[i - 1] == s1[i]);
                assert(t2[i - 1] == s2[i]);
            }
        }
        assert(s1 =~= s2);
    }
}

/// The order map after the whole render order is rewritten to `s`: each
/// listed id gets its position as rank, every other present entry becomes
/// a tombstone, and old tombstones are left alone.
pub open spec fn order_rewrite(m: Map<u128, RegV<i128>>, s: Seq<u128>, t: Stamp) -> Map<
    u128,
    RegV<i128>,
> {
    Map::new(
        |k: u128| m.contains_key(k) || s.contains(k),
        |k: u128|
            if s.contains(k) {
                RegV { stamp: t, val: Some(s.index_of(k) as i128) }
            } else if m[k].val is Some {
                RegV { stamp: t, val: None }
            } else {
                m[k]
            },
    )
}

/// The given ids moved to the top, keeping their relative order.
pub open spec fn front_seq(s: Seq<u128>, ids: Seq<u128>) -> Seq<u128> {
    s.filter(|k: u128| !ids.contains(k)) + s.filter(|k: u128| ids.contains(k))
}

/// The given ids moved to the bottom, keeping their relative order.
pub open spec fn back_seq(s: Seq<u128>, ids: Seq<u128>) -> Seq<u128> {
    s.filter(|k: u128| ids.contains(k)) + s.filter(|k: u128| !ids.contains(k))
}

/// Membership in the mapped id sequence matches membership among the
/// ids themselves.
pub proof fn lemma_ids_contains(ids: Seq<ShapeId>, k: u128)
    ensures
        ids.map_values(|x: ShapeId| x.0).contains(k) <==> exists|j: int|
            0 <= j < ids.len() && (#[trigger] ids[j]).0 == k,
{
    let s = ids.map_values(|x: ShapeId| x.0);
    if exists|j: int| 0 <= j < ids.len() && (#[trigger] ids[j]).0 == k {
        let j = choose|j: int| 0 <= j < ids.len() && (#[trigger] ids[j]).0 == k;
        assert(s[j] == k);
        assert(s.contains(k));
    }
    if s.contains(k) {
        let j = s.index_of(k);
        assert(0 <= j < s.len() && s[j] == k);
        assert(ids[j].0 == k);
    }
}

/// Decide membership of an id among the given shape ids.
fn contains_id(ids: &Vec<ShapeId>, k: u128) -> (r: bool)
    ensures
        r == ids@.map_values(|x: ShapeId| x.0).contains(k),
{
    let mut i: usize = 0;
    let n = ids.len();
    while i < n
        invariant
            i <= n,
            n == ids@.len(),
            forall|j: int| 0 <= j < i ==> (#[trigger] ids@[j]).0 != k,
        decreases n - i,
    {
        if ids[i].0 == k {
            proof {
                lemma_ids_contains(ids@, k);
            }
            return true;
        }
        i = i + 1;
    }
    proof {
        lemma_ids_contains(ids@, k);
    }
    false
}

impl Document {
    /// Rewrite the entire render order (internal helper): rank `i` for
    /// the `i`-th listed id, a tombstone for every other present entry.
    fn set_shape_order(&mut self, order: &Vec<ShapeId>)
        requires
            old(self).wf(),
            forall|a: int, b: int|
                0 <= a < b < order@.len() ==> (#[trigger] order@[a]).0 != (#[trigger] order@[b]).0,
        ensures
            final(self).wf(),
            final(self).actor == old(self).actor,
            final(self).state@.order == order_rewrite(
                old(self).state@.order,
                order@.map_values(|x: ShapeId| x.0),
                old(self).next_stamp(),
            ),
            final(self).state@.shapes == old(self).state@.shapes,
            final(self).state@.groups == old(self).state@.groups,
            final(self).state@.layers == old(self).state@.layers,
            final(self).state@.layer_order == old(self).state@.layer_order,
            final(self).dirty,
    {
        let ghost m0 = self.state@.order;
        let ghost ids = order@.map_values(|x: ShapeId| x.0);
        let stamp = Stamp { time: self.clock, actor: self.actor };
        // Collect the present keys that are not in the new order.
        let mut stale: Vec<u128> = Vec::new();
        let n = self.state.order.entries.len();
        let mut i: usize = 0;
        while i < n
            invariant
                i <= n,
                self.wf(),
                self.actor == old(self).actor,
                n == self.state.order.entries@.len(),
                ids == order@.map_values(|x: ShapeId| x.0),
                forall|a: int|
                    0 <= a < stale@.len() ==> {
                        &&& self.state@.order.contains_key(#[trigger] stale@[a])
                        &&& self.state@.order[stale@[a]].val is Some
                        &&& !ids.contains(stale@[a])
                    },
                forall|j: int|
                    0 <= j < i && (#[trigger] self.state.order.entries@[j]).1.val is Some
                        && !ids.contains(self.state.order.entries@[j].0) ==> stale@.contains(
                        self.state.order.entries@[j].0,
                    ),
                forall|a: int, b: int|
                    0 <= a < b < stale@.len() ==> (#[trigger] stale@[a]) != (#[trigger] stale@[b]),
                forall|a: int|
                    0 <= a < stale@.len() ==> exists|j: int|
                        0 <= j < i && (#[trigger] stale@[a]) == self.state.order.entries@[j].0,
            decreases n - i,
        {
            let key = self.state.order.entries[i].0;
            let keep = match &self.state.order.entries[i].1.val {
                Some(_) => contains_id(order, key),
                None => true,
            };
            if !keep {
                proof {
                    crate::crdt::lemma_map_of_at(self.state.order.entry_views(), i as int);
                    assert forall|a: int| 0 <= a < stale@.len() implies (#[trigger] stale@[a])
                        != key by {
                        let j = choose|j: int|
                            0 <= j < i && stale@[a] == (#[trigger] self.state.order.entries@[j].0);
                        assert(self.state.order.entry_views()[j].0
                            != self.state.order.entry_views()[i as int].0);
                    }
                }
                let ghost pre_stale = stale@;
                stale.push(key);
                proof {
                    assert forall|j: int|
                        0 <= j < i + 1 && (#[trigger] self.state.order.entries@[j]).1.val is Some
                            && !ids.contains(self.state.order.entries@[j].0) implies stale@.contains(
                        self.state.order.entries@[j].0,
                    ) by {
                        if j < i {
                            let x = pre_stale.index_of(self.state.order.entries@[j].0);
                            assert(pre_stale[x] == self.state.order.entries@[j].0);
                            assert(stale@[x] == self.state.order.entries@[j].0);
                        } else {
                            assert(stale@[stale@.len() - 1] == key);
                        }
                    }
                }
            } else {
                proof {
                    assert forall|j: int|
                        0 <= j < i + 1 && (#[trigger] self.state.order.entries@[j]).1.val is Some
                            && !ids.contains(self.state.order.entries@[j].0) implies stale@.contains(
                        self.state.order.entries@[j].0,
                    ) by {}
                }
            }
            i = i + 1;
        }
        // Capture what the collection established, phrased over the maps
        // themselves so it survives the rewrites below.
        let ghost stale_ids = stale@;
        proof {
            assert forall|k: u128|
                m0.contains_key(k) && (#[trigger] m0[k]).val is Some && !ids.contains(
                    k,
                ) implies stale_ids.contains(k) by {
                crate::crdt::lemma_map_of_index(self.state.order.entry_views(), k);
                let j = choose|j: int|
                    0 <= j < self.state.order.entry_views().len() && (
                    #[trigger] self.state.order.entry_views()[j]).0 == k;
                crate::crdt::lemma_map_of_at(self.state.order.entry_views(), j);
                assert(self.state.order.entries@[j].1.val is Some);
            }
            assert(forall|x: int|
                0 <= x < stale_ids.len() ==> m0.contains_key(#[trigger] stale_ids[x])
                    && m0[stale_ids[x]].val is Some && !ids.contains(stale_ids[x]));
        }
        // Tombstone them.
        let ns = stale.len();
        let mut a: usize = 0;
        proof {
            assert(self.state@.order =~= Map::new(
                |k: u128| m0.contains_key(k),
                |k: u128|
                    if stale_ids.take(0).contains(k) {
                        RegV { stamp, val: None }
                    } else {
                        m0[k]
                    },
            ));
        }
        while a < ns
            invariant
                a <= ns,
                ns == stale_ids.len(),
                stale@ == stale_ids,
                self.actor == old(self).actor,
                self.state.order.wf(),
                self.state.shapes == old(self).state.shapes,
                self.state.groups == old(self).state.groups,
                self.state.layers == old(self).state.layers,
                self.state.layer_order == old(self).state.layer_order,
                forall|x: int|
                    0 <= x < stale_ids.len() ==> m0.contains_key(#[trigger] stale_ids[x]),
                self.state@.order == Map::new(
                    |k: u128| m0.contains_key(k),
                    |k: u128|
                        if stale_ids.take(a as int).contains(k) {
                            RegV { stamp, val: None }
                        } else {
                            m0[k]
                        },
                ),
            decreases ns - a,
        {
            let key = stale[a];
            let ghost pre = self.state@.order;
            self.state.order.put(key, Reg { stamp, val: None });
            proof {
                assert(key == stale_ids[a as int]);
                assert(m0.contains_key(key));
                let target = Map::new(
                    |k: u128| m0.contains_key(k),
                    |k: u128|
                        if stale_ids.take(a + 1).contains(k) {
                            RegV { stamp, val: None }
                        } else {
                            m0[k]
                        },
                );
                assert forall|k: u128| #[trigger]
                    target.contains_key(k) implies self.state@.order.contains_key(k)
                    && self.state@.order[k] == target[k] by {
                    if stale_ids.take(a + 1).contains(k) {
                        let x = stale_ids.take(a + 1).index_of(k);
                        assert(stale_ids.take(a + 1)[x] == k);
                        if x < a {
                            assert(stale_ids.take(a as int)[x] == k);
                            assert(stale_ids.take(a as int).contains(k));
                        } else {
                            assert(k == key);
                        }
                    } else {
                        assert(!stale_ids.take(a as int).contains(k)) by {
                            if stale_ids.take(a as int).contains(k) {
                                let x = stale_ids.take(a as int).index_of(k);
                                assert(stale_ids.take(a as int)[x] == k);
                                assert(stale_ids.take(a + 1)[x] == k);
                            }
                        }
                        assert(k != key) by {
                            if k == key {
                                assert(stale_ids.take(a + 1)[a as int] == k);
                            }
                        }
                    }
                }
                assert forall|k: u128| #[trigger]
                    self.state@.order.contains_key(k) implies target.contains_key(k) by {}
                assert(self.state@.order =~= target);
            }
            a = a + 1;
        }
        proof {
            assert(stale_ids.take(ns as int) =~= stale_ids);
        }
        // Write the listed ranks.
        let ghost m1 = self.state@.order;
        let no = order.len();
        let mut b: usize = 0;
        proof {
            assert(self.state@.order =~= Map::new(
                |k: u128| m1.contains_key(k) || ids.take(0).contains(k),
                |k: u128|
                    if ids.take(0).contains(k) {
                        RegV { stamp, val: Some(ids.index_of(k) as i128) }
                    } else {
                        m1[k]
                    },
            ));
        }
        while b < no
            invariant
                b <= no,
                no == order@.len(),
                ids == order@.map_values(|x: ShapeId| x.0),
                forall|x: int, y: int|
                    0 <= x < y < order@.len() ==> (#[trigger] order@[x]).0 != (
                    #[trigger] order@[y]).0,
                self.actor == old(self).actor,
                self.state.order.wf(),
                self.state.shapes == old(self).state.shapes,
                self.state.groups == old(self).state.groups,
                self.state.layers == old(self).state.layers,
                self.state.layer_order == old(self).state.layer_order,
                self.state@.order == Map::new(
                    |k: u128| m1.contains_key(k) || ids.take(b as int).contains(k),
                    |k: u128|
                        if ids.take(b as int).contains(k) {
                            RegV { stamp, val: Some(ids.index_of(k) as i128) }
                        } else {
                            m1[k]
                        },
                ),
            decreases no - b,
        {
            let key = order[b].0;
            proof {
                assert(ids[b as int] == key);
                assert(ids.index_of(key) == b) by {
                    assert(ids.contains(key)) by {
                        assert(ids[b as int] == key);
                    }
                    let x = ids.index_of(key);
                    assert(0 <= x < ids.len() && ids[x] == key);
                    if x < b {
                        assert(order@[x].0 != order@[b as int].0);
                    } else if x > b {
                        assert(order@[b as int].0 != order@[x].0);
                    }
                }
            }
            self.state.order.put(key, Reg { stamp, val: Some(b as i128) });
            proof {
                let target = Map::new(
                    |k: u128| m1.contains_key(k) || ids.take(b + 1).contains(k),
                    |k: u128|
                        if ids.take(b + 1).contains(k) {
                            RegV { stamp, val: Some(ids.index_of(k) as i128) }
                        } else {
                            m1[k]
                        },
                );
                assert forall|k: u128| #[trigger]
                    target.contains_key(k) implies self.state@.order.contains_key(k)
                    && self.state@.order[k] == target[k] by {
                    if ids.take(b + 1).contains(k) {
                        let x = ids.take(b + 1).index_of(k);
                        assert(ids.take(b + 1)[x] == k);
                        if x < b {
                            assert(ids.take(b as int)[x] == k);
                            assert(ids.take(b as int).contains(k));
                            assert(k != key) by {
                                assert(ids[x] == k);
                                if k == key {
                                    assert(order@[x].0 != order@[b as int].0);
                                }
                            }
                        } else {
                            assert(k == key);
                        }
                    } else {
                        assert(!ids.take(b as int).contains(k)) by {
                            if ids.take(b as int).contains(k) {
                                let x = ids.take(b as int).index_of(k);
                                assert(ids.take(b as int)[x] == k);
                                assert(ids.take(b + 1)[x] == k);
                            }
                        }
                        assert(k != key) by {
                            if k == key {
                                assert(ids.take(b + 1)[b as int] == k);
                            }
                        }
                    }
                }
                assert forall|k: u128| #[trigger]
                    self.state@.order.contains_key(k) implies target.contains_key(k) by {
                    if !m1.contains_key(k) {
                        if ids.take(b as int).contains(k) {
                            let x = ids.take(b as int).index_of(k);
                            assert(ids.take(b as int)[x] == k);
                            assert(ids.take(b + 1)[x] == k);
                        } else {
                            assert(k == key);
                            assert(ids.take(b + 1)[b as int] == k);
                        }
                    }
                }
                assert(self.state@.order =~= target);
            }
            b = b + 1;
        }
        self.tick();
        self.touch();
        proof {
            assert(ids.take(no as int) =~= ids);
            let target = order_rewrite(m0, ids, stamp);
            assert forall|k: u128| #[trigger]
                target.contains_key(k) implies self.state@.order.contains_key(k)
                && self.state@.order[k] == target[k] by {
                if ids.contains(k) {
                } else if m0.contains_key(k) && m0[k].val is Some {
                    assert(stale_ids.contains(k));
                } else {
                    assert(!stale_ids.contains(k));
                }
            }
            assert forall|k: u128| #[trigger]
                self.state@.order.contains_key(k) implies target.contains_key(k) by {
                if !m0.contains_key(k) {
                    assert(ids.contains(k));
                }
            }
            assert(self.state@.order =~= target);
        }
    }
}

/// Every filtered element comes from the sequence that was filtered.
pub proof fn lemma_filter_sub<A>(s: Seq<A>, pred: spec_fn(A) -> bool)
    ensures
        forall|i: int|
            0 <= i < s.filter(pred).len() ==> s.contains(#[trigger] s.filter(pred)[i]),
    decreases s.len(),
{
    reveal(Seq::filter);
    if s.len() > 0 {
        lemma_filter_sub(s.drop_last(), pred);
        assert forall|i: int|
            0 <= i < s.filter(pred).len() implies s.contains(#[trigger] s.filter(pred)[i]) by {
            if i < s.drop_last().filter(pred).len() {
                assert(s.filter(pred)[i] == s.drop_last().filter(pred)[i]);
                assert(s.drop_last().contains(s.drop_last().filter(pred)[i]));
                let j = choose|j: int|
                    0 <= j < s.drop_last().len() && s.drop_last()[j] == s.filter(pred)[i];
                assert(s[j] == s.filter(pred)[i]);
            } else {
                assert(s.filter(pred)[i] == s.last());
                assert(s[s.len() - 1] == s.last());
            }
        }
    }
}

/// Filtering a duplicate-free sequence yields a duplicate-free sequence.
pub proof fn lemma_filter_distinct<A>(s: Seq<A>, pred: spec_fn(A) -> bool)
    requires
        forall|a: int, b: int| 0 <= a < b < s.len() ==> s[a] != s[b],
    ensures
        forall|a: int, b: int|
            0 <= a < b < s.filter(pred).len() ==> s.filter(pred)[a] != s.filter(pred)[b],
    decreases s.len(),
{
    reveal(Seq::filter);
    if s.len() > 0 {
        lemma_filter_distinct(s.drop_last(), pred);
        lemma_filter_sub(s.drop_last(), pred);
        assert forall|a: int, b: int|
            0 <= a < b < s.filter(pred).len() implies s.filter(pred)[a] != s.filter(pred)[b] by {
            let f = s.filter(pred);
            let fd = s.drop_last().filter(pred);
            if b < fd.len() {
                assert(f[a] == fd[a] && f[b] == fd[b]);
            } else {
                assert(f[b] == s.last());
                assert(f[a] == fd[a]);
                assert(s.drop_last().contains(fd[a]));
                let j = choose|j: int|
                    0 <= j < s.drop_last().len() && s.drop_last()[j] == fd[a];
                assert(s[j] == fd[a]);
                assert(s[j] != s[s.len() - 1]);
            }
        }
    }
}

/// One pass step of `bring_forward`: the shape at `i` swaps with its
/// upper neighbor when it is selected and the neighbor is not.
pub open spec fn fwd_step(s: Seq<u128>, ids: Seq<u128>, i: int) -> Seq<u128> {
    if ids.contains(s[i]) && !ids.contains(s[i + 1]) {
        s.update(i, s[i + 1]).update(i + 1, s[i])
    } else {
        s
    }
}

/// The forward pass from the top down to index `i`.
pub open spec fn fwd_from(s: Seq<u128>, ids: Seq<u128>, i: int) -> Seq<u128>
    decreases s.len() - i,
{
    if i < 0 || i + 1 >= s.len() {
        s
    } else {
        fwd_step(fwd_from(s, ids, i + 1), ids, i)
    }
}

/// The order after `bring_forward`: selected shapes move up one place,
/// processed top-down so a selected run does not cascade.
pub open spec fn forward_seq(s: Seq<u128>, ids: Seq<u128>) -> Seq<u128> {
    fwd_from(s, ids, 0)
}

/// One pass step of `send_backward`.
pub open spec fn bwd_step(s: Seq<u128>, ids: Seq<u128>, i: int) -> Seq<u128> {
    if ids.contains(s[i]) && !ids.contains(s[i - 1]) {
        s.update(i - 1, s[i]).update(i, s[i - 1])
    } else {
        s
    }
}

/// The backward pass from the bottom up to index `i` (exclusive).
pub open spec fn bwd_upto(s: Seq<u128>, ids: Seq<u128>, i: int) -> Seq<u128>
    decreases i,
{
    if i <= 1 {
        s
    } else {
        bwd_step(bwd_upto(s, ids, i - 1), ids, i - 1)
    }
}

/// The order after `send_backward`: selected shapes move down one place,
/// processed bottom-up so a selected run does not cascade.
pub open spec fn backward_seq(s: Seq<u128>, ids: Seq<u128>) -> Seq<u128> {
    bwd_upto(s, ids, s.len() as int)
}

impl Document {
    /// Read the shape order: ids of present order entries, bottom to top.
    pub fn read_shape_order(&self) -> (r: Vec<ShapeId>)
        requires
            self.wf(),
        ensures
            is_order_seq(self.state@.order, r@.map_values(|x: ShapeId| x.0)),
    {
        let mut pairs: Vec<(i128, u128)> = Vec::new();
        let n = self.state.order.entries.len();
        let mut i: usize = 0;
        while i < n
            invariant
                i <= n,
                self.wf(),
                n == self.state.order.entries@.len(),
                sorted_pairs(pairs@),
                forall|a: int|
                    0 <= a < pairs@.len() ==> exists|j: int|
                        0 <= j < i && (#[trigger] pairs@[a]).1 == self.state.order.entries@[j].0
                            && self.state.order.entries@[j].1.val == Some(pairs@[a].0),
                forall|j: int|
                    0 <= j < i && (#[trigger] self.state.order.entries@[j]).1.val is Some
                        ==> pairs@.contains(
                        (self.state.order.entries@[j].1.val->0, self.state.order.entries@[j].0),
                    ),
            decreases n - i,
        {
            let key = self.state.order.entries[i].0;
            match &self.state.order.entries[i].1.val {
                Some(z) => {
                    let ghost pre = pairs@;
                    proof {
                        assert forall|a: int| 0 <= a < pairs@.len() implies (
                        #[trigger] pairs@[a]).1 != key by {
                            let j = choose|j: int|
                                0 <= j < i && pairs@[a].1 == (
                                #[trigger] self.state.order.entries@[j].0)
                                    && self.state.order.entries@[j].1.val == Some(pairs@[a].0);
                            assert(self.state.order.entry_views()[j].0
                                != self.state.order.entry_views()[i as int].0);
                        }
                    }
                    sorted_insert(&mut pairs, (*z, key));
                    proof {
                        assert forall|a: int| 0 <= a < pairs@.len() implies exists|j: int|
                            0 <= j < i + 1 && (#[trigger] pairs@[a]).1
                                == self.state.order.entries@[j].0
                                && self.state.order.entries@[j].1.val == Some(pairs@[a].0) by {
                            assert(pairs@.contains(pairs@[a]));
                            if pre.contains(pairs@[a]) {
                                let b = choose|b: int| 0 <= b < pre.len() && pre[b] == pairs@[a];
                                let j = choose|j: int|
                                    0 <= j < i && (#[trigger] pre[b]).1
                                        == self.state.order.entries@[j].0
                                        && self.state.order.entries@[j].1.val == Some(pre[b].0);
                                assert(0 <= j < i + 1 && pairs@[a].1
                                    == self.state.order.entries@[j].0
                                    && self.state.order.entries@[j].1.val == Some(pairs@[a].0));
                            } else {
                                assert(pairs@[a] == (*z, key));
                                assert(0 <= i < i + 1 && pairs@[a].1
                                    == self.state.order.entries@[i as int].0
                                    && self.state.order.entries@[i as int].1.val == Some(
                                    pairs@[a].0,
                                ));
                            }
                        }
                        assert forall|j: int|
                            0 <= j < i + 1 && (#[trigger] self.state.order.entries@[j]).1.val
                                is Some implies pairs@.contains(
                            (self.state.order.entries@[j].1.val->0, self.state.order.entries@[j].0),
                        ) by {
                            if j < i {
                                assert(pre.contains(
                                    (
                                        self.state.order.entries@[j].1.val->0,
                                        self.state.order.entries@[j].0,
                                    ),
                                ));
                            }
                        }
                    }
                },
                None => {},
            }
            i = i + 1;
        }
        let mut out: Vec<ShapeId> = Vec::new();
        let np = pairs.len();
        let mut a: usize = 0;
        while a < np
            invariant
                a <= np,
                np == pairs@.len(),
                out@.len() == a,
                forall|b: int| 0 <= b < a ==> (#[trigger] out@[b]).0 == pairs@[b].1,
            decreases np - a,
        {
            out.push(ShapeId(pairs[a].1));
            a = a + 1;
        }
        proof {
            let ids = out@.map_values(|x: ShapeId| x.0);
            let m = self.state@.order;
            assert forall|i2: int| 0 <= i2 < ids.len() implies m.contains_key(#[trigger] ids[i2])
                && m[ids[i2]].val is Some by {
                assert(ids[i2] == pairs@[i2].1);
                let j = choose|j: int|
                    0 <= j < n && (#[trigger] pairs@[i2]).1 == self.state.order.entries@[j].0
                        && self.state.order.entries@[j].1.val == Some(pairs@[i2].0);
                crate::crdt::lemma_map_of_at(self.state.order.entry_views(), j);
            }
            assert forall|k: u128|
                m.contains_key(k) && (#[trigger] m[k]).val is Some implies ids.contains(k) by {
                crate::crdt::lemma_map_of_index(self.state.order.entry_views(), k);
                let j = choose|j: int|
                    0 <= j < self.state.order.entry_views().len() && (
                    #[trigger] self.state.order.entry_views()[j]).0 == k;
                crate::crdt::lemma_map_of_at(self.state.order.entry_views(), j);
                assert(self.state.order.entries@[j].1.val is Some);
                assert(pairs@.contains(
                    (self.state.order.entries@[j].1.val->0, self.state.order.entries@[j].0),
                ));
                let b = choose|b: int|
                    0 <= b < pairs@.len() && pairs@[b] == (
                        self.state.order.entries@[j].1.val->0,
                        self.state.order.entries@[j].0,
                    );
                assert(ids[b] == k);
            }
            assert forall|i2: int, j2: int| 0 <= i2 < j2 < ids.len() implies rank_lt(
                m,
                ids[i2],
                ids[j2],
            ) by {
                assert(pair_lt(pairs@[i2], pairs@[j2]));
                let ja = choose|j: int|
                    0 <= j < n && (#[trigger] pairs@[i2]).1 == self.state.order.entries@[j].0
                        && self.state.order.entries@[j].1.val == Some(pairs@[i2].0);
                crate::crdt::lemma_map_of_at(self.state.order.entry_views(), ja);
                let jb = choose|j: int|
                    0 <= j < n && (#[trigger] pairs@[j2]).1 == self.state.order.entries@[j].0
                        && self.state.order.entries@[j].1.val == Some(pairs@[j2].0);
                crate::crdt::lemma_map_of_at(self.state.order.entry_views(), jb);
            }
        }
        out
    }
}

/// The ids the given shape ids denote.
pub open spec fn sel_of(ids: Seq<ShapeId>) -> Seq<u128> {
    ids.map_values(|x: ShapeId| x.0)
}

/// Copy a list of shape ids.
fn clone_ids(v: &Vec<ShapeId>) -> (r: Vec<ShapeId>)
    ensures
        r@ == v@,
{
    let mut out: Vec<ShapeId> = Vec::new();
    let mut i: usize = 0;
    while i < v.len()
        invariant
            i <= v.len(),
            out@ == v@.subrange(0, i as int),
        decreases v.len() - i,
    {
        out.push(v[i]);
        i = i + 1;
    }
    proof {
        assert(out@ =~= v@);
    }
    out
}

/// The elements of `cur` that are not selected, in order.
fn split_out(cur: &Vec<ShapeId>, ids: &Vec<ShapeId>) -> (r: Vec<ShapeId>)
    ensures
        sel_of(r@) == sel_of(cur@).filter(|k: u128| !sel_of(ids@).contains(k)),
{
    let ghost cl = |k: u128| !sel_of(ids@).contains(k);
    let mut out: Vec<ShapeId> = Vec::new();
    let mut i: usize = 0;
    proof {
        reveal(Seq::filter);
        assert(sel_of(out@) =~= sel_of(cur@).subrange(0, 0).filter(cl));
    }
    while i < cur.len()
        invariant
            i <= cur@.len(),
            sel_of(out@) == sel_of(cur@).subrange(0, i as int).filter(cl),
            cl == (|k: u128| !sel_of(ids@).contains(k)),
        decreases cur@.len() - i,
    {
        let picked = !contains_id(ids, cur[i].0);
        let ghost pre = sel_of(out@);
        if picked {
            out.push(cur[i]);
        }
        proof {
            reveal(Seq::filter);
            let t0 = sel_of(cur@).subrange(0, i as int);
            let t1 = sel_of(cur@).subrange(0, i + 1);
            assert(t1.drop_last() =~= t0);
            assert(t1.last() == cur@[i as int].0);
            if picked {
                assert(sel_of(out@) =~= pre.push(cur@[i as int].0));
                assert(t1.filter(cl) == t0.filter(cl).push(cur@[i as int].0));
            } else {
                assert(sel_of(out@) =~= pre);
                assert(t1.filter(cl) == t0.filter(cl));
            }
        }
        i = i + 1;
    }
    proof {
        assert(sel_of(cur@).subrange(0, cur@.len() as int) =~= sel_of(cur@));
    }
    out
}

/// The selected elements of `cur`, in order.
fn split_in(cur: &Vec<ShapeId>, ids: &Vec<ShapeId>) -> (r: Vec<ShapeId>)
    ensures
        sel_of(r@) == sel_of(cur@).filter(|k: u128| sel_of(ids@).contains(k)),
{
    let ghost cl = |k: u128| sel_of(ids@).contains(k);
    let mut out: Vec<ShapeId> = Vec::new();
    let mut i: usize = 0;
    proof {
        reveal(Seq::filter);
        assert(sel_of(out@) =~= sel_of(cur@).subrange(0, 0).filter(cl));
    }
    while i < cur.len()
        invariant
            i <= cur@.len(),
            sel_of(out@) == sel_of(cur@).subrange(0, i as int).filter(cl),
            cl == (|k: u128| sel_of(ids@).contains(k)),
        decreases cur@.len() - i,
    {
        let picked = contains_id(ids, cur[i].0);
        let ghost pre = sel_of(out@);
        if picked {
            out.push(cur[i]);
        }
        proof {
            reveal(Seq::filter);
            let t0 = sel_of(cur@).subrange(0, i as int);
            let t1 = sel_of(cur@).subrange(0, i + 1);
            assert(t1.drop_last() =~= t0);
            assert(t1.last() == cur@[i as int].0);
            if picked {
                assert(sel_of(out@) =~= pre.push(cur@[i as int].0));
                assert(t1.filter(cl) == t0.filter(cl).push(cur@[i as int].0));
            } else {
                assert(sel_of(out@) =~= pre);
                assert(t1.filter(cl) == t0.filter(cl));
            }
        }
        i = i + 1;
    }
    proof {
        assert(sel_of(cur@).subrange(0, cur@.len() as int) =~= sel_of(cur@));
    }
    out
}

/// A render order has no duplicate ids.
pub proof fn lemma_order_seq_distinct(m: Map<u128, RegV<i128>>, s: Seq<u128>)
    requires
        is_order_seq(m, s),
    ensures
        forall|a: int, b: int| 0 <= a < b < s.len() ==> s[a] != s[b],
{
    assert forall|a: int, b: int| 0 <= a < b < s.len() implies s[a] != s[b] by {
        assert(rank_lt(m, s[a], s[b]));
    }
}

impl Document {
    /// Bring shapes to front (to the top of the render order), keeping
    /// their relative order.  A no-op for an empty selection.
    pub fn bring_to_front(&mut self, ids: &Vec<ShapeId>)
        requires
            old(self).wf(),
        ensures
            final(self).wf(),
            final(self).actor == old(self).actor,
            final(self).state@.shapes == old(self).state@.shapes,
            final(self).state@.groups == old(self).state@.groups,
            final(self).state@.layers == old(self).state@.layers,
            final(self).state@.layer_order == old(self).state@.layer_order,
            ids@.len() == 0 ==> *final(self) == *old(self),
            ids@.len() > 0 ==> final(self).dirty && forall|s: Seq<u128>|
                is_order_seq(old(self).state@.order, s) ==> final(self).state@.order
                    == order_rewrite(
                    old(self).state@.order,
                    front_seq(s, sel_of(ids@)),
                    old(self).next_stamp(),
                ),
    {
        if ids.len() == 0 {
            return;
        }
        let cur = self.read_shape_order();
        let ghost cur_ids = sel_of(cur@);
        proof {
            lemma_order_seq_distinct(self.state@.order, cur_ids);
            lemma_filter_distinct(cur_ids, |k: u128| !sel_of(ids@).contains(k));
            lemma_filter_distinct(cur_ids, |k: u128| sel_of(ids@).contains(k));
            lemma_filter_sub(cur_ids, |k: u128| !sel_of(ids@).contains(k));
            lemma_filter_sub(cur_ids, |k: u128| sel_of(ids@).contains(k));
            cur_ids.filter_lemma(|k: u128| !sel_of(ids@).contains(k));
            cur_ids.filter_lemma(|k: u128| sel_of(ids@).contains(k));
        }
        let mut newv = split_out(&cur, ids);
        let moved = split_in(&cur, ids);
        let ghost keep_ids = sel_of(newv@);
        let mut i: usize = 0;
        while i < moved.len()
            invariant
                i <= moved@.len(),
                sel_of(newv@) == keep_ids + sel_of(moved@).subrange(0, i as int),
            decreases moved@.len() - i,
        {
            let ghost pre = newv@;
            newv.push(moved[i]);
            proof {
                assert(newv@ == pre.push(moved@[i as int]));
                assert forall|j: int| 0 <= j < pre.len() implies sel_of(newv@)[j] == sel_of(
                    pre,
                )[j] by {
                    assert(newv@[j] == pre[j]);
                }
                assert(sel_of(newv@)[pre.len() as int] == moved@[i as int].0);
                assert(sel_of(moved@)[i as int] == moved@[i as int].0);
                assert(sel_of(pre).len() == pre.len());
                assert(pre.len() == keep_ids.len() + i);
                assert forall|j: int| 0 <= j < sel_of(newv@).len() implies sel_of(newv@)[j] == (
                keep_ids + sel_of(moved@).subrange(0, i + 1))[j] by {
                    let rhs = keep_ids + sel_of(moved@).subrange(0, i + 1);
                    let old_rhs = keep_ids + sel_of(moved@).subrange(0, i as int);
                    if j < keep_ids.len() {
                        assert(sel_of(pre)[j] == old_rhs[j]);
                        assert(old_rhs[j] == keep_ids[j]);
                        assert(rhs[j] == keep_ids[j]);
                    } else if j < keep_ids.len() + i {
                        assert(sel_of(pre)[j] == old_rhs[j]);
                        assert(old_rhs[j] == sel_of(moved@).subrange(0, i as int)[j
                            - keep_ids.len()]);
                        assert(rhs[j] == sel_of(moved@)[j - keep_ids.len()]);
                    } else {
                        assert(j == pre.len());
                        assert(rhs[j] == sel_of(moved@)[i as int]);
                    }
                }
                assert(sel_of(newv@) =~= keep_ids + sel_of(moved@).subrange(0, i + 1));
            }
            i = i + 1;
        }
        proof {
            assert(sel_of(moved@).subrange(0, sel_of(moved@).len() as int) =~= sel_of(moved@));
            assert(sel_of(newv@) == front_seq(cur_ids, sel_of(ids@)));
            assert forall|a: int, b: int|
                0 <= a < b < newv@.len() implies (#[trigger] newv@[a]).0 != (
                #[trigger] newv@[b]).0 by {
                let s = sel_of(newv@);
                let f0 = cur_ids.filter(|k: u128| !sel_of(ids@).contains(k));
                let f1 = cur_ids.filter(|k: u128| sel_of(ids@).contains(k));
                assert(s[a] == newv@[a].0 && s[b] == newv@[b].0);
                if b < f0.len() {
                } else if a >= f0.len() {
                    assert(f1[a - f0.len()] != f1[b - f0.len()]);
                } else {
                    assert(!sel_of(ids@).contains(f0[a]));
                    assert(sel_of(ids@).contains(f1[b - f0.len()]));
                }
            }
        }
        self.set_shape_order(&newv);
        proof {
            assert forall|s: Seq<u128>|
                is_order_seq(old(self).state@.order, s) implies final(self).state@.order
                == order_rewrite(
                old(self).state@.order,
                front_seq(s, sel_of(ids@)),
                old(self).next_stamp(),
            ) by {
                lemma_order_seq_unique(old(self).state@.order, s, cur_ids);
            }
        }
    }

    /// Send shapes to back (to the bottom of the render order), keeping
    /// their relative order.  A no-op for an empty selection.
    pub fn send_to_back(&mut self, ids: &Vec<ShapeId>)
        requires
            old(self).wf(),
        ensures
            final(self).wf(),
            final(self).actor == old(self).actor,
            final(self).state@.shapes == old(self).state@.shapes,
            final(self).state@.groups == old(self).state@.groups,
            final(self).state@.layers == old(self).state@.layers,
            final(self).state@.layer_order == old(self).state@.layer_order,
            ids@.len() == 0 ==> *final(self) == *old(self),
            ids@.len() > 0 ==> final(self).dirty && forall|s: Seq<u128>|
                is_order_seq(old(self).state@.order, s) ==> final(self).state@.order
                    == order_rewrite(
                    old(self).state@.order,
                    back_seq(s, sel_of(ids@)),
                    old(self).next_stamp(),
                ),
    {
        if ids.len() == 0 {
            return;
        }
        let cur = self.read_shape_order();
        let ghost cur_ids = sel_of(cur@);
        proof {
            lemma_order_seq_distinct(self.state@.order, cur_ids);
            lemma_filter_distinct(cur_ids, |k: u128| !sel_of(ids@).contains(k));
            lemma_filter_distinct(cur_ids, |k: u128| sel_of(ids@).contains(k));
            lemma_filter_sub(cur_ids, |k: u128| !sel_of(ids@).contains(k));
            lemma_filter_sub(cur_ids, |k: u128| sel_of(ids@).contains(k));
            cur_ids.filter_lemma(|k: u128| !sel_of(ids@).contains(k));
            cur_ids.filter_lemma(|k: u128| sel_of(ids@).contains(k));
        }
        let mut newv = split_in(&cur, ids);
        let kept = split_out(&cur, ids);
        let ghost moved_ids = sel_of(newv@);
        let mut i: usize = 0;
        while i < kept.len()
            invariant
                i <= kept@.len(),
                sel_of(newv@) == moved_ids + sel_of(kept@).subrange(0, i as int),
            decreases kept@.len() - i,
        {
            let ghost pre = newv@;
            newv.push(kept[i]);
            proof {
                assert(newv@ == pre.push(kept@[i as int]));
                assert forall|j: int| 0 <= j < pre.len() implies sel_of(newv@)[j] == sel_of(
                    pre,
                )[j] by {
                    assert(newv@[j] == pre[j]);
                }
                assert(sel_of(newv@)[pre.len() as int] == kept@[i as int].0);
                assert(sel_of(kept@)[i as int] == kept@[i as int].0);
                assert(sel_of(pre).len() == pre.len());
                assert(pre.len() == moved_ids.len() + i);
                assert forall|j: int| 0 <= j < sel_of(newv@).len() implies sel_of(newv@)[j] == (
                moved_ids + sel_of(kept@).subrange(0, i + 1))[j] by {
                    let rhs = moved_ids + sel_of(kept@).subrange(0, i + 1);
                    let old_rhs = moved_ids + sel_of(kept@).subrange(0, i as int);
                    if j < moved_ids.len() {
                        assert(sel_of(pre)[j] == old_rhs[j]);
                        assert(old_rhs[j] == moved_ids[j]);
                        assert(rhs[j] == moved_ids[j]);
                    } else if j < moved_ids.len() + i {
                        assert(sel_of(pre)[j] == old_rhs[j]);
                        assert(old_rhs[j] == sel_of(kept@).subrange(0, i as int)[j
                            - moved_ids.len()]);
                        assert(rhs[j] == sel_of(kept@)[j - moved_ids.len()]);
                    } else {
                        assert(j == pre.len());
                        assert(rhs[j] == sel_of(kept@)[i as int]);
                    }
                }
                assert(sel_of(newv@) =~= moved_ids + sel_of(kept@).subrange(0, i + 1));
            }
            i = i + 1;
        }
        proof {
            assert(sel_of(kept@).subrange(0, sel_of(kept@).len() as int) =~= sel_of(kept@));
            assert(sel_of(newv@) == back_seq(cur_ids, sel_of(ids@)));
            assert forall|a: int, b: int|
                0 <= a < b < newv@.len() implies (#[trigger] newv@[a]).0 != (
                #[trigger] newv@[b]).0 by {
                let s = sel_of(newv@);
                let f1 = cur_ids.filter(|k: u128| sel_of(ids@).contains(k));
                let f0 = cur_ids.filter(|k: u128| !sel_of(ids@).contains(k));
                assert(s[a] == newv@[a].0 && s[b] == newv@[b].0);
                if b < f1.len() {
                } else if a >= f1.len() {
                    assert(f0[a - f1.len()] != f0[b - f1.len()]);
                } else {
                    assert(sel_of(ids@).contains(f1[a]));
                    assert(!sel_of(ids@).contains(f0[b - f1.len()]));
                }
            }
        }
        self.set_shape_order(&newv);
        proof {
            assert forall|s: Seq<u128>|
                is_order_seq(old(self).state@.order, s) implies final(self).state@.order
                == order_rewrite(
                old(self).state@.order,
                back_seq(s, sel_of(ids@)),
                old(self).next_stamp(),
            ) by {
                lemma_order_seq_unique(old(self).state@.order, s, cur_ids);
            }
        }
    }
}

impl Document {
    /// Swap the elements at `a` and `b` of an id list.
    fn swap_ids(v: &mut Vec<ShapeId>, a: usize, b: usize)
        requires
            a < old(v)@.len(),
            b < old(v)@.len(),
        ensures
            final(v)@ == old(v)@.update(a as int, old(v)@[b as int]).update(
                b as int,
                old(v)@[a as int],
            ),
    {
        let x = v[a];
        let y = v[b];
        v.set(a, y);
        v.set(b, x);
    }

    /// Bring shapes forward one position (toward the top): each selected
    /// shape swaps with its unselected upper neighbor, processed from the
    /// top so runs do not cascade.  A no-op for an empty selection.
    pub fn bring_forward(&mut self, ids: &Vec<ShapeId>)
        requires
            old(self).wf(),
        ensures
            final(self).wf(),
            final(self).actor == old(self).actor,
            final(self).state@.shapes == old(self).state@.shapes,
            final(self).state@.groups == old(self).state@.groups,
            final(self).state@.layers == old(self).state@.layers,
            final(self).state@.layer_order == old(self).state@.layer_order,
            ids@.len() == 0 ==> *final(self) == *old(self),
            ids@.len() > 0 ==> final(self).dirty && forall|s: Seq<u128>|
                is_order_seq(old(self).state@.order, s) ==> final(self).state@.order
                    == order_rewrite(
                    old(self).state@.order,
                    forward_seq(s, sel_of(ids@)),
                    old(self).next_stamp(),
                ),
    {
        if ids.len() == 0 {
            return;
        }
        let cur = self.read_shape_order();
        let ghost cur_ids = sel_of(cur@);
        proof {
            lemma_order_seq_distinct(self.state@.order, cur_ids);
        }
        let mut v = clone_ids(&cur);
        proof {
            assert forall|a: int, b: int|
                0 <= a < b < v@.len() implies (#[trigger] v@[a]).0 != (#[trigger] v@[b]).0 by {
                assert(cur_ids[a] == cur@[a].0);
                assert(cur_ids[b] == cur@[b].0);
            }
        }
        let n = v.len();
        if n >= 2 {
            let mut i: usize = n - 1;
            proof {
                assert(sel_of(v@) == fwd_from(cur_ids, sel_of(ids@), i as int));
            }
            while i > 0
                invariant
                    1 <= i + 1,
                    i <= n - 1,
                    n >= 2,
                    n == v@.len(),
                    n == cur_ids.len(),
                    sel_of(v@) == fwd_from(cur_ids, sel_of(ids@), i as int),
                    forall|a: int, b: int|
                        0 <= a < b < v@.len() ==> (#[trigger] v@[a]).0 != (#[trigger] v@[b]).0,
                decreases i,
            {
                let a = i - 1;
                let sel_a = contains_id(ids, v[a].0);
                let sel_up = contains_id(ids, v[i].0);
                let ghost pre = v@;
                if sel_a && !sel_up {
                    Self::swap_ids(&mut v, a, i);
                }
                proof {
                    let spre = sel_of(pre);
                    assert(spre[a as int] == pre[a as int].0);
                    assert(spre[i as int] == pre[i as int].0);
                    if sel_a && !sel_up {
                        assert forall|j: int| 0 <= j < v@.len() implies sel_of(v@)[j] == spre.update(
                            a as int,
                            spre[i as int],
                        ).update(i as int, spre[a as int])[j] by {
                            if j == a {
                                assert(v@[j] == pre[i as int]);
                            } else if j == i {
                                assert(v@[j] == pre[a as int]);
                            } else {
                                assert(v@[j] == pre[j]);
                            }
                        }
                        assert(sel_of(v@) =~= fwd_step(spre, sel_of(ids@), a as int));
                    } else {
                        assert(sel_of(v@) == fwd_step(spre, sel_of(ids@), a as int));
                    }
                    assert(fwd_from(cur_ids, sel_of(ids@), a as int) == fwd_step(
                        fwd_from(cur_ids, sel_of(ids@), i as int),
                        sel_of(ids@),
                        a as int,
                    ));
                    assert forall|x: int, y: int|
                        0 <= x < y < v@.len() implies (#[trigger] v@[x]).0 != (
                        #[trigger] v@[y]).0 by {
                        if sel_a && !sel_up {
                            let xo = if x == a {
                                i as int
                            } else if x == i {
                                a as int
                            } else {
                                x
                            };
                            let yo = if y == a {
                                i as int
                            } else if y == i {
                                a as int
                            } else {
                                y
                            };
                            assert(v@[x] == pre[xo]);
                            assert(v@[y] == pre[yo]);
                        }
                    }
                }
                i = a;
            }
        }
        proof {
            assert(sel_of(v@) == forward_seq(cur_ids, sel_of(ids@)));
        }
        self.set_shape_order(&v);
        proof {
            assert forall|s: Seq<u128>|
                is_order_seq(old(self).state@.order, s) implies final(self).state@.order
                == order_rewrite(
                old(self).state@.order,
                forward_seq(s, sel_of(ids@)),
                old(self).next_stamp(),
            ) by {
                lemma_order_seq_unique(old(self).state@.order, s, cur_ids);
            }
        }
    }

    /// Send shapes backward one position (toward the bottom), processed
    /// from the bottom so runs do not cascade.  A no-op for an empty
    /// selection.
    pub fn send_backward(&mut self, ids: &Vec<ShapeId>)
        requires
            old(self).wf(),
        ensures
            final(self).wf(),
            final(self).actor == old(self).actor,
            final(self).state@.shapes == old(self).state@.shapes,
            final(self).state@.groups == old(self).state@.groups,
            final(self).state@.layers == old(self).state@.layers,
            final(self).state@.layer_order == old(self).state@.layer_order,
            ids@.len() == 0 ==> *final(self) == *old(self),
            ids@.len() > 0 ==> final(self).dirty && forall|s: Seq<u128>|
                is_order_seq(old(self).state@.order, s) ==> final(self).state@.order
                    == order_rewrite(
                    old(self).state@.order,
                    backward_seq(s, sel_of(ids@)),
                    old(self).next_stamp(),
                ),
    {
        if ids.len() == 0 {
            return;
        }
        let cur = self.read_shape_order();
        let ghost cur_ids = sel_of(cur@);
        proof {
            lemma_order_seq_distinct(self.state@.order, cur_ids);
        }
        let mut v = clone_ids(&cur);
        proof {
            assert forall|a: int, b: int|
                0 <= a < b < v@.len() implies (#[trigger] v@[a]).0 != (#[trigger] v@[b]).0 by {
                assert(cur_ids[a] == cur@[a].0);
                assert(cur_ids[b] == cur@[b].0);
            }
        }
        let n = v.len();
        if n > 0 {
            let mut i: usize = 1;
            proof {
                assert(sel_of(v@) == bwd_upto(cur_ids, sel_of(ids@), 1));
            }
            while i < n
                invariant
                    1 <= i <= n,
                    n == v@.len(),
                    n == cur_ids.len(),
                    sel_of(v@) == bwd_upto(cur_ids, sel_of(ids@), i as int),
                    forall|a: int, b: int|
                        0 <= a < b < v@.len() ==> (#[trigger] v@[a]).0 != (#[trigger] v@[b]).0,
                decreases n - i,
            {
                let a = i - 1;
                let sel_i = contains_id(ids, v[i].0);
                let sel_dn = contains_id(ids, v[a].0);
                let ghost pre = v@;
                if sel_i && !sel_dn {
                    Self::swap_ids(&mut v, a, i);
                }
                proof {
                    let spre = sel_of(pre);
                    assert(spre[a as int] == pre[a as int].0);
                    assert(spre[i as int] == pre[i as int].0);
                    if sel_i && !sel_dn {
                        assert forall|j: int| 0 <= j < v@.len() implies sel_of(v@)[j] == spre.update(
                            a as int,
                            spre[i as int],
                        ).update(i as int, spre[a as int])[j] by {
                            if j == a {
                                assert(v@[j] == pre[i as int]);
                            } else if j == i {
                                assert(v@[j] == pre[a as int]);
                            } else {
                                assert(v@[j] == pre[j]);
                            }
                        }
                        assert(sel_of(v@) =~= bwd_step(spre, sel_of(ids@), i as int));
                    } else {
                        assert(sel_of(v@) == bwd_step(spre, sel_of(ids@), i as int));
                    }
                    assert(bwd_upto(cur_ids, sel_of(ids@), i + 1) == bwd_step(
                        bwd_upto(cur_ids, sel_of(ids@), i as int),
                        sel_of(ids@),
                        i as int,
                    ));
                    assert forall|x: int, y: int|
                        0 <= x < y < v@.len() implies (#[trigger] v@[x]).0 != (
                        #[trigger] v@[y]).0 by {
                        if sel_i && !sel_dn {
                            let xo = if x == a {
                                i as int
                            } else if x == i {
                                a as int
                            } else {
                                x
                            };
                            let yo = if y == a {
                                i as int
                            } else if y == i {
                                a as int
                            } else {
                                y
                            };
                            assert(v@[x] == pre[xo]);
                            assert(v@[y] == pre[yo]);
                        }
                    }
                }
                i = i + 1;
            }
        }
        proof {
            assert(sel_of(v@) == backward_seq(cur_ids, sel_of(ids@)));
        }
        self.set_shape_order(&v);
        proof {
            assert forall|s: Seq<u128>|
                is_order_seq(old(self).state@.order, s) implies final(self).state@.order
                == order_rewrite(
                old(self).state@.order,
                backward_seq(s, sel_of(ids@)),
                old(self).next_stamp(),
            ) by {
                lemma_order_seq_unique(old(self).state@.order, s, cur_ids);
            }
        }
    }
}

/// Filtering a sequence none of whose elements satisfy the predicate
/// gives the empty sequence.
pub proof fn lemma_filter_none<A>(s: Seq<A>, pred: spec_fn(A) -> bool)
    requires
        forall|i: int| 0 <= i < s.len() ==> !pred(#[trigger] s[i]),
    ensures
        s.filter(pred) == Seq::<A>::empty(),
    decreases s.len(),
{
    reveal(Seq::filter);
    if s.len() > 0 {
        lemma_filter_none(s.drop_last(), pred);
        assert(s.filter(pred) =~= Seq::<A>::empty());
    } else {
        assert(s.filter(pred) =~= Seq::<A>::empty());
    }
}

/// Filtering a sequence all of whose elements satisfy the predicate
/// gives the sequence back.
pub proof fn lemma_filter_all<A>(s: Seq<A>, pred: spec_fn(A) -> bool)
    requires
        forall|i: int| 0 <= i < s.len() ==> pred(#[trigger] s[i]),
    ensures
        s.filter(pred) == s,
    decreases s.len(),
{
    reveal(Seq::filter);
    if s.len() > 0 {
        lemma_filter_all(s.drop_last(), pred);
        assert(s.filter(pred) =~= s);
    } else {
        assert(s.filter(pred) =~= s);
    }
}

/// Sending to back is absolute, not a toggle: sending a selection to the
/// back produces the same order whether or not it was first brought to
/// the front.
pub proof fn lemma_front_then_back(s: Seq<u128>, ids: Seq<u128>)
    ensures
        back_seq(front_seq(s, ids), ids) == back_seq(s, ids),
{
    let p = |k: u128| ids.contains(k);
    let np = |k: u128| !ids.contains(k);
    let a = s.filter(np);
    let b = s.filter(p);
    Seq::filter_distributes_over_add(a, b, p);
    Seq::filter_distributes_over_add(a, b, np);
    a.filter_lemma(np);
    b.filter_lemma(p);
    lemma_filter_none(a, p);
    lemma_filter_all(a, np);
    lemma_filter_all(b, p);
    lemma_filter_none(b, np);
    assert((a + b).filter(p) =~= b);
    assert((a + b).filter(np) =~= a);
}

/// Bringing to front is likewise absolute.
pub proof fn lemma_back_then_front(s: Seq<u128>, ids: Seq<u128>)
    ensures
        front_seq(back_seq(s, ids), ids) == front_seq(s, ids),
{
    let p = |k: u128| ids.contains(k);
    let np = |k: u128| !ids.contains(k);
    let a = s.filter(np);
    let b = s.filter(p);
    Seq::filter_distributes_over_add(b, a, p);
    Seq::filter_distributes_over_add(b, a, np);
    a.filter_lemma(np);
    b.filter_lemma(p);
    lemma_filter_none(a, p);
    lemma_filter_all(a, np);
    lemma_filter_all(b, p);
    lemma_filter_none(b, np);
    assert((b + a).filter(p) =~= b);
    assert((b + a).filter(np) =~= a);
}

/// The forward pass moves nothing when no selected shape sits below the
/// topmost position.
pub proof fn lemma_fwd_from_noop(s: Seq<u128>, ids: Seq<u128>, i: int)
    requires
        forall|j: int| 0 <= j < s.len() - 1 ==> !ids.contains(#[trigger] s[j]),
    ensures
        fwd_from(s, ids, i) == s,
    decreases s.len() - i,
{
    if i < 0 || i + 1 >= s.len() {
    } else {
        lemma_fwd_from_noop(s, ids, i + 1);
    }
}

/// Bringing forward a selection that holds only the topmost shape is a
/// no-op.
pub proof fn lemma_forward_top_noop(s: Seq<u128>, ids: Seq<u128>)
    requires
        forall|j: int| 0 <= j < s.len() - 1 ==> !ids.contains(#[trigger] s[j]),
    ensures
        forward_seq(s, ids) == s,
{
    lemma_fwd_from_noop(s, ids, 0);
}

/// Rewriting the whole order to a duplicate-free sequence puts the map
/// in exactly that render order.
pub proof fn lemma_order_rewrite_seq(m: Map<u128, RegV<i128>>, s: Seq<u128>, t: Stamp)
    requires
        forall|a: int, b: int| 0 <= a < b < s.len() ==> s[a] != s[b],
        s.len() < 0x1_0000_0000_0000_0000,
    ensures
        is_order_seq(order_rewrite(m, s, t), s),
{
    let m2 = order_rewrite(m, s, t);
    assert forall|i: int| 0 <= i < s.len() implies m2.contains_key(#[trigger] s[i]) && m2[s[i]].val
        is Some by {
        assert(s.contains(s[i]));
    }
    assert forall|i: int| 0 <= i < s.len() implies s.index_of(#[trigger] s[i]) == i by {
        assert(s.contains(s[i]));
        let x = s.index_of(s[i]);
        assert(0 <= x < s.len() && s[x] == s[i]);
        if x < i {
            assert(s[x] != s[i]);
        } else if x > i {
            assert(s[i] != s[x]);
        }
    }
    assert forall|i: int, j: int| 0 <= i < j < s.len() implies rank_lt(m2, s[i], s[j]) by {
        assert(s.contains(s[i]));
        assert(s.contains(s[j]));
        assert(m2[s[i]].val->0 == s.index_of(s[i]) as i128);
        assert(m2[s[j]].val->0 == s.index_of(s[j]) as i128);
    }
}

/// Bringing forward a selection that holds nothing below the topmost
/// position leaves the render order as it was: the order after the
/// rewrite is still exactly the old sequence.
pub proof fn lemma_bring_forward_top_keeps_order(
    m: Map<u128, RegV<i128>>,
    s: Seq<u128>,
    ids: Seq<u128>,
    t: Stamp,
)
    requires
        is_order_seq(m, s),
        s.len() < 0x1_0000_0000_0000_0000,
        forall|j: int| 0 <= j < s.len() - 1 ==> !ids.contains(#[trigger] s[j]),
    ensures
        is_order_seq(order_rewrite(m, forward_seq(s, ids), t), s),
{
    lemma_order_seq_distinct(m, s);
    lemma_forward_top_noop(s, ids);
    lemma_order_rewrite_seq(m, s, t);
}

/// Every present shape of a shape map is within bounds.
pub open spec fn shapes_bounded(m: Map<u128, RegV<StoredShapeV>>) -> bool {
    forall|k: u128|
        #![trigger m[k]]
        m.contains_key(k) && m[k].val is Some ==> kind_bounded(m[k].val->0.kind)
}

/// Key-wise merge of two whole document states.
pub open spec fn merge_state(a: DocStateV, b: DocStateV) -> DocStateV {
    DocStateV {
        shapes: crate::crdt::merge_map(a.shapes, b.shapes),
        order: crate::crdt::merge_map(a.order, b.order),
        groups: crate::crdt::merge_map(a.groups, b.groups),
        layers: crate::crdt::merge_map(a.layers, b.layers),
        layer_order: crate::crdt::merge_map(a.layer_order, b.layer_order),
    }
}

/// Two document states agree wherever they carry the same stamp.
pub open spec fn state_compat(a: DocStateV, b: DocStateV) -> bool {
    &&& crate::crdt::compat(a.shapes, b.shapes)
    &&& crate::crdt::compat(a.order, b.order)
    &&& crate::crdt::compat(a.groups, b.groups)
    &&& crate::crdt::compat(a.layers, b.layers)
    &&& crate::crdt::compat(a.layer_order, b.layer_order)
}

/// Convergence: two replicas that exchange and merge their states end in
/// the same document, whichever direction merges first, whenever the
/// states' common stamps agree, which holds of states grown from a
/// common history.
pub proof fn lemma_state_merge_commutes(a: DocStateV, b: DocStateV)
    requires
        state_compat(a, b),
    ensures
        merge_state(a, b) == merge_state(b, a),
{
    crate::crdt::lemma_merge_commutes(a.shapes, b.shapes);
    crate::crdt::lemma_merge_commutes(a.order, b.order);
    crate::crdt::lemma_merge_commutes(a.groups, b.groups);
    crate::crdt::lemma_merge_commutes(a.layers, b.layers);
    crate::crdt::lemma_merge_commutes(a.layer_order, b.layer_order);
}

/// Idempotence: re-applying an already-merged state changes nothing.
pub proof fn lemma_state_merge_reapply(a: DocStateV, b: DocStateV)
    ensures
        merge_state(merge_state(a, b), b) == merge_state(a, b),
{
    crate::crdt::lemma_merge_reapply(a.shapes, b.shapes);
    crate::crdt::lemma_merge_reapply(a.order, b.order);
    crate::crdt::lemma_merge_reapply(a.groups, b.groups);
    crate::crdt::lemma_merge_reapply(a.layers, b.layers);
    crate::crdt::lemma_merge_reapply(a.layer_order, b.layer_order);
}

/// Associativity: relaying a state through several peers resolves every
/// register the same way.
pub proof fn lemma_state_merge_assoc(a: DocStateV, b: DocStateV, c: DocStateV)
    ensures
        merge_state(merge_state(a, b), c) == merge_state(a, merge_state(b, c)),
{
    crate::crdt::lemma_merge_assoc(a.shapes, b.shapes, c.shapes);
    crate::crdt::lemma_merge_assoc(a.order, b.order, c.order);
    crate::crdt::lemma_merge_assoc(a.groups, b.groups, c.groups);
    crate::crdt::lemma_merge_assoc(a.layers, b.layers, c.layers);
    crate::crdt::lemma_merge_assoc(a.layer_order, b.layer_order, c.layer_order);
}

impl Document {
    /// Merge a remote replica's state into this document.  Every register
    /// keeps the later write; the local clock advances past everything
    /// just seen, so later local edits win over what they overwrite.
    pub fn merge(&mut self, other: DocState)
        requires
            old(self).wf(),
            other.wf(),
            shapes_bounded(other@.shapes),
        ensures
            final(self).wf(),
            final(self).actor == old(self).actor,
            final(self).state@ == merge_state(old(self).state@, other@),
            final(self).dirty,
            final(self).clock >= old(self).clock,
            final(self).doc_id == old(self).doc_id,
            final(self).undo_stack == old(self).undo_stack,
            final(self).redo_stack == old(self).redo_stack,
    {
        let ghost pre = self.state@;
        let ghost remote = other@;
        let DocState { shapes, order, groups, layers, layer_order } = other;
        let mut top: u64 = self.clock;
        top = max_time_of(&shapes, top);
        top = max_time_of(&order, top);
        top = max_time_of(&groups, top);
        top = max_time_of(&layers, top);
        top = max_time_of(&layer_order, top);
        if top < u64::MAX {
            self.clock = top + 1;
        } else {
            self.clock = u64::MAX;
        }
        self.state.shapes.merge_from(shapes);
        self.state.order.merge_from(order);
        self.state.groups.merge_from(groups);
        self.state.layers.merge_from(layers);
        self.state.layer_order.merge_from(layer_order);
        self.touch();
        proof {
            assert(self.state@ =~= merge_state(pre, remote));
            assert forall|k: u128|
                #![trigger self.state@.shapes[k]]
                self.state@.shapes.contains_key(k) && self.state@.shapes[k].val
                    is Some implies kind_bounded(self.state@.shapes[k].val->0.kind) by {
                if pre.shapes.contains_key(k) && remote.shapes.contains_key(k) {
                    assert(self.state@.shapes[k] == crate::crdt::join_reg(
                        pre.shapes[k],
                        remote.shapes[k],
                    ));
                }
            }
        }
    }
}

/// The largest stamp time in a map, at least `floor`.
fn max_time_of<V: View>(m: &LwwMap<V>, floor: u64) -> (r: u64)
    ensures
        r >= floor,
{
    let mut best = floor;
    let mut i: usize = 0;
    while i < m.entries.len()
        invariant
            best >= floor,
        decreases m.entries@.len() - i,
    {
        if m.entries[i].1.stamp.time > best {
            best = m.entries[i].1.stamp.time;
        }
        i = i + 1;
    }
    best
}

impl Document {
    /// Translate a shape by a delta.  The moved record is rewritten
    /// wholesale under its id (which also clears its connections, layer
    /// and group references, as every whole-record write does); a result
    /// out of the representable range is rejected, leaving the shape
    /// where it was.
    pub fn translate_shape(&mut self, id: ShapeId, dx: i32, dy: i32) -> (r: Result<
        (),
        StoreError,
    >)
        requires
            old(self).wf(),
            crate::shapes::coord_ok(dx),
            crate::shapes::coord_ok(dy),
        ensures
            final(self).wf(),
            final(self).actor == old(self).actor,
            final(self).state@.order == old(self).state@.order,
            final(self).state@.groups == old(self).state@.groups,
            final(self).state@.layers == old(self).state@.layers,
            final(self).state@.layer_order == old(self).state@.layer_order,
            match r {
                Ok(()) => {
                    &&& (if old(self).state@.shapes.contains_key(id.0) && old(
                        self,
                    ).state@.shapes[id.0].val is Some {
                        final(self).state@.shapes == old(self).state@.shapes.insert(
                            id.0,
                            RegV {
                                stamp: old(self).next_stamp(),
                                val: Some(
                                    StoredShapeV {
                                        kind: crate::shapes::kind_translated(
                                            old(self).state@.shapes[id.0].val->0.kind,
                                            dx as int,
                                            dy as int,
                                        ),
                                        layer: None,
                                        group: None,
                                    },
                                ),
                            },
                        )
                    } else {
                        final(self).state@.shapes == old(self).state@.shapes
                    })
                },
                Err(e) => {
                    &&& e == StoreError::InvalidShape
                    &&& final(self).state@.shapes == old(self).state@.shapes
                    &&& old(self).state@.shapes.contains_key(id.0)
                    &&& old(self).state@.shapes[id.0].val is Some
                    &&& !kind_bounded(
                        crate::shapes::kind_translated(
                            old(self).state@.shapes[id.0].val->0.kind,
                            dx as int,
                            dy as int,
                        ),
                    )
                },
            },
    {
        match self.read_shape(id) {
            Some(kind) => {
                let moved = kind.translated(dx, dy);
                match self.update_shape(id, moved) {
                    Ok(()) => Ok(()),
                    Err(e) => Err(e),
                }
            },
            None => Ok(()),
        }
    }
}

/// Whether a stored shape is rewritten when `moved` moves by the delta:
/// it is a readable line or arrow with an endpoint snapped to `moved`,
/// and the moved record stays within the representable bounds.
pub open spec fn conn_hit(
    m: Map<u128, RegV<StoredShapeV>>,
    k: u128,
    moved: u128,
    dx: int,
    dy: int,
) -> bool {
    m[k].val is Some && (match crate::shapes::kind_conn_translated(
        m[k].val->0.kind,
        moved,
        dx,
        dy,
    ) {
        Some(nk) => kind_bounded(nk),
        None => false,
    })
}

/// The register a hit shape is rewritten to: the whole record, with the
/// translated kind and cleared references, as every whole-record write.
pub open spec fn conn_moved(
    m: Map<u128, RegV<StoredShapeV>>,
    k: u128,
    moved: u128,
    dx: int,
    dy: int,
    t: Stamp,
) -> RegV<StoredShapeV> {
    RegV {
        stamp: t,
        val: Some(
            StoredShapeV {
                kind: crate::shapes::kind_conn_translated(m[k].val->0.kind, moved, dx, dy)->0,
                layer: None,
                group: None,
            },
        ),
    }
}

/// As `conn_hit`, for a resize: the endpoint follows its matching snap
/// point.
pub open spec fn resize_hit(
    m: Map<u128, RegV<StoredShapeV>>,
    k: u128,
    resized: u128,
    olds: Seq<Position>,
    news: Seq<Position>,
) -> bool {
    m[k].val is Some && (match crate::shapes::kind_resize_translated(
        m[k].val->0.kind,
        resized,
        olds,
        news,
    ) {
        Some(nk) => kind_bounded(nk),
        None => false,
    })
}

/// The register a resize-hit shape is rewritten to.
pub open spec fn resize_moved(
    m: Map<u128, RegV<StoredShapeV>>,
    k: u128,
    resized: u128,
    olds: Seq<Position>,
    news: Seq<Position>,
    t: Stamp,
) -> RegV<StoredShapeV> {
    RegV {
        stamp: t,
        val: Some(
            StoredShapeV {
                kind: crate::shapes::kind_resize_translated(
                    m[k].val->0.kind,
                    resized,
                    olds,
                    news,
                )->0,
                layer: None,
                group: None,
            },
        ),
    }
}

impl Document {
    /// Update connected lines and arrows when a shape moves: every
    /// endpoint snapped to it is translated by the same delta.  Returns
    /// the ids of the rewritten shapes.  A rewrite that would leave the
    /// representable range is skipped, leaving that shape where it was.
    pub fn update_connections_for_shape(&mut self, moved_id: ShapeId, dx: i32, dy: i32) -> (r:
        Vec<ShapeId>)
        requires
            old(self).wf(),
            crate::shapes::coord_ok(dx),
            crate::shapes::coord_ok(dy),
        ensures
            final(self).wf(),
            final(self).actor == old(self).actor,
            final(self).state@.shapes == Map::new(
                |k: u128| old(self).state@.shapes.contains_key(k),
                |k: u128|
                    if conn_hit(old(self).state@.shapes, k, moved_id.0, dx as int, dy as int) {
                        conn_moved(
                            old(self).state@.shapes,
                            k,
                            moved_id.0,
                            dx as int,
                            dy as int,
                            old(self).next_stamp(),
                        )
                    } else {
                        old(self).state@.shapes[k]
                    },
            ),
            forall|x: u128|
                #![auto]
                sel_of(r@).contains(x) <==> (old(self).state@.shapes.contains_key(x) && conn_hit(
                    old(self).state@.shapes,
                    x,
                    moved_id.0,
                    dx as int,
                    dy as int,
                )),
            final(self).state@.order == old(self).state@.order,
            final(self).state@.groups == old(self).state@.groups,
            final(self).state@.layers == old(self).state@.layers,
            final(self).state@.layer_order == old(self).state@.layer_order,
            final(self).dirty,
    {
        let ghost m0 = self.state@.shapes;
        let stamp = Stamp { time: self.clock, actor: self.actor };
        // Collect the hit shapes.
        let mut hit: Vec<u128> = Vec::new();
        let n = self.state.shapes.entries.len();
        let mut i: usize = 0;
        while i < n
            invariant
                i <= n,
                self.wf(),
                self.actor == old(self).actor,
                crate::shapes::coord_ok(dx),
                crate::shapes::coord_ok(dy),
                n == self.state.shapes.entries@.len(),
                forall|a: int|
                    0 <= a < hit@.len() ==> {
                        &&& self.state@.shapes.contains_key(#[trigger] hit@[a])
                        &&& conn_hit(self.state@.shapes, hit@[a], moved_id.0, dx as int, dy as int)
                    },
                forall|j: int|
                    0 <= j < i && (#[trigger] self.state.shapes.entries@[j]).1.val is Some
                        && conn_hit(
                        self.state@.shapes,
                        self.state.shapes.entries@[j].0,
                        moved_id.0,
                        dx as int,
                        dy as int,
                    ) ==> hit@.contains(self.state.shapes.entries@[j].0),
                forall|a: int, b: int|
                    0 <= a < b < hit@.len() ==> (#[trigger] hit@[a]) != (#[trigger] hit@[b]),
                forall|a: int|
                    0 <= a < hit@.len() ==> exists|j: int|
                        0 <= j < i && (#[trigger] hit@[a]) == self.state.shapes.entries@[j].0,
            decreases n - i,
        {
            let key = self.state.shapes.entries[i].0;
            proof {
                crate::crdt::lemma_map_of_at(self.state.shapes.entry_views(), i as int);
            }
            let take = match &self.state.shapes.entries[i].1.val {
                Some(stored) => match stored.kind.translate_connected_endpoints(
                    moved_id.0,
                    dx,
                    dy,
                ) {
                    Some(nk) => nk.is_bounded(),
                    None => false,
                },
                None => false,
            };
            if take {
                proof {
                    assert forall|a: int| 0 <= a < hit@.len() implies (#[trigger] hit@[a])
                        != key by {
                        let j = choose|j: int|
                            0 <= j < i && hit@[a] == (#[trigger] self.state.shapes.entries@[j].0);
                        assert(self.state.shapes.entry_views()[j].0
                            != self.state.shapes.entry_views()[i as int].0);
                    }
                }
                let ghost pre_hit = hit@;
                hit.push(key);
                proof {
                    assert forall|j: int|
                        0 <= j < i + 1 && (#[trigger] self.state.shapes.entries@[j]).1.val is Some
                            && conn_hit(
                            self.state@.shapes,
                            self.state.shapes.entries@[j].0,
                            moved_id.0,
                            dx as int,
                            dy as int,
                        ) implies hit@.contains(self.state.shapes.entries@[j].0) by {
                        if j < i {
                            let x = pre_hit.index_of(self.state.shapes.entries@[j].0);
                            assert(pre_hit[x] == self.state.shapes.entries@[j].0);
                            assert(hit@[x] == self.state.shapes.entries@[j].0);
                        } else {
                            assert(hit@[hit@.len() - 1] == key);
                        }
                    }
                }
            } else {
                proof {
                    assert forall|j: int|
                        0 <= j < i + 1 && (#[trigger] self.state.shapes.entries@[j]).1.val is Some
                            && conn_hit(
                            self.state@.shapes,
                            self.state.shapes.entries@[j].0,
                            moved_id.0,
                            dx as int,
                            dy as int,
                        ) implies hit@.contains(self.state.shapes.entries@[j].0) by {}
                }
            }
            i = i + 1;
        }
        let ghost hit_ids = hit@;
        proof {
            assert forall|k: u128|
                m0.contains_key(k) && conn_hit(m0, k, moved_id.0, dx as int, dy as int)
                    implies hit_ids.contains(k) by {
                crate::crdt::lemma_map_of_index(self.state.shapes.entry_views(), k);
                let j = choose|j: int|
                    0 <= j < self.state.shapes.entry_views().len() && (
                    #[trigger] self.state.shapes.entry_views()[j]).0 == k;
                crate::crdt::lemma_map_of_at(self.state.shapes.entry_views(), j);
                assert(self.state.shapes.entries@[j].1.val is Some);
            }
        }
        // Rewrite them.
        let nh = hit.len();
        let mut c: usize = 0;
        proof {
            assert(self.state@.shapes =~= Map::new(
                |k: u128| m0.contains_key(k),
                |k: u128|
                    if hit_ids.take(0).contains(k) {
                        conn_moved(m0, k, moved_id.0, dx as int, dy as int, stamp)
                    } else {
                        m0[k]
                    },
            ));
        }
        while c < nh
            invariant
                c <= nh,
                nh == hit_ids.len(),
                hit@ == hit_ids,
                self.actor == old(self).actor,
                crate::shapes::coord_ok(dx),
                crate::shapes::coord_ok(dy),
                self.state.shapes.wf(),
                self.state.order == old(self).state.order,
                self.state.groups == old(self).state.groups,
                self.state.layers == old(self).state.layers,
                self.state.layer_order == old(self).state.layer_order,
                forall|x: int|
                    0 <= x < hit_ids.len() ==> {
                        &&& m0.contains_key(#[trigger] hit_ids[x])
                        &&& conn_hit(m0, hit_ids[x], moved_id.0, dx as int, dy as int)
                        &&& kind_bounded(m0[hit_ids[x]].val->0.kind)
                    },
                forall|x: int, y: int|
                    0 <= x < y < hit_ids.len() ==> (#[trigger] hit_ids[x]) != (
                    #[trigger] hit_ids[y]),
                self.state@.shapes == Map::new(
                    |k: u128| m0.contains_key(k),
                    |k: u128|
                        if hit_ids.take(c as int).contains(k) {
                            conn_moved(m0, k, moved_id.0, dx as int, dy as int, stamp)
                        } else {
                            m0[k]
                        },
                ),
            decreases nh - c,
        {
            let key = hit[c];
            proof {
                assert(key == hit_ids[c as int]);
                assert(!hit_ids.take(c as int).contains(key)) by {
                    if hit_ids.take(c as int).contains(key) {
                        let x = hit_ids.take(c as int).index_of(key);
                        assert(hit_ids.take(c as int)[x] == key);
                        assert(hit_ids[x] != hit_ids[c as int]);
                    }
                }
            }
            let nk = match self.state.shapes.get(key) {
                Some(reg) => match &reg.val {
                    Some(stored) => match stored.kind.translate_connected_endpoints(
                        moved_id.0,
                        dx,
                        dy,
                    ) {
                        Some(nk) => nk,
                        None => {
                            proof {
                                assert(false);
                            }
                            stored.kind.duplicate()
                        },
                    },
                    None => {
                        proof {
                            assert(false);
                        }
                        ShapeKind::Text {
                            pos: crate::canvas::Position { x: 0, y: 0 },
                            content: String::new(),
                            color: crate::shapes::ShapeColor::White,
                        }
                    },
                },
                None => {
                    proof {
                        assert(false);
                    }
                    ShapeKind::Text {
                        pos: crate::canvas::Position { x: 0, y: 0 },
                        content: String::new(),
                        color: crate::shapes::ShapeColor::White,
                    }
                },
            };
            self.state.shapes.put(
                key,
                Reg { stamp, val: Some(StoredShape { kind: nk, layer: None, group: None }) },
            );
            proof {
                let target = Map::new(
                    |k: u128| m0.contains_key(k),
                    |k: u128|
                        if hit_ids.take(c + 1).contains(k) {
                            conn_moved(m0, k, moved_id.0, dx as int, dy as int, stamp)
                        } else {
                            m0[k]
                        },
                );
                assert forall|k: u128| #[trigger]
                    target.contains_key(k) implies self.state@.shapes.contains_key(k)
                    && self.state@.shapes[k] == target[k] by {
                    if hit_ids.take(c + 1).contains(k) {
                        let x = hit_ids.take(c + 1).index_of(k);
                        assert(hit_ids.take(c + 1)[x] == k);
                        if x < c {
                            assert(hit_ids.take(c as int)[x] == k);
                            assert(hit_ids.take(c as int).contains(k));
                            assert(k != key);
                        } else {
                            assert(k == key);
                        }
                    } else {
                        assert(!hit_ids.take(c as int).contains(k)) by {
                            if hit_ids.take(c as int).contains(k) {
                                let x = hit_ids.take(c as int).index_of(k);
                                assert(hit_ids.take(c as int)[x] == k);
                                assert(hit_ids.take(c + 1)[x] == k);
                            }
                        }
                        assert(k != key) by {
                            if k == key {
                                assert(hit_ids.take(c + 1)[c as int] == k);
                            }
                        }
                    }
                }
                assert forall|k: u128| #[trigger]
                    self.state@.shapes.contains_key(k) implies target.contains_key(k) by {}
                assert(self.state@.shapes =~= target);
            }
            c = c + 1;
        }
        proof {
            assert(hit_ids.take(nh as int) =~= hit_ids);
        }
        self.tick();
        self.touch();
        let r = wrap_ids(&hit);
        proof {
            assert forall|x: u128|
                #![auto]
                sel_of(r@).contains(x) <==> (m0.contains_key(x) && conn_hit(
                    m0,
                    x,
                    moved_id.0,
                    dx as int,
                    dy as int,
                )) by {
                if sel_of(r@).contains(x) {
                    assert(hit_ids.contains(x));
                    let a = hit_ids.index_of(x);
                    assert(hit_ids[a] == x);
                }
                if m0.contains_key(x) && conn_hit(m0, x, moved_id.0, dx as int, dy as int) {
                    assert(hit_ids.contains(x));
                }
            }
        }
        r
    }
}

impl Document {
    /// Update connected lines and arrows when a shape is resized: each
    /// connected endpoint moves to the new snap point at the index of
    /// its Manhattan-nearest old snap point.  When the snap point counts
    /// differ the correspondence is ambiguous and nothing is updated, a
    /// documented limitation.  Returns the ids of the rewritten shapes.
    pub fn update_connections_for_resize(
        &mut self,
        resized_id: ShapeId,
        old_kind: &ShapeKind,
        new_kind: &ShapeKind,
    ) -> (r: Vec<ShapeId>)
        requires
            old(self).wf(),
            kind_bounded(old_kind@),
            kind_bounded(new_kind@),
        ensures
            final(self).wf(),
            final(self).actor == old(self).actor,
            crate::shapes::kind_snap_points(old_kind@).len() != crate::shapes::kind_snap_points(
                new_kind@,
            ).len() ==> r@.len() == 0 && *final(self) == *old(self),
            crate::shapes::kind_snap_points(old_kind@).len() == crate::shapes::kind_snap_points(
                new_kind@,
            ).len() ==> {
                &&& final(self).state@.shapes == Map::new(
                    |k: u128| old(self).state@.shapes.contains_key(k),
                    |k: u128|
                        if resize_hit(
                            old(self).state@.shapes,
                            k,
                            resized_id.0,
                            crate::shapes::kind_snap_points(old_kind@),
                            crate::shapes::kind_snap_points(new_kind@),
                        ) {
                            resize_moved(
                                old(self).state@.shapes,
                                k,
                                resized_id.0,
                                crate::shapes::kind_snap_points(old_kind@),
                                crate::shapes::kind_snap_points(new_kind@),
                                old(self).next_stamp(),
                            )
                        } else {
                            old(self).state@.shapes[k]
                        },
                )
                &&& forall|x: u128|
                    #![auto]
                    sel_of(r@).contains(x) <==> (old(self).state@.shapes.contains_key(x)
                        && resize_hit(
                        old(self).state@.shapes,
                        x,
                        resized_id.0,
                        crate::shapes::kind_snap_points(old_kind@),
                        crate::shapes::kind_snap_points(new_kind@),
                    ))
                &&& final(self).state@.order == old(self).state@.order
                &&& final(self).state@.groups == old(self).state@.groups
                &&& final(self).state@.layers == old(self).state@.layers
                &&& final(self).state@.layer_order == old(self).state@.layer_order
                &&& final(self).dirty
            },
    {
        let olds = old_kind.snap_points();
        let news = new_kind.snap_points();
        if olds.len() != news.len() {
            return Vec::new();
        }
        let ghost m0 = self.state@.shapes;
        let ghost so = olds@;
        let ghost sn = news@;
        let stamp = Stamp { time: self.clock, actor: self.actor };
        // Collect the hit shapes.
        let mut hit: Vec<u128> = Vec::new();
        let n = self.state.shapes.entries.len();
        let mut i: usize = 0;
        while i < n
            invariant
                i <= n,
                self.wf(),
                self.actor == old(self).actor,
                olds@ == so,
                news@ == sn,
                n == self.state.shapes.entries@.len(),
                forall|a: int|
                    0 <= a < hit@.len() ==> {
                        &&& self.state@.shapes.contains_key(#[trigger] hit@[a])
                        &&& resize_hit(self.state@.shapes, hit@[a], resized_id.0, so, sn)
                    },
                forall|j: int|
                    0 <= j < i && (#[trigger] self.state.shapes.entries@[j]).1.val is Some
                        && resize_hit(
                        self.state@.shapes,
                        self.state.shapes.entries@[j].0,
                        resized_id.0,
                        so,
                        sn,
                    ) ==> hit@.contains(self.state.shapes.entries@[j].0),
                forall|a: int, b: int|
                    0 <= a < b < hit@.len() ==> (#[trigger] hit@[a]) != (#[trigger] hit@[b]),
                forall|a: int|
                    0 <= a < hit@.len() ==> exists|j: int|
                        0 <= j < i && (#[trigger] hit@[a]) == self.state.shapes.entries@[j].0,
            decreases n - i,
        {
            let key = self.state.shapes.entries[i].0;
            proof {
                crate::crdt::lemma_map_of_at(self.state.shapes.entry_views(), i as int);
            }
            let take = match &self.state.shapes.entries[i].1.val {
                Some(stored) => match stored.kind.resize_connected_endpoints(
                    resized_id.0,
                    &olds,
                    &news,
                ) {
                    Some(nk) => nk.is_bounded(),
                    None => false,
                },
                None => false,
            };
            if take {
                proof {
                    assert forall|a: int| 0 <= a < hit@.len() implies (#[trigger] hit@[a])
                        != key by {
                        let j = choose|j: int|
                            0 <= j < i && hit@[a] == (#[trigger] self.state.shapes.entries@[j].0);
                        assert(self.state.shapes.entry_views()[j].0
                            != self.state.shapes.entry_views()[i as int].0);
                    }
                }
                let ghost pre_hit = hit@;
                hit.push(key);
                proof {
                    assert forall|j: int|
                        0 <= j < i + 1 && (#[trigger] self.state.shapes.entries@[j]).1.val is Some
                            && resize_hit(
                            self.state@.shapes,
                            self.state.shapes.entries@[j].0,
                            resized_id.0,
                            so,
                            sn,
                        ) implies hit@.contains(self.state.shapes.entries@[j].0) by {
                        if j < i {
                            let x = pre_hit.index_of(self.state.shapes.entries@[j].0);
                            assert(pre_hit[x] == self.state.shapes.entries@[j].0);
                            assert(hit@[x] == self.state.shapes.entries@[j].0);
                        } else {
                            assert(hit@[hit@.len() - 1] == key);
                        }
                    }
                }
            } else {
                proof {
                    assert forall|j: int|
                        0 <= j < i + 1 && (#[trigger] self.state.shapes.entries@[j]).1.val is Some
                            && resize_hit(
                            self.state@.shapes,
                            self.state.shapes.entries@[j].0,
                            resized_id.0,
                            so,
                            sn,
                        ) implies hit@.contains(self.state.shapes.entries@[j].0) by {}
                }
            }
            i = i + 1;
        }
        let ghost hit_ids = hit@;
        proof {
            assert forall|k: u128|
                m0.contains_key(k) && resize_hit(m0, k, resized_id.0, so, sn)
                    implies hit_ids.contains(k) by {
                crate::crdt::lemma_map_of_index(self.state.shapes.entry_views(), k);
                let j = choose|j: int|
                    0 <= j < self.state.shapes.entry_views().len() && (
                    #[trigger] self.state.shapes.entry_views()[j]).0 == k;
                crate::crdt::lemma_map_of_at(self.state.shapes.entry_views(), j);
                assert(self.state.shapes.entries@[j].1.val is Some);
            }
        }
        // Rewrite them.
        let nh = hit.len();
        let mut c: usize = 0;
        proof {
            assert(self.state@.shapes =~= Map::new(
                |k: u128| m0.contains_key(k),
                |k: u128|
                    if hit_ids.take(0).contains(k) {
                        resize_moved(m0, k, resized_id.0, so, sn, stamp)
                    } else {
                        m0[k]
                    },
            ));
        }
        while c < nh
            invariant
                c <= nh,
                nh == hit_ids.len(),
                hit@ == hit_ids,
                self.actor == old(self).actor,
                olds@ == so,
                news@ == sn,
                self.state.shapes.wf(),
                self.state.order == old(self).state.order,
                self.state.groups == old(self).state.groups,
                self.state.layers == old(self).state.layers,
                self.state.layer_order == old(self).state.layer_order,
                forall|x: int|
                    0 <= x < hit_ids.len() ==> {
                        &&& m0.contains_key(#[trigger] hit_ids[x])
                        &&& resize_hit(m0, hit_ids[x], resized_id.0, so, sn)
                        &&& kind_bounded(m0[hit_ids[x]].val->0.kind)
                    },
                forall|x: int, y: int|
                    0 <= x < y < hit_ids.len() ==> (#[trigger] hit_ids[x]) != (
                    #[trigger] hit_ids[y]),
                self.state@.shapes == Map::new(
                    |k: u128| m0.contains_key(k),
                    |k: u128|
                        if hit_ids.take(c as int).contains(k) {
                            resize_moved(m0, k, resized_id.0, so, sn, stamp)
                        } else {
                            m0[k]
                        },
                ),
            decreases nh - c,
        {
            let key = hit[c];
            proof {
                assert(key == hit_ids[c as int]);
                assert(!hit_ids.take(c as int).contains(key)) by {
                    if hit_ids.take(c as int).contains(key) {
                        let x = hit_ids.take(c as int).index_of(key);
                        assert(hit_ids.take(c as int)[x] == key);
                        assert(hit_ids[x] != hit_ids[c as int]);
                    }
                }
            }
            let nk = match self.state.shapes.get(key) {
                Some(reg) => match &reg.val {
                    Some(stored) => match stored.kind.resize_connected_endpoints(
                        resized_id.0,
                        &olds,
                        &news,
                    ) {
                        Some(nk) => nk,
                        None => {
                            proof {
                                assert(false);
                            }
                            stored.kind.duplicate()
                        },
                    },
                    None => {
                        proof {
                            assert(false);
                        }
                        ShapeKind::Text {
                            pos: Position { x: 0, y: 0 },
                            content: String::new(),
                            color: crate::shapes::ShapeColor::White,
                        }
                    },
                },
                None => {
                    proof {
                        assert(false);
                    }
                    ShapeKind::Text {
                        pos: Position { x: 0, y: 0 },
                        content: String::new(),
                        color: crate::shapes::ShapeColor::White,
                    }
                },
            };
            self.state.shapes.put(
                key,
                Reg { stamp, val: Some(StoredShape { kind: nk, layer: None, group: None }) },
            );
            proof {
                let target = Map::new(
                    |k: u128| m0.contains_key(k),
                    |k: u128|
                        if hit_ids.take(c + 1).contains(k) {
                            resize_moved(m0, k, resized_id.0, so, sn, stamp)
                        } else {
                            m0[k]
                        },
                );
                assert forall|k: u128| #[trigger]
                    target.contains_key(k) implies self.state@.shapes.contains_key(k)
                    && self.state@.shapes[k] == target[k] by {
                    if hit_ids.take(c + 1).contains(k) {
                        let x = hit_ids.take(c + 1).index_of(k);
                        assert(hit_ids.take(c + 1)[x] == k);
                        if x < c {
                            assert(hit_ids.take(c as int)[x] == k);
                            assert(hit_ids.take(c as int).contains(k));
                            assert(k != key);
                        } else {
                            assert(k == key);
                        }
                    } else {
                        assert(!hit_ids.take(c as int).contains(k)) by {
                            if hit_ids.take(c as int).contains(k) {
                                let x = hit_ids.take(c as int).index_of(k);
                                assert(hit_ids.take(c as int)[x] == k);
                                assert(hit_ids.take(c + 1)[x] == k);
                            }
                        }
                        assert(k != key) by {
                            if k == key {
                                assert(hit_ids.take(c + 1)[c as int] == k);
                            }
                        }
                    }
                }
                assert forall|k: u128| #[trigger]
                    self.state@.shapes.contains_key(k) implies target.contains_key(k) by {}
                assert(self.state@.shapes =~= target);
            }
            c = c + 1;
        }
        proof {
            assert(hit_ids.take(nh as int) =~= hit_ids);
        }
        self.tick();
        self.touch();
        let r = wrap_ids(&hit);
        proof {
            assert forall|x: u128|
                #![auto]
                sel_of(r@).contains(x) <==> (m0.contains_key(x) && resize_hit(
                    m0,
                    x,
                    resized_id.0,
                    so,
                    sn,
                )) by {
                if sel_of(r@).contains(x) {
                    assert(hit_ids.contains(x));
                    let a = hit_ids.index_of(x);
                    assert(hit_ids[a] == x);
                }
                if m0.contains_key(x) && resize_hit(m0, x, resized_id.0, so, sn) {
                    assert(hit_ids.contains(x));
                }
            }
        }
        r
    }
}

/// Maximum undo history depth.
pub const MAX_UNDO_HISTORY: usize = 50;

/// The views of a stack of byte strings.
pub open spec fn stack_views(st: Seq<Vec<u8>>) -> Seq<Seq<u8>> {
    st.map_values(|v: Vec<u8>| v@)
}

/// The shapes map after a snapshot is restored: every shape present in
/// the snapshot map is rewritten with the restore stamp, every other
/// present shape becomes a tombstone, and old tombstones are left alone.
pub open spec fn snap_restore(
    m: Map<u128, RegV<StoredShapeV>>,
    sm: Map<u128, RegV<StoredShapeV>>,
    t: Stamp,
) -> Map<u128, RegV<StoredShapeV>> {
    Map::new(
        |k: u128| m.contains_key(k) || (sm.contains_key(k) && sm[k].val is Some),
        |k: u128|
            if sm.contains_key(k) && sm[k].val is Some {
                RegV { stamp: t, val: sm[k].val }
            } else if m[k].val is Some {
                RegV { stamp: t, val: None }
            } else {
                m[k]
            },
    )
}

/// The shape content a shapes map denotes: the present records.
pub open spec fn shapes_content(m: Map<u128, RegV<StoredShapeV>>) -> Map<u128, StoredShapeV> {
    Map::new(
        |k: u128| m.contains_key(k) && m[k].val is Some,
        |k: u128| m[k].val->0,
    )
}

/// Undo restores exactly: whatever was done to the shapes map since a
/// snapshot was taken, restoring the snapshot brings the shape content
/// back to what it was.
pub proof fn lemma_restore_exact(
    snap: Map<u128, RegV<StoredShapeV>>,
    cur: Map<u128, RegV<StoredShapeV>>,
    t: Stamp,
)
    ensures
        shapes_content(snap_restore(cur, snap, t)) == shapes_content(snap),
{
    assert(shapes_content(snap_restore(cur, snap, t)) =~= shapes_content(snap));
}

impl Document {
    /// Serialize the current shape set.
    fn snapshot_shapes(&self) -> (r: Vec<u8>)
        ensures
            r@ == crate::sync::enc_section_stored(self.state.shapes.entry_views()),
    {
        let mut out: Vec<u8> = Vec::new();
        crate::sync::write_section_stored(&mut out, &self.state.shapes);
        out
    }

    /// Push the current shape set onto the undo stack, clear the redo
    /// stack, and trim the history to its bounded depth by dropping the
    /// oldest checkpoints.
    pub fn push_undo_checkpoint(&mut self)
        requires
            old(self).wf(),
        ensures
            final(self).wf(),
            final(self).state == old(self).state,
            final(self).actor == old(self).actor,
            final(self).redo_stack@.len() == 0,
            final(self).dirty,
            stack_views(final(self).undo_stack@) == ({
                let snap = crate::sync::enc_section_stored(old(self).state.shapes.entry_views());
                let pushed = stack_views(old(self).undo_stack@).push(snap);
                if pushed.len() <= MAX_UNDO_HISTORY {
                    pushed
                } else {
                    pushed.skip(pushed.len() - MAX_UNDO_HISTORY)
                }
            }),
    {
        let snap = self.snapshot_shapes();
        self.redo_stack = Vec::new();
        let ghost base = stack_views(old(self).undo_stack@);
        self.undo_stack.push(snap);
        let ghost pushed = base.push(
            crate::sync::enc_section_stored(old(self).state.shapes.entry_views()),
        );
        proof {
            assert(stack_views(self.undo_stack@) =~= pushed);
            assert(pushed.skip(0) =~= pushed);
        }
        let ghost mut dropped: int = 0;
        while self.undo_stack.len() > MAX_UNDO_HISTORY
            invariant
                0 <= dropped,
                dropped <= pushed.len(),
                stack_views(self.undo_stack@) == pushed.skip(dropped),
                self.undo_stack@.len() == pushed.len() - dropped,
                pushed.len() - dropped >= MAX_UNDO_HISTORY || dropped == 0,
                self.state == old(self).state,
                self.actor == old(self).actor,
                self.redo_stack@.len() == 0,
            decreases self.undo_stack@.len(),
        {
            let ghost pre = self.undo_stack@;
            let _ = self.undo_stack.remove(0);
            proof {
                assert(self.undo_stack@ =~= pre.subrange(1, pre.len() as int));
                assert forall|j: int| 0 <= j < self.undo_stack@.len() implies stack_views(
                    self.undo_stack@,
                )[j] == pushed.skip(dropped + 1)[j] by {
                    assert(self.undo_stack@[j] == pre[j + 1]);
                    assert(stack_views(pre)[j + 1] == pre[j + 1]@);
                    assert(stack_views(pre)[j + 1] == pushed.skip(dropped)[j + 1]);
                }
                assert(stack_views(self.undo_stack@) =~= pushed.skip(dropped + 1));
                dropped = dropped + 1;
            }
        }
        self.dirty = true;
        proof {
            if pushed.len() <= MAX_UNDO_HISTORY {
                assert(dropped == 0);
                assert(stack_views(self.undo_stack@) == pushed);
            } else {
                assert(dropped == pushed.len() - MAX_UNDO_HISTORY);
            }
        }
    }

    /// Replace the whole shape set with a decoded snapshot (internal
    /// restore helper).
    fn restore_shapes(&mut self, snap: LwwMap<StoredShape>)
        requires
            old(self).wf(),
            snap.wf(),
            shapes_bounded(snap@),
        ensures
            final(self).wf(),
            final(self).actor == old(self).actor,
            final(self).state@.shapes == snap_restore(
                old(self).state@.shapes,
                snap@,
                old(self).next_stamp(),
            ),
            final(self).state@.order == old(self).state@.order,
            final(self).state@.groups == old(self).state@.groups,
            final(self).state@.layers == old(self).state@.layers,
            final(self).state@.layer_order == old(self).state@.layer_order,
            final(self).undo_stack == old(self).undo_stack,
            final(self).redo_stack == old(self).redo_stack,
            final(self).dirty,
    {
        let ghost m0 = self.state@.shapes;
        let ghost sm = snap@;
        let stamp = Stamp { time: self.clock, actor: self.actor };
        // Collect present shapes that are absent from the snapshot.
        let mut stale: Vec<u128> = Vec::new();
        let n = self.state.shapes.entries.len();
        let mut i: usize = 0;
        while i < n
            invariant
                i <= n,
                self.wf(),
                self.actor == old(self).actor,
                snap.wf(),
                sm == snap@,
                shapes_bounded(sm),
                n == self.state.shapes.entries@.len(),
                forall|a: int|
                    0 <= a < stale@.len() ==> {
                        &&& self.state@.shapes.contains_key(#[trigger] stale@[a])
                        &&& self.state@.shapes[stale@[a]].val is Some
                        &&& !(sm.contains_key(stale@[a]) && sm[stale@[a]].val is Some)
                    },
                forall|j: int|
                    0 <= j < i && (#[trigger] self.state.shapes.entries@[j]).1.val is Some && !(
                    sm.contains_key(self.state.shapes.entries@[j].0)
                        && sm[self.state.shapes.entries@[j].0].val is Some) ==> stale@.contains(
                        self.state.shapes.entries@[j].0,
                    ),
                forall|a: int, b: int|
                    0 <= a < b < stale@.len() ==> (#[trigger] stale@[a]) != (#[trigger] stale@[b]),
                forall|a: int|
                    0 <= a < stale@.len() ==> exists|j: int|
                        0 <= j < i && (#[trigger] stale@[a]) == self.state.shapes.entries@[j].0,
            decreases n - i,
        {
            let key = self.state.shapes.entries[i].0;
            let keep = match &self.state.shapes.entries[i].1.val {
                Some(_) => {
                    let in_snap = match snap.get(key) {
                        Some(reg) => match &reg.val {
                            Some(_) => true,
                            None => false,
                        },
                        None => false,
                    };
                    in_snap
                },
                None => true,
            };
            if !keep {
                proof {
                    crate::crdt::lemma_map_of_at(self.state.shapes.entry_views(), i as int);
                    assert forall|a: int| 0 <= a < stale@.len() implies (#[trigger] stale@[a])
                        != key by {
                        let j = choose|j: int|
                            0 <= j < i && stale@[a] == (
                            #[trigger] self.state.shapes.entries@[j].0);
                        assert(self.state.shapes.entry_views()[j].0
                            != self.state.shapes.entry_views()[i as int].0);
                    }
                }
                let ghost pre_stale = stale@;
                stale.push(key);
                proof {
                    assert forall|j: int|
                        0 <= j < i + 1 && (#[trigger] self.state.shapes.entries@[j]).1.val is Some
                            && !(sm.contains_key(self.state.shapes.entries@[j].0)
                            && sm[self.state.shapes.entries@[j].0].val
                            is Some) implies stale@.contains(self.state.shapes.entries@[j].0) by {
                        if j < i {
                            let x = pre_stale.index_of(self.state.shapes.entries@[j].0);
                            assert(pre_stale[x] == self.state.shapes.entries@[j].0);
                            assert(stale@[x] == self.state.shapes.entries@[j].0);
                        } else {
                            assert(stale@[stale@.len() - 1] == key);
                        }
                    }
                }
            } else {
                proof {
                    crate::crdt::lemma_map_of_at(self.state.shapes.entry_views(), i as int);
                    assert forall|j: int|
                        0 <= j < i + 1 && (#[trigger] self.state.shapes.entries@[j]).1.val is Some
                            && !(sm.contains_key(self.state.shapes.entries@[j].0)
                            && sm[self.state.shapes.entries@[j].0].val
                            is Some) implies stale@.contains(self.state.shapes.entries@[j].0) by {}
                }
            }
            i = i + 1;
        }
        let ghost stale_ids = stale@;
        proof {
            assert forall|k: u128|
                m0.contains_key(k) && (#[trigger] m0[k]).val is Some && !(sm.contains_key(k)
                    && sm[k].val is Some) implies stale_ids.contains(k) by {
                crate::crdt::lemma_map_of_index(self.state.shapes.entry_views(), k);
                let j = choose|j: int|
                    0 <= j < self.state.shapes.entry_views().len() && (
                    #[trigger] self.state.shapes.entry_views()[j]).0 == k;
                crate::crdt::lemma_map_of_at(self.state.shapes.entry_views(), j);
                assert(self.state.shapes.entries@[j].1.val is Some);
            }
            assert(forall|x: int|
                0 <= x < stale_ids.len() ==> m0.contains_key(#[trigger] stale_ids[x])
                    && m0[stale_ids[x]].val is Some && !(sm.contains_key(stale_ids[x])
                    && sm[stale_ids[x]].val is Some));
        }
        // Tombstone them.
        let ns = stale.len();
        let mut a: usize = 0;
        proof {
            assert(self.state@.shapes =~= Map::new(
                |k: u128| m0.contains_key(k),
                |k: u128|
                    if stale_ids.take(0).contains(k) {
                        RegV { stamp, val: None }
                    } else {
                        m0[k]
                    },
            ));
        }
        while a < ns
            invariant
                a <= ns,
                ns == stale_ids.len(),
                stale@ == stale_ids,
                self.actor == old(self).actor,
                self.state.shapes.wf(),
                self.state.order == old(self).state.order,
                self.state.groups == old(self).state.groups,
                self.state.layers == old(self).state.layers,
                self.state.layer_order == old(self).state.layer_order,
                self.undo_stack == old(self).undo_stack,
                self.redo_stack == old(self).redo_stack,
                forall|x: int|
                    0 <= x < stale_ids.len() ==> m0.contains_key(#[trigger] stale_ids[x]),
                self.state@.shapes == Map::new(
                    |k: u128| m0.contains_key(k),
                    |k: u128|
                        if stale_ids.take(a as int).contains(k) {
                            RegV { stamp, val: None }
                        } else {
                            m0[k]
                        },
                ),
            decreases ns - a,
        {
            let key = stale[a];
            self.state.shapes.put(key, Reg { stamp, val: None });
            proof {
                assert(key == stale_ids[a as int]);
                assert(m0.contains_key(key));
                let target = Map::new(
                    |k: u128| m0.contains_key(k),
                    |k: u128|
                        if stale_ids.take(a + 1).contains(k) {
                            RegV { stamp, val: None }
                        } else {
                            m0[k]
                        },
                );
                assert forall|k: u128| #[trigger]
                    target.contains_key(k) implies self.state@.shapes.contains_key(k)
                    && self.state@.shapes[k] == target[k] by {
                    if stale_ids.take(a + 1).contains(k) {
                        let x = stale_ids.take(a + 1).index_of(k);
                        assert(stale_ids.take(a + 1)[x] == k);
                        if x < a {
                            assert(stale_ids.take(a as int)[x] == k);
                            assert(stale_ids.take(a as int).contains(k));
                        } else {
                            assert(k == key);
                        }
                    } else {
                        assert(!stale_ids.take(a as int).contains(k)) by {
                            if stale_ids.take(a as int).contains(k) {
                                let x = stale_ids.take(a as int).index_of(k);
                                assert(stale_ids.take(a as int)[x] == k);
                                assert(stale_ids.take(a + 1)[x] == k);
                            }
                        }
                        assert(k != key) by {
                            if k == key {
                                assert(stale_ids.take(a + 1)[a as int] == k);
                            }
                        }
                    }
                }
                assert forall|k: u128| #[trigger]
                    self.state@.shapes.contains_key(k) implies target.contains_key(k) by {}
                assert(self.state@.shapes =~= target);
            }
            a = a + 1;
        }
        proof {
            assert(stale_ids.take(ns as int) =~= stale_ids);
        }
        // Write the snapshot's present shapes with the restore stamp.
        let ghost m1 = self.state@.shapes;
        let no = snap.entries.len();
        let mut b: usize = 0;
        proof {
            assert(self.state@.shapes =~= Map::new(
                |k: u128| m1.contains_key(k) || (exists|j: int|
                    0 <= j < 0 && (#[trigger] snap.entry_views()[j]).0 == k),
                |k: u128| m1[k],
            ));
        }
        while b < no
            invariant
                b <= no,
                no == snap.entries@.len(),
                snap.wf(),
                sm == snap@,
                shapes_bounded(sm),
                self.actor == old(self).actor,
                self.state.shapes.wf(),
                self.state.order == old(self).state.order,
                self.state.groups == old(self).state.groups,
                self.state.layers == old(self).state.layers,
                self.state.layer_order == old(self).state.layer_order,
                self.undo_stack == old(self).undo_stack,
                self.redo_stack == old(self).redo_stack,
                self.state@.shapes == Map::new(
                    |k: u128| m1.contains_key(k) || (exists|j: int|
                        0 <= j < b && (#[trigger] snap.entry_views()[j]).0 == k
                            && snap.entry_views()[j].1.val is Some),
                    |k: u128|
                        if exists|j: int|
                            0 <= j < b && (#[trigger] snap.entry_views()[j]).0 == k
                                && snap.entry_views()[j].1.val is Some {
                            RegV { stamp, val: sm[k].val }
                        } else {
                            m1[k]
                        },
                ),
            decreases no - b,
        {
            let key = snap.entries[b].0;
            proof {
                crate::crdt::lemma_map_of_at(snap.entry_views(), b as int);
            }
            match &snap.entries[b].1.val {
                Some(stored) => {
                    let copy = StoredShape {
                        kind: stored.kind.duplicate(),
                        layer: stored.layer,
                        group: stored.group,
                    };
                    proof {
                        assert(sm[key].val == Some(stored@));
                        assert(copy@ == stored@);
                    }
                    self.state.shapes.put(key, Reg { stamp, val: Some(copy) });
                    proof {
                        let target = Map::new(
                            |k: u128| m1.contains_key(k) || (exists|j: int|
                                0 <= j < b + 1 && (#[trigger] snap.entry_views()[j]).0 == k
                                    && snap.entry_views()[j].1.val is Some),
                            |k: u128|
                                if exists|j: int|
                                    0 <= j < b + 1 && (#[trigger] snap.entry_views()[j]).0 == k
                                        && snap.entry_views()[j].1.val is Some {
                                    RegV { stamp, val: sm[k].val }
                                } else {
                                    m1[k]
                                },
                        );
                        assert forall|k: u128| #[trigger]
                            target.contains_key(k) implies self.state@.shapes.contains_key(k)
                            && self.state@.shapes[k] == target[k] by {
                            if k == key {
                                assert(snap.entry_views()[b as int].0 == k
                                    && snap.entry_views()[b as int].1.val is Some);
                            } else {
                                if exists|j: int|
                                    0 <= j < b + 1 && (#[trigger] snap.entry_views()[j]).0 == k
                                        && snap.entry_views()[j].1.val is Some {
                                    let j = choose|j: int|
                                        0 <= j < b + 1 && (#[trigger] snap.entry_views()[j]).0 == k
                                            && snap.entry_views()[j].1.val is Some;
                                    assert(j < b);
                                }
                            }
                        }
                        assert forall|k: u128| #[trigger]
                            self.state@.shapes.contains_key(k) implies target.contains_key(k) by {
                            if k == key {
                                assert(snap.entry_views()[b as int].0 == k
                                    && snap.entry_views()[b as int].1.val is Some);
                            }
                        }
                        assert(self.state@.shapes =~= target);
                    }
                },
                None => {
                    proof {
                        let target = Map::new(
                            |k: u128| m1.contains_key(k) || (exists|j: int|
                                0 <= j < b + 1 && (#[trigger] snap.entry_views()[j]).0 == k
                                    && snap.entry_views()[j].1.val is Some),
                            |k: u128|
                                if exists|j: int|
                                    0 <= j < b + 1 && (#[trigger] snap.entry_views()[j]).0 == k
                                        && snap.entry_views()[j].1.val is Some {
                                    RegV { stamp, val: sm[k].val }
                                } else {
                                    m1[k]
                                },
                        );
                        assert forall|k: u128| #[trigger]
                            target.contains_key(k) implies self.state@.shapes.contains_key(k)
                            && self.state@.shapes[k] == target[k] by {
                            if exists|j: int|
                                0 <= j < b + 1 && (#[trigger] snap.entry_views()[j]).0 == k
                                    && snap.entry_views()[j].1.val is Some {
                                let j = choose|j: int|
                                    0 <= j < b + 1 && (#[trigger] snap.entry_views()[j]).0 == k
                                        && snap.entry_views()[j].1.val is Some;
                                if j == b {
                                    assert(false);
                                }
                            }
                        }
                        assert forall|k: u128| #[trigger]
                            self.state@.shapes.contains_key(k) implies target.contains_key(k) by {}
                        assert(self.state@.shapes =~= target);
                    }
                },
            }
            b = b + 1;
        }
        self.tick();
        self.touch();
        proof {
            let target = snap_restore(m0, sm, stamp);
            assert forall|k: u128| #[trigger]
                target.contains_key(k) implies self.state@.shapes.contains_key(k)
                && self.state@.shapes[k] == target[k] by {
                if sm.contains_key(k) && sm[k].val is Some {
                    crate::crdt::lemma_map_of_index(snap.entry_views(), k);
                    let j = choose|j: int|
                        0 <= j < snap.entry_views().len() && (
                        #[trigger] snap.entry_views()[j]).0 == k;
                    crate::crdt::lemma_map_of_at(snap.entry_views(), j);
                    assert(snap.entry_views()[j].1.val is Some);
                } else {
                    assert forall|j: int|
                        0 <= j < snap.entry_views().len() && (
                        #[trigger] snap.entry_views()[j]).0 == k implies !(snap.entry_views()[j].1.val
                        is Some) by {
                        crate::crdt::lemma_map_of_at(snap.entry_views(), j);
                    }
                    if m0.contains_key(k) && m0[k].val is Some {
                        assert(stale_ids.contains(k));
                    } else {
                        assert(!stale_ids.contains(k));
                    }
                }
            }
            assert forall|k: u128| #[trigger]
                self.state@.shapes.contains_key(k) implies target.contains_key(k) by {
                if !m1.contains_key(k) && !m0.contains_key(k) {
                    let j = choose|j: int|
                        0 <= j < no && (#[trigger] snap.entry_views()[j]).0 == k
                            && snap.entry_views()[j].1.val is Some;
                    crate::crdt::lemma_map_of_at(snap.entry_views(), j);
                }
            }
            assert(self.state@.shapes =~= target);
        }
    }
}

impl Document {
    /// Undo: pop the last checkpoint, push the current shape set onto the
    /// redo stack, and restore the checkpointed shape set wholesale.
    /// `Ok(false)` when there is nothing to undo; a checkpoint that does
    /// not decode is reported and nothing changes.
    pub fn global_undo(&mut self) -> (r: Result<bool, StoreError>)
        requires
            old(self).wf(),
        ensures
            final(self).wf(),
            final(self).actor == old(self).actor,
            match r {
                Ok(false) => old(self).undo_stack@.len() == 0 && *final(self) == *old(self),
                Ok(true) => {
                    &&& old(self).undo_stack@.len() > 0
                    &&& (match crate::sync::sd_section_stored(
                        old(self).undo_stack@.last()@,
                        0,
                    ) {
                        Some((es, q)) => {
                            &&& q == old(self).undo_stack@.last()@.len()
                            &&& final(self).state@.shapes == snap_restore(
                                old(self).state@.shapes,
                                crate::crdt::map_of(es),
                                old(self).next_stamp(),
                            )
                        },
                        None => false,
                    })
                    &&& final(self).state@.order == old(self).state@.order
                    &&& final(self).state@.groups == old(self).state@.groups
                    &&& final(self).state@.layers == old(self).state@.layers
                    &&& final(self).state@.layer_order == old(self).state@.layer_order
                    &&& final(self).undo_stack@ == old(self).undo_stack@.drop_last()
                    &&& stack_views(final(self).redo_stack@) == stack_views(
                        old(self).redo_stack@,
                    ).push(crate::sync::enc_section_stored(old(self).state.shapes.entry_views()))
                    &&& final(self).dirty
                },
                Err(e) => {
                    &&& e == StoreError::Corrupt
                    &&& old(self).undo_stack@.len() > 0
                    &&& *final(self) == *old(self)
                    &&& (match crate::sync::sd_section_stored(
                        old(self).undo_stack@.last()@,
                        0,
                    ) {
                        Some((es, q)) => q != old(self).undo_stack@.last()@.len(),
                        None => true,
                    })
                },
            },
    {
        if self.undo_stack.len() == 0 {
            return Ok(false);
        }
        let last = self.undo_stack.len() - 1;
        let snapmap = match crate::sync::read_section_stored(&self.undo_stack[last], 0) {
            Some((m, q)) => {
                if q != self.undo_stack[last].len() {
                    return Err(StoreError::Corrupt);
                }
                m
            },
            None => {
                return Err(StoreError::Corrupt);
            },
        };
        let cur = self.snapshot_shapes();
        let ghost pre_redo = stack_views(self.redo_stack@);
        let _ = self.undo_stack.pop();
        self.redo_stack.push(cur);
        proof {
            assert(stack_views(self.redo_stack@) =~= pre_redo.push(
                crate::sync::enc_section_stored(old(self).state.shapes.entry_views()),
            ));
        }
        self.restore_shapes(snapmap);
        Ok(true)
    }

    /// Redo: the mirror of `global_undo`.
    pub fn global_redo(&mut self) -> (r: Result<bool, StoreError>)
        requires
            old(self).wf(),
        ensures
            final(self).wf(),
            final(self).actor == old(self).actor,
            match r {
                Ok(false) => old(self).redo_stack@.len() == 0 && *final(self) == *old(self),
                Ok(true) => {
                    &&& old(self).redo_stack@.len() > 0
                    &&& (match crate::sync::sd_section_stored(
                        old(self).redo_stack@.last()@,
                        0,
                    ) {
                        Some((es, q)) => {
                            &&& q == old(self).redo_stack@.last()@.len()
                            &&& final(self).state@.shapes == snap_restore(
                                old(self).state@.shapes,
                                crate::crdt::map_of(es),
                                old(self).next_stamp(),
                            )
                        },
                        None => false,
                    })
                    &&& final(self).state@.order == old(self).state@.order
                    &&& final(self).state@.groups == old(self).state@.groups
                    &&& final(self).state@.layers == old(self).state@.layers
                    &&& final(self).state@.layer_order == old(self).state@.layer_order
                    &&& final(self).redo_stack@ == old(self).redo_stack@.drop_last()
                    &&& stack_views(final(self).undo_stack@) == stack_views(
                        old(self).undo_stack@,
                    ).push(crate::sync::enc_section_stored(old(self).state.shapes.entry_views()))
                    &&& final(self).dirty
                },
                Err(e) => {
                    &&& e == StoreError::Corrupt
                    &&& old(self).redo_stack@.len() > 0
                    &&& *final(self) == *old(self)
                    &&& (match crate::sync::sd_section_stored(
                        old(self).redo_stack@.last()@,
                        0,
                    ) {
                        Some((es, q)) => q != old(self).redo_stack@.last()@.len(),
                        None => true,
                    })
                },
            },
    {
        if self.redo_stack.len() == 0 {
            return Ok(false);
        }
        let last = self.redo_stack.len() - 1;
        let snapmap = match crate::sync::read_section_stored(&self.redo_stack[last], 0) {
            Some((m, q)) => {
                if q != self.redo_stack[last].len() {
                    return Err(StoreError::Corrupt);
                }
                m
            },
            None => {
                return Err(StoreError::Corrupt);
            },
        };
        let cur = self.snapshot_shapes();
        let ghost pre_undo = stack_views(self.undo_stack@);
        let _ = self.redo_stack.pop();
        self.undo_stack.push(cur);
        proof {
            assert(stack_views(self.undo_stack@) =~= pre_undo.push(
                crate::sync::enc_section_stored(old(self).state.shapes.entry_views()),
            ));
        }
        self.restore_shapes(snapmap);
        Ok(true)
    }

    /// Clear undo and redo history (e.g. on a new document).
    pub fn clear_undo_history(&mut self)
        requires
            old(self).wf(),
        ensures
            final(self).wf(),
            final(self).state == old(self).state,
            final(self).actor == old(self).actor,
            final(self).undo_stack@.len() == 0,
            final(self).redo_stack@.len() == 0,
    {
        self.undo_stack = Vec::new();
        self.redo_stack = Vec::new();
    }
}

impl Document {
    /// Read the layer order: ids of present layer-order entries, bottom
    /// to top.
    pub fn read_layer_order(&self) -> (r: Vec<LayerId>)
        requires
            self.wf(),
        ensures
            is_order_seq(self.state@.layer_order, r@.map_values(|x: LayerId| x.0)),
    {
        let mut pairs: Vec<(i128, u128)> = Vec::new();
        let n = self.state.layer_order.entries.len();
        let mut i: usize = 0;
        while i < n
            invariant
                i <= n,
                self.wf(),
                n == self.state.layer_order.entries@.len(),
                sorted_pairs(pairs@),
                forall|a: int|
                    0 <= a < pairs@.len() ==> exists|j: int|
                        0 <= j < i && (#[trigger] pairs@[a]).1
                            == self.state.layer_order.entries@[j].0
                            && self.state.layer_order.entries@[j].1.val == Some(pairs@[a].0),
                forall|j: int|
                    0 <= j < i && (#[trigger] self.state.layer_order.entries@[j]).1.val is Some
                        ==> pairs@.contains(
                        (
                            self.state.layer_order.entries@[j].1.val->0,
                            self.state.layer_order.entries@[j].0,
                        ),
                    ),
            decreases n - i,
        {
            let key = self.state.layer_order.entries[i].0;
            match &self.state.layer_order.entries[i].1.val {
                Some(z) => {
                    let ghost pre = pairs@;
                    proof {
                        assert forall|a: int| 0 <= a < pairs@.len() implies (
                        #[trigger] pairs@[a]).1 != key by {
                            let j = choose|j: int|
                                0 <= j < i && pairs@[a].1 == (
                                #[trigger] self.state.layer_order.entries@[j].0)
                                    && self.state.layer_order.entries@[j].1.val == Some(
                                    pairs@[a].0,
                                );
                            assert(self.state.layer_order.entry_views()[j].0
                                != self.state.layer_order.entry_views()[i as int].0);
                        }
                    }
                    sorted_insert(&mut pairs, (*z, key));
                    proof {
                        assert forall|a: int| 0 <= a < pairs@.len() implies exists|j: int|
                            0 <= j < i + 1 && (#[trigger] pairs@[a]).1
                                == self.state.layer_order.entries@[j].0
                                && self.state.layer_order.entries@[j].1.val == Some(
                                pairs@[a].0,
                            ) by {
                            assert(pairs@.contains(pairs@[a]));
                            if pre.contains(pairs@[a]) {
                                let b = choose|b: int| 0 <= b < pre.len() && pre[b] == pairs@[a];
                                let j = choose|j: int|
                                    0 <= j < i && (#[trigger] pre[b]).1
                                        == self.state.layer_order.entries@[j].0
                                        && self.state.layer_order.entries@[j].1.val == Some(
                                        pre[b].0,
                                    );
                                assert(0 <= j < i + 1 && pairs@[a].1
                                    == self.state.layer_order.entries@[j].0
                                    && self.state.layer_order.entries@[j].1.val == Some(
                                    pairs@[a].0,
                                ));
                            } else {
                                assert(pairs@[a] == (*z, key));
                                assert(0 <= i < i + 1 && pairs@[a].1
                                    == self.state.layer_order.entries@[i as int].0
                                    && self.state.layer_order.entries@[i as int].1.val == Some(
                                    pairs@[a].0,
                                ));
                            }
                        }
                        assert forall|j: int|
                            0 <= j < i + 1 && (
                            #[trigger] self.state.layer_order.entries@[j]).1.val
                                is Some implies pairs@.contains(
                            (
                                self.state.layer_order.entries@[j].1.val->0,
                                self.state.layer_order.entries@[j].0,
                            ),
                        ) by {
                            if j < i {
                                assert(pre.contains(
                                    (
                                        self.state.layer_order.entries@[j].1.val->0,
                                        self.state.layer_order.entries@[j].0,
                                    ),
                                ));
                            }
                        }
                    }
                },
                None => {},
            }
            i = i + 1;
        }
        let mut out: Vec<LayerId> = Vec::new();
        let np = pairs.len();
        let mut a: usize = 0;
        while a < np
            invariant
                a <= np,
                np == pairs@.len(),
                out@.len() == a,
                forall|b: int| 0 <= b < a ==> (#[trigger] out@[b]).0 == pairs@[b].1,
            decreases np - a,
        {
            out.push(LayerId(pairs[a].1));
            a = a + 1;
        }
        proof {
            let ids = out@.map_values(|x: LayerId| x.0);
            let m = self.state@.layer_order;
            assert forall|i2: int| 0 <= i2 < ids.len() implies m.contains_key(#[trigger] ids[i2])
                && m[ids[i2]].val is Some by {
                assert(ids[i2] == pairs@[i2].1);
                let j = choose|j: int|
                    0 <= j < n && (#[trigger] pairs@[i2]).1 == self.state.layer_order.entries@[j].0
                        && self.state.layer_order.entries@[j].1.val == Some(pairs@[i2].0);
                crate::crdt::lemma_map_of_at(self.state.layer_order.entry_views(), j);
            }
            assert forall|k: u128|
                m.contains_key(k) && (#[trigger] m[k]).val is Some implies ids.contains(k) by {
                crate::crdt::lemma_map_of_index(self.state.layer_order.entry_views(), k);
                let j = choose|j: int|
                    0 <= j < self.state.layer_order.entry_views().len() && (
                    #[trigger] self.state.layer_order.entry_views()[j]).0 == k;
                crate::crdt::lemma_map_of_at(self.state.layer_order.entry_views(), j);
                assert(self.state.layer_order.entries@[j].1.val is Some);
                assert(pairs@.contains(
                    (
                        self.state.layer_order.entries@[j].1.val->0,
                        self.state.layer_order.entries@[j].0,
                    ),
                ));
                let b = choose|b: int|
                    0 <= b < pairs@.len() && pairs@[b] == (
                        self.state.layer_order.entries@[j].1.val->0,
                        self.state.layer_order.entries@[j].0,
                    );
                assert(ids[b] == k);
            }
            assert forall|i2: int, j2: int| 0 <= i2 < j2 < ids.len() implies rank_lt(
                m,
                ids[i2],
                ids[j2],
            ) by {
                assert(pair_lt(pairs@[i2], pairs@[j2]));
                let ja = choose|j: int|
                    0 <= j < n && (#[trigger] pairs@[i2]).1 == self.state.layer_order.entries@[j].0
                        && self.state.layer_order.entries@[j].1.val == Some(pairs@[i2].0);
                crate::crdt::lemma_map_of_at(self.state.layer_order.entry_views(), ja);
                let jb = choose|j: int|
                    0 <= j < n && (#[trigger] pairs@[j2]).1 == self.state.layer_order.entries@[j].0
                        && self.state.layer_order.entries@[j].1.val == Some(pairs@[j2].0);
                crate::crdt::lemma_map_of_at(self.state.layer_order.entry_views(), jb);
            }
        }
        out
    }

    /// Get the default layer: the first layer in order.  Fails only when
    /// no layer is present, which merging concurrent deletions can
    /// produce.
    pub fn get_default_layer(&self) -> (r: Result<LayerId, StoreError>)
        requires
            self.wf(),
        ensures
            match r {
                Ok(id) => {
                    &&& self.state@.layer_order.contains_key(id.0)
                    &&& self.state@.layer_order[id.0].val is Some
                    &&& forall|s: Seq<u128>|
                        is_order_seq(self.state@.layer_order, s) ==> s.len() > 0 && s[0] == id.0
                },
                Err(e) => e == StoreError::NoLayer && (forall|k: u128|
                    self.state@.layer_order.contains_key(k) ==> !((
                    #[trigger] self.state@.layer_order[k]).val is Some)),
            },
    {
        let order = self.read_layer_order();
        if order.len() == 0 {
            proof {
                let ids = order@.map_values(|x: LayerId| x.0);
                assert forall|k: u128|
                    self.state@.layer_order.contains_key(k) implies !((
                #[trigger] self.state@.layer_order[k]).val is Some) by {
                    if self.state@.layer_order[k].val is Some {
                        assert(ids.contains(k));
                    }
                }
            }
            Err(StoreError::NoLayer)
        } else {
            proof {
                let ids = order@.map_values(|x: LayerId| x.0);
                assert(ids[0] == order@[0].0);
                assert forall|s: Seq<u128>|
                    is_order_seq(self.state@.layer_order, s) implies s.len() > 0 && s[0]
                    == order@[0].0 by {
                    lemma_order_seq_unique(self.state@.layer_order, s, ids);
                }
            }
            Ok(order[0])
        }
    }

    /// Create a new layer with the given name; it goes to the top of the
    /// layer order.
    pub fn create_layer(&mut self, name: String) -> (r: LayerId)
        requires
            old(self).wf(),
        ensures
            final(self).wf(),
            final(self).actor == old(self).actor,
            r.0 == id_of(old(self).actor, old(self).clock),
            final(self).state@.layers == old(self).state@.layers.insert(
                r.0,
                RegV {
                    stamp: old(self).next_stamp(),
                    val: Some(LayerRecV { name: name@, visible: true, locked: false }),
                },
            ),
            exists|z: i128|
                final(self).state@.layer_order == old(self).state@.layer_order.insert(
                    r.0,
                    RegV { stamp: old(self).next_stamp(), val: Some(z) },
                ),
            (order_has_room(old(self).state@.layer_order) && !(
            old(self).state@.layer_order.contains_key(r.0)
                && old(self).state@.layer_order[r.0].val is Some) ==> forall|s: Seq<u128>|
                is_order_seq(old(self).state@.layer_order, s) ==> is_order_seq(
                    final(self).state@.layer_order,
                    s.push(r.0),
                )),
            final(self).state@.shapes == old(self).state@.shapes,
            final(self).state@.order == old(self).state@.order,
            final(self).state@.groups == old(self).state@.groups,
            final(self).dirty,
    {
        let id = make_id(self.actor, self.clock);
        let stamp = Stamp { time: self.clock, actor: self.actor };
        let mut best: i128 = 0;
        let n = self.state.layer_order.entries.len();
        let mut i: usize = 0;
        while i < n
            invariant
                i <= n,
                self.state.layer_order.wf(),
                n == self.state.layer_order.entries@.len(),
                best >= 0,
                forall|j: int|
                    0 <= j < i ==> ((#[trigger] self.state.layer_order.entries@[j]).1.val is Some
                        ==> self.state.layer_order.entries@[j].1.val->0 <= best),
            decreases n - i,
        {
            match &self.state.layer_order.entries[i].1.val {
                Some(z) => {
                    if *z > best {
                        best = *z;
                    }
                },
                None => {},
            }
            i = i + 1;
        }
        proof {
            assert forall|k: u128|
                self.state@.layer_order.contains_key(k) && (
                #[trigger] self.state@.layer_order[k]).val
                    is Some implies self.state@.layer_order[k].val->0 <= best by {
                crate::crdt::lemma_map_of_index(self.state.layer_order.entry_views(), k);
                let j = choose|j: int|
                    0 <= j < self.state.layer_order.entry_views().len() && (
                    #[trigger] self.state.layer_order.entry_views()[j]).0 == k;
                crate::crdt::lemma_map_of_at(self.state.layer_order.entry_views(), j);
            }
        }
        let z: i128 = if best < i128::MAX {
            best + 1
        } else {
            best
        };
        self.state.layers.put(
            id,
            Reg { stamp, val: Some(LayerRec { name, visible: true, locked: false }) },
        );
        self.state.layer_order.put(id, Reg { stamp, val: Some(z) });
        self.tick();
        self.touch();
        proof {
            let pre = old(self).state@.layer_order;
            let post = self.state@.layer_order;
            if order_has_room(pre) && !(pre.contains_key(id) && pre[id].val is Some) {
                assert forall|s: Seq<u128>| is_order_seq(pre, s) implies is_order_seq(
                    post,
                    s.push(id),
                ) by {
                    let t = s.push(id);
                    assert forall|i2: int| 0 <= i2 < t.len() implies post.contains_key(
                        #[trigger] t[i2],
                    ) && post[t[i2]].val is Some by {
                        if i2 < s.len() {
                            assert(s.contains(s[i2]));
                        }
                    }
                    assert forall|k: u128|
                        post.contains_key(k) && (#[trigger] post[k]).val is Some implies t.contains(
                        k,
                    ) by {
                        if k == id {
                            assert(t[t.len() - 1] == id);
                        } else {
                            assert(s.contains(k));
                            let i2 = choose|i2: int| 0 <= i2 < s.len() && s[i2] == k;
                            assert(t[i2] == k);
                        }
                    }
                    assert forall|i2: int, j2: int| 0 <= i2 < j2 < t.len() implies rank_lt(
                        post,
                        t[i2],
                        t[j2],
                    ) by {
                        if j2 < s.len() {
                            assert(rank_lt(pre, s[i2], s[j2]));
                            assert(s.contains(s[i2]));
                            assert(s.contains(s[j2]));
                            assert(s[i2] != id && s[j2] != id);
                        } else {
                            assert(s.contains(s[i2]));
                            assert(s[i2] != id);
                            assert(post[t[i2]].val->0 < z);
                        }
                    }
                }
            }
        }
        LayerId(id)
    }

    /// Read a single layer.
    pub fn read_layer(&self, id: LayerId) -> (r: Option<Layer>)
        requires
            self.wf(),
        ensures
            match r {
                Some(l) => {
                    &&& self.state@.layers.contains_key(id.0)
                    &&& self.state@.layers[id.0].val is Some
                    &&& l@.id == id.0
                    &&& l@.name == self.state@.layers[id.0].val->0.name
                    &&& l@.visible == self.state@.layers[id.0].val->0.visible
                    &&& l@.locked == self.state@.layers[id.0].val->0.locked
                },
                None => !(self.state@.layers.contains_key(id.0) && self.state@.layers[id.0].val
                    is Some),
            },
    {
        match self.state.layers.get(id.0) {
            Some(reg) => match &reg.val {
                Some(rec) => Some(
                    Layer {
                        id,
                        name: rec.name.clone(),
                        visible: rec.visible,
                        locked: rec.locked,
                    },
                ),
                None => None,
            },
            None => None,
        }
    }

    /// Read all layers, in layer order.
    pub fn read_all_layers(&self) -> (r: Vec<Layer>)
        requires
            self.wf(),
        ensures
            forall|i: int|
                0 <= i < r@.len() ==> {
                    let id = (#[trigger] r@[i])@.id;
                    &&& self.state@.layers.contains_key(id)
                    &&& self.state@.layers[id].val is Some
                    &&& r@[i]@.name == self.state@.layers[id].val->0.name
                    &&& r@[i]@.visible == self.state@.layers[id].val->0.visible
                    &&& r@[i]@.locked == self.state@.layers[id].val->0.locked
                },
    {
        let order = self.read_layer_order();
        let mut out: Vec<Layer> = Vec::new();
        let mut i: usize = 0;
        while i < order.len()
            invariant
                i <= order@.len(),
                self.wf(),
                forall|a: int|
                    0 <= a < out@.len() ==> {
                        let id = (#[trigger] out@[a])@.id;
                        &&& self.state@.layers.contains_key(id)
                        &&& self.state@.layers[id].val is Some
                        &&& out@[a]@.name == self.state@.layers[id].val->0.name
                        &&& out@[a]@.visible == self.state@.layers[id].val->0.visible
                        &&& out@[a]@.locked == self.state@.layers[id].val->0.locked
                    },
            decreases order@.len() - i,
        {
            match self.read_layer(order[i]) {
                Some(l) => {
                    out.push(l);
                },
                None => {},
            }
            i = i + 1;
        }
        out
    }

    /// Rename a layer; absent layers are left alone.
    pub fn rename_layer(&mut self, id: LayerId, name: String)
        requires
            old(self).wf(),
        ensures
            final(self).wf(),
            final(self).actor == old(self).actor,
            final(self).state@.layers == ({
                let m = old(self).state@.layers;
                if m.contains_key(id.0) && m[id.0].val is Some {
                    m.insert(
                        id.0,
                        RegV {
                            stamp: old(self).next_stamp(),
                            val: Some(
                                LayerRecV {
                                    name: name@,
                                    visible: m[id.0].val->0.visible,
                                    locked: m[id.0].val->0.locked,
                                },
                            ),
                        },
                    )
                } else {
                    m
                }
            }),
            final(self).state@.shapes == old(self).state@.shapes,
            final(self).state@.order == old(self).state@.order,
            final(self).state@.groups == old(self).state@.groups,
            final(self).state@.layer_order == old(self).state@.layer_order,
    {
        let stamp = Stamp { time: self.clock, actor: self.actor };
        let rec = match self.state.layers.get(id.0) {
            Some(reg) => match &reg.val {
                Some(rec) => Some(
                    LayerRec { name, visible: rec.visible, locked: rec.locked },
                ),
                None => None,
            },
            None => None,
        };
        match rec {
            Some(rec) => {
                self.state.layers.put(id.0, Reg { stamp, val: Some(rec) });
                self.tick();
                self.touch();
            },
            None => {},
        }
    }

    /// Set layer visibility; absent layers are left alone.
    pub fn set_layer_visible(&mut self, id: LayerId, visible: bool)
        requires
            old(self).wf(),
        ensures
            final(self).wf(),
            final(self).actor == old(self).actor,
            final(self).state@.layers == ({
                let m = old(self).state@.layers;
                if m.contains_key(id.0) && m[id.0].val is Some {
                    m.insert(
                        id.0,
                        RegV {
                            stamp: old(self).next_stamp(),
                            val: Some(
                                LayerRecV {
                                    name: m[id.0].val->0.name,
                                    visible,
                                    locked: m[id.0].val->0.locked,
                                },
                            ),
                        },
                    )
                } else {
                    m
                }
            }),
            final(self).state@.shapes == old(self).state@.shapes,
            final(self).state@.order == old(self).state@.order,
            final(self).state@.groups == old(self).state@.groups,
            final(self).state@.layer_order == old(self).state@.layer_order,
    {
        let stamp = Stamp { time: self.clock, actor: self.actor };
        let rec = match self.state.layers.get(id.0) {
            Some(reg) => match &reg.val {
                Some(rec) => Some(
                    LayerRec { name: rec.name.clone(), visible, locked: rec.locked },
                ),
                None => None,
            },
            None => None,
        };
        match rec {
            Some(rec) => {
                self.state.layers.put(id.0, Reg { stamp, val: Some(rec) });
                self.tick();
                self.touch();
            },
            None => {},
        }
    }

    /// Set layer locked state; absent layers are left alone.
    pub fn set_layer_locked(&mut self, id: LayerId, locked: bool)
        requires
            old(self).wf(),
        ensures
            final(self).wf(),
            final(self).actor == old(self).actor,
            final(self).state@.layers == ({
                let m = old(self).state@.layers;
                if m.contains_key(id.0) && m[id.0].val is Some {
                    m.insert(
                        id.0,
                        RegV {
                            stamp: old(self).next_stamp(),
                            val: Some(
                                LayerRecV {
                                    name: m[id.0].val->0.name,
                                    visible: m[id.0].val->0.visible,
                                    locked,
                                },
                            ),
                        },
                    )
                } else {
                    m
                }
            }),
            final(self).state@.shapes == old(self).state@.shapes,
            final(self).state@.order == old(self).state@.order,
            final(self).state@.groups == old(self).state@.groups,
            final(self).state@.layer_order == old(self).state@.layer_order,
    {
        let stamp = Stamp { time: self.clock, actor: self.actor };
        let rec = match self.state.layers.get(id.0) {
            Some(reg) => match &reg.val {
                Some(rec) => Some(
                    LayerRec { name: rec.name.clone(), visible: rec.visible, locked },
                ),
                None => None,
            },
            None => None,
        };
        match rec {
            Some(rec) => {
                self.state.layers.put(id.0, Reg { stamp, val: Some(rec) });
                self.tick();
                self.touch();
            },
            None => {},
        }
    }

    /// Get the layer a shape is assigned to, if any.
    pub fn get_shape_layer(&self, id: ShapeId) -> (r: Option<LayerId>)
        requires
            self.wf(),
        ensures
            match r {
                Some(l) => self.state@.shapes.contains_key(id.0) && self.state@.shapes[id.0].val
                    is Some && self.state@.shapes[id.0].val->0.layer == Some(l.0),
                None => !(self.state@.shapes.contains_key(id.0) && self.state@.shapes[id.0].val
                    is Some && self.state@.shapes[id.0].val->0.layer is Some),
            },
    {
        match self.state.shapes.get(id.0) {
            Some(reg) => match &reg.val {
                Some(stored) => match stored.layer {
                    Some(l) => Some(LayerId(l)),
                    None => None,
                },
                None => None,
            },
            None => None,
        }
    }

    /// Assign a shape to a layer; absent shapes are left alone.  The
    /// whole record is rewritten, as every shape write is.
    pub fn set_shape_layer(&mut self, id: ShapeId, layer_id: LayerId)
        requires
            old(self).wf(),
        ensures
            final(self).wf(),
            final(self).actor == old(self).actor,
            final(self).state@.shapes == ({
                let m = old(self).state@.shapes;
                if m.contains_key(id.0) && m[id.0].val is Some {
                    m.insert(
                        id.0,
                        RegV {
                            stamp: old(self).next_stamp(),
                            val: Some(
                                StoredShapeV {
                                    kind: m[id.0].val->0.kind,
                                    layer: Some(layer_id.0),
                                    group: m[id.0].val->0.group,
                                },
                            ),
                        },
                    )
                } else {
                    m
                }
            }),
            final(self).state@.order == old(self).state@.order,
            final(self).state@.groups == old(self).state@.groups,
            final(self).state@.layers == old(self).state@.layers,
            final(self).state@.layer_order == old(self).state@.layer_order,
    {
        let stamp = Stamp { time: self.clock, actor: self.actor };
        let rec = match self.state.shapes.get(id.0) {
            Some(reg) => match &reg.val {
                Some(stored) => Some(
                    StoredShape {
                        kind: stored.kind.duplicate(),
                        layer: Some(layer_id.0),
                        group: stored.group,
                    },
                ),
                None => None,
            },
            None => None,
        };
        match rec {
            Some(rec) => {
                self.state.shapes.put(id.0, Reg { stamp, val: Some(rec) });
                self.tick();
                self.touch();
            },
            None => {},
        }
    }
}

/// The value a shape register takes when its layer reference is moved to
/// the fallback layer.
pub open spec fn relayered(
    m: Map<u128, RegV<StoredShapeV>>,
    k: u128,
    fb: u128,
    t: Stamp,
) -> RegV<StoredShapeV> {
    RegV {
        stamp: t,
        val: Some(
            StoredShapeV { kind: m[k].val->0.kind, layer: Some(fb), group: m[k].val->0.group },
        ),
    }
}

impl Document {
    /// Delete a layer.  Rejected when it is the only layer; otherwise
    /// every shape on it is reassigned to a surviving layer before the
    /// layer and its order entry become tombstones.
    pub fn delete_layer(&mut self, id: LayerId) -> (r: Result<(), StoreError>)
        requires
            old(self).wf(),
        ensures
            final(self).wf(),
            final(self).actor == old(self).actor,
            match r {
                Ok(()) => {
                    &&& final(self).state@.layers == old(self).state@.layers.insert(
                        id.0,
                        RegV { stamp: old(self).next_stamp(), val: None },
                    )
                    &&& final(self).state@.layer_order == old(self).state@.layer_order.insert(
                        id.0,
                        RegV { stamp: old(self).next_stamp(), val: None },
                    )
                    &&& exists|fb: u128|
                        #![auto]
                        fb != id.0 && old(self).state@.layer_order.contains_key(fb) && old(
                            self,
                        ).state@.layer_order[fb].val is Some && final(self).state@.shapes
                            == Map::new(
                            |k: u128| old(self).state@.shapes.contains_key(k),
                            |k: u128|
                                if old(self).state@.shapes[k].val is Some && old(
                                    self,
                                ).state@.shapes[k].val->0.layer == Some(id.0) {
                                    relayered(
                                        old(self).state@.shapes,
                                        k,
                                        fb,
                                        old(self).next_stamp(),
                                    )
                                } else {
                                    old(self).state@.shapes[k]
                                },
                        )
                    &&& final(self).state@.order == old(self).state@.order
                    &&& final(self).state@.groups == old(self).state@.groups
                    &&& final(self).dirty
                },
                Err(e) => {
                    &&& e == StoreError::LastLayer
                    &&& *final(self) == *old(self)
                    &&& forall|s: Seq<u128>|
                        is_order_seq(old(self).state@.layer_order, s) ==> s.len() <= 1
                },
            },
    {
        let order = self.read_layer_order();
        if order.len() <= 1 {
            proof {
                assert forall|s: Seq<u128>|
                    is_order_seq(old(self).state@.layer_order, s) implies s.len() <= 1 by {
                    lemma_order_seq_unique(
                        old(self).state@.layer_order,
                        s,
                        order@.map_values(|x: LayerId| x.0),
                    );
                }
            }
            return Err(StoreError::LastLayer);
        }
        // A surviving layer to move shapes to.
        let fb = if order[0].0 != id.0 {
            order[0]
        } else {
            order[1]
        };
        proof {
            let ids = order@.map_values(|x: LayerId| x.0);
            assert(ids[0] == order@[0].0);
            assert(ids[1] == order@[1].0);
            assert(rank_lt(self.state@.layer_order, ids[0], ids[1]));
        }
        let ghost m0 = self.state@.shapes;
        let stamp = Stamp { time: self.clock, actor: self.actor };
        // Collect the shapes on the deleted layer.
        let mut moved: Vec<u128> = Vec::new();
        let n = self.state.shapes.entries.len();
        let mut i: usize = 0;
        while i < n
            invariant
                i <= n,
                self.wf(),
                self.actor == old(self).actor,
                n == self.state.shapes.entries@.len(),
                forall|a: int|
                    0 <= a < moved@.len() ==> {
                        &&& self.state@.shapes.contains_key(#[trigger] moved@[a])
                        &&& self.state@.shapes[moved@[a]].val is Some
                        &&& self.state@.shapes[moved@[a]].val->0.layer == Some(id.0)
                    },
                forall|j: int|
                    0 <= j < i && (#[trigger] self.state.shapes.entries@[j]).1.val is Some && (
                    self.state.shapes.entries@[j].1.val->0)@.layer == Some(id.0)
                        ==> moved@.contains(self.state.shapes.entries@[j].0),
                forall|a: int, b: int|
                    0 <= a < b < moved@.len() ==> (#[trigger] moved@[a]) != (#[trigger] moved@[b]),
                forall|a: int|
                    0 <= a < moved@.len() ==> exists|j: int|
                        0 <= j < i && (#[trigger] moved@[a]) == self.state.shapes.entries@[j].0,
            decreases n - i,
        {
            let key = self.state.shapes.entries[i].0;
            let on_layer = match &self.state.shapes.entries[i].1.val {
                Some(stored) => match stored.layer {
                    Some(l) => l == id.0,
                    None => false,
                },
                None => false,
            };
            if on_layer {
                proof {
                    crate::crdt::lemma_map_of_at(self.state.shapes.entry_views(), i as int);
                    assert forall|a: int| 0 <= a < moved@.len() implies (#[trigger] moved@[a])
                        != key by {
                        let j = choose|j: int|
                            0 <= j < i && moved@[a] == (
                            #[trigger] self.state.shapes.entries@[j].0);
                        assert(self.state.shapes.entry_views()[j].0
                            != self.state.shapes.entry_views()[i as int].0);
                    }
                }
                let ghost pre_moved = moved@;
                moved.push(key);
                proof {
                    assert forall|j: int|
                        0 <= j < i + 1 && (#[trigger] self.state.shapes.entries@[j]).1.val is Some
                            && (self.state.shapes.entries@[j].1.val->0)@.layer == Some(
                            id.0,
                        ) implies moved@.contains(self.state.shapes.entries@[j].0) by {
                        if j < i {
                            let x = pre_moved.index_of(self.state.shapes.entries@[j].0);
                            assert(pre_moved[x] == self.state.shapes.entries@[j].0);
                            assert(moved@[x] == self.state.shapes.entries@[j].0);
                        } else {
                            assert(moved@[moved@.len() - 1] == key);
                        }
                    }
                }
            } else {
                proof {
                    crate::crdt::lemma_map_of_at(self.state.shapes.entry_views(), i as int);
                    assert forall|j: int|
                        0 <= j < i + 1 && (#[trigger] self.state.shapes.entries@[j]).1.val is Some
                            && (self.state.shapes.entries@[j].1.val->0)@.layer == Some(
                            id.0,
                        ) implies moved@.contains(self.state.shapes.entries@[j].0) by {}
                }
            }
            i = i + 1;
        }
        let ghost moved_ids = moved@;
        proof {
            assert forall|k: u128|
                m0.contains_key(k) && (#[trigger] m0[k]).val is Some && m0[k].val->0.layer == Some(
                    id.0,
                ) implies moved_ids.contains(k) by {
                crate::crdt::lemma_map_of_index(self.state.shapes.entry_views(), k);
                let j = choose|j: int|
                    0 <= j < self.state.shapes.entry_views().len() && (
                    #[trigger] self.state.shapes.entry_views()[j]).0 == k;
                crate::crdt::lemma_map_of_at(self.state.shapes.entry_views(), j);
                assert(self.state.shapes.entries@[j].1.val is Some);
                assert((self.state.shapes.entries@[j].1.val->0)@.layer == Some(id.0));
            }
        }
        // Move them to the fallback layer.
        let nm = moved.len();
        let mut c: usize = 0;
        proof {
            assert(self.state@.shapes =~= Map::new(
                |k: u128| m0.contains_key(k),
                |k: u128|
                    if moved_ids.take(0).contains(k) {
                        relayered(m0, k, fb.0, stamp)
                    } else {
                        m0[k]
                    },
            ));
        }
        while c < nm
            invariant
                c <= nm,
                nm == moved_ids.len(),
                moved@ == moved_ids,
                self.actor == old(self).actor,
                self.state.shapes.wf(),
                self.state.order == old(self).state.order,
                self.state.groups == old(self).state.groups,
                self.state.layers == old(self).state.layers,
                self.state.layer_order == old(self).state.layer_order,
                forall|x: int|
                    0 <= x < moved_ids.len() ==> {
                        &&& m0.contains_key(#[trigger] moved_ids[x])
                        &&& m0[moved_ids[x]].val is Some
                        &&& kind_bounded(m0[moved_ids[x]].val->0.kind)
                    },
                forall|x: int, y: int|
                    0 <= x < y < moved_ids.len() ==> (#[trigger] moved_ids[x]) != (
                    #[trigger] moved_ids[y]),
                self.state@.shapes == Map::new(
                    |k: u128| m0.contains_key(k),
                    |k: u128|
                        if moved_ids.take(c as int).contains(k) {
                            relayered(m0, k, fb.0, stamp)
                        } else {
                            m0[k]
                        },
                ),
            decreases nm - c,
        {
            let key = moved[c];
            proof {
                assert(key == moved_ids[c as int]);
                assert(!moved_ids.take(c as int).contains(key)) by {
                    if moved_ids.take(c as int).contains(key) {
                        let x = moved_ids.take(c as int).index_of(key);
                        assert(moved_ids.take(c as int)[x] == key);
                        assert(moved_ids[x] != moved_ids[c as int]);
                    }
                }
            }
            let rec = match self.state.shapes.get(key) {
                Some(reg) => match &reg.val {
                    Some(stored) => StoredShape {
                        kind: stored.kind.duplicate(),
                        layer: Some(fb.0),
                        group: stored.group,
                    },
                    None => {
                        proof {
                            assert(false);
                        }
                        StoredShape { kind: ShapeKind::Text {
                            pos: crate::canvas::Position { x: 0, y: 0 },
                            content: String::new(),
                            color: crate::shapes::ShapeColor::White,
                        }, layer: None, group: None }
                    },
                },
                None => {
                    proof {
                        assert(false);
                    }
                    StoredShape { kind: ShapeKind::Text {
                        pos: crate::canvas::Position { x: 0, y: 0 },
                        content: String::new(),
                        color: crate::shapes::ShapeColor::White,
                    }, layer: None, group: None }
                },
            };
            self.state.shapes.put(key, Reg { stamp, val: Some(rec) });
            proof {
                let target = Map::new(
                    |k: u128| m0.contains_key(k),
                    |k: u128|
                        if moved_ids.take(c + 1).contains(k) {
                            relayered(m0, k, fb.0, stamp)
                        } else {
                            m0[k]
                        },
                );
                assert forall|k: u128| #[trigger]
                    target.contains_key(k) implies self.state@.shapes.contains_key(k)
                    && self.state@.shapes[k] == target[k] by {
                    if moved_ids.take(c + 1).contains(k) {
                        let x = moved_ids.take(c + 1).index_of(k);
                        assert(moved_ids.take(c + 1)[x] == k);
                        if x < c {
                            assert(moved_ids.take(c as int)[x] == k);
                            assert(moved_ids.take(c as int).contains(k));
                            assert(k != key);
                        } else {
                            assert(k == key);
                        }
                    } else {
                        assert(!moved_ids.take(c as int).contains(k)) by {
                            if moved_ids.take(c as int).contains(k) {
                                let x = moved_ids.take(c as int).index_of(k);
                                assert(moved_ids.take(c as int)[x] == k);
                                assert(moved_ids.take(c + 1)[x] == k);
                            }
                        }
                        assert(k != key) by {
                            if k == key {
                                assert(moved_ids.take(c + 1)[c as int] == k);
                            }
                        }
                    }
                }
                assert forall|k: u128| #[trigger]
                    self.state@.shapes.contains_key(k) implies target.contains_key(k) by {}
                assert(self.state@.shapes =~= target);
            }
            c = c + 1;
        }
        proof {
            assert(moved_ids.take(nm as int) =~= moved_ids);
        }
        // Remove the layer itself.
        self.state.layers.put(id.0, Reg { stamp, val: None });
        self.state.layer_order.put(id.0, Reg { stamp, val: None });
        self.tick();
        self.touch();
        proof {
            let ids = order@.map_values(|x: LayerId| x.0);
            assert(old(self).state@.layer_order.contains_key(fb.0)
                && old(self).state@.layer_order[fb.0].val is Some) by {
                if order@[0].0 != id.0 {
                    assert(ids[0] == fb.0);
                } else {
                    assert(ids[1] == fb.0);
                }
            }
        }
        Ok(())
    }
}

/// Wrap raw ids as shape ids.
fn wrap_ids(v: &Vec<u128>) -> (r: Vec<ShapeId>)
    ensures
        sel_of(r@) == v@,
{
    let mut out: Vec<ShapeId> = Vec::new();
    let mut i: usize = 0;
    proof {
        assert(sel_of(out@) =~= v@.subrange(0, 0));
    }
    while i < v.len()
        invariant
            i <= v@.len(),
            sel_of(out@) == v@.subrange(0, i as int),
        decreases v@.len() - i,
    {
        let ghost pre = out@;
        out.push(ShapeId(v[i]));
        proof {
            assert(out@.len() == pre.len() + 1);
            assert(sel_of(pre).len() == pre.len());
            assert(sel_of(out@).len() == out@.len());
            assert(pre.len() == i);
            assert forall|j: int| 0 <= j < out@.len() implies sel_of(out@)[j] == v@.subrange(
                0,
                i + 1,
            )[j] by {
                assert(sel_of(out@)[j] == out@[j].0);
                assert(v@.subrange(0, i + 1)[j] == v@[j]);
                if j < pre.len() {
                    assert(out@[j] == pre[j]);
                    assert(sel_of(pre)[j] == pre[j].0);
                    assert(sel_of(pre)[j] == v@.subrange(0, i as int)[j]);
                    assert(v@.subrange(0, i as int)[j] == v@[j]);
                } else {
                    assert(j == i);
                    assert(out@[j] == ShapeId(v@[i as int]));
                }
            }
            assert(sel_of(out@) =~= v@.subrange(0, i + 1));
        }
        i = i + 1;
    }
    proof {
        assert(v@.subrange(0, v@.len() as int) =~= v@);
    }
    out
}

/// Decide membership in a list of raw ids.
fn vec_has(v: &Vec<u128>, k: u128) -> (r: bool)
    ensures
        r == v@.contains(k),
{
    let mut i: usize = 0;
    while i < v.len()
        invariant
            i <= v@.len(),
            forall|j: int| 0 <= j < i ==> v@[j] != k,
        decreases v@.len() - i,
    {
        if v[i] == k {
            proof {
                assert(v@[i as int] == k);
            }
            return true;
        }
        i = i + 1;
    }
    false
}

/// A group that is present and readable.
pub open spec fn group_readable(m: Map<u128, RegV<GroupRecV>>, g: u128) -> bool {
    m.contains_key(g) && m[g].val is Some
}

/// The core shape of a gathered group family: duplicate-free, rooted at
/// `start`, every later group nested under an earlier one.
pub open spec fn gathered_core(m: Map<u128, RegV<GroupRecV>>, start: u128, gs: Seq<u128>) -> bool {
    &&& forall|a: int, b: int| 0 <= a < b < gs.len() ==> gs[a] != gs[b]
    &&& gs.len() >= 1
    &&& gs[0] == start
    &&& forall|i: int| 0 <= i < gs.len() ==> group_readable(m, #[trigger] gs[i])
    &&& forall|i: int|
        1 <= i < gs.len() ==> (match group_parent(m, #[trigger] gs[i]) {
            Some(p) => gs.subrange(0, i).contains(p),
            None => false,
        })
}

/// A correct group collection: when `start` is readable, a rooted,
/// duplicate-free family of nested groups that is either closed under
/// nesting or past the walk bound, whose members are exactly `ids`;
/// when `start` is unreadable, nothing.
pub open spec fn group_collection_ok(
    m: Map<u128, RegV<GroupRecV>>,
    start: u128,
    gs: Seq<u128>,
    bound: nat,
    ids: Seq<u128>,
) -> bool {
    &&& (group_readable(m, start) ==> gathered_core(m, start, gs))
    &&& (!group_readable(m, start) ==> gs.len() == 0)
    &&& ((forall|g: u128|
        group_readable(m, g) && (match group_parent(m, g) {
            Some(p) => gs.contains(p),
            None => false,
        }) ==> gs.contains(g)) || gs.len() > bound)
    &&& forall|x: u128|
        #![auto]
        ids.contains(x) <==> exists|i: int| 0 <= i < gs.len() && m[gs[i]].val->0.members.contains(
            x,
        )
}

/// The parent a group names, when the group is present and readable.
pub open spec fn group_parent(m: Map<u128, RegV<GroupRecV>>, g: u128) -> Option<u128> {
    if m.contains_key(g) && m[g].val is Some {
        m[g].val->0.parent
    } else {
        None
    }
}

/// A stopped parent walk: it starts at `start`, every step follows the
/// stored parent, and it ends at a root (no readable parent), at a step
/// that would revisit the chain (a cycle), or past the walk bound.
pub open spec fn root_walk(
    m: Map<u128, RegV<GroupRecV>>,
    start: u128,
    chain: Seq<u128>,
    bound: nat,
) -> bool {
    &&& chain.len() >= 1
    &&& chain[0] == start
    &&& forall|i: int|
        0 <= i < chain.len() - 1 ==> group_parent(m, #[trigger] chain[i]) == Some(chain[i + 1])
    &&& (group_parent(m, chain.last()) is None || (match group_parent(m, chain.last()) {
        Some(p) => chain.contains(p),
        None => false,
    }) || chain.len() > bound)
}

/// The value a shape register takes when its group reference is
/// rewritten.
pub open spec fn regrouped(
    m: Map<u128, RegV<StoredShapeV>>,
    k: u128,
    g: Option<u128>,
    t: Stamp,
) -> RegV<StoredShapeV> {
    RegV {
        stamp: t,
        val: Some(
            StoredShapeV { kind: m[k].val->0.kind, layer: m[k].val->0.layer, group: g },
        ),
    }
}

impl Document {
    /// Rewrite the group reference of every listed shape that is present
    /// (internal helper; the caller advances the clock).
    fn regroup_members(&mut self, members: &Vec<ShapeId>, g: Option<u128>)
        requires
            old(self).wf(),
        ensures
            final(self).wf(),
            final(self).actor == old(self).actor,
            final(self).clock == old(self).clock,
            final(self).state@.shapes == Map::new(
                |k: u128| old(self).state@.shapes.contains_key(k),
                |k: u128|
                    if sel_of(members@).contains(k) && old(self).state@.shapes[k].val is Some {
                        regrouped(old(self).state@.shapes, k, g, old(self).next_stamp())
                    } else {
                        old(self).state@.shapes[k]
                    },
            ),
            final(self).state@.order == old(self).state@.order,
            final(self).state@.groups == old(self).state@.groups,
            final(self).state@.layers == old(self).state@.layers,
            final(self).state@.layer_order == old(self).state@.layer_order,
            final(self).undo_stack == old(self).undo_stack,
            final(self).redo_stack == old(self).redo_stack,
    {
        let ghost m0 = self.state@.shapes;
        let ghost sel = sel_of(members@);
        let stamp = Stamp { time: self.clock, actor: self.actor };
        let nm = members.len();
        let mut c: usize = 0;
        proof {
            assert(self.state@.shapes =~= Map::new(
                |k: u128| m0.contains_key(k),
                |k: u128|
                    if sel.take(0).contains(k) && m0[k].val is Some {
                        regrouped(m0, k, g, stamp)
                    } else {
                        m0[k]
                    },
            ));
        }
        while c < nm
            invariant
                c <= nm,
                nm == members@.len(),
                sel == sel_of(members@),
                self.actor == old(self).actor,
                self.clock == old(self).clock,
                self.state.shapes.wf(),
                self.state.order == old(self).state.order,
                self.state.groups == old(self).state.groups,
                self.state.layers == old(self).state.layers,
                self.state.layer_order == old(self).state.layer_order,
                self.undo_stack == old(self).undo_stack,
                self.redo_stack == old(self).redo_stack,
                forall|k: u128|
                    #![trigger m0[k]]
                    m0.contains_key(k) && m0[k].val is Some ==> kind_bounded(m0[k].val->0.kind),
                self.state@.shapes == Map::new(
                    |k: u128| m0.contains_key(k),
                    |k: u128|
                        if sel.take(c as int).contains(k) && m0[k].val is Some {
                            regrouped(m0, k, g, stamp)
                        } else {
                            m0[k]
                        },
                ),
            decreases nm - c,
        {
            let key = members[c].0;
            proof {
                assert(sel[c as int] == key);
            }
            let rec = match self.state.shapes.get(key) {
                Some(reg) => match &reg.val {
                    Some(stored) => Some(
                        StoredShape {
                            kind: stored.kind.duplicate(),
                            layer: stored.layer,
                            group: g,
                        },
                    ),
                    None => None,
                },
                None => None,
            };
            let ghost pre = self.state@.shapes;
            match rec {
                Some(rec) => {
                    self.state.shapes.put(key, Reg { stamp, val: Some(rec) });
                },
                None => {},
            }
            proof {
                let target = Map::new(
                    |k: u128| m0.contains_key(k),
                    |k: u128|
                        if sel.take(c + 1).contains(k) && m0[k].val is Some {
                            regrouped(m0, k, g, stamp)
                        } else {
                            m0[k]
                        },
                );
                assert forall|k: u128| #[trigger]
                    target.contains_key(k) implies self.state@.shapes.contains_key(k)
                    && self.state@.shapes[k] == target[k] by {
                    if sel.take(c + 1).contains(k) {
                        let x = sel.take(c + 1).index_of(k);
                        assert(sel.take(c + 1)[x] == k);
                        if x < c {
                            assert(sel.take(c as int)[x] == k);
                            assert(sel.take(c as int).contains(k));
                        } else {
                            assert(k == key);
                        }
                    } else {
                        assert(!sel.take(c as int).contains(k)) by {
                            if sel.take(c as int).contains(k) {
                                let x = sel.take(c as int).index_of(k);
                                assert(sel.take(c as int)[x] == k);
                                assert(sel.take(c + 1)[x] == k);
                            }
                        }
                        assert(k != key) by {
                            if k == key {
                                assert(sel.take(c + 1)[c as int] == k);
                            }
                        }
                    }
                }
                assert forall|k: u128| #[trigger]
                    self.state@.shapes.contains_key(k) implies target.contains_key(k) by {}
                assert(self.state@.shapes =~= target);
            }
            c = c + 1;
        }
        proof {
            assert(sel.take(nm as int) =~= sel);
        }
    }

    /// Create a group from a set of shapes; each member's record gets
    /// the fresh group's id.  Rejected when the member set is empty.
    pub fn create_group(&mut self, members: &Vec<ShapeId>, parent: Option<GroupId>) -> (r: Result<
        GroupId,
        StoreError,
    >)
        requires
            old(self).wf(),
        ensures
            final(self).wf(),
            final(self).actor == old(self).actor,
            match r {
                Ok(gid) => {
                    &&& members@.len() > 0
                    &&& gid.0 == id_of(old(self).actor, old(self).clock)
                    &&& final(self).state@.groups == old(self).state@.groups.insert(
                        gid.0,
                        RegV {
                            stamp: old(self).next_stamp(),
                            val: Some(
                                GroupRecV {
                                    members: sel_of(members@),
                                    parent: match parent {
                                        Some(p) => Some(p.0),
                                        None => None,
                                    },
                                },
                            ),
                        },
                    )
                    &&& final(self).state@.shapes == Map::new(
                        |k: u128| old(self).state@.shapes.contains_key(k),
                        |k: u128|
                            if sel_of(members@).contains(k) && old(self).state@.shapes[k].val
                                is Some {
                                regrouped(
                                    old(self).state@.shapes,
                                    k,
                                    Some(gid.0),
                                    old(self).next_stamp(),
                                )
                            } else {
                                old(self).state@.shapes[k]
                            },
                    )
                    &&& final(self).state@.order == old(self).state@.order
                    &&& final(self).state@.layers == old(self).state@.layers
                    &&& final(self).state@.layer_order == old(self).state@.layer_order
                    &&& final(self).dirty
                },
                Err(e) => e == StoreError::EmptyGroup && members@.len() == 0 && *final(self)
                    == *old(self),
            },
    {
        if members.len() == 0 {
            return Err(StoreError::EmptyGroup);
        }
        let gid = make_id(self.actor, self.clock);
        let stamp = Stamp { time: self.clock, actor: self.actor };
        let mut ids: Vec<u128> = Vec::new();
        let mut i: usize = 0;
        while i < members.len()
            invariant
                i <= members@.len(),
                ids@ == sel_of(members@).subrange(0, i as int),
            decreases members@.len() - i,
        {
            ids.push(members[i].0);
            proof {
                assert(ids@ =~= sel_of(members@).subrange(0, i + 1));
            }
            i = i + 1;
        }
        proof {
            assert(sel_of(members@).subrange(0, sel_of(members@).len() as int) =~= sel_of(
                members@,
            ));
        }
        let parent_raw = match parent {
            Some(p) => Some(p.0),
            None => None,
        };
        self.state.groups.put(
            gid,
            Reg { stamp, val: Some(GroupRec { members: ids, parent: parent_raw }) },
        );
        self.regroup_members(members, Some(gid));
        self.tick();
        self.touch();
        Ok(GroupId(gid))
    }

    /// Read a single group.
    pub fn read_group(&self, id: GroupId) -> (r: Option<Group>)
        requires
            self.wf(),
        ensures
            match r {
                Some(gr) => {
                    &&& self.state@.groups.contains_key(id.0)
                    &&& self.state@.groups[id.0].val is Some
                    &&& gr@.id == id.0
                    &&& gr@.members == self.state@.groups[id.0].val->0.members
                    &&& gr@.parent == self.state@.groups[id.0].val->0.parent
                },
                None => !(self.state@.groups.contains_key(id.0) && self.state@.groups[id.0].val
                    is Some),
            },
    {
        match self.state.groups.get(id.0) {
            Some(reg) => match &reg.val {
                Some(rec) => {
                    let members = wrap_ids(&rec.members);
                    let parent = match rec.parent {
                        Some(p) => Some(GroupId(p)),
                        None => None,
                    };
                    Some(Group { id, members, parent })
                },
                None => None,
            },
            None => None,
        }
    }

    /// Read all groups: every present group record.
    pub fn read_all_groups(&self) -> (r: Vec<Group>)
        requires
            self.wf(),
        ensures
            forall|i: int|
                0 <= i < r@.len() ==> {
                    let g = (#[trigger] r@[i])@;
                    &&& self.state@.groups.contains_key(g.id)
                    &&& self.state@.groups[g.id].val is Some
                    &&& g.members == self.state@.groups[g.id].val->0.members
                    &&& g.parent == self.state@.groups[g.id].val->0.parent
                },
            forall|k: u128|
                self.state@.groups.contains_key(k) && (#[trigger] self.state@.groups[k]).val
                    is Some ==> exists|i: int| 0 <= i < r@.len() && (#[trigger] r@[i])@.id == k,
    {
        let mut out: Vec<Group> = Vec::new();
        let n = self.state.groups.entries.len();
        let mut i: usize = 0;
        while i < n
            invariant
                i <= n,
                self.wf(),
                n == self.state.groups.entries@.len(),
                forall|a: int|
                    0 <= a < out@.len() ==> {
                        let g = (#[trigger] out@[a])@;
                        &&& self.state@.groups.contains_key(g.id)
                        &&& self.state@.groups[g.id].val is Some
                        &&& g.members == self.state@.groups[g.id].val->0.members
                        &&& g.parent == self.state@.groups[g.id].val->0.parent
                    },
                forall|j: int|
                    0 <= j < i && (#[trigger] self.state.groups.entries@[j]).1.val is Some
                        ==> exists|a: int|
                        0 <= a < out@.len() && (#[trigger] out@[a])@.id
                            == self.state.groups.entries@[j].0,
            decreases n - i,
        {
            let key = self.state.groups.entries[i].0;
            proof {
                crate::crdt::lemma_map_of_at(self.state.groups.entry_views(), i as int);
            }
            let present = match &self.state.groups.entries[i].1.val {
                Some(_) => true,
                None => false,
            };
            if present {
                let ghost pre = out@;
                match self.read_group(GroupId(key)) {
                    Some(g) => {
                        out.push(g);
                        proof {
                            assert(out@[out@.len() - 1]@.id == key);
                            assert forall|j: int|
                                0 <= j < i + 1 && (
                                #[trigger] self.state.groups.entries@[j]).1.val
                                    is Some implies exists|a: int|
                                0 <= a < out@.len() && (#[trigger] out@[a])@.id
                                    == self.state.groups.entries@[j].0 by {
                                if j < i {
                                    let a = choose|a: int|
                                        0 <= a < pre.len() && (#[trigger] pre[a])@.id
                                            == self.state.groups.entries@[j].0;
                                    assert(out@[a]@.id == self.state.groups.entries@[j].0);
                                } else {
                                    assert(out@[out@.len() - 1]@.id
                                        == self.state.groups.entries@[j].0);
                                }
                            }
                        }
                    },
                    None => {
                        proof {
                            assert(false);
                        }
                    },
                }
            }
            i = i + 1;
        }
        proof {
            assert forall|k: u128|
                self.state@.groups.contains_key(k) && (#[trigger] self.state@.groups[k]).val
                    is Some implies exists|i2: int|
                0 <= i2 < out@.len() && (#[trigger] out@[i2])@.id == k by {
                crate::crdt::lemma_map_of_index(self.state.groups.entry_views(), k);
                let j = choose|j: int|
                    0 <= j < self.state.groups.entry_views().len() && (
                    #[trigger] self.state.groups.entry_views()[j]).0 == k;
                crate::crdt::lemma_map_of_at(self.state.groups.entry_views(), j);
                assert(self.state.groups.entries@[j].1.val is Some);
            }
        }
        out
    }

    /// Delete a group: clear every member's group reference, then
    /// tombstone the group.
    pub fn delete_group(&mut self, id: GroupId)
        requires
            old(self).wf(),
        ensures
            final(self).wf(),
            final(self).actor == old(self).actor,
            final(self).state@.groups == old(self).state@.groups.insert(
                id.0,
                RegV { stamp: old(self).next_stamp(), val: None },
            ),
            (old(self).state@.groups.contains_key(id.0) && old(self).state@.groups[id.0].val
                is Some) ==> final(self).state@.shapes == Map::new(
                |k: u128| old(self).state@.shapes.contains_key(k),
                |k: u128|
                    if old(self).state@.groups[id.0].val->0.members.contains(k) && old(
                        self,
                    ).state@.shapes[k].val is Some {
                        regrouped(old(self).state@.shapes, k, None, old(self).next_stamp())
                    } else {
                        old(self).state@.shapes[k]
                    },
            ),
            !(old(self).state@.groups.contains_key(id.0) && old(self).state@.groups[id.0].val
                is Some) ==> final(self).state@.shapes == old(self).state@.shapes,
            final(self).state@.order == old(self).state@.order,
            final(self).state@.layers == old(self).state@.layers,
            final(self).state@.layer_order == old(self).state@.layer_order,
            final(self).dirty,
    {
        let stamp = Stamp { time: self.clock, actor: self.actor };
        match self.read_group(id) {
            Some(group) => {
                self.regroup_members(&group.members, None);
                proof {
                    assert(sel_of(group.members@) == old(
                        self,
                    ).state@.groups[id.0].val->0.members);
                }
            },
            None => {},
        }
        self.state.groups.put(id.0, Reg { stamp, val: None });
        self.tick();
        self.touch();
    }

    /// Get the group a shape belongs to.
    pub fn get_shape_group(&self, id: ShapeId) -> (r: Option<GroupId>)
        requires
            self.wf(),
        ensures
            match r {
                Some(g) => self.state@.shapes.contains_key(id.0) && self.state@.shapes[id.0].val
                    is Some && self.state@.shapes[id.0].val->0.group == Some(g.0),
                None => !(self.state@.shapes.contains_key(id.0) && self.state@.shapes[id.0].val
                    is Some && self.state@.shapes[id.0].val->0.group is Some),
            },
    {
        match self.state.shapes.get(id.0) {
            Some(reg) => match &reg.val {
                Some(stored) => match stored.group {
                    Some(g) => Some(GroupId(g)),
                    None => None,
                },
                None => None,
            },
            None => None,
        }
    }

    /// Set or clear the group a shape belongs to; absent shapes are left
    /// alone.
    pub fn set_shape_group(&mut self, id: ShapeId, group_id: Option<GroupId>)
        requires
            old(self).wf(),
        ensures
            final(self).wf(),
            final(self).actor == old(self).actor,
            final(self).state@.shapes == ({
                let m = old(self).state@.shapes;
                if m.contains_key(id.0) && m[id.0].val is Some {
                    m.insert(
                        id.0,
                        regrouped(
                            m,
                            id.0,
                            match group_id {
                                Some(g) => Some(g.0),
                                None => None,
                            },
                            old(self).next_stamp(),
                        ),
                    )
                } else {
                    m
                }
            }),
            final(self).state@.order == old(self).state@.order,
            final(self).state@.groups == old(self).state@.groups,
            final(self).state@.layers == old(self).state@.layers,
            final(self).state@.layer_order == old(self).state@.layer_order,
    {
        let stamp = Stamp { time: self.clock, actor: self.actor };
        let g = match group_id {
            Some(g) => Some(g.0),
            None => None,
        };
        let rec = match self.state.shapes.get(id.0) {
            Some(reg) => match &reg.val {
                Some(stored) => Some(
                    StoredShape { kind: stored.kind.duplicate(), layer: stored.layer, group: g },
                ),
                None => None,
            },
            None => None,
        };
        match rec {
            Some(rec) => {
                self.state.shapes.put(id.0, Reg { stamp, val: Some(rec) });
                self.tick();
                self.touch();
            },
            None => {},
        }
    }

    /// Walk the parent chain of a group to its root.  A visited guard
    /// makes a corrupted, cyclic chain terminate instead of hanging, and
    /// the walk is bounded by the group count.
    pub fn get_root_group(&self, id: GroupId) -> (r: GroupId)
        requires
            self.wf(),
        ensures
            !(self.state@.groups.contains_key(id.0) && self.state@.groups[id.0].val is Some
                && self.state@.groups[id.0].val->0.parent is Some) ==> r == id,
            exists|chain: Seq<u128>|
                #[trigger] root_walk(
                    self.state@.groups,
                    id.0,
                    chain,
                    self.state.groups.entries@.len() as nat,
                ) && chain.last() == r.0,
    {
        let ghost m = self.state@.groups;
        let ghost bound = self.state.groups.entries@.len() as nat;
        let ghost rootless = !(m.contains_key(id.0) && m[id.0].val is Some
            && m[id.0].val->0.parent is Some);
        let mut current = id;
        let mut seen: Vec<u128> = Vec::new();
        let mut fuel = self.state.groups.entries.len();
        let ghost mut chain: Seq<u128> = seq![id.0];
        proof {
            assert(chain.last() == id.0);
            assert(chain.drop_last() =~= Seq::<u128>::empty());
        }
        while fuel > 0
            invariant
                self.wf(),
                m == self.state@.groups,
                bound == self.state.groups.entries@.len() as nat,
                rootless == !(m.contains_key(id.0) && m[id.0].val is Some
                    && m[id.0].val->0.parent is Some),
                rootless ==> current == id,
                chain.len() >= 1,
                chain[0] == id.0,
                chain.last() == current.0,
                seen@ == chain.drop_last(),
                chain.len() + fuel == bound + 1,
                forall|i: int|
                    0 <= i < chain.len() - 1 ==> group_parent(m, #[trigger] chain[i]) == Some(
                        chain[i + 1],
                    ),
            ensures
                rootless ==> current == id,
                root_walk(m, id.0, chain, bound),
                chain.last() == current.0,
            decreases fuel,
        {
            let parent = match self.state.groups.get(current.0) {
                Some(reg) => match &reg.val {
                    Some(rec) => rec.parent,
                    None => None,
                },
                None => None,
            };
            proof {
                assert(group_parent(m, current.0) == parent);
            }
            match parent {
                Some(p) => {
                    let mut already = false;
                    let mut i: usize = 0;
                    while i < seen.len()
                        invariant
                            i <= seen@.len(),
                            already ==> seen@.contains(p),
                        decreases seen@.len() - i,
                    {
                        if seen[i] == p {
                            proof {
                                assert(seen@[i as int] == p);
                            }
                            already = true;
                        }
                        i = i + 1;
                    }
                    if already {
                        proof {
                            let j = choose|j: int| 0 <= j < seen@.len() && seen@[j] == p;
                            assert(chain[j] == p);
                            assert(chain.contains(p));
                        }
                        break;
                    }
                    seen.push(current.0);
                    proof {
                        let old_chain = chain;
                        chain = chain.push(p);
                        assert(chain.drop_last() =~= old_chain);
                        assert(seen@ =~= chain.drop_last());
                        assert forall|i2: int|
                            0 <= i2 < chain.len() - 1 implies group_parent(
                            m,
                            #[trigger] chain[i2],
                        ) == Some(chain[i2 + 1]) by {
                            if i2 < old_chain.len() - 1 {
                                assert(chain[i2] == old_chain[i2]);
                                assert(chain[i2 + 1] == old_chain[i2 + 1]);
                            } else {
                                assert(chain[i2] == current.0);
                                assert(chain[i2 + 1] == p);
                            }
                        }
                    }
                    current = GroupId(p);
                },
                None => {
                    break;
                },
            }
            fuel = fuel - 1;
        }
        proof {
            if !(group_parent(m, chain.last()) is None) && !(match group_parent(m, chain.last()) {
                Some(p) => chain.contains(p),
                None => false,
            }) {
                assert(chain.len() > bound);
            }
        }
        current
    }

    /// Collect the shapes of a group and of every group nested under it.
    /// The collection is a bounded fixpoint over the nesting relation, so
    /// corrupted, cyclic group graphs terminate; each group is gathered
    /// once.
    pub fn get_all_group_shapes(&self, id: GroupId) -> (r: Vec<ShapeId>)
        requires
            self.wf(),
        ensures
            !group_readable(self.state@.groups, id.0) ==> r@.len() == 0,
            exists|gs: Seq<u128>|
                #[trigger] group_collection_ok(
                    self.state@.groups,
                    id.0,
                    gs,
                    self.state.groups.entries@.len() as nat,
                    sel_of(r@),
                ),
    {
        let ghost m = self.state@.groups;
        let ghost bound = self.state.groups.entries@.len() as nat;
        let readable = match self.state.groups.get(id.0) {
            Some(reg) => match &reg.val {
                Some(_) => true,
                None => false,
            },
            None => false,
        };
        if !readable {
            proof {
                let gs = Seq::<u128>::empty();
                assert(sel_of(Seq::<ShapeId>::empty()) =~= Seq::<u128>::empty());
                assert forall|x: u128| #![auto]
                    Seq::<u128>::empty().contains(x) <==> exists|i: int|
                        0 <= i < gs.len() && m[gs[i]].val->0.members.contains(x) by {}
                assert(group_collection_ok(m, id.0, gs, bound, sel_of(Seq::<ShapeId>::empty())));
            }
            return Vec::new();
        }
        // Gather the nested groups to a fixpoint (or the walk bound, a
        // guard that only a graph needing more rounds than there are
        // groups could reach).
        let mut gs: Vec<u128> = Vec::new();
        gs.push(id.0);
        let n = self.state.groups.entries.len();
        let mut budget: usize = n;
        let mut grew = true;
        proof {
            assert(gs@ =~= seq![id.0]);
        }
        while grew && budget > 0
            invariant
                self.wf(),
                m == self.state@.groups,
                bound == self.state.groups.entries@.len() as nat,
                n == self.state.groups.entries@.len(),
                budget <= n,
                group_readable(m, id.0),
                gathered_core(m, id.0, gs@),
                grew ==> gs@.len() >= 1 + (n - budget),
                !grew ==> forall|j: int|
                    0 <= j < self.state.groups.entries@.len() ==> !((
                    #[trigger] self.state.groups.entries@[j]).1.val is Some && (match (
                    self.state.groups.entries@[j].1.val->0)@.parent {
                        Some(p) => gs@.contains(p),
                        None => false,
                    }) && !gs@.contains(self.state.groups.entries@[j].0)),
            decreases budget,
        {
            let mut changed = false;
            let mut j: usize = 0;
            let ghost round_start = gs@;
            while j < n
                invariant
                    j <= n,
                    self.wf(),
                    m == self.state@.groups,
                    n == self.state.groups.entries@.len(),
                    group_readable(m, id.0),
                    gathered_core(m, id.0, gs@),
                    !changed ==> gs@ == round_start,
                    !changed ==> forall|j2: int|
                        0 <= j2 < j ==> !((#[trigger] self.state.groups.entries@[j2]).1.val
                            is Some && (match (
                        self.state.groups.entries@[j2].1.val->0)@.parent {
                            Some(p) => gs@.contains(p),
                            None => false,
                        }) && !gs@.contains(self.state.groups.entries@[j2].0)),
                    changed ==> gs@.len() >= round_start.len() + 1,
                decreases n - j,
            {
                let key = self.state.groups.entries[j].0;
                let parent = match &self.state.groups.entries[j].1.val {
                    Some(rec) => rec.parent,
                    None => None,
                };
                match parent {
                    Some(p) => {
                        if vec_has(&gs, p) && !vec_has(&gs, key) {
                            proof {
                                crate::crdt::lemma_map_of_at(
                                    self.state.groups.entry_views(),
                                    j as int,
                                );
                                assert(group_readable(m, key));
                                assert(group_parent(m, key) == Some(p));
                            }
                            let ghost pre = gs@;
                            gs.push(key);
                            proof {
                                assert(gs@ == pre.push(key));
                                assert forall|a: int, b: int|
                                    0 <= a < b < gs@.len() implies gs@[a] != gs@[b] by {
                                    if b < pre.len() {
                                        assert(gs@[a] == pre[a] && gs@[b] == pre[b]);
                                    } else {
                                        assert(gs@[b] == key);
                                        assert(gs@[a] == pre[a]);
                                        assert(pre.contains(pre[a]));
                                        if pre[a] == key {
                                            assert(pre.contains(key));
                                        }
                                    }
                                }
                                assert forall|i2: int|
                                    1 <= i2 < gs@.len() implies (match group_parent(
                                    m,
                                    #[trigger] gs@[i2],
                                ) {
                                    Some(p2) => gs@.subrange(0, i2).contains(p2),
                                    None => false,
                                }) by {
                                    if i2 < pre.len() {
                                        assert(gs@[i2] == pre[i2]);
                                        let sub = pre.subrange(0, i2);
                                        assert(gs@.subrange(0, i2) =~= sub);
                                    } else {
                                        assert(gs@[i2] == key);
                                        assert(gs@.subrange(0, i2) =~= pre);
                                        assert(pre.contains(p));
                                    }
                                }
                                assert forall|i2: int|
                                    0 <= i2 < gs@.len() implies group_readable(
                                    m,
                                    #[trigger] gs@[i2],
                                ) by {
                                    if i2 < pre.len() {
                                        assert(gs@[i2] == pre[i2]);
                                    }
                                }
                            }
                            changed = true;
                        }
                    },
                    None => {},
                }
                proof {
                    if !changed {
                        assert(gs@ == round_start);
                        assert forall|j2: int|
                            0 <= j2 < j + 1 implies !((
                            #[trigger] self.state.groups.entries@[j2]).1.val is Some && (match (
                            self.state.groups.entries@[j2].1.val->0)@.parent {
                                Some(p2) => gs@.contains(p2),
                                None => false,
                            }) && !gs@.contains(self.state.groups.entries@[j2].0)) by {}
                    }
                }
                j = j + 1;
            }
            budget = budget - 1;
            grew = changed;
        }
        proof {
            if grew {
                assert(gs@.len() >= 1 + n);
            }
        }
        // Collect the members of every gathered group.
        let mut out: Vec<ShapeId> = Vec::new();
        let ng = gs.len();
        let mut gi: usize = 0;
        proof {
            assert(sel_of(out@) =~= Seq::<u128>::empty());
        }
        while gi < ng
            invariant
                gi <= ng,
                self.wf(),
                m == self.state@.groups,
                ng == gs@.len(),
                forall|i2: int| 0 <= i2 < gs@.len() ==> group_readable(m, #[trigger] gs@[i2]),
                forall|x: u128|
                    #![auto]
                    sel_of(out@).contains(x) <==> exists|i2: int|
                        0 <= i2 < gi && m[gs@[i2]].val->0.members.contains(x),
            decreases ng - gi,
        {
            let gid = gs[gi];
            match self.state.groups.get(gid) {
                Some(reg) => match &reg.val {
                    Some(rec) => {
                        let nm = rec.members.len();
                        let mut mi: usize = 0;
                        while mi < nm
                            invariant
                                mi <= nm,
                                self.wf(),
                                m == self.state@.groups,
                                ng == gs@.len(),
                                gi < ng,
                                nm == rec.members@.len(),
                                group_readable(m, gs@[gi as int]),
                                m[gs@[gi as int]].val->0.members == rec.members@,
                                forall|x: u128|
                                    #![auto]
                                    sel_of(out@).contains(x) <==> ((exists|i2: int|
                                        0 <= i2 < gi && m[gs@[i2]].val->0.members.contains(x))
                                        || rec.members@.subrange(0, mi as int).contains(x)),
                            decreases nm - mi,
                        {
                            let member = rec.members[mi];
                            let ghost pre = out@;
                            out.push(ShapeId(member));
                            proof {
                                assert(out@ == pre.push(ShapeId(member)));
                                assert(sel_of(out@).len() == out@.len());
                                assert(sel_of(pre).len() == pre.len());
                                assert(sel_of(out@)[out@.len() - 1] == member);
                                assert forall|y: int|
                                    0 <= y < pre.len() implies sel_of(out@)[y] == sel_of(
                                    pre,
                                )[y] by {
                                    assert(out@[y] == pre[y]);
                                }
                                assert forall|x: u128|
                                    #![auto]
                                    sel_of(out@).contains(x) <==> ((exists|i2: int|
                                        0 <= i2 < gi && m[gs@[i2]].val->0.members.contains(x))
                                        || rec.members@.subrange(0, mi + 1).contains(x)) by {
                                    if sel_of(out@).contains(x) {
                                        let y = sel_of(out@).index_of(x);
                                        assert(sel_of(out@)[y] == x);
                                        if y < pre.len() {
                                            assert(sel_of(pre)[y] == x);
                                            assert(sel_of(pre).contains(x));
                                        } else {
                                            assert(x == member);
                                            assert(rec.members@.subrange(0, mi + 1)[mi as int]
                                                == member);
                                        }
                                    }
                                    if exists|i2: int|
                                        0 <= i2 < gi && m[gs@[i2]].val->0.members.contains(x) {
                                        assert(sel_of(pre).contains(x));
                                        let y = sel_of(pre).index_of(x);
                                        assert(sel_of(pre)[y] == x);
                                        assert(sel_of(out@)[y] == x);
                                        assert(sel_of(out@).contains(x));
                                    }
                                    if rec.members@.subrange(0, mi + 1).contains(x) {
                                        let y = rec.members@.subrange(0, mi + 1).index_of(x);
                                        assert(rec.members@.subrange(0, mi + 1)[y] == x);
                                        if y < mi {
                                            assert(rec.members@.subrange(0, mi as int)[y] == x);
                                            assert(rec.members@.subrange(0, mi as int).contains(
                                                x,
                                            ));
                                            assert(sel_of(pre).contains(x));
                                            let y2 = sel_of(pre).index_of(x);
                                            assert(sel_of(pre)[y2] == x);
                                            assert(sel_of(out@)[y2] == x);
                                            assert(sel_of(out@).contains(x));
                                        } else {
                                            assert(x == member);
                                            assert(sel_of(out@).contains(x));
                                        }
                                    }
                                }
                            }
                            mi = mi + 1;
                        }
                        proof {
                            assert(rec.members@.subrange(0, rec.members@.len() as int)
                                =~= rec.members@);
                            assert forall|x: u128|
                                #![auto]
                                sel_of(out@).contains(x) <==> exists|i2: int|
                                    0 <= i2 < gi + 1 && m[gs@[i2]].val->0.members.contains(
                                        x,
                                    ) by {
                                if sel_of(out@).contains(x) {
                                    if rec.members@.contains(x) {
                                        assert(m[gs@[gi as int]].val->0.members.contains(x));
                                    }
                                }
                                if exists|i2: int|
                                    0 <= i2 < gi + 1 && m[gs@[i2]].val->0.members.contains(x) {
                                    let i2 = choose|i2: int|
                                        0 <= i2 < gi + 1 && m[#[trigger] gs@[i2]].val->0.members.contains(x);
                                    if i2 == gi {
                                        assert(rec.members@.contains(x));
                                    }
                                }
                            }
                        }
                    },
                    None => {
                        proof {
                            assert(false);
                        }
                    },
                },
                None => {
                    proof {
                        assert(false);
                    }
                },
            }
            gi = gi + 1;
        }
        proof {
            // Convert the entry-level fixpoint to the map-level closure.
            if !grew {
                assert forall|g: u128|
                    group_readable(m, g) && (match group_parent(m, g) {
                        Some(p) => gs@.contains(p),
                        None => false,
                    }) implies gs@.contains(g) by {
                    crate::crdt::lemma_map_of_index(self.state.groups.entry_views(), g);
                    let j = choose|j: int|
                        0 <= j < self.state.groups.entry_views().len() && (
                        #[trigger] self.state.groups.entry_views()[j]).0 == g;
                    crate::crdt::lemma_map_of_at(self.state.groups.entry_views(), j);
                    assert(self.state.groups.entries@[j].1.val is Some);
                    assert((self.state.groups.entries@[j].1.val->0)@.parent == group_parent(
                        m,
                        g,
                    ));
                }
            }
            assert(group_collection_ok(m, id.0, gs@, bound, sel_of(out@)));
        }
        out
    }
}

} // verus!
